//! Predicates over items. Traversal and search are polymorphic over a small
//! capability: anything that can test an item's capability fields and says in
//! a spec function exactly what it tests.

use vstd::prelude::*;

verus! {

/// Whether `needle` occurs in `hay` starting at position `k`.
pub open spec fn is_substring_at(hay: Seq<char>, needle: Seq<char>, k: int) -> bool {
    &&& 0 <= k
    &&& k + needle.len() <= hay.len()
    &&& hay.subrange(k, k + needle.len()) == needle
}

/// Whether `needle` occurs anywhere in `hay`.
pub open spec fn contains_substring(hay: Seq<char>, needle: Seq<char>) -> bool {
    exists|k: int| is_substring_at(hay, needle, k)
}

/// Whether the characters of `a` and `b` agree.
pub fn str_eq(a: &str, b: &str) -> (r: bool)
    ensures
        r == (a@ == b@),
{
    let an = a.unicode_len();
    let bn = b.unicode_len();
    if an != bn {
        return false;
    }
    let mut i: usize = 0;
    while i < an
        invariant
            an == a@.len(),
            an == b@.len(),
            i <= an,
            forall|l: int| 0 <= l < i ==> a@[l] == b@[l],
        decreases an - i,
    {
        if a.get_char(i) != b.get_char(i) {
            return false;
        }
        i += 1;
    }
    proof {
        assert(a@ =~= b@);
    }
    true
}

/// Whether `needle` occurs in `hay` starting at position `k`.
fn match_at(hay: &str, needle: &str, k: usize) -> (r: bool)
    requires
        k + needle@.len() <= hay@.len(),
        hay@.len() <= usize::MAX,
    ensures
        r == is_substring_at(hay@, needle@, k as int),
{
    let nn = needle.unicode_len();
    let mut i: usize = 0;
    while i < nn
        invariant
            nn == needle@.len(),
            k + nn <= hay@.len() <= usize::MAX,
            i <= nn,
            forall|l: int| 0 <= l < i ==> hay@[k + l] == needle@[l],
        decreases nn - i,
    {
        if hay.get_char(k + i) != needle.get_char(i) {
            proof {
                assert(!is_substring_at(hay@, needle@, k as int)) by {
                    if is_substring_at(hay@, needle@, k as int) {
                        assert(hay@.subrange(k as int, k + nn)[i as int] == needle@[i as int]);
                    }
                }
            }
            return false;
        }
        i += 1;
    }
    proof {
        assert(hay@.subrange(k as int, k + nn) =~= needle@);
    }
    true
}

/// Whether `needle` occurs anywhere in `hay`.
pub fn str_contains(hay: &str, needle: &str) -> (r: bool)
    ensures
        r == contains_substring(hay@, needle@),
{
    let hn = hay.unicode_len();
    let nn = needle.unicode_len();
    if nn == 0 {
        proof {
            assert(hay@.subrange(0, 0) =~= needle@);
            assert(is_substring_at(hay@, needle@, 0));
        }
        return true;
    }
    if nn > hn {
        proof {
            assert(forall|k: int| !is_substring_at(hay@, needle@, k));
        }
        return false;
    }
    let mut k: usize = 0;
    while k <= hn - nn
        invariant
            hn == hay@.len(),
            nn == needle@.len(),
            1 <= nn <= hn <= usize::MAX,
            k <= hn - nn + 1,
            forall|l: int| 0 <= l < k ==> !is_substring_at(hay@, needle@, l),
        decreases hn - nn - k + 1,
    {
        if match_at(hay, needle, k) {
            return true;
        }
        k += 1;
    }
    proof {
        assert(forall|l: int| is_substring_at(hay@, needle@, l) ==> 0 <= l <= hn - nn);
    }
    false
}

/// The capability a traversal requires of a stop predicate or a search
/// condition: an executable test over an item's capability fields, pinned by
/// a spec-level test.
pub trait ItemCondition: Sized {
    /// What the condition tests, as specifications see it.
    spec fn spec_test(&self, name: Seq<char>, namespace: Seq<char>) -> bool;

    /// Tests an item's capability fields.
    fn test(&self, name: &str, namespace: &str) -> (r: bool)
        ensures
            r == self.spec_test(name@, namespace@),
    ;
}

/// Matches an item whose name is exactly the given one.
pub struct NameEquals {
    pub name: String,
}

impl ItemCondition for NameEquals {
    open spec fn spec_test(&self, name: Seq<char>, namespace: Seq<char>) -> bool {
        name == self.name@
    }

    fn test(&self, name: &str, namespace: &str) -> (r: bool) {
        str_eq(name, self.name.as_str())
    }
}

/// Matches an item whose name contains the given pattern.
pub struct NameContains {
    pub pattern: String,
}

impl ItemCondition for NameContains {
    open spec fn spec_test(&self, name: Seq<char>, namespace: Seq<char>) -> bool {
        contains_substring(name, self.pattern@)
    }

    fn test(&self, name: &str, namespace: &str) -> (r: bool) {
        str_contains(name, self.pattern.as_str())
    }
}

/// Matches no item at all: as a stop predicate it prunes nothing, so a
/// traversal with it visits everything.
pub struct NoStop;

impl ItemCondition for NoStop {
    open spec fn spec_test(&self, name: Seq<char>, namespace: Seq<char>) -> bool {
        false
    }

    fn test(&self, name: &str, namespace: &str) -> (r: bool) {
        false
    }
}

} // verus!
