//! Search. `find_parent` walks the ancestors of a node (not the node
//! itself) toward the root and returns the nearest one whose item matches.
//! `find_child` searches the descendants depth-first: each child is checked
//! before its own subtree is searched, and a whole subtree is searched before
//! the next sibling. `filter_and_collect` is intentionally shallow: it keeps
//! only the direct children whose items match, in child order.

use vstd::prelude::*;

use crate::cond::ItemCondition;
use crate::item::Item;
use crate::node::{arity_bounded, lemma_arity_bounded_index, lemma_child_views_upto, node_at,
    path_valid, Node, NodeView};
use crate::traverse::{lemma_prefix_valid, node_matches};

verus! {

/// The handle of the nearest ancestor (strictly above the node `p` resolves
/// to) whose item matches, walking parent handles toward the root; `None`
/// when no ancestor matches — in particular for the root itself, which has
/// no ancestors.
pub open spec fn find_parent_spec<C: ItemCondition>(
    c: C,
    v: NodeView,
    p: Seq<usize>,
) -> Option<Seq<usize>>
    recommends
        path_valid(v, p),
    decreases p.len(),
{
    if p.len() == 0 {
        None
    } else {
        let q = p.drop_last();
        if node_matches(c, node_at(v, q)) {
            Some(q)
        } else {
            find_parent_spec(c, v, q)
        }
    }
}

/// The handle of the first matching descendant in depth-first order, among
/// the children of `cs`'s owner from index `i` on: a child is checked before
/// its subtree, and a subtree before the next sibling.
pub open spec fn find_child_spec<C: ItemCondition>(
    c: C,
    cs: Seq<NodeView>,
    i: int,
) -> Option<Seq<usize>>
    decreases cs, cs.len() - i, 0int,
{
    if i < 0 || i >= cs.len() {
        None
    } else if node_matches(c, cs[i]) {
        Some(seq![i as usize])
    } else {
        match find_child_spec(c, cs[i].children, 0) {
            Some(q) => Some(seq![i as usize] + q),
            None => find_child_spec(c, cs, i + 1),
        }
    }
}

/// The indices of the direct children among the first `i` whose items
/// match, in child order.
pub open spec fn filtered_children<C: ItemCondition>(c: C, cs: Seq<NodeView>, i: int) -> Seq<usize>
    decreases i,
{
    if i <= 0 || i > cs.len() {
        Seq::empty()
    } else {
        filtered_children(c, cs, i - 1) + (if node_matches(c, cs[i - 1]) {
            seq![(i - 1) as usize]
        } else {
            Seq::empty()
        })
    }
}

impl<I: Item> Node<I> {
    /// The nearest ancestor of the node `start` resolves to (not that node
    /// itself) whose item matches `cond`, as a handle; `None` when no
    /// ancestor matches, when the walk starts at the root — which has no
    /// ancestors — or when `start` is stale.
    pub fn find_parent<C: ItemCondition>(&self, start: &Vec<usize>, cond: &C) -> (r: Option<
        Vec<usize>,
    >)
        ensures
            path_valid(self@, start@) ==> match r {
                Some(q) => find_parent_spec(*cond, self@, start@) == Some(q@),
                None => find_parent_spec(*cond, self@, start@) is None,
            },
            !path_valid(self@, start@) ==> r is None,
    {
        match self.get_node(start) {
            None => None,
            Some(_) => {
                proof {
                    assert(start@.take(start@.len() as int) =~= start@);
                }
                self.find_parent_upto(start, start.len(), cond)
            },
        }
    }

    fn find_parent_upto<C: ItemCondition>(&self, start: &Vec<usize>, k: usize, cond: &C) -> (r:
        Option<Vec<usize>>)
        requires
            k <= start@.len(),
            path_valid(self@, start@),
        ensures
            match r {
                Some(q) => find_parent_spec(*cond, self@, start@.take(k as int)) == Some(q@),
                None => find_parent_spec(*cond, self@, start@.take(k as int)) is None,
            },
        decreases k,
    {
        if k == 0 {
            proof {
                assert(start@.take(0).len() == 0);
            }
            None
        } else {
            proof {
                lemma_prefix_valid(self@, start@, k as int - 1);
                assert(start@.take(k as int).drop_last() =~= start@.take(k as int - 1));
            }
            let parent = match self.get_node_upto(start, k - 1) {
                Some(n) => n,
                None => {
                    proof {
                        assert(false);
                    }
                    return None;
                },
            };
            let name = parent.item().name();
            let namespace = parent.item().namespace();
            if cond.test(name.as_str(), namespace.as_str()) {
                Some(path_prefix(start, k - 1))
            } else {
                self.find_parent_upto(start, k - 1, cond)
            }
        }
    }

    /// The handle of the first descendant of `self` (not `self` itself)
    /// whose item matches `cond`, in depth-first order: each child is
    /// checked before its subtree is searched, and a whole subtree before
    /// the next sibling. `None` when no descendant matches.
    pub fn find_child<C: ItemCondition>(&self, cond: &C) -> (r: Option<Vec<usize>>)
        ensures
            match r {
                Some(q) => find_child_spec(*cond, self@.children, 0) == Some(q@),
                None => find_child_spec(*cond, self@.children, 0) is None,
            },
        decreases *self,
    {
        proof {
            lemma_child_views_upto(self.children@, self.children@.len() as int);
        }
        let n = self.children.len();
        let mut i: usize = 0;
        while i < n
            invariant
                n == self.children@.len(),
                i <= n,
                self@.children.len() == n,
                forall|j: int| 0 <= j < n ==> self@.children[j] == self.children@[j]@,
                find_child_spec(*cond, self@.children, 0) == find_child_spec(
                    *cond,
                    self@.children,
                    i as int,
                ),
            decreases n - i,
        {
            let child = &self.children[i];
            let name = child.item().name();
            let namespace = child.item().namespace();
            if cond.test(name.as_str(), namespace.as_str()) {
                let mut path: Vec<usize> = Vec::new();
                path.push(i);
                proof {
                    assert(path@ =~= seq![i]);
                }
                return Some(path);
            }
            match child.find_child(cond) {
                Some(q) => {
                    let mut path: Vec<usize> = Vec::new();
                    path.push(i);
                    let mut rest = q;
                    let ghost qv = rest@;
                    path.append(&mut rest);
                    proof {
                        assert(path@ =~= seq![i] + qv);
                    }
                    return Some(path);
                },
                None => {},
            }
            i += 1;
        }
        None
    }

    /// The direct children of `self` (not the full subtree) whose items
    /// match `cond`, as child indices in child order.
    pub fn filter_and_collect<C: ItemCondition>(&self, cond: &C) -> (r: Vec<usize>)
        ensures
            r@ == filtered_children(*cond, self@.children, self@.children.len() as int),
    {
        proof {
            lemma_child_views_upto(self.children@, self.children@.len() as int);
        }
        let n = self.children.len();
        let mut out: Vec<usize> = Vec::new();
        let mut i: usize = 0;
        while i < n
            invariant
                n == self.children@.len(),
                i <= n,
                self@.children.len() == n,
                forall|j: int| 0 <= j < n ==> self@.children[j] == self.children@[j]@,
                out@ == filtered_children(*cond, self@.children, i as int),
            decreases n - i,
        {
            let child = &self.children[i];
            let name = child.item().name();
            let namespace = child.item().namespace();
            if cond.test(name.as_str(), namespace.as_str()) {
                out.push(i);
                proof {
                    assert(out@ =~= filtered_children(*cond, self@.children, i as int + 1));
                }
            } else {
                proof {
                    assert(out@ =~= filtered_children(*cond, self@.children, i as int + 1));
                }
            }
            i += 1;
        }
        out
    }
}

/// The first `k` indices of a path, as an owned handle.
fn path_prefix(path: &Vec<usize>, k: usize) -> (r: Vec<usize>)
    requires
        k <= path@.len(),
    ensures
        r@ == path@.take(k as int),
{
    let mut out: Vec<usize> = Vec::new();
    let mut i: usize = 0;
    while i < k
        invariant
            i <= k <= path@.len(),
            out@ == path@.take(i as int),
        decreases k - i,
    {
        out.push(path[i]);
        proof {
            assert(out@ =~= path@.take(i as int + 1));
        }
        i += 1;
    }
    out
}

/// Law: `find_parent` returns nothing when started at the root — which has
/// no ancestors — and otherwise returns the nearest matching ancestor: a
/// proper prefix of the start handle whose node matches, with every strictly
/// nearer ancestor not matching; when it returns nothing, no ancestor
/// matches at all.
pub proof fn lemma_find_parent_nearest<C: ItemCondition>(c: C, v: NodeView, p: Seq<usize>)
    ensures
        p.len() == 0 ==> find_parent_spec(c, v, p) is None,
        match find_parent_spec(c, v, p) {
            Some(q) => {
                &&& q.len() < p.len()
                &&& q == p.take(q.len() as int)
                &&& node_matches(c, node_at(v, q))
                &&& forall|k: int|
                    q.len() < k < p.len() ==> !node_matches(c, node_at(v, #[trigger] p.take(k)))
            },
            None => forall|k: int|
                0 <= k < p.len() ==> !node_matches(c, node_at(v, #[trigger] p.take(k))),
        },
    decreases p.len(),
{
    if p.len() > 0 {
        let q0 = p.drop_last();
        assert(q0 =~= p.take(p.len() - 1));
        assert forall|k: int| 0 <= k <= p.len() - 1 implies (#[trigger] p.take(k)) == q0.take(
            k,
        ) by {
            assert(p.take(k) =~= q0.take(k));
        }
        if !node_matches(c, node_at(v, q0)) {
            lemma_find_parent_nearest(c, v, q0);
        }
    }
}


/// Law: what `find_child` returns is a live handle to a descendant whose
/// item matches, and its first index lies at or after the child the search
/// started from. The bound on the arity is a machine limit: every tree an
/// executable node models satisfies it.
pub proof fn lemma_find_child_sound<C: ItemCondition>(c: C, v: NodeView, i: int)
    requires
        arity_bounded(v),
        0 <= i,
    ensures
        match find_child_spec(c, v.children, i) {
            Some(q) => {
                &&& q.len() >= 1
                &&& i <= q[0] < v.children.len()
                &&& path_valid(v, q)
                &&& node_matches(c, node_at(v, q))
            },
            None => true,
        },
    decreases v, v.children.len() - i, 1int,
{
    let cs = v.children;
    if i < cs.len() {
        if node_matches(c, cs[i]) {
            reveal_with_fuel(path_valid, 2);
            reveal_with_fuel(node_at, 2);
            let q = seq![i as usize];
            assert(q[0] == i as usize);
            assert(q.skip(1) =~= Seq::<usize>::empty());
            assert(node_at(v, q) == cs[i]);
        } else {
            lemma_arity_bounded_index(cs, cs.len() as int, i);
            lemma_find_child_sound(c, cs[i], 0);
            match find_child_spec(c, cs[i].children, 0) {
                Some(q) => {
                    let p = seq![i as usize] + q;
                    assert(p[0] == i as usize);
                    assert(p.skip(1) =~= q);
                    assert(node_at(v, p) == node_at(cs[i], q));
                },
                None => {
                    lemma_find_child_sound(c, v, i + 1);
                },
            }
        }
    }
}

} // verus!
