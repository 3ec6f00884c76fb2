//! Traversal. Downward traversal is a pre-order, depth-first walk in which a
//! stop predicate prunes: a matched node and its entire subtree are skipped.
//! Upward traversal walks from a node toward the root along parent handles
//! (path prefixes) and terminates at the root, at the first node matching the
//! stop predicate, or silently when the starting handle is stale.

use vstd::prelude::*;

use crate::cond::ItemCondition;
use crate::item::Item;
use crate::node::{arity_bounded, arity_bounded_list, lemma_arity_bounded_index,
    lemma_child_views_upto, node_at, path_valid, Node, NodeView};

verus! {

/// Whether a node's item matches a condition.
pub open spec fn node_matches<C: ItemCondition>(c: C, v: NodeView) -> bool {
    c.spec_test(v.name, v.namespace)
}

/// The capability fields of a sequence of visited items, in visit order.
pub open spec fn pair_views(s: Seq<(String, String)>) -> Seq<(Seq<char>, Seq<char>)> {
    Seq::new(s.len(), |i: int| (s[i].0@, s[i].1@))
}

/// What a downward traversal of the subtree `v` visits: nothing when the
/// stop predicate prunes `v`; otherwise `v` itself and then, in order, what
/// it visits in each child's subtree. This is exactly pre-order with whole
/// pruned subtrees skipped, so every non-pruned node is visited exactly once.
pub open spec fn visited_down<C: ItemCondition>(c: C, v: NodeView) -> Seq<(Seq<char>, Seq<char>)>
    decreases v, 0int,
{
    if node_matches(c, v) {
        Seq::empty()
    } else {
        seq![(v.name, v.namespace)] + visited_down_list(c, v.children, v.children.len() as int)
    }
}

/// What a downward traversal visits in the subtrees of the first `i`
/// elements of `cs`, in order.
pub open spec fn visited_down_list<C: ItemCondition>(
    c: C,
    cs: Seq<NodeView>,
    i: int,
) -> Seq<(Seq<char>, Seq<char>)>
    decreases cs, i,
{
    if i <= 0 || i > cs.len() {
        Seq::empty()
    } else {
        visited_down_list(c, cs, i - 1) + visited_down(c, cs[i - 1])
    }
}

/// What an upward traversal visits, starting from the node `p` resolves to
/// in `v`: nothing when the stop predicate matches that node; otherwise the
/// node and then what the walk visits from its parent on.
pub open spec fn visited_up<C: ItemCondition>(c: C, v: NodeView, p: Seq<usize>) -> Seq<
    (Seq<char>, Seq<char>),
>
    recommends
        path_valid(v, p),
    decreases p.len(),
{
    let n = node_at(v, p);
    if node_matches(c, n) {
        Seq::empty()
    } else if p.len() == 0 {
        seq![(n.name, n.namespace)]
    } else {
        seq![(n.name, n.namespace)] + visited_up(c, v, p.drop_last())
    }
}

/// Every path of `ps` with its first index set to `j`.
pub open spec fn prefix_all(j: usize, ps: Seq<Seq<usize>>) -> Seq<Seq<usize>> {
    Seq::new(ps.len(), |k: int| seq![j] + ps[k])
}

/// The handles of the nodes a downward traversal visits, in visit order:
/// the mirror of `visited_down` that names each visited node instead of
/// reporting its fields.
pub open spec fn visited_paths<C: ItemCondition>(c: C, v: NodeView) -> Seq<Seq<usize>>
    decreases v, 0int,
{
    if node_matches(c, v) {
        Seq::empty()
    } else {
        seq![Seq::<usize>::empty()] + visited_paths_list(c, v.children, v.children.len() as int)
    }
}

/// The handles visited in the subtrees of the first `i` elements of `cs`,
/// each led by its child's index.
pub open spec fn visited_paths_list<C: ItemCondition>(
    c: C,
    cs: Seq<NodeView>,
    i: int,
) -> Seq<Seq<usize>>
    decreases cs, i,
{
    if i <= 0 || i > cs.len() {
        Seq::empty()
    } else {
        visited_paths_list(c, cs, i - 1) + prefix_all((i - 1) as usize, visited_paths(c, cs[i - 1]))
    }
}

/// Whether the node `p` resolves to is kept by a downward traversal: it
/// exists, and neither it nor any ancestor matches the stop predicate.
pub open spec fn unpruned<C: ItemCondition>(c: C, v: NodeView, p: Seq<usize>) -> bool {
    path_valid(v, p) && forall|k: int|
        0 <= k <= p.len() ==> !node_matches(c, node_at(v, #[trigger] p.take(k)))
}

/// A prefix of a valid path is valid and resolves to an ancestor.
pub proof fn lemma_prefix_valid(v: NodeView, p: Seq<usize>, k: int)
    requires
        path_valid(v, p),
        0 <= k <= p.len(),
    ensures
        path_valid(v, p.take(k)),
    decreases p.len(),
{
    if p.len() > 0 && k > 0 {
        assert(p.take(k)[0] == p[0]);
        assert(p.take(k).skip(1) =~= p.skip(1).take(k - 1));
        lemma_prefix_valid(v.children[p[0] as int], p.skip(1), k - 1);
    } else {
        assert(p.take(k) =~= Seq::<usize>::empty());
    }
}

impl<I: Item> Node<I> {
    /// Pre-order, depth-first traversal of the subtree rooted at `self`,
    /// with pruning: when `stop` matches a node, that node and its entire
    /// subtree are skipped and the walk goes on with the next sibling.
    /// Returns the name and namespace of each visited node, in visit order.
    pub fn traverse_down<C: ItemCondition>(&self, stop: &C) -> (r: Vec<(String, String)>)
        ensures
            pair_views(r@) == visited_down(*stop, self@),
    {
        let mut out: Vec<(String, String)> = Vec::new();
        self.traverse_down_into(stop, &mut out);
        proof {
            assert(pair_views(Seq::<(String, String)>::empty()) =~= Seq::<
                (Seq<char>, Seq<char>),
            >::empty());
            assert(Seq::<(Seq<char>, Seq<char>)>::empty() + visited_down(*stop, self@)
                =~= visited_down(*stop, self@));
        }
        out
    }

    fn traverse_down_into<C: ItemCondition>(&self, stop: &C, out: &mut Vec<(String, String)>)
        ensures
            pair_views(final(out)@) == pair_views(old(out)@) + visited_down(*stop, self@),
        decreases *self,
    {
        let name = self.item.name();
        let namespace = self.item.namespace();
        if stop.test(name.as_str(), namespace.as_str()) {
            proof {
                assert(pair_views(out@) =~= pair_views(old(out)@) + visited_down(*stop, self@));
            }
            return ;
        }
        out.push((name, namespace));
        let ghost head = pair_views(old(out)@) + seq![(self@.name, self@.namespace)];
        proof {
            lemma_child_views_upto(self.children@, self.children@.len() as int);
            assert(pair_views(out@) =~= head);
        }
        let n = self.children.len();
        let mut i: usize = 0;
        while i < n
            invariant
                n == self.children@.len(),
                i <= n,
                self@.children.len() == n,
                forall|j: int| 0 <= j < n ==> self@.children[j] == self.children@[j]@,
                pair_views(out@) == head + visited_down_list(*stop, self@.children, i as int),
            decreases n - i,
        {
            let child = &self.children[i];
            child.traverse_down_into(stop, out);
            proof {
                assert(pair_views(out@) =~= head + visited_down_list(
                    *stop,
                    self@.children,
                    i as int + 1,
                ));
            }
            i += 1;
        }
        proof {
            assert(pair_views(out@) =~= pair_views(old(out)@) + visited_down(*stop, self@));
        }
    }

    /// Walks from the node that `start` resolves to toward the root: if the
    /// stop predicate matches the current node the walk terminates without
    /// visiting it, otherwise the node is visited and the walk proceeds to
    /// its parent. A stale `start` terminates the walk silently with nothing
    /// visited. Returns the visited names and namespaces, in visit order.
    pub fn traverse_up<C: ItemCondition>(&self, start: &Vec<usize>, stop: &C) -> (r: Vec<
        (String, String),
    >)
        ensures
            path_valid(self@, start@) ==> pair_views(r@) == visited_up(*stop, self@, start@),
            !path_valid(self@, start@) ==> r@.len() == 0,
    {
        let mut out: Vec<(String, String)> = Vec::new();
        match self.get_node(start) {
            None => out,
            Some(_) => {
                proof {
                    assert(start@.take(start@.len() as int) =~= start@);
                }
                self.traverse_up_into(start, start.len(), stop, &mut out);
                proof {
                    assert(pair_views(Seq::<(String, String)>::empty()) =~= Seq::<
                        (Seq<char>, Seq<char>),
                    >::empty());
                    assert(Seq::<(Seq<char>, Seq<char>)>::empty() + visited_up(
                        *stop,
                        self@,
                        start@,
                    ) =~= visited_up(*stop, self@, start@));
                }
                out
            },
        }
    }

    fn traverse_up_into<C: ItemCondition>(
        &self,
        start: &Vec<usize>,
        k: usize,
        stop: &C,
        out: &mut Vec<(String, String)>,
    )
        requires
            k <= start@.len(),
            path_valid(self@, start@),
        ensures
            pair_views(final(out)@) == pair_views(old(out)@) + visited_up(
                *stop,
                self@,
                start@.take(k as int),
            ),
        decreases k,
    {
        proof {
            lemma_prefix_valid(self@, start@, k as int);
        }
        let n_opt = self.get_node_upto(start, k);
        let n = match n_opt {
            Some(n) => n,
            None => {
                proof {
                    assert(false);
                }
                return ;
            },
        };
        let name = n.item.name();
        let namespace = n.item.namespace();
        if stop.test(name.as_str(), namespace.as_str()) {
            proof {
                assert(pair_views(out@) =~= pair_views(old(out)@) + visited_up(
                    *stop,
                    self@,
                    start@.take(k as int),
                ));
            }
            return ;
        }
        out.push((name, namespace));
        if k == 0 {
            proof {
                assert(pair_views(out@) =~= pair_views(old(out)@) + visited_up(
                    *stop,
                    self@,
                    start@.take(k as int),
                ));
            }
        } else {
            proof {
                assert(start@.take(k as int).drop_last() =~= start@.take(k as int - 1));
            }
            self.traverse_up_into(start, k - 1, stop, out);
            proof {
                assert(pair_views(out@) =~= pair_views(old(out)@) + visited_up(
                    *stop,
                    self@,
                    start@.take(k as int),
                ));
            }
        }
    }
}

/// Law: an upward traversal started at a node of depth `d` (a handle of
/// length `d`) visits at most `d + 1` nodes.
pub proof fn lemma_traverse_up_bound<C: ItemCondition>(c: C, v: NodeView, p: Seq<usize>)
    ensures
        visited_up(c, v, p).len() <= p.len() + 1,
    decreases p.len(),
{
    if p.len() > 0 && !node_matches(c, node_at(v, p)) {
        lemma_traverse_up_bound(c, v, p.drop_last());
    }
}

/// Law: an upward traversal visits, in order, the non-stopped prefix of the
/// ancestor chain — the node `j` steps above the start for `j` below the
/// visit count — and terminates either at the first node matching the stop
/// predicate or, when no ancestor matches, at the root.
pub proof fn lemma_traverse_up_stops<C: ItemCondition>(c: C, v: NodeView, p: Seq<usize>)
    ensures
        forall|j: int|
            0 <= j < visited_up(c, v, p).len() ==> !node_matches(
                c,
                node_at(v, #[trigger] p.take(p.len() - j)),
            ) && visited_up(c, v, p)[j] == (
                node_at(v, p.take(p.len() - j)).name,
                node_at(v, p.take(p.len() - j)).namespace,
            ),
        visited_up(c, v, p).len() <= p.len() ==> node_matches(
            c,
            node_at(v, p.take(p.len() - visited_up(c, v, p).len())),
        ),
    decreases p.len(),
{
    assert(p.take(p.len() as int) =~= p);
    let m = visited_up(c, v, p).len() as int;
    if !node_matches(c, node_at(v, p)) && p.len() > 0 {
        lemma_traverse_up_bound(c, v, p.drop_last());
        lemma_traverse_up_stops(c, v, p.drop_last());
        let head = seq![(node_at(v, p).name, node_at(v, p).namespace)];
        let rest = visited_up(c, v, p.drop_last());
        assert(visited_up(c, v, p) == head + rest);
        assert forall|j: int|
            0 <= j < m implies !node_matches(c, node_at(v, #[trigger] p.take(p.len() - j))) &&
            visited_up(c, v, p)[j] == (
                node_at(v, p.take(p.len() - j)).name,
                node_at(v, p.take(p.len() - j)).namespace,
            ) by {
            if j == 0 {
                assert(visited_up(c, v, p)[0] == (node_at(v, p).name, node_at(v, p).namespace));
                assert(p.take(p.len() - 0) == p);
            } else {
                assert(visited_up(c, v, p)[j] == rest[j - 1]);
                assert(p.drop_last().take(p.drop_last().len() - (j - 1)) =~= p.take(p.len() - j));
                assert(rest[j - 1] == (
                    node_at(v, p.drop_last().take(p.drop_last().len() - (j - 1))).name,
                    node_at(v, p.drop_last().take(p.drop_last().len() - (j - 1))).namespace,
                ));
            }
        }
        if m <= p.len() {
            assert(rest.len() == m - 1 <= p.drop_last().len());
            assert(p.drop_last().take(p.drop_last().len() - (m - 1)) =~= p.take(p.len() - m));
            assert(node_matches(c, node_at(v, p.take(p.len() - m))));
        }
    } else if !node_matches(c, node_at(v, p)) {
        assert(visited_up(c, v, p) =~= seq![(node_at(v, p).name, node_at(v, p).namespace)]);
        assert forall|j: int|
            0 <= j < m implies !node_matches(c, node_at(v, #[trigger] p.take(p.len() - j))) &&
            visited_up(c, v, p)[j] == (
                node_at(v, p.take(p.len() - j)).name,
                node_at(v, p.take(p.len() - j)).namespace,
            ) by {
            assert(j == 0);
            assert(p.take(p.len() - 0) == p);
            assert(visited_up(c, v, p)[0] == (node_at(v, p).name, node_at(v, p).namespace));
        }
    } else {
        assert(visited_up(c, v, p) == Seq::<(Seq<char>, Seq<char>)>::empty());
    }
}


/// Splitting a handle that starts with a child index: it is valid exactly
/// when the index is in range and the remainder is valid in that child, and
/// it resolves to what the remainder resolves to there.
pub proof fn lemma_path_cons(v: NodeView, j: usize, q: Seq<usize>)
    ensures
        path_valid(v, seq![j] + q) <==> (j < v.children.len() && path_valid(
            v.children[j as int],
            q,
        )),
        j < v.children.len() ==> node_at(v, seq![j] + q) == node_at(v.children[j as int], q),
{
    assert((seq![j] + q)[0] == j);
    assert((seq![j] + q).skip(1) =~= q);
}

/// Law: a downward traversal reports, at each step, the fields
/// of the node its handle sequence names there; every named node exists and
/// is unpruned — so a node with a pruned ancestor is never visited.
pub proof fn lemma_visited_down_names<C: ItemCondition>(c: C, v: NodeView)
    requires
        arity_bounded(v),
    ensures
        visited_down(c, v).len() == visited_paths(c, v).len(),
        forall|k: int|
            0 <= k < visited_down(c, v).len() ==> unpruned(
                c,
                v,
                #[trigger] visited_paths(c, v)[k],
            ) && visited_down(c, v)[k] == (
                node_at(v, visited_paths(c, v)[k]).name,
                node_at(v, visited_paths(c, v)[k]).namespace,
            ),
    decreases v, 1int, 0int,
{
    if !node_matches(c, v) {
        lemma_visited_down_names_list(c, v, v.children.len() as int);
        let down = visited_down(c, v);
        let paths = visited_paths(c, v);
        let dl = visited_down_list(c, v.children, v.children.len() as int);
        let pl = visited_paths_list(c, v.children, v.children.len() as int);
        assert(down == seq![(v.name, v.namespace)] + dl);
        assert(paths == seq![Seq::<usize>::empty()] + pl);
        assert forall|k: int|
            0 <= k < down.len() implies unpruned(c, v, #[trigger] paths[k]) && down[k] == (
            node_at(v, paths[k]).name,
            node_at(v, paths[k]).namespace,
        ) by {
            if k == 0 {
                assert(paths[0] == Seq::<usize>::empty());
                assert(down[0] == (v.name, v.namespace));
                let p = Seq::<usize>::empty();
                assert forall|l: int| 0 <= l <= p.len() implies !node_matches(
                    c,
                    node_at(v, #[trigger] p.take(l)),
                ) by {
                    assert(p.take(l) =~= p);
                }
            } else {
                assert(down[k] == dl[k - 1]);
                assert(paths[k] == pl[k - 1]);
            }
        }
    }
}

proof fn lemma_visited_down_names_list<C: ItemCondition>(c: C, v: NodeView, i: int)
    requires
        arity_bounded(v),
        0 <= i <= v.children.len(),
    ensures
        visited_down_list(c, v.children, i).len() == visited_paths_list(c, v.children, i).len(),
        forall|k: int|
            0 <= k < visited_down_list(c, v.children, i).len() ==> {
                let p = #[trigger] visited_paths_list(c, v.children, i)[k];
                &&& p.len() >= 1
                &&& p[0] < i
                &&& unpruned(c, v, p) || node_matches(c, v)
                &&& visited_down_list(c, v.children, i)[k] == (
                    node_at(v, p).name,
                    node_at(v, p).namespace,
                )
            },
    decreases v, 0int, i,
{
    if i > 0 {
        lemma_visited_down_names_list(c, v, i - 1);
        let j = (i - 1) as usize;
        assert(j as int == i - 1);
        let child = v.children[i - 1];
        lemma_arity_bounded_index(v.children, v.children.len() as int, i - 1);
        lemma_visited_down_names(c, child);
        let dl = visited_down_list(c, v.children, i);
        let pl = visited_paths_list(c, v.children, i);
        let dl0 = visited_down_list(c, v.children, i - 1);
        let pl0 = visited_paths_list(c, v.children, i - 1);
        let dc = visited_down(c, child);
        let pc = visited_paths(c, child);
        assert(dl == dl0 + dc);
        assert(pl == pl0 + prefix_all(j, pc));
        assert forall|k: int|
            0 <= k < dl.len() implies {
            let p = #[trigger] pl[k];
            &&& p.len() >= 1
            &&& p[0] < i
            &&& unpruned(c, v, p) || node_matches(c, v)
            &&& dl[k] == (node_at(v, p).name, node_at(v, p).namespace)
        } by {
            if k < dl0.len() {
                assert(dl[k] == dl0[k]);
                assert(pl[k] == pl0[k]);
            } else {
                let k2 = k - dl0.len();
                assert(dl[k] == dc[k2]);
                assert(pl[k] == prefix_all(j, pc)[k2]);
                assert(pl[k] == seq![j] + pc[k2]);
                let q = pc[k2];
                let p = seq![j] + q;
                assert(unpruned(c, child, q));
                lemma_path_cons(v, j, q);
                if !node_matches(c, v) {
                    assert forall|l: int| 0 <= l <= p.len() implies !node_matches(
                        c,
                        node_at(v, #[trigger] p.take(l)),
                    ) by {
                        if l == 0 {
                            assert(p.take(0) =~= Seq::<usize>::empty());
                            assert(p.take(l) == p.take(0));
                            assert(node_at(v, p.take(l)) == v);
                            assert(!node_matches(c, node_at(v, p.take(l))));
                        } else {
                            assert(p.take(l) =~= seq![j] + q.take(l - 1));
                            lemma_path_cons(v, j, q.take(l - 1));
                            lemma_prefix_valid(child, q, l - 1);
                            assert(!node_matches(c, node_at(child, q.take(l - 1))));
                            assert(node_at(v, p.take(l)) == node_at(child, q.take(l - 1)));
                            assert(!node_matches(c, node_at(v, p.take(l))));
                        }
                    }
                }
            }
        }
    } else {
        assert(visited_down_list(c, v.children, i) =~= Seq::<(Seq<char>, Seq<char>)>::empty());
        assert(visited_paths_list(c, v.children, i) =~= Seq::<Seq<usize>>::empty());
    }
}

/// Law: every unpruned node is visited — its handle occurs among the
/// visited handles.
pub proof fn lemma_visited_down_complete<C: ItemCondition>(c: C, v: NodeView, p: Seq<usize>)
    requires
        arity_bounded(v),
        unpruned(c, v, p),
    ensures
        visited_paths(c, v).contains(p),
    decreases v, 1int, 0int,
{
    assert(p.take(0) =~= Seq::<usize>::empty());
    assert(!node_matches(c, v));
    let paths = visited_paths(c, v);
    let pl = visited_paths_list(c, v.children, v.children.len() as int);
    assert(paths == seq![Seq::<usize>::empty()] + pl);
    if p.len() == 0 {
        assert(paths[0] == Seq::<usize>::empty());
        assert(paths[0] =~= p);
        assert(paths.contains(p));
    } else {
        let j = p[0];
        let q = p.skip(1);
        assert(seq![j] + q =~= p);
        lemma_path_cons(v, j, q);
        let child = v.children[j as int];
        lemma_arity_bounded_index(v.children, v.children.len() as int, j as int);
        assert(unpruned(c, child, q)) by {
            assert forall|l: int| 0 <= l <= q.len() implies !node_matches(
                c,
                node_at(child, #[trigger] q.take(l)),
            ) by {
                assert(p.take(l + 1) =~= seq![j] + q.take(l));
                lemma_path_cons(v, j, q.take(l));
                assert(!node_matches(c, node_at(v, p.take(l + 1))));
            }
        }
        lemma_visited_down_complete(c, child, q);
        lemma_visited_paths_list_contains(c, v.children, v.children.len() as int, j, q);
        let idx = choose|idx: int|
            0 <= idx < pl.len() && pl[idx] == seq![j] + q;
        assert(paths[idx + 1] == pl[idx]);
        assert(paths.contains(p));
    }
}

proof fn lemma_visited_paths_list_contains<C: ItemCondition>(
    c: C,
    cs: Seq<NodeView>,
    i: int,
    j: usize,
    q: Seq<usize>,
)
    requires
        0 <= j < i <= cs.len(),
        cs.len() <= usize::MAX,
        visited_paths(c, cs[j as int]).contains(q),
    ensures
        exists|idx: int|
            0 <= idx < visited_paths_list(c, cs, i).len() && visited_paths_list(c, cs, i)[idx]
                == seq![j] + q,
    decreases i,
{
    let pl = visited_paths_list(c, cs, i);
    let pl0 = visited_paths_list(c, cs, i - 1);
    let pc = visited_paths(c, cs[i - 1]);
    assert(((i - 1) as usize) as int == i - 1);
    assert(pl == pl0 + prefix_all((i - 1) as usize, pc));
    if j == i - 1 {
        let k = choose|k: int| 0 <= k < pc.len() && pc[k] == q;
        assert(prefix_all(j, pc)[k] == seq![j] + q);
        assert(pl[pl0.len() + k] == seq![j] + q);
    } else {
        lemma_visited_paths_list_contains(c, cs, i - 1, j, q);
        let idx = choose|idx: int| 0 <= idx < pl0.len() && pl0[idx] == seq![j] + q;
        assert(pl[idx] == seq![j] + q);
    }
}

/// Law: no handle is visited twice. Together with the two lemmas above, a
/// downward traversal visits every unpruned node exactly once and a pruned
/// node never.
pub proof fn lemma_visited_down_once<C: ItemCondition>(c: C, v: NodeView)
    requires
        arity_bounded(v),
    ensures
        forall|k1: int, k2: int|
            0 <= k1 < k2 < visited_paths(c, v).len() ==> #[trigger] visited_paths(c, v)[k1]
                != #[trigger] visited_paths(c, v)[k2],
    decreases v, 1int, 0int,
{
    if !node_matches(c, v) {
        lemma_visited_down_once_list(c, v.children, v.children.len() as int);
        assert(arity_bounded_list(v.children, v.children.len() as int));
        let paths = visited_paths(c, v);
        let pl = visited_paths_list(c, v.children, v.children.len() as int);
        assert(paths == seq![Seq::<usize>::empty()] + pl);
        assert forall|k1: int, k2: int|
            0 <= k1 < k2 < paths.len() implies #[trigger] paths[k1] != #[trigger] paths[k2] by {
            if k1 == 0 {
                assert(paths[0] == Seq::<usize>::empty());
                assert(paths[k2] == pl[k2 - 1]);
                assert(pl[k2 - 1].len() >= 1);
            } else {
                assert(paths[k1] == pl[k1 - 1]);
                assert(paths[k2] == pl[k2 - 1]);
            }
        }
    }
}

proof fn lemma_visited_down_once_list<C: ItemCondition>(c: C, cs: Seq<NodeView>, i: int)
    requires
        0 <= i <= cs.len(),
        cs.len() <= usize::MAX,
        arity_bounded_list(cs, i),
    ensures
        forall|k: int|
            0 <= k < visited_paths_list(c, cs, i).len() ==> (#[trigger] visited_paths_list(
                c,
                cs,
                i,
            )[k]).len() >= 1 && visited_paths_list(c, cs, i)[k][0] < i,
        forall|k1: int, k2: int|
            0 <= k1 < k2 < visited_paths_list(c, cs, i).len() ==> #[trigger] visited_paths_list(
                c,
                cs,
                i,
            )[k1] != #[trigger] visited_paths_list(c, cs, i)[k2],
    decreases cs, 0int, i,
{
    if i > 0 {
        lemma_visited_down_once_list(c, cs, i - 1);
        let j = (i - 1) as usize;
        assert(j as int == i - 1);
        let child = cs[i - 1];
        lemma_arity_bounded_index(cs, i, i - 1);
        lemma_visited_down_once(c, child);
        let pl = visited_paths_list(c, cs, i);
        let pl0 = visited_paths_list(c, cs, i - 1);
        let pc = visited_paths(c, child);
        assert(pl == pl0 + prefix_all(j, pc));
        assert forall|k: int|
            0 <= k < pl.len() implies (#[trigger] pl[k]).len() >= 1 && pl[k][0] < i by {
            if k < pl0.len() {
                assert(pl[k] == pl0[k]);
            } else {
                assert(pl[k] == prefix_all(j, pc)[k - pl0.len()]);
                assert(pl[k] == seq![j] + pc[k - pl0.len()]);
            }
        }
        assert forall|k1: int, k2: int|
            0 <= k1 < k2 < pl.len() implies #[trigger] pl[k1] != #[trigger] pl[k2] by {
            if k1 < pl0.len() && k2 < pl0.len() {
                assert(pl[k1] == pl0[k1]);
                assert(pl[k2] == pl0[k2]);
            } else if k1 < pl0.len() {
                assert(pl[k1] == pl0[k1]);
                assert(pl[k1][0] < i - 1);
                assert(pl[k2] == seq![j] + pc[k2 - pl0.len()]);
                assert(pl[k2][0] == j);
            } else {
                let q1 = pc[k1 - pl0.len()];
                let q2 = pc[k2 - pl0.len()];
                assert(pl[k1] == seq![j] + q1);
                assert(pl[k2] == seq![j] + q2);
                assert(q1 != q2);
                assert((seq![j] + q1).skip(1) =~= q1);
                assert((seq![j] + q2).skip(1) =~= q2);
            }
        }
    }
}


/// Whether `p1` strictly precedes `p2` in pre-order: `p1` names an ancestor
/// of `p2`'s node, or the two handles part ways at some depth where `p1`
/// turns into an earlier child.
pub open spec fn path_before(p1: Seq<usize>, p2: Seq<usize>) -> bool {
    (p1.len() < p2.len() && p2.take(p1.len() as int) == p1) || (exists|m: int|
        0 <= m < p1.len() && m < p2.len() && p1.take(m) == p2.take(m) && p1[m] < p2[m])
}

/// Law: the visited handles come in pre-order — each visited node strictly
/// precedes, in pre-order, every node visited after it.
pub proof fn lemma_visited_down_preorder<C: ItemCondition>(c: C, v: NodeView)
    requires
        arity_bounded(v),
    ensures
        forall|k1: int, k2: int|
            0 <= k1 < k2 < visited_paths(c, v).len() ==> path_before(
                #[trigger] visited_paths(c, v)[k1],
                #[trigger] visited_paths(c, v)[k2],
            ),
    decreases v, 1int, 0int,
{
    if !node_matches(c, v) {
        lemma_visited_down_preorder_list(c, v.children, v.children.len() as int);
        lemma_visited_down_once_list(c, v.children, v.children.len() as int);
        let paths = visited_paths(c, v);
        let pl = visited_paths_list(c, v.children, v.children.len() as int);
        assert(paths == seq![Seq::<usize>::empty()] + pl);
        assert forall|k1: int, k2: int|
            0 <= k1 < k2 < paths.len() implies path_before(
            #[trigger] paths[k1],
            #[trigger] paths[k2],
        ) by {
            if k1 == 0 {
                assert(paths[0] == Seq::<usize>::empty());
                assert(paths[k2] == pl[k2 - 1]);
                assert(pl[k2 - 1].len() >= 1);
                assert(paths[k2].take(0) =~= Seq::<usize>::empty());
            } else {
                assert(paths[k1] == pl[k1 - 1]);
                assert(paths[k2] == pl[k2 - 1]);
            }
        }
    }
}

proof fn lemma_visited_down_preorder_list<C: ItemCondition>(c: C, cs: Seq<NodeView>, i: int)
    requires
        0 <= i <= cs.len(),
        cs.len() <= usize::MAX,
        arity_bounded_list(cs, i),
    ensures
        forall|k1: int, k2: int|
            0 <= k1 < k2 < visited_paths_list(c, cs, i).len() ==> path_before(
                #[trigger] visited_paths_list(c, cs, i)[k1],
                #[trigger] visited_paths_list(c, cs, i)[k2],
            ),
    decreases cs, 0int, i,
{
    if i > 0 {
        lemma_visited_down_preorder_list(c, cs, i - 1);
        lemma_visited_down_once_list(c, cs, i - 1);
        let j = (i - 1) as usize;
        assert(j as int == i - 1);
        let child = cs[i - 1];
        lemma_arity_bounded_index(cs, i, i - 1);
        lemma_visited_down_preorder(c, child);
        let pl = visited_paths_list(c, cs, i);
        let pl0 = visited_paths_list(c, cs, i - 1);
        let pc = visited_paths(c, child);
        assert(pl == pl0 + prefix_all(j, pc));
        assert forall|k1: int, k2: int|
            0 <= k1 < k2 < pl.len() implies path_before(
            #[trigger] pl[k1],
            #[trigger] pl[k2],
        ) by {
            if k1 < pl0.len() && k2 < pl0.len() {
                assert(pl[k1] == pl0[k1]);
                assert(pl[k2] == pl0[k2]);
            } else if k1 < pl0.len() {
                let p1 = pl0[k1];
                let p2 = seq![j] + pc[k2 - pl0.len()];
                assert(pl[k1] == p1);
                assert(pl[k2] == prefix_all(j, pc)[k2 - pl0.len()]);
                assert(pl[k2] == p2);
                assert(p1.len() >= 1 && p1[0] < i - 1);
                assert(p2[0] == j);
                assert(p1.take(0) =~= p2.take(0));
                assert(0 <= 0 < p1.len() && 0 < p2.len() && p1.take(0) == p2.take(0) && p1[0]
                    < p2[0]);
            } else {
                let q1 = pc[k1 - pl0.len()];
                let q2 = pc[k2 - pl0.len()];
                assert(pl[k1] == prefix_all(j, pc)[k1 - pl0.len()]);
                assert(pl[k2] == prefix_all(j, pc)[k2 - pl0.len()]);
                let p1 = seq![j] + q1;
                let p2 = seq![j] + q2;
                assert(path_before(q1, q2));
                if q1.len() < q2.len() && q2.take(q1.len() as int) == q1 {
                    assert(p2.take(p1.len() as int) =~= seq![j] + q2.take(q1.len() as int));
                    assert(p2.take(p1.len() as int) == p1);
                } else {
                    let m = choose|m: int|
                        0 <= m < q1.len() && m < q2.len() && q1.take(m) == q2.take(m) && q1[m]
                            < q2[m];
                    assert(p1.take(m + 1) =~= seq![j] + q1.take(m));
                    assert(p2.take(m + 1) =~= seq![j] + q2.take(m));
                    assert(p1.take(m + 1) == p2.take(m + 1));
                    assert(p1[m + 1] == q1[m] && p2[m + 1] == q2[m]);
                    assert(0 <= m + 1 < p1.len() && m + 1 < p2.len() && p1.take(m + 1) == p2.take(
                        m + 1,
                    ) && p1[m + 1] < p2[m + 1]);
                }
            }
        }
    }
}

} // verus!
