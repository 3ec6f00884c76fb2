//! The tree vertex. A `Node` exclusively owns one item and an ordered
//! collection of child nodes; insertion order is significant. Back-references
//! (a node's handle to itself or to its parent) are paths of child indices
//! from the root, so they never own anything: a path that no longer resolves
//! is stale, and every operation that takes a path treats such a path as
//! absent rather than faulting.

use vstd::prelude::*;

use crate::item::Item;

verus! {

/// The mathematical model of a subtree: the item's capability fields and the
/// models of the children, in order. Back-references are not part of the
/// model; they are recovered from a node's position in its root's model.
#[verifier::ext_equal]
pub struct NodeView {
    pub name: Seq<char>,
    pub namespace: Seq<char>,
    pub children: Seq<NodeView>,
}

impl NodeView {
    /// The model of a freshly created node: no children yet.
    pub open spec fn leaf(name: Seq<char>, namespace: Seq<char>) -> NodeView {
        NodeView { name, namespace, children: Seq::empty() }
    }
}

/// A tree vertex: one exclusively owned item, plus the owned children in
/// insertion order. The parent-to-child edges are the only owning edges, so
/// the graph is acyclic by construction and teardown is transitive.
pub struct Node<I: Item> {
    pub(crate) item: I,
    pub(crate) children: Vec<Node<I>>,
}

/// The models of the first `i` elements of a sequence of nodes, in order.
pub open(crate) spec fn child_views_upto<I: Item>(cs: Seq<Node<I>>, i: int) -> Seq<NodeView>
    decreases cs, i,
{
    if i <= 0 || i > cs.len() {
        Seq::empty()
    } else {
        child_views_upto(cs, i - 1).push(node_view(cs[i - 1]))
    }
}

/// The model of a node: its item's capability fields and its children's
/// models, recursively.
pub open(crate) spec fn node_view<I: Item>(n: Node<I>) -> NodeView
    decreases n,
{
    NodeView {
        name: n.item.spec_name(),
        namespace: n.item.spec_namespace(),
        children: child_views_upto(n.children@, n.children@.len() as int),
    }
}

pub broadcast proof fn lemma_child_views_upto<I: Item>(cs: Seq<Node<I>>, i: int)
    requires
        0 <= i <= cs.len(),
    ensures
        (#[trigger] child_views_upto(cs, i)).len() == i,
        forall|j: int| 0 <= j < i ==> child_views_upto(cs, i)[j] == node_view(cs[j]),
    decreases i,
{
    if i > 0 {
        lemma_child_views_upto(cs, i - 1);
    }
}

impl<I: Item> View for Node<I> {
    type V = NodeView;

    open(crate) spec fn view(&self) -> NodeView {
        node_view(*self)
    }
}

/// Whether every node of the tree modeled by `v` has few enough children
/// for each to be named by a `usize` index. A machine limit: every tree an
/// executable node models satisfies it (see `lemma_node_arity_bounded`).
pub open spec fn arity_bounded(v: NodeView) -> bool
    decreases v, 0int,
{
    v.children.len() <= usize::MAX && arity_bounded_list(v.children, v.children.len() as int)
}

/// Whether the first `i` elements of `cs` model arity-bounded trees.
pub open spec fn arity_bounded_list(cs: Seq<NodeView>, i: int) -> bool
    decreases cs, i,
{
    i <= 0 || (arity_bounded_list(cs, i - 1) && (i <= cs.len() ==> arity_bounded(cs[i - 1])))
}

pub broadcast proof fn lemma_arity_bounded_index(cs: Seq<NodeView>, i: int, k: int)
    requires
        #[trigger] arity_bounded_list(cs, i),
        0 <= k < i <= cs.len(),
    ensures
        arity_bounded(#[trigger] cs[k]),
    decreases i,
{
    if k < i - 1 {
        lemma_arity_bounded_index(cs, i - 1, k);
    }
}

/// Every tree an executable node models is arity-bounded: its children are
/// held in vectors, whose lengths fit `usize`.
pub proof fn lemma_node_arity_bounded<I: Item>(n: Node<I>)
    ensures
        arity_bounded(n@),
    decreases n, 0int,
{
    vstd::std_specs::vec::axiom_spec_len(&n.children);
    assert(n.children@.len() <= usize::MAX);
    lemma_child_views_upto(n.children@, n.children@.len() as int);
    lemma_nodes_arity_bounded(n.children@, n.children@.len() as int);
}

proof fn lemma_nodes_arity_bounded<I: Item>(cs: Seq<Node<I>>, i: int)
    requires
        0 <= i <= cs.len(),
        cs.len() <= usize::MAX,
    ensures
        arity_bounded_list(child_views_upto(cs, cs.len() as int), i),
    decreases cs, i,
{
    if i > 0 {
        lemma_nodes_arity_bounded(cs, i - 1);
        lemma_child_views_upto(cs, cs.len() as int);
        lemma_node_arity_bounded(cs[i - 1]);
    }
}

/// Whether a path of child indices resolves to a node of the tree modeled by
/// `v`. The empty path resolves to the root itself.
pub open spec fn path_valid(v: NodeView, path: Seq<usize>) -> bool
    decreases path.len(),
{
    path.len() == 0 || (path[0] < v.children.len() && path_valid(
        v.children[path[0] as int],
        path.skip(1),
    ))
}

/// The node that a valid path resolves to.
pub open spec fn node_at(v: NodeView, path: Seq<usize>) -> NodeView
    recommends
        path_valid(v, path),
    decreases path.len(),
{
    if path.len() == 0 {
        v
    } else {
        node_at(v.children[path[0] as int], path.skip(1))
    }
}

impl<I: Item> Node<I> {
    /// Creates a root node holding `item`, with no parent and no children.
    /// The node's handle to itself (relative to itself) is the empty path,
    /// established before the node is reachable by any other operation.
    pub fn new(item: I) -> (n: Node<I>)
        ensures
            n@ == NodeView::leaf(item.spec_name(), item.spec_namespace()),
    {
        let n = Node { item, children: Vec::new() };
        proof {
            assert(n@.children =~= Seq::<NodeView>::empty());
            assert(n@ =~= NodeView::leaf(item.spec_name(), item.spec_namespace()));
        }
        n
    }

    /// Constructs a new node from `item`, wires it as a child of `self`
    /// (appending it, so call order is preserved), and returns its handle
    /// relative to `self`: the index of the new child.
    pub fn add_child(&mut self, item: I) -> (idx: usize)
        ensures
            idx == old(self)@.children.len(),
            final(self)@ == (NodeView {
                children: old(self)@.children.push(
                    NodeView::leaf(item.spec_name(), item.spec_namespace()),
                ),
                ..old(self)@
            }),
    {
        proof {
            lemma_child_views_upto(old(self).children@, old(self).children@.len() as int);
        }
        let idx = self.children.len();
        let child = Node::new(item);
        self.children.push(child);
        proof {
            lemma_child_views_upto(self.children@, self.children@.len() as int);
            assert(self@.children =~= old(self)@.children.push(
                NodeView::leaf(item.spec_name(), item.spec_namespace()),
            ));
            assert(self@ =~= (NodeView {
                children: old(self)@.children.push(
                    NodeView::leaf(item.spec_name(), item.spec_namespace()),
                ),
                ..old(self)@
            }));
        }
        idx
    }

    /// Wires an already built subtree as the last child of `self`,
    /// preserving call order, and returns its handle relative to `self`.
    pub fn attach(&mut self, child: Node<I>) -> (idx: usize)
        ensures
            idx == old(self)@.children.len(),
            final(self)@ == (NodeView {
                children: old(self)@.children.push(child@),
                ..old(self)@
            }),
    {
        proof {
            lemma_child_views_upto(old(self).children@, old(self).children@.len() as int);
        }
        let idx = self.children.len();
        let ghost childv = child@;
        self.children.push(child);
        proof {
            lemma_child_views_upto(self.children@, self.children@.len() as int);
            assert(self@.children =~= old(self)@.children.push(childv));
            assert(self@ =~= (NodeView {
                children: old(self)@.children.push(childv),
                ..old(self)@
            }));
        }
        idx
    }

    /// A read-only view of the node's item.
    pub fn item(&self) -> (r: &I)
        ensures
            r.spec_name() == self@.name,
            r.spec_namespace() == self@.namespace,
    {
        &self.item
    }

    /// How many direct children the node owns.
    pub fn child_count(&self) -> (r: usize)
        ensures
            r == self@.children.len(),
    {
        proof {
            lemma_child_views_upto(self.children@, self.children@.len() as int);
        }
        self.children.len()
    }

    /// The node that `path` resolves to, or `None` when the path is stale
    /// (it no longer indexes a node of this tree).
    pub fn get_node(&self, path: &Vec<usize>) -> (r: Option<&Node<I>>)
        ensures
            r is Some <==> path_valid(self@, path@),
            r matches Some(n) ==> n@ == node_at(self@, path@),
    {
        proof {
            assert(path@.subrange(0, path@.len() as int) =~= path@);
        }
        self.get_node_between(path, 0, path.len())
    }

    /// The node that the first `k` indices of `path` resolve to, or `None`
    /// when that prefix is stale.
    pub fn get_node_upto(&self, path: &Vec<usize>, k: usize) -> (r: Option<&Node<I>>)
        requires
            k <= path@.len(),
        ensures
            r is Some <==> path_valid(self@, path@.take(k as int)),
            r matches Some(n) ==> n@ == node_at(self@, path@.take(k as int)),
    {
        self.get_node_between(path, 0, k)
    }

    fn get_node_between(&self, path: &Vec<usize>, i: usize, k: usize) -> (r: Option<&Node<I>>)
        requires
            i <= k <= path@.len(),
        ensures
            r is Some <==> path_valid(self@, path@.subrange(i as int, k as int)),
            r matches Some(n) ==> n@ == node_at(self@, path@.subrange(i as int, k as int)),
        decreases k - i,
    {
        if i == k {
            proof {
                assert(path@.subrange(i as int, k as int) =~= Seq::<usize>::empty());
            }
            Some(self)
        } else {
            let j = path[i];
            proof {
                lemma_child_views_upto(self.children@, self.children@.len() as int);
                assert(path@.subrange(i as int, k as int)[0] == path@[i as int]);
                assert(path@.subrange(i as int, k as int).skip(1) =~= path@.subrange(
                    i as int + 1,
                    k as int,
                ));
            }
            if j < self.children.len() {
                let child = &self.children[j];
                child.get_node_between(path, i + 1, k)
            } else {
                None
            }
        }
    }
}

impl<I: Item> Node<I> {
    /// Adds a child to the node that `path` resolves to and returns the new
    /// child's index there, or `None` — leaving the tree unchanged — when the
    /// path is stale. This mutates top-down through the owning edges; the
    /// handle only names the target.
    pub fn add_child_at(&mut self, path: &Vec<usize>, item: I) -> (r: Option<usize>)
        ensures
            r is Some <==> path_valid(old(self)@, path@),
            r matches Some(idx) ==> {
                &&& idx == node_at(old(self)@, path@).children.len()
                &&& final(self)@ == replace_at(
                    old(self)@,
                    path@,
                    (NodeView {
                        children: node_at(old(self)@, path@).children.push(
                            NodeView::leaf(item.spec_name(), item.spec_namespace()),
                        ),
                        ..node_at(old(self)@, path@)
                    }),
                )
            },
            r is None ==> final(self)@ == old(self)@,
    {
        proof {
            assert(path@.skip(0) =~= path@);
        }
        self.add_child_at_from(path, 0, item)
    }

    fn add_child_at_from(&mut self, path: &Vec<usize>, i: usize, item: I) -> (r: Option<usize>)
        requires
            i <= path@.len(),
        ensures
            r is Some <==> path_valid(old(self)@, path@.skip(i as int)),
            r matches Some(idx) ==> {
                &&& idx == node_at(old(self)@, path@.skip(i as int)).children.len()
                &&& final(self)@ == replace_at(
                    old(self)@,
                    path@.skip(i as int),
                    (NodeView {
                        children: node_at(old(self)@, path@.skip(i as int)).children.push(
                            NodeView::leaf(item.spec_name(), item.spec_namespace()),
                        ),
                        ..node_at(old(self)@, path@.skip(i as int))
                    }),
                )
            },
            r is None ==> final(self)@ == old(self)@,
        decreases path@.len() - i,
    {
        if i == path.len() {
            proof {
                assert(path@.skip(i as int) =~= Seq::<usize>::empty());
            }
            Some(self.add_child(item))
        } else {
            let ghost pre = *self;
            let j = path[i];
            proof {
                lemma_child_views_upto(self.children@, self.children@.len() as int);
                assert(path@.skip(i as int)[0] == path@[i as int]);
                assert(path@.skip(i as int).skip(1) =~= path@.skip(i as int + 1));
            }
            if j < self.children.len() {
                let child = &mut self.children[j];
                let r = child.add_child_at_from(path, i + 1, item);
                proof {
                    lemma_child_views_upto(pre.children@, pre.children@.len() as int);
                    lemma_child_views_upto(self.children@, self.children@.len() as int);
                    assert(self@.children =~= pre@.children.update(
                        j as int,
                        self.children@[j as int]@,
                    ));
                    if r is Some {
                        assert(self@ =~= replace_at(
                            pre@,
                            path@.skip(i as int),
                            (NodeView {
                                children: node_at(pre@, path@.skip(i as int)).children.push(
                                    NodeView::leaf(item.spec_name(), item.spec_namespace()),
                                ),
                                ..node_at(pre@, path@.skip(i as int))
                            }),
                        ));
                    } else {
                        assert(self@.children =~= pre@.children);
                        assert(self@ =~= pre@);
                    }
                }
                r
            } else {
                None
            }
        }
    }
}

/// Wraps an item as the root of a fresh tree and establishes the node's
/// handle to itself — the empty path — before the node is handed out.
pub fn wrap_as_rc_item<I: Item>(item: I) -> (n: Node<I>)
    ensures
        n@ == NodeView::leaf(item.spec_name(), item.spec_namespace()),
{
    Node::new(item)
}

/// The tree modeled by `v` with the node at `path` replaced by `sub`.
pub open spec fn replace_at(v: NodeView, path: Seq<usize>, sub: NodeView) -> NodeView
    recommends
        path_valid(v, path),
    decreases path.len(),
{
    if path.len() == 0 {
        sub
    } else {
        NodeView {
            children: v.children.update(
                path[0] as int,
                replace_at(v.children[path[0] as int], path.skip(1), sub),
            ),
            ..v
        }
    }
}

/// Extending a valid path by one child index resolves to that child of the
/// node the path leads to.
pub proof fn lemma_path_push(v: NodeView, p: Seq<usize>, j: usize)
    requires
        path_valid(v, p),
    ensures
        path_valid(v, p.push(j)) <==> j < node_at(v, p).children.len(),
        j < node_at(v, p).children.len() ==> node_at(v, p.push(j)) == node_at(
            v,
            p,
        ).children[j as int],
    decreases p.len(),
{
    if p.len() == 0 {
        reveal_with_fuel(path_valid, 2);
        reveal_with_fuel(node_at, 2);
        assert(p.push(j)[0] == j);
        assert(p.push(j).skip(1) =~= Seq::<usize>::empty());
    } else {
        assert(p.push(j)[0] == p[0]);
        assert(p.push(j).skip(1) =~= p.skip(1).push(j));
        lemma_path_push(v.children[p[0] as int], p.skip(1), j);
    }
}

/// Law: when a node B is added as a child of a node A via `add_child` (or
/// `add_child_at` with A's handle `q`), then — immediately after the call —
/// B's handle is `q` extended by the returned index, B's parent handle (the
/// handle with its last index dropped) is A's handle and resolves to A, and
/// A's children contain B exactly once: at the returned index, with every
/// earlier child unchanged. The bound on A's arity is a machine limit: an
/// index must fit in `usize`.
pub proof fn lemma_add_child_links(v: NodeView, q: Seq<usize>, b: NodeView)
    requires
        path_valid(v, q),
        b.children.len() == 0,
        node_at(v, q).children.len() < usize::MAX,
    ensures
        ({
            let a = node_at(v, q);
            let idx = a.children.len() as usize;
            let v2 = replace_at(v, q, (NodeView { children: a.children.push(b), ..a }));
            let bpath = q.push(idx);
            &&& path_valid(v2, bpath)
            &&& node_at(v2, bpath) == b
            &&& bpath.drop_last() == q
            &&& node_at(v2, bpath.drop_last()).name == a.name
            &&& node_at(v2, bpath.drop_last()).namespace == a.namespace
            &&& node_at(v2, q).children.len() == a.children.len() + 1
            &&& node_at(v2, q).children[idx as int] == b
            &&& forall|k: int| 0 <= k < idx ==> node_at(v2, q).children[k] == a.children[k]
        }),
{
    let a = node_at(v, q);
    let idx = a.children.len() as usize;
    let a2 = NodeView { children: a.children.push(b), ..a };
    let v2 = replace_at(v, q, a2);
    lemma_replace_at(v, q, a2);
    lemma_path_push(v2, q, idx);
    assert(q.push(idx).drop_last() =~= q);
}

/// Replacing the node at a valid path keeps the path valid and makes it
/// resolve to the replacement.
pub proof fn lemma_replace_at(v: NodeView, p: Seq<usize>, sub: NodeView)
    requires
        path_valid(v, p),
    ensures
        path_valid(replace_at(v, p, sub), p),
        node_at(replace_at(v, p, sub), p) == sub,
    decreases p.len(),
{
    if p.len() > 0 {
        lemma_replace_at(v.children[p[0] as int], p.skip(1), sub);
    }
}

} // verus!
