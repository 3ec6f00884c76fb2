//! Building a regular tree of numbered items: each node at nesting level
//! `d` with sibling index `i` is named after the number `d * breadth + i`,
//! as the demonstration trees of this library have always been. The decimal
//! rendering of the numbers is verified down to the digits.

use vstd::prelude::*;

use crate::item::SimpleItem;
use crate::node::{Node, NodeView};

verus! {

/// The decimal digit character for `d`.
pub open spec fn digit_char(d: nat) -> char {
    if d == 0 {
        '0'
    } else if d == 1 {
        '1'
    } else if d == 2 {
        '2'
    } else if d == 3 {
        '3'
    } else if d == 4 {
        '4'
    } else if d == 5 {
        '5'
    } else if d == 6 {
        '6'
    } else if d == 7 {
        '7'
    } else if d == 8 {
        '8'
    } else {
        '9'
    }
}

/// The decimal rendering of `n`, without leading zeroes.
pub open spec fn dec_rep(n: nat) -> Seq<char>
    decreases n,
{
    if n < 10 {
        seq![digit_char(n)]
    } else {
        dec_rep(n / 10).push(digit_char(n % 10))
    }
}

/// The name of the node numbered `k`.
pub open spec fn node_name(k: nat) -> Seq<char> {
    seq!['N', 'o', 'd', 'e', ' '] + dec_rep(k)
}

/// The namespace of the node numbered `k`.
pub open spec fn node_namespace(k: nat) -> Seq<char> {
    seq!['N', 'a', 'm', 'e', 's', 'p', 'a', 'c', 'e', ' '] + dec_rep(k)
}

/// The children generated below one node of nesting level `cd - 1`: empty
/// past the requested depth, else `b` subtrees whose numbers share the
/// level.
pub open spec fn gen_children(b: nat, depth: nat, cd: nat) -> Seq<NodeView>
    decreases depth + 1 - cd,
{
    if cd > depth {
        Seq::empty()
    } else {
        Seq::new(
            b,
            |i: int|
                NodeView {
                    name: node_name((cd * b + i) as nat),
                    namespace: node_namespace((cd * b + i) as nat),
                    children: gen_children(b, depth, cd + 1),
                },
        )
    }
}

/// The decimal digit character for `d`.
fn digit_str(d: usize) -> (r: &'static str)
    requires
        d < 10,
    ensures
        r@ == seq![digit_char(d as nat)],
{
    proof {
        reveal_strlit("0");
        reveal_strlit("1");
        reveal_strlit("2");
        reveal_strlit("3");
        reveal_strlit("4");
        reveal_strlit("5");
        reveal_strlit("6");
        reveal_strlit("7");
        reveal_strlit("8");
        reveal_strlit("9");
    }
    let r = match d {
        0 => "0",
        1 => "1",
        2 => "2",
        3 => "3",
        4 => "4",
        5 => "5",
        6 => "6",
        7 => "7",
        8 => "8",
        _ => "9",
    };
    proof {
        assert(r@ =~= seq![digit_char(d as nat)]);
    }
    r
}

/// The decimal rendering of `n`.
pub fn usize_to_string(n: usize) -> (r: String)
    ensures
        r@ == dec_rep(n as nat),
    decreases n,
{
    if n < 10 {
        String::from_str(digit_str(n))
    } else {
        let mut s = usize_to_string(n / 10);
        s.append(digit_str(n % 10));
        proof {
            assert(dec_rep((n / 10) as nat) + seq![digit_char((n % 10) as nat)] =~= dec_rep(
                n as nat,
            ));
        }
        s
    }
}

/// The name of the node numbered `k`.
fn make_name(k: usize) -> (r: String)
    ensures
        r@ == node_name(k as nat),
{
    proof {
        reveal_strlit("Node ");
        assert(("Node ")@ =~= seq!['N', 'o', 'd', 'e', ' ']);
    }
    let mut s = String::from_str("Node ");
    let num = usize_to_string(k);
    s.append(num.as_str());
    s
}

/// The namespace of the node numbered `k`.
fn make_namespace(k: usize) -> (r: String)
    ensures
        r@ == node_namespace(k as nat),
{
    proof {
        reveal_strlit("Namespace ");
        assert(("Namespace ")@ =~= seq!['N', 'a', 'm', 'e', 's', 'p', 'a', 'c', 'e', ' ']);
    }
    let mut s = String::from_str("Namespace ");
    let num = usize_to_string(k);
    s.append(num.as_str());
    s
}

/// Builds the full tree of the given depth and breadth: a root numbered 0
/// with, down to `depth` levels below it, `breadth` children under every
/// node. The bound on `depth * breadth` is a machine limit: a node's number
/// must fit in `usize`.
pub fn create_tree(depth: usize, breadth: usize) -> (r: Node<SimpleItem>)
    requires
        (depth as int + 1) * (breadth as int) <= usize::MAX as int,
    ensures
        r@ == (NodeView {
            name: node_name(0),
            namespace: node_namespace(0),
            children: gen_children(breadth as nat, depth as nat, 1),
        }),
{
    let name = make_name(0);
    let namespace = make_namespace(0);
    let mut node = Node::new(SimpleItem::new(name, namespace));
    create_children(&mut node, depth, breadth, 1);
    proof {
        assert(Seq::<NodeView>::empty() + gen_children(breadth as nat, depth as nat, 1)
            =~= gen_children(breadth as nat, depth as nat, 1));
        assert(node@ =~= (NodeView {
            name: node_name(0),
            namespace: node_namespace(0),
            children: gen_children(breadth as nat, depth as nat, 1),
        }));
    }
    node
}

/// Grows `breadth` numbered children under `parent` for every level from
/// `current_depth` down to `depth`, wiring each child before its own
/// subtree is grown.
pub fn create_children(
    parent: &mut Node<SimpleItem>,
    depth: usize,
    breadth: usize,
    current_depth: usize,
)
    requires
        1 <= current_depth,
        (depth as int + 1) * (breadth as int) <= usize::MAX as int,
    ensures
        final(parent)@ == (NodeView {
            children: old(parent)@.children + gen_children(
                breadth as nat,
                depth as nat,
                current_depth as nat,
            ),
            ..old(parent)@
        }),
    decreases depth as int + 1 - current_depth,
{
    if current_depth > depth {
        proof {
            assert(parent@.children =~= old(parent)@.children + gen_children(
                breadth as nat,
                depth as nat,
                current_depth as nat,
            ));
            assert(parent@ =~= (NodeView {
                children: old(parent)@.children + gen_children(
                    breadth as nat,
                    depth as nat,
                    current_depth as nat,
                ),
                ..old(parent)@
            }));
        }
        return ;
    }
    let ghost genf = |i: int|
        NodeView {
            name: node_name((current_depth as nat * breadth as nat + i) as nat),
            namespace: node_namespace((current_depth as nat * breadth as nat + i) as nat),
            children: gen_children(breadth as nat, depth as nat, current_depth as nat + 1),
        };
    let mut i: usize = 0;
    while i < breadth
        invariant
            1 <= current_depth <= depth,
            (depth as int + 1) * (breadth as int) <= usize::MAX as int,
            i <= breadth,
            parent@ == (NodeView {
                children: old(parent)@.children + Seq::new(i as nat, genf),
                ..old(parent)@
            }),
            genf == (|j: int|
                NodeView {
                    name: node_name((current_depth as nat * breadth as nat + j) as nat),
                    namespace: node_namespace((current_depth as nat * breadth as nat + j) as nat),
                    children: gen_children(breadth as nat, depth as nat, current_depth as nat + 1),
                }),
        decreases breadth - i,
    {
        proof {
            assert(current_depth as int * breadth as int + i < (depth as int + 1) * (
            breadth as int)) by (nonlinear_arith)
                requires
                    1 <= current_depth <= depth,
                    i < breadth,
            {}
        }
        proof {
            assert(current_depth as int + 1 <= usize::MAX as int) by (nonlinear_arith)
                requires
                    (depth as int + 1) * (breadth as int) <= usize::MAX as int,
                    1 <= breadth as int,
                    1 <= current_depth <= depth,
            {}
        }
        let k = current_depth * breadth + i;
        let name = make_name(k);
        let namespace = make_namespace(k);
        let mut child = Node::new(SimpleItem::new(name, namespace));
        create_children(&mut child, depth, breadth, current_depth + 1);
        let ghost childv = child@;
        parent.attach(child);
        proof {
            assert(childv =~= genf(i as int)) by {
                assert(Seq::<NodeView>::empty() + gen_children(
                    breadth as nat,
                    depth as nat,
                    current_depth as nat + 1,
                ) =~= gen_children(breadth as nat, depth as nat, current_depth as nat + 1));
            }
            assert(old(parent)@.children + Seq::new(i as nat, genf).push(childv) =~= old(
                parent,
            )@.children + Seq::new(i as nat + 1, genf));
            assert(parent@ =~= (NodeView {
                children: old(parent)@.children + Seq::new(i as nat + 1, genf),
                ..old(parent)@
            }));
        }
        i += 1;
    }
    proof {
        assert(Seq::new(breadth as nat, genf) =~= gen_children(
            breadth as nat,
            depth as nat,
            current_depth as nat,
        ));
        assert(parent@ =~= (NodeView {
            children: old(parent)@.children + gen_children(
                breadth as nat,
                depth as nat,
                current_depth as nat,
            ),
            ..old(parent)@
        }));
    }
}

} // verus!
