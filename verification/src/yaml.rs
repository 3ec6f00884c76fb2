//! Structural serialization. A subtree is written as a nested document in
//! YAML flow style — one record per node, holding the item's capability
//! fields and the list of children in order:
//!
//! `{"item":{"name":"...","namespace":"..."},"children":[...]}`
//!
//! The back-references (a node's handles to itself and to its parent) are
//! never written: serializing them would recurse forever, and a loader
//! re-derives them from a node's position by replaying the same child wiring
//! used at construction time. Names and namespaces are quoted, with `"` and
//! `\` escaped by a backslash, so the document round-trips losslessly for
//! every tree.

use vstd::prelude::*;

use crate::item::{Item, SimpleItem};
use crate::node::{child_views_upto, lemma_child_views_upto, Node, NodeView};

verus! {

/// A string's characters with `"` and `\` escaped by a backslash.
pub open spec fn esc(s: Seq<char>) -> Seq<char>
    decreases s.len(),
{
    if s.len() == 0 {
        Seq::empty()
    } else {
        (if s[0] == '"' || s[0] == '\\' {
            seq!['\\', s[0]]
        } else {
            seq![s[0]]
        }) + esc(s.skip(1))
    }
}

/// `{"item":{"name":"` — up to the opening quote of the name.
pub open spec fn lit_head() -> Seq<char> {
    seq!['{', '"', 'i', 't', 'e', 'm', '"', ':', '{', '"', 'n', 'a', 'm', 'e', '"', ':', '"']
}

/// `","namespace":"` — from the quote closing the name to the quote opening
/// the namespace.
pub open spec fn lit_mid() -> Seq<char> {
    seq!['"', ',', '"', 'n', 'a', 'm', 'e', 's', 'p', 'a', 'c', 'e', '"', ':', '"']
}

/// `"},"children":[` — from the quote closing the namespace to the bracket
/// opening the children.
pub open spec fn lit_tail() -> Seq<char> {
    seq!['"', '}', ',', '"', 'c', 'h', 'i', 'l', 'd', 'r', 'e', 'n', '"', ':', '[']
}

/// The document for the subtree `v`.
pub open spec fn ser_node(v: NodeView) -> Seq<char>
    decreases v, 0int,
{
    lit_head() + esc(v.name) + lit_mid() + esc(v.namespace) + lit_tail() + (if v.children.len()
        == 0 {
        Seq::empty()
    } else {
        ser_children(v.children, 0)
    }) + seq![']', '}']
}

/// The documents for the children from index `i` on, separated by commas.
pub open spec fn ser_children(cs: Seq<NodeView>, i: int) -> Seq<char>
    recommends
        0 <= i < cs.len(),
    decreases cs, cs.len() - i, 0int,
{
    if i < 0 || i >= cs.len() {
        Seq::empty()
    } else {
        ser_node(cs[i]) + (if i + 1 >= cs.len() {
            Seq::empty()
        } else {
            seq![','] + ser_children(cs, i + 1)
        })
    }
}

/// Reads a quoted string's remainder at `pos` (the opening quote already
/// consumed): characters up to an unescaped closing quote, a backslash
/// taking the following character literally. Yields the unescaped content
/// and the position after the closing quote, or nothing when the input ends
/// before the quote is closed.
pub open spec fn scan_string(s: Seq<char>, pos: int) -> Option<(Seq<char>, int)>
    decreases s.len() - pos,
{
    if pos < 0 || pos >= s.len() {
        None
    } else if s[pos] == '"' {
        Some((Seq::empty(), pos + 1))
    } else if s[pos] == '\\' {
        if pos + 1 < s.len() {
            match scan_string(s, pos + 2) {
                Some((t, e)) => Some((seq![s[pos + 1]] + t, e)),
                None => None,
            }
        } else {
            None
        }
    } else {
        match scan_string(s, pos + 1) {
            Some((t, e)) => Some((seq![s[pos]] + t, e)),
            None => None,
        }
    }
}

/// Whether the characters of `lit` lie at `pos` in `s`.
pub open spec fn lit_at(s: Seq<char>, pos: int, lit: Seq<char>) -> bool {
    0 <= pos && pos + lit.len() <= s.len() && s.subrange(pos, pos + lit.len()) == lit
}

/// Reads one node record at `pos`: the head literal, the two quoted fields,
/// and the bracketed children list. Yields the node and the position after
/// its closing brace.
pub open spec fn parse_node(s: Seq<char>, pos: int) -> Option<(NodeView, int)>
    decreases s.len() - pos, 0int,
{
    if !lit_at(s, pos, lit_head()) {
        None
    } else {
        let p1 = pos + lit_head().len();
        match scan_string(s, p1) {
            None => None,
            Some((name, p2)) => {
                if p2 <= p1 || !lit_at(s, p2 - 1, lit_mid()) {
                    None
                } else {
                    let p3 = p2 - 1 + lit_mid().len();
                    match scan_string(s, p3) {
                        None => None,
                        Some((namespace, p4)) => {
                            if p4 <= p3 || !lit_at(s, p4 - 1, lit_tail()) {
                                None
                            } else {
                                let p5 = p4 - 1 + lit_tail().len();
                                match parse_children(s, p5) {
                                    None => None,
                                    Some((children, p6)) => {
                                        if p6 < s.len() && s[p6] == '}' {
                                            Some(
                                                (
                                                    NodeView { name, namespace, children },
                                                    p6 + 1,
                                                ),
                                            )
                                        } else {
                                            None
                                        }
                                    },
                                }
                            }
                        },
                    }
                }
            },
        }
    }
}

/// Reads a children list at `pos` (the opening bracket already consumed):
/// either an immediate closing bracket, or node records separated by commas
/// up to the closing bracket. Yields the children and the position after
/// the closing bracket.
pub open spec fn parse_children(s: Seq<char>, pos: int) -> Option<(Seq<NodeView>, int)>
    decreases s.len() - pos, 1int,
{
    if pos < 0 || pos >= s.len() {
        None
    } else if s[pos] == ']' {
        Some((Seq::empty(), pos + 1))
    } else {
        match parse_node(s, pos) {
            None => None,
            Some((v, e)) => {
                if e <= pos || e >= s.len() {
                    None
                } else if s[e] == ']' {
                    Some((seq![v], e + 1))
                } else if s[e] == ',' {
                    match parse_children(s, e + 1) {
                        None => None,
                        Some((rest, e2)) => Some((seq![v] + rest, e2)),
                    }
                } else {
                    None
                }
            },
        }
    }
}

/// Escaping distributes over concatenation.
pub proof fn lemma_esc_append(a: Seq<char>, b: Seq<char>)
    ensures
        esc(a + b) == esc(a) + esc(b),
    decreases a.len(),
{
    if a.len() == 0 {
        assert(a + b =~= b);
        assert(esc(a) + esc(b) =~= esc(b));
    } else {
        assert((a + b)[0] == a[0]);
        assert((a + b).skip(1) =~= a.skip(1) + b);
        lemma_esc_append(a.skip(1), b);
        assert((if a[0] == '"' || a[0] == '\\' {
            seq!['\\', a[0]]
        } else {
            seq![a[0]]
        }) + (esc(a.skip(1)) + esc(b)) =~= esc(a) + esc(b));
    }
}

/// Reading a quoted string inverts escaping: when the escape of `t` lies at
/// `pos` with a closing quote right after it, the scan yields exactly `t`
/// and stops after that quote.
pub proof fn lemma_scan_esc(s: Seq<char>, pos: int, t: Seq<char>)
    requires
        0 <= pos,
        pos + esc(t).len() < s.len(),
        s.subrange(pos, pos + esc(t).len()) == esc(t),
        s[pos + esc(t).len()] == '"',
    ensures
        scan_string(s, pos) == Some((t, pos + esc(t).len() + 1)),
    decreases t.len(),
{
    if t.len() == 0 {
        assert(esc(t).len() == 0);
    } else {
        let c = t[0];
        let t1 = t.skip(1);
        let head: Seq<char> = if c == '"' || c == '\\' {
            seq!['\\', c]
        } else {
            seq![c]
        };
        assert(esc(t) == head + esc(t1));
        assert forall|k: int| 0 <= k < esc(t).len() implies s[pos + k] == esc(t)[k] by {
            assert(s.subrange(pos, pos + esc(t).len())[k] == s[pos + k]);
        }
        let pos1 = pos + head.len();
        assert(s.subrange(pos1, pos1 + esc(t1).len()) =~= esc(t1)) by {
            assert forall|k: int| 0 <= k < esc(t1).len() implies s.subrange(
                pos1,
                pos1 + esc(t1).len(),
            )[k] == esc(t1)[k] by {
                assert(s[pos1 + k] == esc(t)[head.len() + k]);
                assert(esc(t)[head.len() + k] == esc(t1)[k]);
            }
        }
        lemma_scan_esc(s, pos1, t1);
        assert(esc(t).len() == head.len() + esc(t1).len());
        if c == '"' || c == '\\' {
            assert(head.len() == 2);
            assert(s[pos + 0] == esc(t)[0]);
            assert(s[pos + 1] == esc(t)[1]);
            assert(esc(t)[0] == '\\' && esc(t)[1] == c);
            assert(pos + 1 < s.len());
            assert(scan_string(s, pos + 2) == Some((t1, pos1 + esc(t1).len() + 1)));
            assert(scan_string(s, pos) == Some((seq![c] + t1, pos + esc(t).len() + 1)));
        } else {
            assert(head.len() == 1);
            assert(s[pos + 0] == esc(t)[0]);
            assert(esc(t)[0] == c);
            assert(scan_string(s, pos + 1) == Some((t1, pos1 + esc(t1).len() + 1)));
            assert(scan_string(s, pos) == Some((seq![c] + t1, pos + esc(t).len() + 1)));
        }
        assert(seq![c] + t1 =~= t);
    }
}

/// The children part of a document: the children's records from index `i`
/// on, then the closing bracket.
pub open spec fn ser_children_seg(cs: Seq<NodeView>, i: int) -> Seq<char> {
    (if i >= cs.len() {
        Seq::empty()
    } else {
        ser_children(cs, i)
    }) + seq![']']
}

/// Reading a node record inverts writing one: when the document of `v` lies
/// at `pos`, the parse yields exactly `v` and stops right after it.
pub proof fn lemma_parse_node_ser(s: Seq<char>, pos: int, v: NodeView)
    requires
        0 <= pos,
        pos + ser_node(v).len() <= s.len(),
        s.subrange(pos, pos + ser_node(v).len()) == ser_node(v),
    ensures
        parse_node(s, pos) == Some((v, pos + ser_node(v).len())),
    decreases v, 0int, 0int,
{
    let w = ser_node(v);
    let body: Seq<char> = if v.children.len() == 0 {
        Seq::empty()
    } else {
        ser_children(v.children, 0)
    };
    let a = lit_head();
    let b = esc(v.name);
    let c = lit_mid();
    let d = esc(v.namespace);
    let e = lit_tail();
    let g = seq![']', '}'];
    assert(w == a + b + c + d + e + body + g);
    let o1 = a.len() as int;
    let o2 = o1 + b.len();
    let o3 = o2 + c.len();
    let o4 = o3 + d.len();
    let o5 = o4 + e.len();
    let o6 = o5 + body.len();
    assert(w.len() == o6 + 2);
    assert forall|k: int| 0 <= k < w.len() implies s[pos + k] == w[k] by {
        assert(s.subrange(pos, pos + w.len())[k] == s[pos + k]);
    }
    // the head literal
    assert(lit_at(s, pos, a)) by {
        assert forall|k: int| 0 <= k < a.len() implies s.subrange(pos, pos + a.len())[k]
            == a[k] by {
            assert(w[k] == a[k]);
        }
        assert(s.subrange(pos, pos + a.len()) =~= a);
    }
    // the name and the quote that closes it (the first char of lit_mid)
    assert forall|k: int| 0 <= k < b.len() implies s.subrange(pos + o1, pos + o1 + b.len())[k]
        == b[k] by {
        assert(w[o1 + k] == b[k]);
    }
    assert(s.subrange(pos + o1, pos + o1 + b.len()) =~= b);
    assert(w[o2] == c[0]);
    assert(s[pos + o2] == '"');
    lemma_scan_esc(s, pos + o1, v.name);
    // the mid literal
    assert(lit_at(s, pos + o2, c)) by {
        assert forall|k: int| 0 <= k < c.len() implies s.subrange(pos + o2, pos + o2 + c.len())[k]
            == c[k] by {
            assert(w[o2 + k] == c[k]);
        }
        assert(s.subrange(pos + o2, pos + o2 + c.len()) =~= c);
    }
    // the namespace and the quote that closes it (the first char of lit_tail)
    assert forall|k: int| 0 <= k < d.len() implies s.subrange(pos + o3, pos + o3 + d.len())[k]
        == d[k] by {
        assert(w[o3 + k] == d[k]);
    }
    assert(s.subrange(pos + o3, pos + o3 + d.len()) =~= d);
    assert(w[o4] == e[0]);
    assert(s[pos + o4] == '"');
    lemma_scan_esc(s, pos + o3, v.namespace);
    // the tail literal
    assert(lit_at(s, pos + o4, e)) by {
        assert forall|k: int| 0 <= k < e.len() implies s.subrange(pos + o4, pos + o4 + e.len())[k]
            == e[k] by {
            assert(w[o4 + k] == e[k]);
        }
        assert(s.subrange(pos + o4, pos + o4 + e.len()) =~= e);
    }
    // the children segment and the closing brace
    assert(ser_children_seg(v.children, 0) == body + seq![']']);
    assert forall|k: int|
        0 <= k < body.len() + 1 implies s.subrange(pos + o5, pos + o6 + 1)[k] == (body + seq![
            ']',
        ])[k] by {
        if k < body.len() {
            assert(w[o5 + k] == body[k]);
        } else {
            assert(w[o6] == g[0]);
        }
    }
    assert(s.subrange(pos + o5, pos + o6 + 1) =~= body + seq![']']);
    lemma_parse_children_ser(s, pos + o5, v.children, 0);
    assert(v.children.skip(0) =~= v.children);
    assert(w[o6 + 1] == g[1]);
    assert(s[pos + o6 + 1] == '}');
}

/// Reading a children list inverts writing one, from any child index on.
pub proof fn lemma_parse_children_ser(s: Seq<char>, pos: int, cs: Seq<NodeView>, i: int)
    requires
        0 <= i <= cs.len(),
        0 <= pos,
        pos + ser_children_seg(cs, i).len() <= s.len(),
        s.subrange(pos, pos + ser_children_seg(cs, i).len()) == ser_children_seg(cs, i),
    ensures
        parse_children(s, pos) == Some((cs.skip(i), pos + ser_children_seg(cs, i).len())),
    decreases cs, cs.len() - i, 1int,
{
    let seg = ser_children_seg(cs, i);
    assert forall|k: int| 0 <= k < seg.len() implies s[pos + k] == seg[k] by {
        assert(s.subrange(pos, pos + seg.len())[k] == s[pos + k]);
    }
    if i == cs.len() {
        assert(seg =~= seq![']']);
        assert(seg[0] == ']');
        assert(s[pos + 0] == seg[0]);
        assert(s[pos] == ']');
        assert(cs.skip(i) =~= Seq::<NodeView>::empty());
    } else {
        let w = ser_node(cs[i]);
        let rest: Seq<char> = if i + 1 >= cs.len() {
            Seq::empty()
        } else {
            seq![','] + ser_children(cs, i + 1)
        };
        assert(ser_children(cs, i) == w + rest);
        assert(seg == (w + rest) + seq![']']);
        assert(w.len() >= lit_head().len()) by {
            assert(w == lit_head() + esc(cs[i].name) + lit_mid() + esc(cs[i].namespace)
                + lit_tail() + (if cs[i].children.len() == 0 {
                Seq::empty()
            } else {
                ser_children(cs[i].children, 0)
            }) + seq![']', '}']);
        }
        assert(s.subrange(pos, pos + w.len()) =~= w) by {
            assert forall|k: int| 0 <= k < w.len() implies s.subrange(pos, pos + w.len())[k]
                == w[k] by {
                assert(seg[k] == w[k]);
            }
        }
        lemma_parse_node_ser(s, pos, cs[i]);
        let e = pos + w.len();
        assert(s[pos] == '{') by {
            assert(w[0] == '{');
        }
        if i + 1 >= cs.len() {
            assert(seg[w.len() as int] == ']');
            assert(s[e] == ']');
            assert(cs.skip(i) =~= seq![cs[i]]);
            assert(seg.len() == w.len() + 1);
        } else {
            assert(seg[w.len() as int] == ',') by {
                assert(rest[0] == ',');
            }
            assert(s[e] == ',');
            let seg1 = ser_children_seg(cs, i + 1);
            assert(seg1 == ser_children(cs, i + 1) + seq![']']);
            assert(seg =~= w + seq![','] + seg1);
            assert(s.subrange(e + 1, e + 1 + seg1.len()) =~= seg1) by {
                assert forall|k: int| 0 <= k < seg1.len() implies s.subrange(
                    e + 1,
                    e + 1 + seg1.len(),
                )[k] == seg1[k] by {
                    assert(seg[w.len() + 1 + k] == seg1[k]);
                }
            }
            lemma_parse_children_ser(s, e + 1, cs, i + 1);
            assert(seq![cs[i]] + cs.skip(i + 1) =~= cs.skip(i));
            assert(seg.len() == w.len() + 1 + seg1.len());
        }
    }
}

/// The literal pieces of the format, as they appear in source text.
proof fn lemma_literal_views()
    ensures
        ("{\"item\":{\"name\":\"")@ == lit_head(),
        ("\",\"namespace\":\"")@ == seq!['"'] + lit_mid().skip(1),
        ("\",\"namespace\":\"")@ == lit_mid(),
        ("\"},\"children\":[")@ == lit_tail(),
        ("]}")@ == seq![']', '}'],
        (",")@ == seq![','],
        ("\\")@ == seq!['\\'],
{
    reveal_strlit("{\"item\":{\"name\":\"");
    reveal_strlit("\",\"namespace\":\"");
    reveal_strlit("\"},\"children\":[");
    reveal_strlit("]}");
    reveal_strlit(",");
    reveal_strlit("\\");
    assert(("{\"item\":{\"name\":\"")@ =~= lit_head());
    assert(("\",\"namespace\":\"")@ =~= lit_mid());
    assert(("\",\"namespace\":\"")@ =~= seq!['"'] + lit_mid().skip(1));
    assert(("\"},\"children\":[")@ =~= lit_tail());
    assert(("]}")@ =~= seq![']', '}']);
    assert((",")@ =~= seq![',']);
    assert(("\\")@ =~= seq!['\\']);
}

/// Appends the escape of `s`.
fn emit_escaped(out: &mut String, s: &str)
    ensures
        final(out)@ == old(out)@ + esc(s@),
{
    let n = s.unicode_len();
    let mut i: usize = 0;
    proof {
        assert(s@.take(0) =~= Seq::<char>::empty());
        assert(out@ =~= old(out)@ + esc(s@.take(0)));
    }
    while i < n
        invariant
            n == s@.len(),
            i <= n,
            out@ == old(out)@ + esc(s@.take(i as int)),
        decreases n - i,
    {
        let c = s.get_char(i);
        if c == '"' || c == '\\' {
            proof {
                lemma_literal_views();
            }
            out.append("\\");
        }
        out.append(s.substring_char(i, i + 1));
        proof {
            reveal_with_fuel(esc, 2);
            let cv = s@[i as int];
            assert(s@.subrange(i as int, i as int + 1) =~= seq![cv]);
            assert(s@.take(i as int + 1) =~= s@.take(i as int) + seq![cv]);
            lemma_esc_append(s@.take(i as int), seq![cv]);
            assert(seq![cv].skip(1) =~= Seq::<char>::empty());
            if cv == '"' || cv == '\\' {
                assert(esc(seq![cv]) =~= seq!['\\', cv]);
                assert(out@ =~= old(out)@ + esc(s@.take(i as int + 1)));
            } else {
                assert(esc(seq![cv]) =~= seq![cv]);
                assert(out@ =~= old(out)@ + esc(s@.take(i as int + 1)));
            }
        }
        i += 1;
    }
    proof {
        assert(s@.take(n as int) =~= s@);
    }
}

impl<I: Item> Node<I> {
    /// Writes the document for the subtree rooted at `self`. The two
    /// back-references are not part of the document, so this cannot recurse
    /// into a cycle; it walks the owned edges only, children in order.
    pub fn serialize_to_yaml(&self) -> (r: String)
        ensures
            r@ == ser_node(self@),
    {
        let mut out = String::new();
        self.emit_node(&mut out);
        proof {
            assert(Seq::<char>::empty() + ser_node(self@) =~= ser_node(self@));
        }
        out
    }

    fn emit_node(&self, out: &mut String)
        ensures
            final(out)@ == old(out)@ + ser_node(self@),
        decreases *self, 0int,
    {
        proof {
            lemma_literal_views();
            lemma_child_views_upto(self.children@, self.children@.len() as int);
        }
        out.append("{\"item\":{\"name\":\"");
        let name = self.item.name();
        emit_escaped(out, name.as_str());
        out.append("\",\"namespace\":\"");
        let namespace = self.item.namespace();
        emit_escaped(out, namespace.as_str());
        out.append("\"},\"children\":[");
        proof {
            assert(out@ =~= old(out)@ + lit_head() + esc(self@.name) + lit_mid() + esc(
                self@.namespace,
            ) + lit_tail());
        }
        emit_children(&self.children, 0, out);
        out.append("]}");
        proof {
            let body: Seq<char> = if self@.children.len() == 0 {
                Seq::empty()
            } else {
                ser_children(self@.children, 0)
            };
            assert(out@ =~= old(out)@ + (lit_head() + esc(self@.name) + lit_mid() + esc(
                self@.namespace,
            ) + lit_tail() + body + seq![']', '}']));
        }
    }
}

/// Writes the records of the children from index `i` on, separated by
/// commas.
fn emit_children<I: Item>(cs: &Vec<Node<I>>, i: usize, out: &mut String)
    requires
        i <= cs@.len(),
    ensures
        final(out)@ == old(out)@ + (if (i as int) < cs@.len() {
            ser_children(child_views_upto(cs@, cs@.len() as int), i as int)
        } else {
            Seq::<char>::empty()
        }),
    decreases cs@, cs@.len() - i, 1int,
{
    proof {
        lemma_child_views_upto(cs@, cs@.len() as int);
    }
    if i == cs.len() {
        proof {
            assert(out@ =~= old(out)@ + Seq::<char>::empty());
        }
        return ;
    }
    let ghost views = child_views_upto(cs@, cs@.len() as int);
    let child = &cs[i];
    child.emit_node(out);
    if i + 1 < cs.len() {
        proof {
            lemma_literal_views();
        }
        out.append(",");
        emit_children(cs, i + 1, out);
        proof {
            assert(out@ =~= old(out)@ + (ser_node(views[i as int]) + (seq![','] + ser_children(
                views,
                i as int + 1,
            ))));
            assert(ser_children(views, i as int) == ser_node(views[i as int]) + (seq![',']
                + ser_children(views, i as int + 1)));
        }
    } else {
        proof {
            assert(out@ =~= old(out)@ + (ser_node(views[i as int]) + Seq::<char>::empty()));
            assert(ser_children(views, i as int) == ser_node(views[i as int])
                + Seq::<char>::empty());
        }
    }
}

/// A successful scan always moves forward and stays inside the input.
proof fn lemma_scan_bounds(s: Seq<char>, pos: int)
    ensures
        match scan_string(s, pos) {
            Some(te) => pos < te.1 <= s.len(),
            None => true,
        },
    decreases s.len() - pos,
{
    if 0 <= pos < s.len() {
        if s[pos] == '"' {
        } else if s[pos] == '\\' {
            if pos + 1 < s.len() {
                lemma_scan_bounds(s, pos + 2);
            }
        } else {
            lemma_scan_bounds(s, pos + 1);
        }
    }
}

/// Whether the characters of `lit` lie at `pos` in `s`.
fn exec_lit_at(s: &str, pos: usize, lit: &str) -> (r: bool)
    ensures
        r == lit_at(s@, pos as int, lit@),
{
    let n = s.unicode_len();
    let ln = lit.unicode_len();
    if ln > n || pos > n - ln {
        return false;
    }
    let mut k: usize = 0;
    while k < ln
        invariant
            n == s@.len(),
            ln == lit@.len(),
            pos + ln <= n,
            k <= ln,
            forall|l: int| 0 <= l < k ==> s@[pos + l] == lit@[l],
        decreases ln - k,
    {
        if s.get_char(pos + k) != lit.get_char(k) {
            proof {
                assert(!lit_at(s@, pos as int, lit@)) by {
                    if lit_at(s@, pos as int, lit@) {
                        assert(s@.subrange(pos as int, pos + lit@.len())[k as int] == lit@[
                        k as int]);
                    }
                }
            }
            return false;
        }
        k += 1;
    }
    proof {
        assert(s@.subrange(pos as int, pos + lit@.len()) =~= lit@);
    }
    true
}

/// Reads a quoted string's remainder at `pos`, unescaping it; the exact
/// counterpart of `scan_string`.
fn exec_scan_string(s: &str, pos: usize) -> (r: Option<(String, usize)>)
    ensures
        match r {
            Some(t) => {
                &&& scan_string(s@, pos as int) == Some((t.0@, t.1 as int))
                &&& pos < t.1 <= s@.len()
            },
            None => scan_string(s@, pos as int) is None,
        },
{
    let n = s.unicode_len();
    if pos >= n {
        return None;
    }
    let mut out = String::new();
    let mut i: usize = pos;
    proof {
        assert(out@ =~= Seq::<char>::empty());
        lemma_scan_bounds(s@, pos as int);
        match scan_string(s@, pos as int) {
            Some(te) => {
                assert(out@ + te.0 =~= te.0);
                assert(scan_string(s@, pos as int) == Some((te.0, te.1)));
            },
            None => {},
        }
    }
    while i < n
        invariant
            n == s@.len(),
            pos <= i <= n,
            match scan_string(s@, i as int) {
                Some(te) => scan_string(s@, pos as int) == Some((out@ + te.0, te.1)) && te.1
                    <= s@.len() && i < te.1,
                None => scan_string(s@, pos as int) is None,
            },
        decreases n - i,
    {
        let c = s.get_char(i);
        if c == '"' {
            proof {
                assert(scan_string(s@, i as int) == Some((Seq::<char>::empty(), i + 1)));
                assert(out@ + Seq::<char>::empty() =~= out@);
            }
            return Some((out, i + 1));
        }
        if c == '\\' {
            if i + 1 >= n {
                return None;
            }
            let ghost pre = out@;
            out.append(s.substring_char(i + 1, i + 2));
            proof {
                let cv = s@[i as int + 1];
                assert(s@.subrange(i as int + 1, i as int + 2) =~= seq![cv]);
                assert(out@ =~= pre + seq![cv]);
                lemma_scan_bounds(s@, i as int + 2);
                assert forall|t: Seq<char>, e: int|
                    scan_string(s@, i as int + 2) == Some((t, e)) implies (pre + seq![cv]) + t
                    =~= pre + (seq![cv] + t) by {}
            }
            i += 2;
        } else {
            let ghost pre = out@;
            out.append(s.substring_char(i, i + 1));
            proof {
                let cv = s@[i as int];
                assert(s@.subrange(i as int, i as int + 1) =~= seq![cv]);
                assert(out@ =~= pre + seq![cv]);
                lemma_scan_bounds(s@, i as int + 1);
                assert forall|t: Seq<char>, e: int|
                    scan_string(s@, i as int + 1) == Some((t, e)) implies (pre + seq![cv]) + t
                    =~= pre + (seq![cv] + t) by {}
            }
            i += 1;
        }
    }
    None
}

impl Node<SimpleItem> {
    /// Reads a document back into a tree of `SimpleItem` nodes: the exact
    /// inverse of `serialize_to_yaml`, re-deriving each node's parent and
    /// self handles by replaying the same child wiring used at construction
    /// time. `None` when the text is not a whole document of this format.
    pub fn from_yaml(s: &str) -> (r: Option<Node<SimpleItem>>)
        ensures
            match r {
                Some(n) => parse_node(s@, 0) == Some((n@, s@.len() as int)),
                None => match parse_node(s@, 0) {
                    Some(ve) => ve.1 != s@.len(),
                    None => true,
                },
            },
    {
        let n = s.unicode_len();
        match exec_parse_node(s, 0) {
            None => None,
            Some((node, e)) => {
                if e == n {
                    Some(node)
                } else {
                    None
                }
            },
        }
    }
}

/// Reads one node record at `pos`; the exact counterpart of `parse_node`.
fn exec_parse_node(s: &str, pos: usize) -> (r: Option<(Node<SimpleItem>, usize)>)
    ensures
        match r {
            Some(t) => {
                &&& parse_node(s@, pos as int) == Some((t.0@, t.1 as int))
                &&& pos < t.1 <= s@.len()
            },
            None => parse_node(s@, pos as int) is None,
        },
    decreases s@.len() - pos, 0int,
{
    proof {
        lemma_literal_views();
    }
    let n = s.unicode_len();
    if !exec_lit_at(s, pos, "{\"item\":{\"name\":\"") {
        return None;
    }
    let p1 = pos + 17;
    proof {
        assert(lit_head().len() == 17);
    }
    let (name, p2) = match exec_scan_string(s, p1) {
        None => {
            return None;
        },
        Some(t) => t,
    };
    if !exec_lit_at(s, p2 - 1, "\",\"namespace\":\"") {
        return None;
    }
    let p3 = p2 - 1 + 15;
    proof {
        assert(lit_mid().len() == 15);
    }
    let (namespace, p4) = match exec_scan_string(s, p3) {
        None => {
            return None;
        },
        Some(t) => t,
    };
    if !exec_lit_at(s, p4 - 1, "\"},\"children\":[") {
        return None;
    }
    let p5 = p4 - 1 + 15;
    proof {
        assert(lit_tail().len() == 15);
    }
    let (children, p6) = match exec_parse_children(s, p5) {
        None => {
            return None;
        },
        Some(t) => t,
    };
    if p6 < n && s.get_char(p6) == '}' {
        let item = SimpleItem::new(name, namespace);
        let node = Node { item, children };
        proof {
            lemma_child_views_upto(node.children@, node.children@.len() as int);
            assert(node@ =~= (NodeView {
                name: node.item.spec_name(),
                namespace: node.item.spec_namespace(),
                children: child_views_upto(node.children@, node.children@.len() as int),
            }));
        }
        Some((node, p6 + 1))
    } else {
        None
    }
}

/// Reads a children list at `pos`; the exact counterpart of
/// `parse_children`.
fn exec_parse_children(s: &str, pos: usize) -> (r: Option<(Vec<Node<SimpleItem>>, usize)>)
    ensures
        match r {
            Some(t) => {
                &&& parse_children(s@, pos as int) == Some(
                    (child_views_upto(t.0@, t.0@.len() as int), t.1 as int),
                )
                &&& pos < t.1 <= s@.len()
            },
            None => parse_children(s@, pos as int) is None,
        },
    decreases s@.len() - pos, 1int,
{
    let n = s.unicode_len();
    if pos >= n {
        return None;
    }
    if s.get_char(pos) == ']' {
        let empty: Vec<Node<SimpleItem>> = Vec::new();
        proof {
            assert(child_views_upto(empty@, empty@.len() as int) =~= Seq::<NodeView>::empty());
        }
        return Some((empty, pos + 1));
    }
    let (first, e) = match exec_parse_node(s, pos) {
        None => {
            return None;
        },
        Some(t) => t,
    };
    if e >= n {
        return None;
    }
    let c = s.get_char(e);
    if c == ']' {
        let mut cs: Vec<Node<SimpleItem>> = Vec::new();
        cs.push(first);
        proof {
            lemma_child_views_upto(cs@, cs@.len() as int);
            assert(child_views_upto(cs@, cs@.len() as int) =~= seq![cs@[0]@]);
        }
        Some((cs, e + 1))
    } else if c == ',' {
        let (rest, e2) = match exec_parse_children(s, e + 1) {
            None => {
                return None;
            },
            Some(t) => t,
        };
        let mut cs: Vec<Node<SimpleItem>> = Vec::new();
        cs.push(first);
        let ghost firstv = cs@[0]@;
        let mut tail = rest;
        let ghost tailv = child_views_upto(tail@, tail@.len() as int);
        proof {
            lemma_child_views_upto(tail@, tail@.len() as int);
        }
        cs.append(&mut tail);
        proof {
            lemma_child_views_upto(cs@, cs@.len() as int);
            assert(child_views_upto(cs@, cs@.len() as int) =~= seq![firstv] + tailv);
        }
        Some((cs, e2))
    } else {
        None
    }
}

/// Law: reading a document back yields exactly the tree it was written
/// from, so writing, reading and writing again yields the same document.
pub proof fn lemma_round_trip(v: NodeView)
    ensures
        parse_node(ser_node(v), 0) == Some((v, ser_node(v).len() as int)),
{
    assert(ser_node(v).subrange(0, ser_node(v).len() as int) =~= ser_node(v));
    lemma_parse_node_ser(ser_node(v), 0, v);
}

} // verus!
