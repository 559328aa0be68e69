use vstd::prelude::*;
use vstd::bytes::{spec_u64_to_le_bytes, spec_u64_from_le_bytes, u64_to_le_bytes,
    lemma_auto_spec_u64_to_from_le_bytes};
use vstd::utf8::{encode_utf8, decode_utf8, valid_utf8};
use vstd::string::StrSliceExecFns;
use crate::scanner::{Node, NodeView, view_of, views_of, view_name, lemma_views_of};

verus! {

/// The first byte of an encoded file node.
pub const TAG_FILE: u8 = 0;

/// The first byte of an encoded directory node.
pub const TAG_DIR: u8 = 1;

/// The encoding of a character string: its UTF-8 byte length as eight
/// little-endian bytes, then its UTF-8 bytes.
pub open spec fn enc_str(s: Seq<char>) -> Seq<u8> {
    spec_u64_to_le_bytes(encode_utf8(s).len() as u64) + encode_utf8(s)
}

/// The snapshot encoding of one node: a tag byte, the encoded name, then
/// either the encoded digest or the child count as eight little-endian bytes
/// followed by the children's encodings in order.
pub open spec fn enc(v: NodeView) -> Seq<u8>
    decreases v, 0int,
{
    match v {
        NodeView::File { name, md5 } => seq![TAG_FILE] + enc_str(name) + enc_str(md5),
        NodeView::Directory { name, children } => seq![TAG_DIR] + enc_str(name)
            + spec_u64_to_le_bytes(children.len() as u64) + enc_tail(children, 0),
    }
}

/// The encodings of the children from index `i` on, one after the other.
pub open spec fn enc_tail(cs: Seq<NodeView>, i: int) -> Seq<u8>
    decreases cs, cs.len() - i,
{
    if i < 0 || i >= cs.len() {
        Seq::empty()
    } else {
        enc(cs[i]) + enc_tail(cs, i + 1)
    }
}

/// Every length the encoding writes as eight bytes actually fits in them.
/// Trees built in memory always satisfy this.
pub open spec fn vbounded(v: NodeView) -> bool
    decreases v,
{
    match v {
        NodeView::File { name, md5 } => encode_utf8(name).len() < 0x10000000000000000
            && encode_utf8(md5).len() < 0x10000000000000000,
        NodeView::Directory { name, children } => encode_utf8(name).len() < 0x10000000000000000
            && children.len() < 0x10000000000000000 && forall|i: int|
            0 <= i < children.len() ==> vbounded(#[trigger] children[i]),
    }
}

/// Unique child names at every level of a shape; the counterpart of
/// [`crate::scanner::wf_node`] on shapes.
pub open spec fn vwf(v: NodeView) -> bool
    decreases v,
{
    match v {
        NodeView::File { .. } => true,
        NodeView::Directory { children, .. } => {
            &&& forall|i: int, j: int|
                0 <= i < j < children.len() ==> view_name(#[trigger] children[i]) != view_name(
                    #[trigger] children[j],
                )
            &&& forall|i: int| 0 <= i < children.len() ==> vwf(#[trigger] children[i])
        },
    }
}

/// A tree is well formed exactly when its shape is.
pub proof fn lemma_wf_view(n: Node)
    ensures
        crate::scanner::wf_node(n) <==> vwf(view_of(n)),
    decreases n,
{
    match n {
        Node::File { .. } => {},
        Node::Directory { name, children } => {
            let vs = views_of(children@);
            crate::scanner::lemma_views_names(children@);
            assert forall|i: int| 0 <= i < children@.len() implies (crate::scanner::wf_node(
                children@[i],
            ) <==> vwf(#[trigger] vs[i])) by {
                lemma_wf_view(children@[i]);
            }
            if crate::scanner::wf_node(n) {
                assert forall|i: int, j: int| 0 <= i < j < vs.len() implies view_name(vs[i])
                    != view_name(vs[j]) by {
                    assert(crate::scanner::node_name(children@[i]) != crate::scanner::node_name(
                        children@[j],
                    ));
                }
                assert(vwf(view_of(n)));
            }
            if vwf(view_of(n)) {
                assert(view_of(n) == (NodeView::Directory { name: name@, children: vs }));
                assert(vwf(NodeView::Directory { name: name@, children: vs }));
                assert forall|i: int, j: int|
                    0 <= i < j < children@.len() implies crate::scanner::node_name(children@[i])
                    != crate::scanner::node_name(children@[j]) by {
                    assert(0 <= i < j < vs.len());
                    assert(view_name(view_of(n)->Directory_children[i]) != view_name(
                        view_of(n)->Directory_children[j],
                    ));
                    assert(view_of(n)->Directory_children == vs);
                }
                assert forall|i: int| 0 <= i < children@.len() implies crate::scanner::wf_node(
                    #[trigger] children@[i],
                ) by {
                    assert(vwf(view_of(n)->Directory_children[i]));
                    assert(view_of(n)->Directory_children == vs);
                }
                assert(crate::scanner::wf_node(n));
            }
        },
    }
}

/// A window of a larger window of a byte string is the same window of the
/// extracted bytes.
proof fn lemma_sub_sub(b: Seq<u8>, pos: int, len: int, a: int, c: int)
    requires
        0 <= pos,
        pos + len <= b.len(),
        0 <= a <= c <= len,
    ensures
        b.subrange(pos + a, pos + c) == b.subrange(pos, pos + len).subrange(a, c),
{
    assert(b.subrange(pos + a, pos + c) =~= b.subrange(pos, pos + len).subrange(a, c));
}

/// Parse an encoded string at `pos`: the length, then that many bytes,
/// which must be valid UTF-8.
pub open spec fn parse_str(b: Seq<u8>, pos: int) -> Option<(Seq<char>, int)> {
    if pos < 0 || pos + 8 > b.len() {
        Option::None
    } else {
        let l = spec_u64_from_le_bytes(b.subrange(pos, pos + 8)) as int;
        if pos + 8 + l > b.len() {
            Option::None
        } else if valid_utf8(b.subrange(pos + 8, pos + 8 + l)) {
            Option::Some((decode_utf8(b.subrange(pos + 8, pos + 8 + l)), pos + 8 + l))
        } else {
            Option::None
        }
    }
}

/// Parse one encoded node at `pos`, yielding its shape and the position
/// just past it; anything that is not an exact encoding yields nothing.
pub open spec fn parse_node(b: Seq<u8>, pos: int) -> Option<(NodeView, int)>
    decreases b.len() - pos, 0int,
{
    if pos < 0 || pos >= b.len() {
        Option::None
    } else if b[pos] == TAG_FILE {
        match parse_str(b, pos + 1) {
            Option::None => Option::None,
            Option::Some((name, p1)) => match parse_str(b, p1) {
                Option::None => Option::None,
                Option::Some((md5, p2)) => Option::Some((NodeView::File { name, md5 }, p2)),
            },
        }
    } else if b[pos] == TAG_DIR {
        match parse_str(b, pos + 1) {
            Option::None => Option::None,
            Option::Some((name, p1)) => {
                if p1 < pos || p1 + 8 > b.len() {
                    Option::None
                } else {
                    let k = spec_u64_from_le_bytes(b.subrange(p1, p1 + 8)) as int;
                    match parse_children(b, p1 + 8, k) {
                        Option::None => Option::None,
                        Option::Some((cs, p2)) => Option::Some(
                            (NodeView::Directory { name, children: cs }, p2),
                        ),
                    }
                }
            },
        }
    } else {
        Option::None
    }
}

/// Parse exactly `k` encoded nodes, one after the other.
pub open spec fn parse_children(b: Seq<u8>, pos: int, k: int) -> Option<(Seq<NodeView>, int)>
    decreases b.len() - pos, k,
{
    if pos < 0 || pos > b.len() || k < 0 {
        Option::None
    } else if k == 0 {
        Option::Some((Seq::empty(), pos))
    } else {
        match parse_node(b, pos) {
            Option::None => Option::None,
            Option::Some((v, p2)) => {
                if p2 <= pos || p2 > b.len() {
                    Option::None
                } else {
                    match parse_children(b, p2, k - 1) {
                        Option::None => Option::None,
                        Option::Some((cs, p3)) => Option::Some((seq![v] + cs, p3)),
                    }
                }
            },
        }
    }
}

/// An encoding is never empty: it starts with its tag byte.
pub proof fn lemma_enc_len(v: NodeView)
    ensures
        enc(v).len() >= 1,
{
    match v {
        NodeView::File { name, md5 } => {},
        NodeView::Directory { name, children } => {},
    }
}

/// Parsing an embedded encoded string finds exactly that string.
pub proof fn lemma_parse_str_of_enc(s: Seq<char>, b: Seq<u8>, pos: int)
    requires
        0 <= pos,
        encode_utf8(s).len() < 0x10000000000000000,
        pos + enc_str(s).len() <= b.len(),
        b.subrange(pos, pos + enc_str(s).len() as int) == enc_str(s),
    ensures
        parse_str(b, pos) == Option::Some((s, pos + enc_str(s).len() as int)),
{
    broadcast use vstd::utf8::encode_utf8_valid_utf8, vstd::utf8::encode_utf8_decode_utf8;

    lemma_auto_spec_u64_to_from_le_bytes();
    let eb = encode_utf8(s);
    let l = eb.len() as int;
    let es = enc_str(s);
    assert(spec_u64_to_le_bytes(l as u64).len() == 8);
    assert(es.len() == 8 + l);
    lemma_sub_sub(b, pos, es.len() as int, 0, 8);
    assert(es.subrange(0, 8) =~= spec_u64_to_le_bytes(l as u64));
    assert(spec_u64_from_le_bytes(b.subrange(pos, pos + 8)) == l as u64);
    assert((l as u64) as int == l);
    lemma_sub_sub(b, pos, es.len() as int, 8, 8 + l);
    assert(es.subrange(8, 8 + l) =~= eb);
    assert(b.subrange(pos + 8, pos + 8 + l) == eb);
    assert(valid_utf8(eb));
    assert(decode_utf8(eb) == s);
}

/// Parsing an embedded encoded node finds exactly that node's shape.
pub proof fn lemma_parse_of_enc(v: NodeView, b: Seq<u8>, pos: int)
    requires
        vbounded(v),
        0 <= pos,
        pos + enc(v).len() <= b.len(),
        b.subrange(pos, pos + enc(v).len() as int) == enc(v),
    ensures
        parse_node(b, pos) == Option::Some((v, pos + enc(v).len() as int)),
    decreases v, 0int,
{
    let ev = enc(v);
    lemma_enc_len(v);
    match v {
        NodeView::File { name, md5 } => {
            let es1 = enc_str(name);
            let es2 = enc_str(md5);
            assert(ev.len() == 1 + es1.len() + es2.len());
            lemma_sub_sub(b, pos, ev.len() as int, 0, 1);
            assert(ev.subrange(0, 1) =~= seq![TAG_FILE]);
            assert(b[pos] == b.subrange(pos, pos + 1)[0]);
            assert(b[pos] == TAG_FILE);
            lemma_sub_sub(b, pos, ev.len() as int, 1, 1 + es1.len() as int);
            assert(ev.subrange(1, 1 + es1.len() as int) =~= es1);
            lemma_parse_str_of_enc(name, b, pos + 1);
            let p1 = pos + 1 + es1.len() as int;
            lemma_sub_sub(b, pos, ev.len() as int, 1 + es1.len() as int, ev.len() as int);
            assert(ev.subrange(1 + es1.len() as int, ev.len() as int) =~= es2);
            lemma_parse_str_of_enc(md5, b, p1);
        },
        NodeView::Directory { name, children } => {
            let es1 = enc_str(name);
            let k = children.len() as int;
            let kb = spec_u64_to_le_bytes(children.len() as u64);
            let tail = enc_tail(children, 0);
            lemma_auto_spec_u64_to_from_le_bytes();
            assert(kb.len() == 8);
            assert(ev.len() == 1 + es1.len() + 8 + tail.len());
            lemma_sub_sub(b, pos, ev.len() as int, 0, 1);
            assert(ev.subrange(0, 1) =~= seq![TAG_DIR]);
            assert(b[pos] == b.subrange(pos, pos + 1)[0]);
            assert(b[pos] == TAG_DIR);
            lemma_sub_sub(b, pos, ev.len() as int, 1, 1 + es1.len() as int);
            assert(ev.subrange(1, 1 + es1.len() as int) =~= es1);
            lemma_parse_str_of_enc(name, b, pos + 1);
            let p1 = pos + 1 + es1.len() as int;
            lemma_sub_sub(b, pos, ev.len() as int, 1 + es1.len() as int, 1 + es1.len() as int + 8);
            assert(ev.subrange(1 + es1.len() as int, 1 + es1.len() as int + 8) =~= kb);
            assert(spec_u64_from_le_bytes(b.subrange(p1, p1 + 8)) as int == k);
            lemma_sub_sub(b, pos, ev.len() as int, 1 + es1.len() as int + 8, ev.len() as int);
            assert(ev.subrange(1 + es1.len() as int + 8, ev.len() as int) =~= tail);
            lemma_parse_children_of_enc(children, 0, b, p1 + 8);
            assert(children.skip(0) =~= children);
        },
    }
}

/// Parsing the children encoded from index `i` on finds exactly those
/// children.
pub proof fn lemma_parse_children_of_enc(cs: Seq<NodeView>, i: int, b: Seq<u8>, pos: int)
    requires
        0 <= i <= cs.len(),
        forall|j: int| 0 <= j < cs.len() ==> vbounded(#[trigger] cs[j]),
        0 <= pos,
        pos + enc_tail(cs, i).len() <= b.len(),
        b.subrange(pos, pos + enc_tail(cs, i).len() as int) == enc_tail(cs, i),
    ensures
        parse_children(b, pos, cs.len() - i) == Option::Some(
            (cs.skip(i), pos + enc_tail(cs, i).len() as int),
        ),
    decreases cs, cs.len() - i,
{
    if i == cs.len() {
        assert(cs.skip(i) =~= Seq::<NodeView>::empty());
    } else {
        let e0 = enc(cs[i]);
        let rest = enc_tail(cs, i + 1);
        let et = enc_tail(cs, i);
        assert(et == e0 + rest);
        lemma_sub_sub(b, pos, et.len() as int, 0, e0.len() as int);
        assert(et.subrange(0, e0.len() as int) =~= e0);
        lemma_parse_of_enc(cs[i], b, pos);
        lemma_enc_len(cs[i]);
        let p2 = pos + e0.len() as int;
        lemma_sub_sub(b, pos, et.len() as int, e0.len() as int, et.len() as int);
        assert(et.subrange(e0.len() as int, et.len() as int) =~= rest);
        lemma_parse_children_of_enc(cs, i + 1, b, p2);
        assert(seq![cs[i]] + cs.skip(i + 1) =~= cs.skip(i));
    }
}

/// Decoding an encoded tree yields that tree back: the encoder and the
/// parser compose to the identity on every bounded shape.
pub proof fn lemma_round_trip(v: NodeView)
    requires
        vbounded(v),
    ensures
        parse_node(enc(v), 0) == Option::Some((v, enc(v).len() as int)),
{
    assert(enc(v).subrange(0, enc(v).len() as int) =~= enc(v));
    lemma_parse_of_enc(v, enc(v), 0);
}

/// Append an encoded string to the output.
fn push_str_enc(out: &mut Vec<u8>, s: &str)
    ensures
        final(out)@ == old(out)@ + enc_str(s@),
        encode_utf8(s@).len() < 0x10000000000000000,
{
    let ghost base = out@;
    let mut bs = s.as_bytes_vec();
    let l: u64 = bs.len() as u64;
    let mut lb = u64_to_le_bytes(l);
    out.append(&mut lb);
    out.append(&mut bs);
    proof {
        assert(out@ =~= base + enc_str(s@));
    }
}

/// Encode one node onto the end of the output; mirrors [`enc`] exactly.
#[verifier::loop_isolation(false)]
fn encode_into(n: &Node, out: &mut Vec<u8>)
    ensures
        final(out)@ == old(out)@ + enc(view_of(*n)),
        vbounded(view_of(*n)),
    decreases *n,
{
    let ghost base = out@;
    match n {
        Node::File { name, md5 } => {
            out.push(TAG_FILE);
            push_str_enc(out, name.as_str());
            push_str_enc(out, md5.as_str());
            proof {
                assert(out@ =~= base + enc(view_of(*n)));
            }
        },
        Node::Directory { name, children } => {
            out.push(TAG_DIR);
            push_str_enc(out, name.as_str());
            let mut kb = u64_to_le_bytes(children.len() as u64);
            out.append(&mut kb);
            let ghost mid = out@;
            let ghost vcs = views_of(children@);
            proof {
                lemma_views_of(children@);
            }
            let mut i: usize = 0;
            while i < children.len()
                invariant
                    i <= children@.len(),
                    out@ + enc_tail(vcs, i as int) == mid + enc_tail(vcs, 0),
                    forall|j: int| 0 <= j < i ==> vbounded(#[trigger] vcs[j]),
                decreases children@.len() - i,
            {
                let ghost out_pre = out@;
                proof {
                    assert(*children == n->Directory_children);
                    assert(decreases_to!(*n => n->Directory_children));
                    assert(decreases_to!(*children => children@));
                    assert(decreases_to!(children@ => children@[i as int]));
                }
                encode_into(&children[i], out);
                proof {
                    assert(enc_tail(vcs, i as int) == enc(vcs[i as int]) + enc_tail(
                        vcs,
                        i as int + 1,
                    ));
                    assert(out@ + enc_tail(vcs, i as int + 1) =~= out_pre + enc_tail(
                        vcs,
                        i as int,
                    ));
                }
                i = i + 1;
            }
            proof {
                assert(enc_tail(vcs, children@.len() as int) =~= Seq::<u8>::empty());
                assert(out@ =~= mid + enc_tail(vcs, 0));
                assert(out@ =~= base + enc(view_of(*n)));
                assert(children@.len() < 0x10000000000000000);
                assert(vbounded(view_of(*n)));
            }
        },
    }
}

/// Encode a tree as a portable snapshot: a byte string that
/// [`crate::deserializer::decode_node`] turns back into an equal tree.
pub fn encode_node(n: &Node) -> (r: Vec<u8>)
    ensures
        r@ == enc(view_of(*n)),
        vbounded(view_of(*n)),
{
    let mut out: Vec<u8> = Vec::new();
    encode_into(n, &mut out);
    proof {
        assert(out@ =~= enc(view_of(*n)));
    }
    out
}

} // verus!
