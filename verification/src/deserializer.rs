use vstd::prelude::*;
use vstd::bytes::u64_from_le_bytes;
use vstd::slice::{slice_subrange, slice_to_vec};
use vstd::utf8::{encode_utf8, decode_utf8, valid_utf8};
use crate::errors::TreeError;
use crate::scanner::{Node, node_name, wf_node, view_of, views_of, lemma_views_of_push};
use crate::serializer::{TAG_FILE, TAG_DIR, parse_str, parse_node, parse_children, vwf,
    lemma_wf_view};

verus! {

/// Relies on std's String::from_utf8: it succeeds exactly on valid UTF-8
/// input, and returns the string that those bytes encode.
#[verifier::external_body]
fn bytes_to_string(v: Vec<u8>) -> (r: Option<String>)
    ensures
        r is Some <==> valid_utf8(v@),
        r is Some ==> encode_utf8(r->0@) == v@,
{
    match String::from_utf8(v) {
        Ok(s) => Some(s),
        Err(_) => None,
    }
}

/// Read one length-prefixed string at `pos`; mirrors [`parse_str`] exactly.
fn parse_str_at(bytes: &Vec<u8>, pos: usize) -> (r: Option<(String, usize)>)
    ensures
        match parse_str(bytes@, pos as int) {
            Option::Some(sp) => r is Some && (r->0).0@ == sp.0 && (r->0).1 == sp.1,
            Option::None => r is None,
        },
{
    if bytes.len() < 8 || pos > bytes.len() - 8 {
        return None;
    }
    let lslice = slice_subrange(bytes.as_slice(), pos, pos + 8);
    let l64 = u64_from_le_bytes(lslice);
    let rem = bytes.len() - (pos + 8);
    if l64 > rem as u64 {
        return None;
    }
    let l = l64 as usize;
    let sslice = slice_subrange(bytes.as_slice(), pos + 8, pos + 8 + l);
    let sv = slice_to_vec(sslice);
    match bytes_to_string(sv) {
        Some(s) => {
            proof {
                broadcast use vstd::utf8::encode_utf8_decode_utf8;

                assert(decode_utf8(encode_utf8(s@)) == s@);
            }
            Some((s, pos + 8 + l))
        },
        None => None,
    }
}

/// Read one encoded node at `pos`; mirrors [`parse_node`] exactly.
#[verifier::loop_isolation(false)]
fn parse_node_at(bytes: &Vec<u8>, pos: usize) -> (r: Option<(Node, usize)>)
    ensures
        match parse_node(bytes@, pos as int) {
            Option::Some(vp) => r is Some && view_of((r->0).0) == vp.0 && (r->0).1 == vp.1,
            Option::None => r is None,
        },
    decreases bytes@.len() - pos, 0int,
{
    if pos >= bytes.len() {
        return None;
    }
    let tag = bytes[pos];
    if tag == TAG_FILE {
        match parse_str_at(bytes, pos + 1) {
            Some((name, p1)) => match parse_str_at(bytes, p1) {
                Some((md5, p2)) => Some((Node::File { name, md5 }, p2)),
                None => None,
            },
            None => None,
        }
    } else if tag == TAG_DIR {
        match parse_str_at(bytes, pos + 1) {
            Some((name, p1)) => {
                if bytes.len() < 8 || p1 > bytes.len() - 8 {
                    return None;
                }
                let kslice = slice_subrange(bytes.as_slice(), p1, p1 + 8);
                let k64 = u64_from_le_bytes(kslice);
                match parse_children_at(bytes, p1 + 8, k64) {
                    Some((children, p2)) => Some((Node::Directory { name, children }, p2)),
                    None => None,
                }
            },
            None => None,
        }
    } else {
        None
    }
}

/// Read exactly `k` encoded nodes from `pos` on; mirrors [`parse_children`]
/// exactly.
#[verifier::loop_isolation(false)]
fn parse_children_at(bytes: &Vec<u8>, pos: usize, k: u64) -> (r: Option<(Vec<Node>, usize)>)
    ensures
        match parse_children(bytes@, pos as int, k as int) {
            Option::Some(cp) => r is Some && views_of((r->0).0@) == cp.0 && (r->0).1 == cp.1,
            Option::None => r is None,
        },
    decreases bytes@.len() - pos, 1int,
{
    if pos > bytes.len() {
        return None;
    }
    let mut acc: Vec<Node> = Vec::new();
    let mut cur = pos;
    let mut i: u64 = 0;
    proof {
        assert(views_of(acc@) =~= Seq::<crate::scanner::NodeView>::empty());
    }
    while i < k
        invariant
            i <= k,
            pos <= cur <= bytes@.len(),
            parse_children(bytes@, pos as int, k as int) == (match parse_children(
                bytes@,
                cur as int,
                k as int - i as int,
            ) {
                Option::None => Option::None::<(Seq<crate::scanner::NodeView>, int)>,
                Option::Some(cp) => Option::Some((views_of(acc@) + cp.0, cp.1)),
            }),
        decreases k - i,
    {
        let ghost acc0 = acc@;
        match parse_node_at(bytes, cur) {
            Some((node, p2)) => {
                if p2 <= cur || p2 > bytes.len() {
                    return None;
                }
                acc.push(node);
                proof {
                    lemma_views_of_push(acc0, node);
                    assert forall|cs: Seq<crate::scanner::NodeView>, p: int|
                        parse_children(bytes@, p2 as int, k as int - i as int - 1)
                            == Option::Some((cs, p)) implies views_of(acc@) + cs == views_of(acc0)
                        + (seq![view_of(node)] + cs) by {
                        assert(views_of(acc@) + cs =~= views_of(acc0) + (seq![view_of(node)]
                            + cs));
                    }
                }
                cur = p2;
            },
            None => {
                return None;
            },
        }
        i = i + 1;
    }
    proof {
        assert(parse_children(bytes@, cur as int, 0) == Option::Some(
            (Seq::<crate::scanner::NodeView>::empty(), cur as int),
        ));
        assert(views_of(acc@) + Seq::<crate::scanner::NodeView>::empty() =~= views_of(acc@));
    }
    Some((acc, cur))
}

/// Whether a tree is well formed: every directory's children unique by name.
#[verifier::loop_isolation(false)]
pub fn is_wf(n: &Node) -> (r: bool)
    ensures
        r == wf_node(*n),
    decreases *n,
{
    match n {
        Node::File { .. } => true,
        Node::Directory { children, .. } => {
            let mut i: usize = 0;
            while i < children.len()
                invariant
                    i <= children@.len(),
                    forall|p: int, q: int|
                        0 <= p < q < i ==> node_name(children@[p]) != node_name(children@[q]),
                    forall|p: int| 0 <= p < i ==> wf_node(#[trigger] children@[p]),
                decreases children@.len() - i,
            {
                let mut j: usize = 0;
                while j < i
                    invariant
                        j <= i <= children@.len(),
                        forall|q: int|
                            0 <= q < j ==> node_name(children@[q]) != node_name(
                                children@[i as int],
                            ),
                    decreases i - j,
                {
                    if *children[j].name_ref() == *children[i].name_ref() {
                        return false;
                    }
                    j = j + 1;
                }
                proof {
                    assert(*children == n->Directory_children);
                    assert(decreases_to!(*n => n->Directory_children));
                    assert(decreases_to!(*children => children@));
                    assert(decreases_to!(children@ => children@[i as int]));
                }
                if !is_wf(&children[i]) {
                    return false;
                }
                i = i + 1;
            }
            true
        },
    }
}

/// Round trip: the snapshot encoded from a well-formed tree parses back to
/// exactly that tree's shape, consuming every byte, and the shape passes the
/// well-formedness check — so [`decode_node`] returns an equal tree.
pub proof fn lemma_snapshot_round_trip(n: Node)
    requires
        wf_node(n),
        crate::serializer::vbounded(view_of(n)),
    ensures
        parse_node(crate::serializer::enc(view_of(n)), 0) == Option::Some(
            (view_of(n), crate::serializer::enc(view_of(n)).len() as int),
        ),
        vwf(view_of(n)),
{
    crate::serializer::lemma_round_trip(view_of(n));
    lemma_wf_view(n);
}

/// Decode a snapshot produced by [`crate::serializer::encode_node`].
///
/// Exactly the byte strings that parse as one whole well-formed tree are
/// accepted; anything else is rejected as a corrupt snapshot rather than
/// returned as a damaged tree.
pub fn decode_node(bytes: &Vec<u8>) -> (r: Result<Node, TreeError>)
    ensures
        match parse_node(bytes@, 0) {
            Option::Some(vp) => {
                if vp.1 == bytes@.len() && vwf(vp.0) {
                    r is Ok && view_of(r->Ok_0) == vp.0 && wf_node(r->Ok_0)
                } else {
                    r == Result::<Node, TreeError>::Err(TreeError::CorruptSnapshot)
                }
            },
            Option::None => r == Result::<Node, TreeError>::Err(TreeError::CorruptSnapshot),
        },
{
    match parse_node_at(bytes, 0) {
        Some((node, p)) => {
            if p != bytes.len() {
                return Err(TreeError::CorruptSnapshot);
            }
            let ok = is_wf(&node);
            proof {
                lemma_wf_view(node);
            }
            if ok {
                Ok(node)
            } else {
                Err(TreeError::CorruptSnapshot)
            }
        },
        None => Err(TreeError::CorruptSnapshot),
    }
}

} // verus!
