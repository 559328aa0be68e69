use vstd::prelude::*;
use vstd::string::StringExecFns;
use crate::errors::TreeError;
use crate::filter::{Matcher, opt_pat, is_excluded, excluded, pat_of, pattern_ok, compile_pattern};

verus! {

/// The mathematical shape of a tree: names and digests as character
/// sequences, children in the order they stand in the node.
pub enum NodeView {
    File { name: Seq<char>, md5: Seq<char> },
    Directory { name: Seq<char>, children: Seq<NodeView> },
}

/// The hexadecimal content digest of a byte sequence, as computed by the
/// digest function the scanner relies on.
pub uninterp spec fn digest_of(bytes: Seq<u8>) -> Seq<char>;

/// Relies on md5::compute and the lower-hex rendering of its digest: the
/// result is a function of the input bytes alone, the same on every run and
/// machine.
#[verifier::external_body]
pub(crate) fn digest_hex(bytes: &Vec<u8>) -> (r: String)
    ensures
        r@ == digest_of(bytes@),
{
    format!("{:x}", md5::compute(bytes))
}

/// One entry of a modeled filesystem subtree: a regular file identified by
/// its name and the digest of its contents, or a directory with its named
/// children.
#[derive(Debug)]
pub enum Node {
    File { name: String, md5: String },
    Directory { name: String, children: Vec<Node> },
}

/// The name of a node, as a sequence of characters.
pub open spec fn node_name(n: Node) -> Seq<char> {
    match n {
        Node::File { name, .. } => name@,
        Node::Directory { name, .. } => name@,
    }
}

/// No two entries of the sequence carry the same name.
pub open spec fn unique_names(cs: Seq<Node>) -> bool {
    forall|i: int, j: int|
        0 <= i < j < cs.len() ==> node_name(cs[i]) != node_name(cs[j])
}

/// Well-formedness of a tree: within every directory, children are unique by
/// name. Scanning and decoding only ever build well-formed trees.
pub open spec fn wf_node(n: Node) -> bool
    decreases n,
{
    match n {
        Node::File { .. } => true,
        Node::Directory { children, .. } => {
            &&& unique_names(children@)
            &&& forall|i: int|
                0 <= i < children@.len() ==> wf_node(#[trigger] children@[i])
        },
    }
}

/// The shape of a node: its names and digests, with children in order.
pub open spec fn view_of(n: Node) -> NodeView
    decreases n,
{
    match n {
        Node::File { name, md5 } => NodeView::File { name: name@, md5: md5@ },
        Node::Directory { name, children } => NodeView::Directory {
            name: name@,
            children: views_of(children@),
        },
    }
}

/// The shapes of a sequence of nodes, kept in order.
pub open spec fn views_of(cs: Seq<Node>) -> Seq<NodeView>
    decreases cs,
{
    if cs.len() == 0 {
        Seq::empty()
    } else {
        views_of(cs.drop_last()).push(view_of(cs.last()))
    }
}

/// `views_of` maps each node of the sequence to its shape.
pub proof fn lemma_views_of(cs: Seq<Node>)
    ensures
        views_of(cs).len() == cs.len(),
        forall|i: int| 0 <= i < cs.len() ==> views_of(cs)[i] == view_of(cs[i]),
    decreases cs.len(),
{
    if cs.len() > 0 {
        lemma_views_of(cs.drop_last());
    }
}

impl Node {
    /// The name of this entry (the final path segment it was scanned from).
    pub fn get_name(&self) -> (r: &str)
        ensures
            r@ == node_name(*self),
    {
        match self {
            Node::File { name, .. } => name.as_str(),
            Node::Directory { name, .. } => name.as_str(),
        }
    }

    /// The name of this entry, borrowed as a `String`.
    pub fn name_ref(&self) -> (r: &String)
        ensures
            r@ == node_name(*self),
    {
        match self {
            Node::File { name, .. } => name,
            Node::Directory { name, .. } => name,
        }
    }
}

/// An in-memory description of one filesystem entry, as the caller that
/// performs the I/O hands it to the scanner: a regular file with its raw
/// bytes, a directory with its immediate members, or an entry of any other
/// kind (special file, missing path, broken link).
pub enum FsEntry {
    File { name: String, bytes: Vec<u8> },
    Dir { name: String, entries: Vec<FsEntry> },
    Other { name: String },
}

/// The name of a filesystem entry.
pub open spec fn entry_name(e: FsEntry) -> Seq<char> {
    match e {
        FsEntry::File { name, .. } => name@,
        FsEntry::Dir { name, .. } => name@,
        FsEntry::Other { name } => name@,
    }
}

impl FsEntry {
    /// The name of this entry, borrowed as a `String`.
    pub fn name_ref(&self) -> (r: &String)
        ensures
            r@ == entry_name(*self),
    {
        match self {
            FsEntry::File { name, .. } => name,
            FsEntry::Dir { name, .. } => name,
            FsEntry::Other { name } => name,
        }
    }
}

/// The name of a node shape.
pub open spec fn view_name(v: NodeView) -> Seq<char> {
    match v {
        NodeView::File { name, .. } => name,
        NodeView::Directory { name, .. } => name,
    }
}

/// Whether some shape of the sequence carries the given name.
pub open spec fn vhas_name(cs: Seq<NodeView>, name: Seq<char>) -> bool {
    exists|i: int| 0 <= i < cs.len() && view_name(#[trigger] cs[i]) == name
}

/// An index of the sequence carrying the given name (meaningful only when
/// one exists; unique when names are unique).
pub open spec fn vidx_of(cs: Seq<NodeView>, name: Seq<char>) -> int {
    choose|i: int| 0 <= i < cs.len() && view_name(#[trigger] cs[i]) == name
}

/// Insert a shape into a children sequence keyed by its name: an entry that
/// already carries the name is replaced in place (last write wins), any other
/// name is appended.
pub open spec fn vupsert(cs: Seq<NodeView>, v: NodeView) -> Seq<NodeView> {
    if vhas_name(cs, view_name(v)) {
        cs.update(vidx_of(cs, view_name(v)), v)
    } else {
        cs.push(v)
    }
}

/// The full path of a directory member: the directory's path, a separator,
/// and the member's own name.
pub open spec fn child_path(path: Seq<char>, name: Seq<char>) -> Seq<char> {
    path + seq!['/'] + name
}

/// What scanning one entry yields: a file becomes a file node carrying the
/// digest of its bytes; a directory becomes a directory node whose children
/// are its scanned members, minus those whose full path the pattern excludes;
/// any other entry kind fails the whole scan.
pub open spec fn scan_spec(e: FsEntry, path: Seq<char>, pat: Option<Seq<char>>) -> Option<NodeView>
    decreases e,
{
    match e {
        FsEntry::File { name, bytes } => Option::Some(
            NodeView::File { name: name@, md5: digest_of(bytes@) },
        ),
        FsEntry::Dir { name, entries } => match scan_entries(entries@, path, pat) {
            Option::Some(cs) => Option::Some(NodeView::Directory { name: name@, children: cs }),
            Option::None => Option::None,
        },
        FsEntry::Other { .. } => Option::None,
    }
}

/// Scan the members of one directory at `path`, left to right: an excluded
/// member is skipped entirely, every other member is scanned and inserted by
/// name, and any failure aborts the whole scan.
pub open spec fn scan_entries(
    es: Seq<FsEntry>,
    path: Seq<char>,
    pat: Option<Seq<char>>,
) -> Option<Seq<NodeView>>
    decreases es,
{
    if es.len() == 0 {
        Option::Some(Seq::empty())
    } else {
        match scan_entries(es.drop_last(), path, pat) {
            Option::None => Option::None,
            Option::Some(cs) => {
                let e = es.last();
                let p = child_path(path, entry_name(e));
                if crate::filter::excluded(pat, p) {
                    Option::Some(cs)
                } else {
                    match scan_spec(e, p, pat) {
                        Option::None => Option::None,
                        Option::Some(v) => Option::Some(vupsert(cs, v)),
                    }
                }
            },
        }
    }
}

/// A node's shape carries the node's name.
pub proof fn lemma_view_name(n: Node)
    ensures
        view_name(view_of(n)) == node_name(n),
{
}

/// `views_of` maps each node to its shape, name for name.
pub proof fn lemma_views_names(cs: Seq<Node>)
    ensures
        views_of(cs).len() == cs.len(),
        forall|i: int| 0 <= i < cs.len() ==> views_of(cs)[i] == view_of(cs[i]),
        forall|i: int|
            0 <= i < cs.len() ==> view_name(#[trigger] views_of(cs)[i]) == node_name(cs[i]),
{
    lemma_views_of(cs);
    assert forall|i: int| 0 <= i < cs.len() implies view_name(#[trigger] views_of(cs)[i])
        == node_name(cs[i]) by {
        lemma_view_name(cs[i]);
    }
}

/// Replacing one node replaces exactly its shape.
pub proof fn lemma_views_of_update(cs: Seq<Node>, i: int, n: Node)
    requires
        0 <= i < cs.len(),
    ensures
        views_of(cs.update(i, n)) == views_of(cs).update(i, view_of(n)),
    decreases cs.len(),
{
    let upd = cs.update(i, n);
    if i == cs.len() - 1 {
        assert(upd.drop_last() =~= cs.drop_last());
        assert(views_of(upd) =~= views_of(cs).update(i, view_of(n))) by {
            lemma_views_of(cs);
            lemma_views_of(upd);
        }
    } else {
        assert(upd.drop_last() =~= cs.drop_last().update(i, n));
        lemma_views_of_update(cs.drop_last(), i, n);
        assert(views_of(upd) =~= views_of(cs).update(i, view_of(n))) by {
            lemma_views_of(cs);
            lemma_views_of(upd);
        }
    }
}

/// Appending one node appends exactly its shape.
pub proof fn lemma_views_of_push(cs: Seq<Node>, n: Node)
    ensures
        views_of(cs.push(n)) == views_of(cs).push(view_of(n)),
{
    assert(cs.push(n).drop_last() =~= cs);
    assert(cs.push(n).last() == n);
}

/// Once scanning some prefix of a directory's members has failed, scanning
/// all of them fails too.
pub proof fn lemma_scan_entries_prefix_none(
    es: Seq<FsEntry>,
    path: Seq<char>,
    pat: Option<Seq<char>>,
    k: int,
)
    requires
        0 <= k <= es.len(),
        scan_entries(es.subrange(0, k), path, pat) is None,
    ensures
        scan_entries(es, path, pat) is None,
    decreases es.len(),
{
    if k == es.len() {
        assert(es.subrange(0, k) =~= es);
    } else {
        assert(es.drop_last().subrange(0, k) =~= es.subrange(0, k));
        lemma_scan_entries_prefix_none(es.drop_last(), path, pat, k);
    }
}

/// The index of the first child carrying `name`, if any does.
pub(crate) fn find_child(children: &Vec<Node>, name: &String) -> (r: Option<usize>)
    ensures
        match r {
            Option::Some(i) => 0 <= i < children@.len() && node_name(children@[i as int])
                == name@ && forall|j: int| 0 <= j < i ==> node_name(children@[j]) != name@,
            Option::None => forall|j: int|
                0 <= j < children@.len() ==> node_name(children@[j]) != name@,
        },
{
    let mut i: usize = 0;
    while i < children.len()
        invariant
            i <= children@.len(),
            forall|j: int| 0 <= j < i ==> node_name(children@[j]) != name@,
        decreases children@.len() - i,
    {
        if *children[i].name_ref() == *name {
            return Option::Some(i);
        }
        i = i + 1;
    }
    Option::None
}

/// Insert a node into a children list keyed by its name: a child that
/// already carries the name is replaced in place, any other name is appended.
fn upsert_child(children: &mut Vec<Node>, n: Node)
    requires
        unique_names(old(children)@),
    ensures
        views_of(final(children)@) == vupsert(views_of(old(children)@), view_of(n)),
        unique_names(final(children)@),
        ((forall|k: int| 0 <= k < old(children)@.len() ==> wf_node(#[trigger] old(children)@[k]))
            && wf_node(n)) ==> (forall|k: int|
            0 <= k < final(children)@.len() ==> wf_node(#[trigger] final(children)@[k])),
{
    let ghost cs0 = children@;
    let ghost vs0 = views_of(cs0);
    proof {
        lemma_views_names(cs0);
        lemma_view_name(n);
    }
    let idx = find_child(children, n.name_ref());
    match idx {
        Option::Some(i) => {
            let ghost nm = node_name(n);
            proof {
                assert(vhas_name(vs0, view_name(view_of(n)))) by {
                    assert(view_name(vs0[i as int]) == nm);
                }
                // with unique names the chosen index is the found one
                let j = vidx_of(vs0, nm);
                assert(view_name(vs0[j]) == nm);
                assert(node_name(cs0[j]) == nm);
                assert(j == i as int);
                lemma_views_of_update(cs0, i as int, n);
            }
            children[i] = n;
            proof {
                assert(children@ =~= cs0.update(i as int, n));
                lemma_views_names(children@);
            }
        },
        Option::None => {
            proof {
                assert(!vhas_name(vs0, view_name(view_of(n)))) by {
                    assert forall|j: int| 0 <= j < vs0.len() implies view_name(#[trigger] vs0[j])
                        != node_name(n) by {
                        assert(node_name(cs0[j]) != node_name(n));
                    }
                }
                lemma_views_of_push(cs0, n);
            }
            children.push(n);
            proof {
                lemma_views_names(children@);
            }
        },
    }
}

/// The full path of a directory member as a string.
fn path_join(path: &str, name: &str) -> (r: String)
    ensures
        r@ == child_path(path@, name@),
{
    proof {
        reveal_strlit("/");
        assert("/"@ =~= seq!['/']);
    }
    let mut s = String::from_str(path);
    s.append("/");
    s.append(name);
    s
}

/// Scan one entry whose full path is `path`, under an already compiled
/// exclusion filter; mirrors [`scan_spec`] exactly.
#[verifier::loop_isolation(false)]
fn scan_entry(e: &FsEntry, path: &str, m: &Option<Matcher>) -> (r: Result<Node, TreeError>)
    ensures
        match scan_spec(*e, path@, opt_pat(m)) {
            Option::Some(v) => r is Ok && view_of(r->Ok_0) == v && wf_node(r->Ok_0),
            Option::None => r == Result::<Node, TreeError>::Err(TreeError::UnsupportedEntry),
        },
    decreases *e,
{
    match e {
        FsEntry::File { name, bytes } => {
            let md5 = digest_hex(bytes);
            Ok(Node::File { name: name.clone(), md5 })
        },
        FsEntry::Dir { name, entries } => {
            let mut children: Vec<Node> = Vec::new();
            let mut i: usize = 0;
            while i < entries.len()
                invariant
                    i <= entries@.len(),
                    unique_names(children@),
                    forall|k: int| 0 <= k < children@.len() ==> wf_node(#[trigger] children@[k]),
                    scan_entries(entries@.subrange(0, i as int), path@, opt_pat(m))
                        == Option::Some(views_of(children@)),
                decreases entries@.len() - i,
            {
                let ghost pre = entries@.subrange(0, i as int);
                let ghost cur = entries@.subrange(0, i as int + 1);
                proof {
                    assert(cur.drop_last() =~= pre);
                    assert(cur.last() == entries@[i as int]);
                }
                let ce = &entries[i];
                proof {
                    broadcast use vstd::std_specs::vec::group_vec_axioms;

                    assert(*entries == e->Dir_entries);
                    assert(decreases_to!(*e => e->Dir_entries));
                    assert(decreases_to!(*entries => entries@));
                    assert(decreases_to!(entries@ => entries@[i as int]));
                }
                let cp = path_join(path, ce.name_ref().as_str());
                if !is_excluded(m, cp.as_str()) {
                    match scan_entry(ce, cp.as_str(), m) {
                        Ok(node) => {
                            upsert_child(&mut children, node);
                        },
                        Err(err) => {
                            proof {
                                lemma_scan_entries_prefix_none(
                                    entries@,
                                    path@,
                                    opt_pat(m),
                                    i as int + 1,
                                );
                            }
                            return Err(err);
                        },
                    }
                }
                i = i + 1;
            }
            proof {
                assert(entries@.subrange(0, entries@.len() as int) =~= entries@);
            }
            Ok(Node::Directory { name: name.clone(), children })
        },
        FsEntry::Other { .. } => Err(TreeError::UnsupportedEntry),
    }
}

/// A name holds no path separator: it is one path segment, not a path.
pub open spec fn sep_free(name: Seq<char>) -> bool {
    forall|i: int| 0 <= i < name.len() ==> name[i] != '/'
}

/// Every name of the described subtree is a bare path segment, as names
/// enumerated from a filesystem always are.
pub open spec fn entry_names_sep_free(e: FsEntry) -> bool
    decreases e, 1int,
{
    match e {
        FsEntry::File { name, .. } => sep_free(name@),
        FsEntry::Dir { name, entries } => sep_free(name@) && entries_sep_free(entries@),
        FsEntry::Other { name } => sep_free(name@),
    }
}

/// Every name of every described subtree of the sequence is a bare segment.
pub open spec fn entries_sep_free(es: Seq<FsEntry>) -> bool
    decreases es, 0int,
{
    forall|i: int| 0 <= i < es.len() ==> entry_names_sep_free(#[trigger] es[i])
}

/// Every name of the shape is a bare path segment.
pub open spec fn view_names_sep_free(v: NodeView) -> bool
    decreases v, 1int,
{
    match v {
        NodeView::File { name, .. } => sep_free(name),
        NodeView::Directory { name, children } => sep_free(name) && views_sep_free(children),
    }
}

/// Every name of every shape of the sequence is a bare path segment.
pub open spec fn views_sep_free(cs: Seq<NodeView>) -> bool
    decreases cs, 0int,
{
    forall|i: int| 0 <= i < cs.len() ==> view_names_sep_free(#[trigger] cs[i])
}

/// A scan of a subtree whose names are bare path segments yields a tree
/// whose names are bare path segments: names pass through the scan as they
/// are.
pub proof fn lemma_scan_names_sep_free(e: FsEntry, path: Seq<char>, pat: Option<Seq<char>>)
    requires
        entry_names_sep_free(e),
        scan_spec(e, path, pat) is Some,
    ensures
        view_names_sep_free(scan_spec(e, path, pat)->0),
    decreases e, 1int,
{
    match e {
        FsEntry::File { .. } => {},
        FsEntry::Dir { name, entries } => {
            lemma_scan_entries_sep_free(entries@, path, pat);
        },
        FsEntry::Other { .. } => {},
    }
}

/// As [`lemma_scan_names_sep_free`], over a directory's members.
proof fn lemma_scan_entries_sep_free(es: Seq<FsEntry>, path: Seq<char>, pat: Option<Seq<char>>)
    requires
        entries_sep_free(es),
        scan_entries(es, path, pat) is Some,
    ensures
        views_sep_free(scan_entries(es, path, pat)->0),
    decreases es, 0int,
{
    if es.len() > 0 {
        assert(entries_sep_free(es.drop_last())) by {
            assert(forall|i: int|
                0 <= i < es.drop_last().len() ==> es.drop_last()[i] == #[trigger] es[i]);
        }
        lemma_scan_entries_sep_free(es.drop_last(), path, pat);
        let cs = scan_entries(es.drop_last(), path, pat)->0;
        let e = es.last();
        let p = child_path(path, entry_name(e));
        if !excluded(pat, p) && scan_spec(e, p, pat) is Some {
            lemma_scan_names_sep_free(e, p, pat);
            let v = scan_spec(e, p, pat)->0;
            let up = vupsert(cs, v);
            assert forall|i: int| 0 <= i < up.len() implies view_names_sep_free(
                #[trigger] up[i],
            ) by {
                if vhas_name(cs, view_name(v)) {
                    if i != vidx_of(cs, view_name(v)) {
                        assert(up[i] == cs[i]);
                    }
                } else {
                    if i < cs.len() {
                        assert(up[i] == cs[i]);
                    } else {
                        assert(up[i] == v);
                    }
                }
            }
        }
    }
}

/// An excluded member contributes nothing to a scan, descendants included:
/// scanning a directory's members is the same as scanning them with the
/// excluded member taken out entirely.
pub proof fn lemma_scan_excluded_member(
    es: Seq<FsEntry>,
    path: Seq<char>,
    pat: Option<Seq<char>>,
    i: int,
)
    requires
        0 <= i < es.len(),
        excluded(pat, child_path(path, entry_name(es[i]))),
    ensures
        scan_entries(es, path, pat) == scan_entries(es.remove(i), path, pat),
    decreases es.len(),
{
    if i == es.len() - 1 {
        assert(es.remove(i) =~= es.drop_last());
    } else {
        assert(es.remove(i).drop_last() =~= es.drop_last().remove(i));
        assert(es.remove(i).last() == es.last());
        lemma_scan_excluded_member(es.drop_last(), path, pat, i);
    }
}

/// Scanning is deterministic: whatever two trees two successive scans of
/// the same unchanged subtree produce, they have the same shape — the same
/// names, kinds and content digests throughout.
pub proof fn lemma_scan_idempotent(
    n1: Node,
    n2: Node,
    e: FsEntry,
    path: Seq<char>,
    pat: Option<Seq<char>>,
)
    requires
        scan_spec(e, path, pat) == Option::Some(view_of(n1)),
        scan_spec(e, path, pat) == Option::Some(view_of(n2)),
    ensures
        view_of(n1) == view_of(n2),
{
}

/// Structural equality of trees: equal names and kinds, equal digests for
/// files, and for directories children lists of equal length where every
/// left child has an equally named, structurally equal right child.
pub open spec fn node_eq(a: Node, b: Node) -> bool
    decreases a,
{
    match (a, b) {
        (Node::File { name: n1, md5: d1 }, Node::File { name: n2, md5: d2 }) => n1@ == n2@ && d1@
            == d2@,
        (
            Node::Directory { name: n1, children: c1 },
            Node::Directory { name: n2, children: c2 },
        ) => {
            &&& n1@ == n2@
            &&& c1@.len() == c2@.len()
            &&& forall|i: int|
                0 <= i < c1@.len() ==> crate::comparator::has_name(
                    c2@,
                    node_name(#[trigger] c1@[i]),
                ) && node_eq(
                    c1@[i],
                    c2@[crate::comparator::idx_of(c2@, node_name(c1@[i]))],
                )
        },
        _ => false,
    }
}

/// Decide structural equality of two well-formed trees, regardless of the
/// order their children lists store them in.
#[verifier::loop_isolation(false)]
pub fn tree_eq(a: &Node, b: &Node) -> (r: bool)
    requires
        wf_node(*a),
        wf_node(*b),
    ensures
        r == node_eq(*a, *b),
    decreases *a,
{
    match (a, b) {
        (Node::File { name: n1, md5: d1 }, Node::File { name: n2, md5: d2 }) => {
            *n1 == *n2 && *d1 == *d2
        },
        (
            Node::Directory { name: n1, children: c1 },
            Node::Directory { name: n2, children: c2 },
        ) => {
            if !(*n1 == *n2) {
                return false;
            }
            if c1.len() != c2.len() {
                return false;
            }
            let mut i: usize = 0;
            while i < c1.len()
                invariant
                    i <= c1@.len(),
                    forall|p: int|
                        0 <= p < i ==> crate::comparator::has_name(
                            c2@,
                            node_name(#[trigger] c1@[p]),
                        ) && node_eq(
                            c1@[p],
                            c2@[crate::comparator::idx_of(c2@, node_name(c1@[p]))],
                        ),
                decreases c1@.len() - i,
            {
                let child = &c1[i];
                match find_child(c2, child.name_ref()) {
                    Option::Some(j) => {
                        proof {
                            assert(crate::comparator::has_name(c2@, node_name(c1@[i as int])))
                                by {
                                assert(node_name(c2@[j as int]) == node_name(c1@[i as int]));
                            }
                            let k = crate::comparator::idx_of(c2@, node_name(c1@[i as int]));
                            assert(node_name(c2@[k]) == node_name(c1@[i as int]));
                            assert(k == j as int);
                            assert(*c1 == a->Directory_children);
                            assert(decreases_to!(*a => a->Directory_children));
                            assert(decreases_to!(*c1 => c1@));
                            assert(decreases_to!(c1@ => c1@[i as int]));
                        }
                        if !tree_eq(child, &c2[j]) {
                            return false;
                        }
                    },
                    Option::None => {
                        proof {
                            assert(!crate::comparator::has_name(c2@, node_name(c1@[i as int])));
                        }
                        return false;
                    },
                }
                i = i + 1;
            }
            true
        },
        _ => false,
    }
}

/// Scan a filesystem entry rooted at `path` into a tree.
///
/// Every name of the description must be a bare path segment, as names read
/// from a filesystem always are; the scanned tree then carries bare segments
/// too. A non-empty `exclude_pattern` must compile as a regular expression,
/// or the scan is rejected outright; every directory member whose full path
/// the pattern matches is skipped entirely, so it appears nowhere in the
/// tree. An entry that is neither a regular file nor a directory fails the
/// whole scan: no partial tree is returned.
pub fn scan_directory(root: &FsEntry, path: &str, exclude_pattern: &str) -> (r: Result<
    Node,
    TreeError,
>)
    requires
        entry_names_sep_free(*root),
    ensures
        r is Ok ==> view_names_sep_free(view_of(r->Ok_0)),
        !(exclude_pattern@.len() == 0 || pattern_ok(exclude_pattern@)) ==> r == Result::<
            Node,
            TreeError,
        >::Err(TreeError::InvalidExcludePattern),
        (exclude_pattern@.len() == 0 || pattern_ok(exclude_pattern@)) ==> match scan_spec(
            *root,
            path@,
            pat_of(exclude_pattern@),
        ) {
            Option::Some(v) => r is Ok && view_of(r->Ok_0) == v && wf_node(r->Ok_0),
            Option::None => r == Result::<Node, TreeError>::Err(TreeError::UnsupportedEntry),
        },
{
    match compile_pattern(exclude_pattern) {
        Ok(m) => {
            let result = scan_entry(root, path, &m);
            proof {
                if result is Ok {
                    lemma_scan_names_sep_free(*root, path@, opt_pat(&m));
                }
            }
            result
        },
        Err(e) => Err(e),
    }
}

} // verus!
