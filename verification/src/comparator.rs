use vstd::prelude::*;
use crate::errors::TreeError;
use crate::filter::{Matcher, opt_pat, is_excluded, excluded, pat_of, pattern_ok, compile_pattern};
use crate::scanner::{Node, node_name, unique_names, wf_node};

verus! {

/// The outcome of comparing two trees: three append-only collections of
/// names, classifying every discrepancy found during the walk.
#[derive(Debug)]
pub struct DiffReport {
    pub missing_in_left: Vec<String>,
    pub missing_in_right: Vec<String>,
    pub different_files: Vec<String>,
}

impl DiffReport {
    /// An empty report, the starting point of every comparison.
    pub fn new() -> (r: DiffReport)
        ensures
            r.missing_in_left.deep_view() == Seq::<Seq<char>>::empty(),
            r.missing_in_right.deep_view() == Seq::<Seq<char>>::empty(),
            r.different_files.deep_view() == Seq::<Seq<char>>::empty(),
    {
        let r = DiffReport {
            missing_in_left: Vec::new(),
            missing_in_right: Vec::new(),
            different_files: Vec::new(),
        };
        proof {
            assert(r.missing_in_left.deep_view() =~= Seq::<Seq<char>>::empty());
            assert(r.missing_in_right.deep_view() =~= Seq::<Seq<char>>::empty());
            assert(r.different_files.deep_view() =~= Seq::<Seq<char>>::empty());
        }
        r
    }

    /// Whether the report records no discrepancy at all.
    pub fn is_empty(&self) -> (r: bool)
        ensures
            r == (self.missing_in_left.deep_view().len() == 0
                && self.missing_in_right.deep_view().len() == 0
                && self.different_files.deep_view().len() == 0),
    {
        self.missing_in_left.is_empty() && self.missing_in_right.is_empty()
            && self.different_files.is_empty()
    }
}

/// One comparison's contribution to the three collections of a report, in
/// the order the walk appends them.
pub struct Diffs {
    pub ml: Seq<Seq<char>>,
    pub mr: Seq<Seq<char>>,
    pub df: Seq<Seq<char>>,
}

/// The contribution that records nothing.
pub open spec fn empty_diffs() -> Diffs {
    Diffs { ml: Seq::empty(), mr: Seq::empty(), df: Seq::empty() }
}

/// Two contributions, one after the other.
pub open spec fn add_diffs(a: Diffs, b: Diffs) -> Diffs {
    Diffs { ml: a.ml + b.ml, mr: a.mr + b.mr, df: a.df + b.df }
}

/// Whether some node of the sequence carries the given name.
pub open spec fn has_name(cs: Seq<Node>, name: Seq<char>) -> bool {
    exists|i: int| 0 <= i < cs.len() && node_name(#[trigger] cs[i]) == name
}

/// An index of the sequence carrying the given name (meaningful only when
/// one exists; unique when names are unique).
pub open spec fn idx_of(cs: Seq<Node>, name: Seq<char>) -> int {
    choose|i: int| 0 <= i < cs.len() && node_name(#[trigger] cs[i]) == name
}

/// Everything that comparing `l` against `r` under the exclusion pattern
/// records, by case on the two variants:
/// files of equal name differ exactly when their digests differ and the name
/// is not excluded; directories of equal name pair their children by name;
/// a name mismatch or a file-against-directory mismatch records the two
/// names as mutually missing — each side's name is missing from the other
/// side, so the left name goes to `missing_in_right` and the right name to
/// `missing_in_left`.
pub open spec fn diff_spec(l: Node, r: Node, pat: Option<Seq<char>>) -> Diffs
    decreases l, 0int,
{
    match (l, r) {
        (Node::File { name: name1, md5: md51 }, Node::File { name: name2, md5: md52 }) => {
            if name1@ != name2@ {
                Diffs { ml: seq![name2@], mr: seq![name1@], df: Seq::empty() }
            } else if md51@ != md52@ && !excluded(pat, name1@) {
                Diffs { ml: Seq::empty(), mr: Seq::empty(), df: seq![name1@] }
            } else {
                empty_diffs()
            }
        },
        (
            Node::Directory { name: name1, children: children1 },
            Node::Directory { name: name2, children: children2 },
        ) => {
            if name1@ != name2@ {
                Diffs { ml: seq![name2@], mr: seq![name1@], df: Seq::empty() }
            } else {
                let walked = left_pass(children1@, children2@, pat, children1@.len() as int);
                let extra = right_miss(children1@, children2@, pat, children2@.len() as int);
                add_diffs(walked, Diffs { ml: extra, mr: Seq::empty(), df: Seq::empty() })
            }
        },
        (Node::File { name: name1, .. }, Node::Directory { name: name2, .. }) => Diffs {
            ml: seq![name2@],
            mr: seq![name1@],
            df: Seq::empty(),
        },
        (Node::Directory { name: name1, .. }, Node::File { name: name2, .. }) => Diffs {
            ml: seq![name2@],
            mr: seq![name1@],
            df: Seq::empty(),
        },
    }
}

/// What walking the first `n` left children records: an excluded name is
/// skipped, a shared name is compared recursively, a name absent on the
/// right is recorded as missing there.
pub open spec fn left_pass(
    cs1: Seq<Node>,
    cs2: Seq<Node>,
    pat: Option<Seq<char>>,
    n: int,
) -> Diffs
    decreases cs1, n,
{
    if n <= 0 || n > cs1.len() {
        empty_diffs()
    } else {
        let c = cs1[n - 1];
        let nm = node_name(c);
        let one = if excluded(pat, nm) {
            empty_diffs()
        } else if has_name(cs2, nm) {
            diff_spec(c, cs2[idx_of(cs2, nm)], pat)
        } else {
            Diffs { ml: Seq::empty(), mr: seq![nm], df: Seq::empty() }
        };
        add_diffs(left_pass(cs1, cs2, pat, n - 1), one)
    }
}

/// The names among the first `n` right children that are neither excluded
/// nor present on the left: they are recorded as missing in the left tree.
pub open spec fn right_miss(
    cs1: Seq<Node>,
    cs2: Seq<Node>,
    pat: Option<Seq<char>>,
    n: int,
) -> Seq<Seq<char>>
    decreases n,
{
    if n <= 0 || n > cs2.len() {
        Seq::empty()
    } else {
        let nm = node_name(cs2[n - 1]);
        let one: Seq<Seq<char>> = if !excluded(pat, nm) && !has_name(cs1, nm) {
            seq![nm]
        } else {
            Seq::empty()
        };
        right_miss(cs1, cs2, pat, n - 1) + one
    }
}

/// A name occurs in a concatenation exactly when it occurs in one of the
/// parts.
pub proof fn lemma_concat_contains(a: Seq<Seq<char>>, b: Seq<Seq<char>>, x: Seq<char>)
    ensures
        (a + b).contains(x) <==> a.contains(x) || b.contains(x),
{
    if (a + b).contains(x) {
        let k = choose|k: int| 0 <= k < (a + b).len() && (a + b)[k] == x;
        if k < a.len() {
            assert(a[k] == x);
        } else {
            assert(b[k - a.len()] == x);
        }
    }
    if a.contains(x) {
        let k = choose|k: int| 0 <= k < a.len() && a[k] == x;
        assert((a + b)[k] == x);
    }
    if b.contains(x) {
        let k = choose|k: int| 0 <= k < b.len() && b[k] == x;
        assert((a + b)[a.len() + k] == x);
    }
}

/// Comparing a well-formed tree against itself records nothing at all,
/// under any exclusion pattern.
pub proof fn lemma_self_diff(n: Node, pat: Option<Seq<char>>)
    requires
        wf_node(n),
    ensures
        diff_spec(n, n, pat).ml == Seq::<Seq<char>>::empty(),
        diff_spec(n, n, pat).mr == Seq::<Seq<char>>::empty(),
        diff_spec(n, n, pat).df == Seq::<Seq<char>>::empty(),
    decreases n, 1int,
{
    match n {
        Node::File { .. } => {},
        Node::Directory { name, children } => {
            lemma_self_left_pass(children@, pat, children@.len() as int);
            lemma_self_right_miss(children@, pat, children@.len() as int);
            assert(left_pass(children@, children@, pat, children@.len() as int).ml + right_miss(
                children@,
                children@,
                pat,
                children@.len() as int,
            ) =~= Seq::<Seq<char>>::empty());
            assert(left_pass(children@, children@, pat, children@.len() as int).mr + Seq::<
                Seq<char>,
            >::empty() =~= Seq::<Seq<char>>::empty());
            assert(left_pass(children@, children@, pat, children@.len() as int).df + Seq::<
                Seq<char>,
            >::empty() =~= Seq::<Seq<char>>::empty());
        },
    }
}

/// Walking a well-formed children list against itself records nothing.
proof fn lemma_self_left_pass(cs: Seq<Node>, pat: Option<Seq<char>>, n: int)
    requires
        unique_names(cs),
        forall|i: int| 0 <= i < cs.len() ==> wf_node(#[trigger] cs[i]),
        n <= cs.len(),
    ensures
        left_pass(cs, cs, pat, n).ml == Seq::<Seq<char>>::empty(),
        left_pass(cs, cs, pat, n).mr == Seq::<Seq<char>>::empty(),
        left_pass(cs, cs, pat, n).df == Seq::<Seq<char>>::empty(),
    decreases cs, 0int, n,
{
    if 0 < n <= cs.len() {
        lemma_self_left_pass(cs, pat, n - 1);
        let c = cs[n - 1];
        let nm = node_name(c);
        if !excluded(pat, nm) {
            assert(has_name(cs, nm)) by {
                assert(node_name(cs[n - 1]) == nm);
            }
            let k = idx_of(cs, nm);
            assert(node_name(cs[k]) == nm);
            assert(k == n - 1);
            lemma_self_diff(c, pat);
        }
        assert(left_pass(cs, cs, pat, n).ml =~= Seq::<Seq<char>>::empty());
        assert(left_pass(cs, cs, pat, n).mr =~= Seq::<Seq<char>>::empty());
        assert(left_pass(cs, cs, pat, n).df =~= Seq::<Seq<char>>::empty());
    }
}

/// No name of a children list is missing from that same list.
proof fn lemma_self_right_miss(cs: Seq<Node>, pat: Option<Seq<char>>, n: int)
    requires
        n <= cs.len(),
    ensures
        right_miss(cs, cs, pat, n) == Seq::<Seq<char>>::empty(),
    decreases n,
{
    if 0 < n <= cs.len() {
        lemma_self_right_miss(cs, pat, n - 1);
        assert(has_name(cs, node_name(cs[n - 1]))) by {
            assert(node_name(cs[n - 1]) == node_name(cs[n - 1]));
        }
        assert(right_miss(cs, cs, pat, n) =~= Seq::<Seq<char>>::empty());
    }
}

/// Exclusion exactness: a name the pattern matches is recorded in none of
/// the three collections, anywhere in the walk of two trees rooted at the
/// same name.
pub proof fn lemma_exclusion_exactness(l: Node, r: Node, pat: Option<Seq<char>>, m: Seq<char>)
    requires
        excluded(pat, m),
        node_name(l) == node_name(r),
        (l is Directory && r is Directory) || !excluded(pat, node_name(l)),
    ensures
        !diff_spec(l, r, pat).ml.contains(m),
        !diff_spec(l, r, pat).mr.contains(m),
        !diff_spec(l, r, pat).df.contains(m),
    decreases l, 1int,
{
    let d = diff_spec(l, r, pat);
    match (l, r) {
        (Node::File { name: name1, md5: md51 }, Node::File { name: name2, md5: md52 }) => {
            if md51@ != md52@ && !excluded(pat, name1@) {
                assert(d.df =~= seq![name1@]);
            }
        },
        (
            Node::Directory { name: name1, children: children1 },
            Node::Directory { name: name2, children: children2 },
        ) => {
            let k1 = children1@.len() as int;
            let k2 = children2@.len() as int;
            lemma_lp_exclusion(children1@, children2@, pat, k1, m);
            lemma_rm_exclusion(children1@, children2@, pat, k2, m);
            lemma_concat_contains(
                left_pass(children1@, children2@, pat, k1).ml,
                right_miss(children1@, children2@, pat, k2),
                m,
            );
            assert(left_pass(children1@, children2@, pat, k1).mr + Seq::<Seq<char>>::empty()
                =~= left_pass(children1@, children2@, pat, k1).mr);
            assert(left_pass(children1@, children2@, pat, k1).df + Seq::<Seq<char>>::empty()
                =~= left_pass(children1@, children2@, pat, k1).df);
        },
        _ => {},
    }
}

/// The walk of the left children never records an excluded name.
proof fn lemma_lp_exclusion(
    cs1: Seq<Node>,
    cs2: Seq<Node>,
    pat: Option<Seq<char>>,
    n: int,
    m: Seq<char>,
)
    requires
        excluded(pat, m),
    ensures
        !left_pass(cs1, cs2, pat, n).ml.contains(m),
        !left_pass(cs1, cs2, pat, n).mr.contains(m),
        !left_pass(cs1, cs2, pat, n).df.contains(m),
    decreases cs1, 0int, n,
{
    if 0 < n <= cs1.len() {
        lemma_lp_exclusion(cs1, cs2, pat, n - 1, m);
        let before = left_pass(cs1, cs2, pat, n - 1);
        let c = cs1[n - 1];
        let nm = node_name(c);
        let one = if excluded(pat, nm) {
            empty_diffs()
        } else if has_name(cs2, nm) {
            diff_spec(c, cs2[idx_of(cs2, nm)], pat)
        } else {
            Diffs { ml: Seq::empty(), mr: seq![nm], df: Seq::empty() }
        };
        if !excluded(pat, nm) && has_name(cs2, nm) {
            let o = cs2[idx_of(cs2, nm)];
            assert(node_name(o) == nm);
            lemma_exclusion_exactness(c, o, pat, m);
        }
        assert(!one.ml.contains(m));
        assert(!one.mr.contains(m));
        assert(!one.df.contains(m));
        lemma_concat_contains(before.ml, one.ml, m);
        lemma_concat_contains(before.mr, one.mr, m);
        lemma_concat_contains(before.df, one.df, m);
    }
}

/// The scan of the right children never records an excluded name.
proof fn lemma_rm_exclusion(
    cs1: Seq<Node>,
    cs2: Seq<Node>,
    pat: Option<Seq<char>>,
    n: int,
    m: Seq<char>,
)
    requires
        excluded(pat, m),
    ensures
        !right_miss(cs1, cs2, pat, n).contains(m),
    decreases n,
{
    if 0 < n <= cs2.len() {
        lemma_rm_exclusion(cs1, cs2, pat, n - 1, m);
        let nm = node_name(cs2[n - 1]);
        let one: Seq<Seq<char>> = if !excluded(pat, nm) && !has_name(cs1, nm) {
            seq![nm]
        } else {
            Seq::empty()
        };
        lemma_concat_contains(right_miss(cs1, cs2, pat, n - 1), one, m);
    }
}

/// Whether `m` is the name of this node or of any node below it.
pub open spec fn name_in_tree(n: Node, m: Seq<char>) -> bool
    decreases n, 1int,
{
    match n {
        Node::File { name, .. } => name@ == m,
        Node::Directory { name, children } => name@ == m || name_in_children(children@, m),
    }
}

/// Whether `m` is a name anywhere in one of the trees of the sequence.
pub open spec fn name_in_children(cs: Seq<Node>, m: Seq<char>) -> bool
    decreases cs, 0int,
{
    exists|i: int| 0 <= i < cs.len() && name_in_tree(#[trigger] cs[i], m)
}

/// A name that stands nowhere in either tree is recorded nowhere: every
/// recorded name is the name of some node of one of the two trees.
pub proof fn lemma_diff_only_tree_names(l: Node, r: Node, pat: Option<Seq<char>>, m: Seq<char>)
    requires
        !name_in_tree(l, m),
        !name_in_tree(r, m),
    ensures
        !diff_spec(l, r, pat).ml.contains(m),
        !diff_spec(l, r, pat).mr.contains(m),
        !diff_spec(l, r, pat).df.contains(m),
    decreases l, 1int,
{
    let d = diff_spec(l, r, pat);
    assert(node_name(l) != m && node_name(r) != m);
    match (l, r) {
        (Node::File { name: name1, md5: md51 }, Node::File { name: name2, md5: md52 }) => {
            lemma_single_not_contains(name1@, m);
            lemma_single_not_contains(name2@, m);
        },
        (
            Node::Directory { name: name1, children: children1 },
            Node::Directory { name: name2, children: children2 },
        ) => {
            lemma_single_not_contains(name1@, m);
            lemma_single_not_contains(name2@, m);
            if name1@ == name2@ {
                let cs1 = children1@;
                let cs2 = children2@;
                assert forall|i: int| 0 <= i < cs1.len() implies !name_in_tree(
                    #[trigger] cs1[i],
                    m,
                ) by {
                    if name_in_tree(cs1[i], m) {
                        assert(name_in_children(cs1, m));
                    }
                }
                assert forall|j: int| 0 <= j < cs2.len() implies !name_in_tree(
                    #[trigger] cs2[j],
                    m,
                ) by {
                    if name_in_tree(cs2[j], m) {
                        assert(name_in_children(cs2, m));
                    }
                }
                lemma_lp_no_tree_name(cs1, cs2, pat, cs1.len() as int, m);
                lemma_rm_no_tree_name(cs1, cs2, pat, cs2.len() as int, m);
                lemma_concat_contains(
                    left_pass(cs1, cs2, pat, cs1.len() as int).ml,
                    right_miss(cs1, cs2, pat, cs2.len() as int),
                    m,
                );
                assert(left_pass(cs1, cs2, pat, cs1.len() as int).mr + Seq::<Seq<char>>::empty()
                    =~= left_pass(cs1, cs2, pat, cs1.len() as int).mr);
                assert(left_pass(cs1, cs2, pat, cs1.len() as int).df + Seq::<Seq<char>>::empty()
                    =~= left_pass(cs1, cs2, pat, cs1.len() as int).df);
            }
        },
        (Node::File { name: name1, .. }, Node::Directory { name: name2, .. }) => {
            lemma_single_not_contains(name1@, m);
            lemma_single_not_contains(name2@, m);
        },
        (Node::Directory { name: name1, .. }, Node::File { name: name2, .. }) => {
            lemma_single_not_contains(name1@, m);
            lemma_single_not_contains(name2@, m);
        },
    }
}

/// A one-entry collection does not contain anything but its entry.
proof fn lemma_single_not_contains(x: Seq<char>, m: Seq<char>)
    requires
        x != m,
    ensures
        !seq![x].contains(m),
{
    if seq![x].contains(m) {
        let k = choose|k: int| 0 <= k < seq![x].len() && seq![x][k] == m;
        assert(seq![x][0] == x);
    }
}

/// The walk of left children whose trees hold `m` nowhere records `m`
/// nowhere.
proof fn lemma_lp_no_tree_name(
    cs1: Seq<Node>,
    cs2: Seq<Node>,
    pat: Option<Seq<char>>,
    n: int,
    m: Seq<char>,
)
    requires
        forall|i: int| 0 <= i < cs1.len() ==> !name_in_tree(#[trigger] cs1[i], m),
        forall|j: int| 0 <= j < cs2.len() ==> !name_in_tree(#[trigger] cs2[j], m),
    ensures
        !left_pass(cs1, cs2, pat, n).ml.contains(m),
        !left_pass(cs1, cs2, pat, n).mr.contains(m),
        !left_pass(cs1, cs2, pat, n).df.contains(m),
    decreases cs1, 0int, n,
{
    if 0 < n <= cs1.len() {
        lemma_lp_no_tree_name(cs1, cs2, pat, n - 1, m);
        let before = left_pass(cs1, cs2, pat, n - 1);
        let c = cs1[n - 1];
        let nm = node_name(c);
        let one = if excluded(pat, nm) {
            empty_diffs()
        } else if has_name(cs2, nm) {
            diff_spec(c, cs2[idx_of(cs2, nm)], pat)
        } else {
            Diffs { ml: Seq::empty(), mr: seq![nm], df: Seq::empty() }
        };
        if !excluded(pat, nm) && has_name(cs2, nm) {
            let o = cs2[idx_of(cs2, nm)];
            assert(node_name(o) == nm);
            lemma_diff_only_tree_names(c, o, pat, m);
        } else if !excluded(pat, nm) {
            lemma_single_not_contains(nm, m);
        }
        lemma_concat_contains(before.ml, one.ml, m);
        lemma_concat_contains(before.mr, one.mr, m);
        lemma_concat_contains(before.df, one.df, m);
    }
}

/// The scan of right children whose trees hold `m` nowhere records `m`
/// nowhere.
proof fn lemma_rm_no_tree_name(
    cs1: Seq<Node>,
    cs2: Seq<Node>,
    pat: Option<Seq<char>>,
    n: int,
    m: Seq<char>,
)
    requires
        forall|j: int| 0 <= j < cs2.len() ==> !name_in_tree(#[trigger] cs2[j], m),
    ensures
        !right_miss(cs1, cs2, pat, n).contains(m),
    decreases n,
{
    if 0 < n <= cs2.len() {
        lemma_rm_no_tree_name(cs1, cs2, pat, n - 1, m);
        let nm = node_name(cs2[n - 1]);
        let one: Seq<Seq<char>> = if !excluded(pat, nm) && !has_name(cs1, nm) {
            seq![nm]
        } else {
            Seq::empty()
        };
        if !excluded(pat, nm) && !has_name(cs1, nm) {
            lemma_single_not_contains(nm, m);
        }
        lemma_concat_contains(right_miss(cs1, cs2, pat, n - 1), one, m);
    }
}

/// What the walk records for the left child at index `i`.
pub open spec fn left_one(cs1: Seq<Node>, cs2: Seq<Node>, pat: Option<Seq<char>>, i: int) -> Diffs {
    let c = cs1[i];
    let nm = node_name(c);
    if excluded(pat, nm) {
        empty_diffs()
    } else if has_name(cs2, nm) {
        diff_spec(c, cs2[idx_of(cs2, nm)], pat)
    } else {
        Diffs { ml: Seq::empty(), mr: seq![nm], df: Seq::empty() }
    }
}

/// Whatever one walked child records, the whole walk records.
proof fn lemma_lp_accumulates(
    cs1: Seq<Node>,
    cs2: Seq<Node>,
    pat: Option<Seq<char>>,
    n: int,
    i: int,
    x: Seq<char>,
)
    requires
        0 <= i < n <= cs1.len(),
    ensures
        left_one(cs1, cs2, pat, i).ml.contains(x) ==> left_pass(cs1, cs2, pat, n).ml.contains(x),
        left_one(cs1, cs2, pat, i).mr.contains(x) ==> left_pass(cs1, cs2, pat, n).mr.contains(x),
        left_one(cs1, cs2, pat, i).df.contains(x) ==> left_pass(cs1, cs2, pat, n).df.contains(x),
    decreases n,
{
    let last = left_one(cs1, cs2, pat, n - 1);
    let before = left_pass(cs1, cs2, pat, n - 1);
    assert(left_pass(cs1, cs2, pat, n) == add_diffs(before, last));
    lemma_concat_contains(before.ml, last.ml, x);
    lemma_concat_contains(before.mr, last.mr, x);
    lemma_concat_contains(before.df, last.df, x);
    if i < n - 1 {
        lemma_lp_accumulates(cs1, cs2, pat, n - 1, i, x);
    }
}

/// The shared children carrying other names than `m` hold `m` nowhere in
/// their subtrees: the comparison of each such pair cannot record `m`.
pub open spec fn shared_pairs_without(
    cs1: Seq<Node>,
    cs2: Seq<Node>,
    pat: Option<Seq<char>>,
    m: Seq<char>,
) -> bool {
    forall|i: int|
        0 <= i < cs1.len() && node_name(#[trigger] cs1[i]) != m && !excluded(
            pat,
            node_name(cs1[i]),
        ) && has_name(cs2, node_name(cs1[i])) ==> !name_in_tree(cs1[i], m) && !name_in_tree(
            cs2[idx_of(cs2, node_name(cs1[i]))],
            m,
        )
}

/// When no right child carries `m`, the walk of the left children can
/// record `m` only as missing on the right.
proof fn lemma_lp_only_missing(
    cs1: Seq<Node>,
    cs2: Seq<Node>,
    pat: Option<Seq<char>>,
    n: int,
    m: Seq<char>,
)
    requires
        shared_pairs_without(cs1, cs2, pat, m),
        !has_name(cs2, m),
        n <= cs1.len(),
    ensures
        !left_pass(cs1, cs2, pat, n).ml.contains(m),
        !left_pass(cs1, cs2, pat, n).df.contains(m),
    decreases n,
{
    if 0 < n {
        lemma_lp_only_missing(cs1, cs2, pat, n - 1, m);
        let before = left_pass(cs1, cs2, pat, n - 1);
        let one = left_one(cs1, cs2, pat, n - 1);
        assert(left_pass(cs1, cs2, pat, n) == add_diffs(before, one));
        let c = cs1[n - 1];
        let nm = node_name(c);
        if !excluded(pat, nm) && has_name(cs2, nm) {
            let o = cs2[idx_of(cs2, nm)];
            assert(node_name(o) == nm);
            assert(nm != m);
            lemma_diff_only_tree_names(c, o, pat, m);
        }
        lemma_concat_contains(before.ml, one.ml, m);
        lemma_concat_contains(before.df, one.df, m);
    }
}

/// When every left child carrying `m` pairs with an equally named right
/// file, the walk records `m` in neither missing collection — and, when `m`
/// is excluded, not as a content difference either.
proof fn lemma_lp_only_different(
    cs1: Seq<Node>,
    cs2: Seq<Node>,
    pat: Option<Seq<char>>,
    n: int,
    m: Seq<char>,
)
    requires
        shared_pairs_without(cs1, cs2, pat, m),
        forall|i: int|
            0 <= i < cs1.len() && node_name(#[trigger] cs1[i]) == m ==> cs1[i] is File
                && has_name(cs2, m) && cs2[idx_of(cs2, m)] is File,
        n <= cs1.len(),
    ensures
        !left_pass(cs1, cs2, pat, n).ml.contains(m),
        !left_pass(cs1, cs2, pat, n).mr.contains(m),
        excluded(pat, m) ==> !left_pass(cs1, cs2, pat, n).df.contains(m),
    decreases n,
{
    if 0 < n {
        lemma_lp_only_different(cs1, cs2, pat, n - 1, m);
        let before = left_pass(cs1, cs2, pat, n - 1);
        let one = left_one(cs1, cs2, pat, n - 1);
        assert(left_pass(cs1, cs2, pat, n) == add_diffs(before, one));
        let c = cs1[n - 1];
        let nm = node_name(c);
        if !excluded(pat, nm) && has_name(cs2, nm) {
            let o = cs2[idx_of(cs2, nm)];
            assert(node_name(o) == nm);
            if nm == m {
                assert(c is File && o is File);
                assert(one.ml =~= Seq::<Seq<char>>::empty());
                assert(one.mr =~= Seq::<Seq<char>>::empty());
            } else {
                lemma_diff_only_tree_names(c, o, pat, m);
            }
        } else if !excluded(pat, nm) {
            assert(nm != m);
            lemma_single_not_contains(nm, m);
        }
        lemma_concat_contains(before.ml, one.ml, m);
        lemma_concat_contains(before.mr, one.mr, m);
        lemma_concat_contains(before.df, one.df, m);
    }
}

/// When every left child carrying `m` pairs with an equally named right
/// child of the other kind, the walk never records `m` as a content
/// difference.
proof fn lemma_lp_only_mismatch(
    cs1: Seq<Node>,
    cs2: Seq<Node>,
    pat: Option<Seq<char>>,
    n: int,
    m: Seq<char>,
)
    requires
        shared_pairs_without(cs1, cs2, pat, m),
        forall|i: int|
            0 <= i < cs1.len() && node_name(#[trigger] cs1[i]) == m ==> has_name(cs2, m) && ((
            cs1[i] is File && cs2[idx_of(cs2, m)] is Directory) || (cs1[i] is Directory
                && cs2[idx_of(cs2, m)] is File)),
        n <= cs1.len(),
    ensures
        !left_pass(cs1, cs2, pat, n).df.contains(m),
    decreases n,
{
    if 0 < n {
        lemma_lp_only_mismatch(cs1, cs2, pat, n - 1, m);
        let before = left_pass(cs1, cs2, pat, n - 1);
        let one = left_one(cs1, cs2, pat, n - 1);
        assert(left_pass(cs1, cs2, pat, n) == add_diffs(before, one));
        let c = cs1[n - 1];
        let nm = node_name(c);
        if !excluded(pat, nm) && has_name(cs2, nm) {
            let o = cs2[idx_of(cs2, nm)];
            assert(node_name(o) == nm);
            if nm == m {
                assert(one.df =~= Seq::<Seq<char>>::empty());
            } else {
                lemma_diff_only_tree_names(c, o, pat, m);
            }
        }
        lemma_concat_contains(before.df, one.df, m);
    }
}

/// A name is recorded by the scan of the right children exactly when some
/// right child carries it, it is not excluded and no left child carries it.
proof fn lemma_right_miss_contains(
    cs1: Seq<Node>,
    cs2: Seq<Node>,
    pat: Option<Seq<char>>,
    n: int,
    m: Seq<char>,
)
    requires
        0 <= n <= cs2.len(),
    ensures
        right_miss(cs1, cs2, pat, n).contains(m) <==> ((exists|j: int|
            0 <= j < n && node_name(#[trigger] cs2[j]) == m) && !excluded(pat, m) && !has_name(
            cs1,
            m,
        )),
    decreases n,
{
    if 0 < n {
        lemma_right_miss_contains(cs1, cs2, pat, n - 1, m);
        let before = right_miss(cs1, cs2, pat, n - 1);
        let rmn = right_miss(cs1, cs2, pat, n);
        let nm = node_name(cs2[n - 1]);
        let one: Seq<Seq<char>> = if !excluded(pat, nm) && !has_name(cs1, nm) {
            seq![nm]
        } else {
            Seq::empty()
        };
        assert(rmn == before + one);
        lemma_concat_contains(before, one, m);
        let ex_n = (exists|j: int| 0 <= j < n && node_name(#[trigger] cs2[j]) == m);
        let ex_p = (exists|j: int| 0 <= j < n - 1 && node_name(#[trigger] cs2[j]) == m);
        if nm == m {
            assert(ex_n) by {
                assert(node_name(cs2[n - 1]) == m);
            }
        }
        if ex_p {
            let w = choose|j: int| 0 <= j < n - 1 && node_name(#[trigger] cs2[j]) == m;
            assert(ex_n) by {
                assert(0 <= w < n && node_name(cs2[w]) == m);
            }
        }
        if ex_n && nm != m {
            let w = choose|j: int| 0 <= j < n && node_name(#[trigger] cs2[j]) == m;
            assert(node_name(cs2[w]) == m);
            assert(ex_p) by {
                assert(0 <= w < n - 1 && node_name(cs2[w]) == m);
            }
        }
        if rmn.contains(m) {
            if before.contains(m) {
                assert(ex_p && !excluded(pat, m) && !has_name(cs1, m));
            } else {
                assert(one.contains(m));
                assert(one =~= seq![nm]);
                assert(nm == m) by {
                    assert(one[0] == nm);
                }
            }
        }
        if ex_n && !excluded(pat, m) && !has_name(cs1, m) {
            if nm == m {
                assert(one =~= seq![m]);
                assert(one.contains(m)) by {
                    assert(one[0] == m);
                }
            } else {
                assert(before.contains(m));
            }
            assert(rmn.contains(m));
        }
    }
}

/// Rename detection: a name carried by a left child, by no right child,
/// and by no node inside the shared subtrees, is recorded as missing on the
/// right side only, and never as a content difference.
pub proof fn lemma_rename_detection(l: Node, r: Node, pat: Option<Seq<char>>, m: Seq<char>)
    requires
        l is Directory,
        r is Directory,
        node_name(l) == node_name(r),
        has_name(l->Directory_children@, m),
        !has_name(r->Directory_children@, m),
        !excluded(pat, m),
        shared_pairs_without(l->Directory_children@, r->Directory_children@, pat, m),
    ensures
        diff_spec(l, r, pat).mr.contains(m),
        !diff_spec(l, r, pat).ml.contains(m),
        !diff_spec(l, r, pat).df.contains(m),
{
    let cs1 = l->Directory_children@;
    let cs2 = r->Directory_children@;
    let k1 = cs1.len() as int;
    let k2 = cs2.len() as int;
    let i0 = idx_of(cs1, m);
    assert(0 <= i0 < cs1.len() && node_name(cs1[i0]) == m);
    let one = left_one(cs1, cs2, pat, i0);
    assert(one.mr =~= seq![m]);
    assert(one.mr.contains(m)) by {
        assert(one.mr[0] == m);
    }
    lemma_lp_accumulates(cs1, cs2, pat, k1, i0, m);
    lemma_lp_only_missing(cs1, cs2, pat, k1, m);
    lemma_right_miss_contains(cs1, cs2, pat, k2, m);
    lemma_concat_contains(left_pass(cs1, cs2, pat, k1).ml, right_miss(cs1, cs2, pat, k2), m);
    assert(left_pass(cs1, cs2, pat, k1).mr + Seq::<Seq<char>>::empty() =~= left_pass(
        cs1,
        cs2,
        pat,
        k1,
    ).mr);
    assert(left_pass(cs1, cs2, pat, k1).df + Seq::<Seq<char>>::empty() =~= left_pass(
        cs1,
        cs2,
        pat,
        k1,
    ).df);
}

/// Content-change detection: a name carried on both sides by files with
/// different digests, and by no node inside the other shared subtrees, is
/// recorded as a content difference and in neither missing collection —
/// unless it is excluded, in which case it is recorded nowhere at all.
pub proof fn lemma_content_change(l: Node, r: Node, pat: Option<Seq<char>>, m: Seq<char>)
    requires
        l is Directory,
        r is Directory,
        node_name(l) == node_name(r),
        wf_node(l),
        has_name(l->Directory_children@, m),
        has_name(r->Directory_children@, m),
        l->Directory_children@[idx_of(l->Directory_children@, m)] is File,
        r->Directory_children@[idx_of(r->Directory_children@, m)] is File,
        l->Directory_children@[idx_of(l->Directory_children@, m)]->File_md5@
            != r->Directory_children@[idx_of(r->Directory_children@, m)]->File_md5@,
        shared_pairs_without(l->Directory_children@, r->Directory_children@, pat, m),
    ensures
        !excluded(pat, m) ==> diff_spec(l, r, pat).df.contains(m),
        !diff_spec(l, r, pat).ml.contains(m),
        !diff_spec(l, r, pat).mr.contains(m),
        excluded(pat, m) ==> !diff_spec(l, r, pat).df.contains(m),
{
    let cs1 = l->Directory_children@;
    let cs2 = r->Directory_children@;
    let k1 = cs1.len() as int;
    let k2 = cs2.len() as int;
    let i0 = idx_of(cs1, m);
    assert(0 <= i0 < cs1.len() && node_name(cs1[i0]) == m);
    assert forall|i: int| 0 <= i < cs1.len() && node_name(#[trigger] cs1[i]) == m implies cs1[i]
        is File && has_name(cs2, m) && cs2[idx_of(cs2, m)] is File by {
        if i != i0 {
            assert(node_name(cs1[i]) != node_name(cs1[i0]));
        }
    }
    lemma_lp_only_different(cs1, cs2, pat, k1, m);
    lemma_right_miss_contains(cs1, cs2, pat, k2, m);
    lemma_concat_contains(left_pass(cs1, cs2, pat, k1).ml, right_miss(cs1, cs2, pat, k2), m);
    assert(left_pass(cs1, cs2, pat, k1).mr + Seq::<Seq<char>>::empty() =~= left_pass(
        cs1,
        cs2,
        pat,
        k1,
    ).mr);
    assert(left_pass(cs1, cs2, pat, k1).df + Seq::<Seq<char>>::empty() =~= left_pass(
        cs1,
        cs2,
        pat,
        k1,
    ).df);
    if !excluded(pat, m) {
        let one = left_one(cs1, cs2, pat, i0);
        let o = cs2[idx_of(cs2, m)];
        assert(node_name(o) == m);
        assert(one.df =~= seq![m]);
        assert(one.df.contains(m)) by {
            assert(one.df[0] == m);
        }
        lemma_lp_accumulates(cs1, cs2, pat, k1, i0, m);
    }
}

/// Type-change detection: a name carried on the two sides by entries of
/// different kinds, and by no node inside the other shared subtrees, is
/// recorded as missing on both sides and never as a content difference.
pub proof fn lemma_type_change(l: Node, r: Node, pat: Option<Seq<char>>, m: Seq<char>)
    requires
        l is Directory,
        r is Directory,
        node_name(l) == node_name(r),
        wf_node(l),
        has_name(l->Directory_children@, m),
        has_name(r->Directory_children@, m),
        (l->Directory_children@[idx_of(l->Directory_children@, m)] is File
            && r->Directory_children@[idx_of(r->Directory_children@, m)] is Directory) || (
        l->Directory_children@[idx_of(l->Directory_children@, m)] is Directory
            && r->Directory_children@[idx_of(r->Directory_children@, m)] is File),
        !excluded(pat, m),
        shared_pairs_without(l->Directory_children@, r->Directory_children@, pat, m),
    ensures
        diff_spec(l, r, pat).ml.contains(m),
        diff_spec(l, r, pat).mr.contains(m),
        !diff_spec(l, r, pat).df.contains(m),
{
    let cs1 = l->Directory_children@;
    let cs2 = r->Directory_children@;
    let k1 = cs1.len() as int;
    let k2 = cs2.len() as int;
    let i0 = idx_of(cs1, m);
    assert(0 <= i0 < cs1.len() && node_name(cs1[i0]) == m);
    assert forall|i: int| 0 <= i < cs1.len() && node_name(#[trigger] cs1[i]) == m implies
        has_name(cs2, m) && ((cs1[i] is File && cs2[idx_of(cs2, m)] is Directory) || (cs1[i]
        is Directory && cs2[idx_of(cs2, m)] is File)) by {
        if i != i0 {
            assert(node_name(cs1[i]) != node_name(cs1[i0]));
        }
    }
    lemma_lp_only_mismatch(cs1, cs2, pat, k1, m);
    let one = left_one(cs1, cs2, pat, i0);
    let o = cs2[idx_of(cs2, m)];
    assert(node_name(o) == m);
    assert(one.ml =~= seq![m]);
    assert(one.mr =~= seq![m]);
    assert(one.ml.contains(m)) by {
        assert(one.ml[0] == m);
    }
    assert(one.mr.contains(m)) by {
        assert(one.mr[0] == m);
    }
    lemma_lp_accumulates(cs1, cs2, pat, k1, i0, m);
    lemma_concat_contains(left_pass(cs1, cs2, pat, k1).ml, right_miss(cs1, cs2, pat, k2), m);
    assert(left_pass(cs1, cs2, pat, k1).mr + Seq::<Seq<char>>::empty() =~= left_pass(
        cs1,
        cs2,
        pat,
        k1,
    ).mr);
    assert(left_pass(cs1, cs2, pat, k1).df + Seq::<Seq<char>>::empty() =~= left_pass(
        cs1,
        cs2,
        pat,
        k1,
    ).df);
}

/// Walk two trees under an already compiled filter, appending everything
/// found to the report; mirrors [`diff_spec`] exactly.
#[verifier::loop_isolation(false)]
fn compare_rec(node1: &Node, node2: &Node, m: &Option<Matcher>, report: &mut DiffReport)
    requires
        wf_node(*node1),
        wf_node(*node2),
    ensures
        final(report).missing_in_left.deep_view() == old(report).missing_in_left.deep_view()
            + diff_spec(*node1, *node2, opt_pat(m)).ml,
        final(report).missing_in_right.deep_view() == old(report).missing_in_right.deep_view()
            + diff_spec(*node1, *node2, opt_pat(m)).mr,
        final(report).different_files.deep_view() == old(report).different_files.deep_view()
            + diff_spec(*node1, *node2, opt_pat(m)).df,
    decreases *node1,
{
    let ghost r0 = *report;
    let ghost pat = opt_pat(m);
    match (node1, node2) {
        (Node::File { name: name1, md5: md51 }, Node::File { name: name2, md5: md52 }) => {
            if !(*name1 == *name2) {
                report.missing_in_left.push(name2.clone());
                report.missing_in_right.push(name1.clone());
                proof {
                    assert(report.missing_in_left.deep_view() =~= r0.missing_in_left.deep_view()
                        + seq![name2@]);
                    assert(report.missing_in_right.deep_view() =~= r0.missing_in_right.deep_view()
                        + seq![name1@]);
                    assert(report.different_files.deep_view() =~= r0.different_files.deep_view()
                        + Seq::<Seq<char>>::empty());
                }
            } else if !(*md51 == *md52) {
                if !is_excluded(m, name1.as_str()) {
                    report.different_files.push(name1.clone());
                    proof {
                        assert(report.missing_in_left.deep_view()
                            =~= r0.missing_in_left.deep_view() + Seq::<Seq<char>>::empty());
                        assert(report.missing_in_right.deep_view()
                            =~= r0.missing_in_right.deep_view() + Seq::<Seq<char>>::empty());
                        assert(report.different_files.deep_view()
                            =~= r0.different_files.deep_view() + seq![name1@]);
                    }
                } else {
                    proof {
                        lemma_unchanged(*report, r0);
                    }
                }
            } else {
                proof {
                    lemma_unchanged(*report, r0);
                }
            }
        },
        (
            Node::Directory { name: name1, children: children1 },
            Node::Directory { name: name2, children: children2 },
        ) => {
            if !(*name1 == *name2) {
                report.missing_in_left.push(name2.clone());
                report.missing_in_right.push(name1.clone());
                proof {
                    assert(report.missing_in_left.deep_view() =~= r0.missing_in_left.deep_view()
                        + seq![name2@]);
                    assert(report.missing_in_right.deep_view() =~= r0.missing_in_right.deep_view()
                        + seq![name1@]);
                    assert(report.different_files.deep_view() =~= r0.different_files.deep_view()
                        + Seq::<Seq<char>>::empty());
                }
            } else {
                let ghost cs1 = children1@;
                let ghost cs2 = children2@;
                let mut i: usize = 0;
                while i < children1.len()
                    invariant
                        i <= cs1.len(),
                        report.missing_in_left.deep_view() == r0.missing_in_left.deep_view()
                            + left_pass(cs1, cs2, pat, i as int).ml,
                        report.missing_in_right.deep_view() == r0.missing_in_right.deep_view()
                            + left_pass(cs1, cs2, pat, i as int).mr,
                        report.different_files.deep_view() == r0.different_files.deep_view()
                            + left_pass(cs1, cs2, pat, i as int).df,
                    decreases cs1.len() - i,
                {
                    let ghost before = left_pass(cs1, cs2, pat, i as int);
                    let c1 = &children1[i];
                    let nm = c1.name_ref();
                    if !is_excluded(m, nm.as_str()) {
                        match crate::scanner::find_child(children2, nm) {
                            Option::Some(j) => {
                                proof {
                                    assert(has_name(cs2, nm@)) by {
                                        assert(node_name(cs2[j as int]) == nm@);
                                    }
                                    let k = idx_of(cs2, nm@);
                                    assert(node_name(cs2[k]) == nm@);
                                    assert(k == j as int);
                                    assert(*children1 == node1->Directory_children);
                                    assert(decreases_to!(*node1 => node1->Directory_children));
                                    assert(decreases_to!(*children1 => cs1));
                                    assert(decreases_to!(cs1 => cs1[i as int]));
                                }
                                compare_rec(c1, &children2[j], m, report);
                                proof {
                                    let one = diff_spec(cs1[i as int], cs2[j as int], pat);
                                    assert(report.missing_in_left.deep_view()
                                        =~= r0.missing_in_left.deep_view() + left_pass(
                                        cs1,
                                        cs2,
                                        pat,
                                        i as int + 1,
                                    ).ml);
                                    assert(report.missing_in_right.deep_view()
                                        =~= r0.missing_in_right.deep_view() + left_pass(
                                        cs1,
                                        cs2,
                                        pat,
                                        i as int + 1,
                                    ).mr);
                                    assert(report.different_files.deep_view()
                                        =~= r0.different_files.deep_view() + left_pass(
                                        cs1,
                                        cs2,
                                        pat,
                                        i as int + 1,
                                    ).df);
                                }
                            },
                            Option::None => {
                                let ghost mr_before = report.missing_in_right.deep_view();
                                report.missing_in_right.push(nm.clone());
                                proof {
                                    assert(!has_name(cs2, nm@));
                                    assert(report.missing_in_right.deep_view() =~= mr_before.push(
                                        nm@,
                                    ));
                                    assert(left_pass(cs1, cs2, pat, i as int + 1).mr =~= left_pass(
                                        cs1,
                                        cs2,
                                        pat,
                                        i as int,
                                    ).mr + seq![nm@]);
                                    assert(report.missing_in_right.deep_view()
                                        =~= r0.missing_in_right.deep_view() + left_pass(
                                        cs1,
                                        cs2,
                                        pat,
                                        i as int + 1,
                                    ).mr);
                                    assert(report.missing_in_left.deep_view()
                                        =~= r0.missing_in_left.deep_view() + left_pass(
                                        cs1,
                                        cs2,
                                        pat,
                                        i as int + 1,
                                    ).ml);
                                    assert(report.different_files.deep_view()
                                        =~= r0.different_files.deep_view() + left_pass(
                                        cs1,
                                        cs2,
                                        pat,
                                        i as int + 1,
                                    ).df);
                                }
                            },
                        }
                    } else {
                        proof {
                            assert(report.missing_in_left.deep_view()
                                =~= r0.missing_in_left.deep_view() + left_pass(
                                cs1,
                                cs2,
                                pat,
                                i as int + 1,
                            ).ml);
                            assert(report.missing_in_right.deep_view()
                                =~= r0.missing_in_right.deep_view() + left_pass(
                                cs1,
                                cs2,
                                pat,
                                i as int + 1,
                            ).mr);
                            assert(report.different_files.deep_view()
                                =~= r0.different_files.deep_view() + left_pass(
                                cs1,
                                cs2,
                                pat,
                                i as int + 1,
                            ).df);
                        }
                    }
                    i = i + 1;
                }
                let ghost walked = left_pass(cs1, cs2, pat, cs1.len() as int);
                let mut j: usize = 0;
                while j < children2.len()
                    invariant
                        j <= cs2.len(),
                        report.missing_in_left.deep_view() == r0.missing_in_left.deep_view()
                            + walked.ml + right_miss(cs1, cs2, pat, j as int),
                        report.missing_in_right.deep_view() == r0.missing_in_right.deep_view()
                            + walked.mr,
                        report.different_files.deep_view() == r0.different_files.deep_view()
                            + walked.df,
                    decreases cs2.len() - j,
                {
                    let c2 = &children2[j];
                    let nm2 = c2.name_ref();
                    let mut miss = false;
                    if !is_excluded(m, nm2.as_str()) {
                        match crate::scanner::find_child(children1, nm2) {
                            Option::Some(_) => {
                                proof {
                                    assert(has_name(cs1, nm2@));
                                }
                            },
                            Option::None => {
                                miss = true;
                                proof {
                                    assert(!has_name(cs1, nm2@));
                                }
                            },
                        }
                    }
                    let ghost ml_before = report.missing_in_left.deep_view();
                    if miss {
                        report.missing_in_left.push(nm2.clone());
                        proof {
                            assert(report.missing_in_left.deep_view() =~= ml_before.push(nm2@));
                            assert(right_miss(cs1, cs2, pat, j as int + 1) =~= right_miss(
                                cs1,
                                cs2,
                                pat,
                                j as int,
                            ) + seq![nm2@]);
                        }
                    } else {
                        proof {
                            assert(right_miss(cs1, cs2, pat, j as int + 1) =~= right_miss(
                                cs1,
                                cs2,
                                pat,
                                j as int,
                            ));
                        }
                    }
                    proof {
                        assert(report.missing_in_left.deep_view()
                            =~= r0.missing_in_left.deep_view() + walked.ml + right_miss(
                            cs1,
                            cs2,
                            pat,
                            j as int + 1,
                        ));
                    }
                    j = j + 1;
                }
                proof {
                    let d = diff_spec(*node1, *node2, pat);
                    assert(report.missing_in_left.deep_view() =~= r0.missing_in_left.deep_view()
                        + d.ml);
                    assert(report.missing_in_right.deep_view() =~= r0.missing_in_right.deep_view()
                        + d.mr);
                    assert(report.different_files.deep_view() =~= r0.different_files.deep_view()
                        + d.df);
                }
            }
        },
        (Node::File { name: name1, .. }, Node::Directory { name: name2, .. }) => {
            report.missing_in_left.push(name2.clone());
            report.missing_in_right.push(name1.clone());
            proof {
                assert(report.missing_in_left.deep_view() =~= r0.missing_in_left.deep_view()
                    + seq![name2@]);
                assert(report.missing_in_right.deep_view() =~= r0.missing_in_right.deep_view()
                    + seq![name1@]);
                assert(report.different_files.deep_view() =~= r0.different_files.deep_view()
                    + Seq::<Seq<char>>::empty());
            }
        },
        (Node::Directory { name: name1, .. }, Node::File { name: name2, .. }) => {
            report.missing_in_left.push(name2.clone());
            report.missing_in_right.push(name1.clone());
            proof {
                assert(report.missing_in_left.deep_view() =~= r0.missing_in_left.deep_view()
                    + seq![name2@]);
                assert(report.missing_in_right.deep_view() =~= r0.missing_in_right.deep_view()
                    + seq![name1@]);
                assert(report.different_files.deep_view() =~= r0.different_files.deep_view()
                    + Seq::<Seq<char>>::empty());
            }
        },
    }
}

/// A report equal to an earlier one extends it by empty contributions.
proof fn lemma_unchanged(r: DiffReport, r0: DiffReport)
    requires
        r == r0,
    ensures
        r.missing_in_left.deep_view() == r0.missing_in_left.deep_view() + Seq::<
            Seq<char>,
        >::empty(),
        r.missing_in_right.deep_view() == r0.missing_in_right.deep_view() + Seq::<
            Seq<char>,
        >::empty(),
        r.different_files.deep_view() == r0.different_files.deep_view() + Seq::<
            Seq<char>,
        >::empty(),
{
    assert(r.missing_in_left.deep_view() =~= r0.missing_in_left.deep_view() + Seq::<
        Seq<char>,
    >::empty());
    assert(r.missing_in_right.deep_view() =~= r0.missing_in_right.deep_view() + Seq::<
        Seq<char>,
    >::empty());
    assert(r.different_files.deep_view() =~= r0.different_files.deep_view() + Seq::<
        Seq<char>,
    >::empty());
}

/// Compare two trees under an exclusion pattern, appending everything found
/// to `report`.
///
/// A non-empty pattern must compile as a regular expression, or the whole
/// comparison is rejected and the report is left untouched; a name the
/// pattern matches contributes nothing to any collection of the report.
pub fn compare_nodes(
    node1: &Node,
    node2: &Node,
    report: &mut DiffReport,
    exclude_pattern: &str,
) -> (r: Result<(), TreeError>)
    requires
        wf_node(*node1),
        wf_node(*node2),
    ensures
        r is Ok <==> (exclude_pattern@.len() == 0 || pattern_ok(exclude_pattern@)),
        r is Ok ==> final(report).missing_in_left.deep_view() == old(
            report,
        ).missing_in_left.deep_view() + diff_spec(*node1, *node2, pat_of(exclude_pattern@)).ml,
        r is Ok ==> final(report).missing_in_right.deep_view() == old(
            report,
        ).missing_in_right.deep_view() + diff_spec(*node1, *node2, pat_of(exclude_pattern@)).mr,
        r is Ok ==> final(report).different_files.deep_view() == old(
            report,
        ).different_files.deep_view() + diff_spec(*node1, *node2, pat_of(exclude_pattern@)).df,
        r is Err ==> *final(report) == *old(report) && r->Err_0
            == TreeError::InvalidExcludePattern,
{
    match compile_pattern(exclude_pattern) {
        Ok(m) => {
            compare_rec(node1, node2, &m, report);
            Ok(())
        },
        Err(e) => Err(e),
    }
}

/// Compare two trees under an exclusion pattern into a fresh report.
pub fn compare(left: &Node, right: &Node, exclude_pattern: &str) -> (r: Result<
    DiffReport,
    TreeError,
>)
    requires
        wf_node(*left),
        wf_node(*right),
    ensures
        r is Ok <==> (exclude_pattern@.len() == 0 || pattern_ok(exclude_pattern@)),
        r is Ok ==> r->Ok_0.missing_in_left.deep_view() == diff_spec(
            *left,
            *right,
            pat_of(exclude_pattern@),
        ).ml,
        r is Ok ==> r->Ok_0.missing_in_right.deep_view() == diff_spec(
            *left,
            *right,
            pat_of(exclude_pattern@),
        ).mr,
        r is Ok ==> r->Ok_0.different_files.deep_view() == diff_spec(
            *left,
            *right,
            pat_of(exclude_pattern@),
        ).df,
        r is Err ==> r->Err_0 == TreeError::InvalidExcludePattern,
{
    let mut report = DiffReport::new();
    let ghost d = diff_spec(*left, *right, pat_of(exclude_pattern@));
    match compare_nodes(left, right, &mut report, exclude_pattern) {
        Ok(()) => {
            proof {
                assert(report.missing_in_left.deep_view() =~= d.ml);
                assert(report.missing_in_right.deep_view() =~= d.mr);
                assert(report.different_files.deep_view() =~= d.df);
            }
            Ok(report)
        },
        Err(e) => Err(e),
    }
}

} // verus!
