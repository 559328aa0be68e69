use dirinfo::comparator::{compare, compare_nodes, DiffReport};
use dirinfo::deserializer::{decode_node, is_wf};
use dirinfo::errors::TreeError;
use dirinfo::scanner::{scan_directory, tree_eq, FsEntry, Node};
use dirinfo::serializer::encode_node;

fn file_entry(name: &str, contents: &str) -> FsEntry {
    FsEntry::File { name: name.to_string(), bytes: contents.as_bytes().to_vec() }
}

fn dir_entry(name: &str, entries: Vec<FsEntry>) -> FsEntry {
    FsEntry::Dir { name: name.to_string(), entries }
}

fn md5_hex(contents: &str) -> String {
    format!("{:x}", md5::compute(contents))
}

fn file_node(name: &str, contents: &str) -> Node {
    Node::File { name: name.to_string(), md5: md5_hex(contents) }
}

fn dir_node(name: &str, children: Vec<Node>) -> Node {
    Node::Directory { name: name.to_string(), children }
}

/// The layout the original scanner test builds, in memory: a root with
/// file1.txt, and dir1 holding file2.txt and dir2/file3.txt.
fn sample_tree() -> FsEntry {
    dir_entry(
        "root",
        vec![
            file_entry("file1.txt", "content1"),
            dir_entry(
                "dir1",
                vec![
                    file_entry("file2.txt", "content2"),
                    dir_entry("dir2", vec![file_entry("file3.txt", "content3")]),
                ],
            ),
        ],
    )
}

#[test]
fn test_scan_directory() {
    let result = scan_directory(&sample_tree(), "/tmp/root", "").expect("Failed to scan directory");

    let expected_node = dir_node(
        "root",
        vec![
            file_node("file1.txt", "content1"),
            dir_node(
                "dir1",
                vec![
                    file_node("file2.txt", "content2"),
                    dir_node("dir2", vec![file_node("file3.txt", "content3")]),
                ],
            ),
        ],
    );
    assert!(is_wf(&result));
    assert!(tree_eq(&result, &expected_node));
}

#[test]
fn scan_file_digest_depends_on_contents() {
    let a = scan_directory(&file_entry("a.txt", "hello"), "/a.txt", "").unwrap();
    match &a {
        Node::File { name, md5 } => {
            assert_eq!(name, "a.txt");
            assert_eq!(md5, &md5_hex("hello"));
            assert_eq!(md5, "5d41402abc4b2a76b9719d911017c592");
            assert_ne!(md5, "hello");
            assert_eq!(md5.len(), 32);
        }
        _ => panic!("expected a file node"),
    }
    let b = scan_directory(&file_entry("a.txt", "hellp"), "/a.txt", "").unwrap();
    assert!(!tree_eq(&a, &b));
}

#[test]
fn scan_is_idempotent() {
    let t1 = scan_directory(&sample_tree(), "/tmp/root", "").unwrap();
    let t2 = scan_directory(&sample_tree(), "/tmp/root", "").unwrap();
    assert!(tree_eq(&t1, &t2));
    assert!(tree_eq(&t2, &t1));
}

#[test]
fn scan_exclusion_uses_full_path_and_real_regex() {
    // The dot matches any character, so this pattern only works as a regex.
    let t = scan_directory(&sample_tree(), "/tmp/root", r"fi.e2\.txt").unwrap();
    let expected = dir_node(
        "root",
        vec![
            file_node("file1.txt", "content1"),
            dir_node("dir1", vec![dir_node("dir2", vec![file_node("file3.txt", "content3")])]),
        ],
    );
    assert!(tree_eq(&t, &expected));
}

#[test]
fn scan_exclusion_hides_whole_subtrees() {
    let t = scan_directory(&sample_tree(), "/tmp/root", "dir1").unwrap();
    let expected = dir_node("root", vec![file_node("file1.txt", "content1")]);
    assert!(tree_eq(&t, &expected));
}

#[test]
fn scan_rejects_bad_pattern() {
    let r = scan_directory(&sample_tree(), "/tmp/root", "(");
    assert_eq!(r.unwrap_err(), TreeError::InvalidExcludePattern);
}

#[test]
fn scan_rejects_unsupported_entry() {
    let root = dir_entry(
        "root",
        vec![file_entry("ok.txt", "x"), FsEntry::Other { name: "socket".to_string() }],
    );
    let r = scan_directory(&root, "/root", "");
    assert_eq!(r.unwrap_err(), TreeError::UnsupportedEntry);
}

#[test]
fn scan_duplicate_names_last_write_wins() {
    let root = dir_entry("root", vec![file_entry("a.txt", "one"), file_entry("a.txt", "two")]);
    let t = scan_directory(&root, "/root", "").unwrap();
    let expected = dir_node("root", vec![file_node("a.txt", "two")]);
    assert!(tree_eq(&t, &expected));
}

#[test]
fn tree_eq_ignores_children_order() {
    let a = dir_node("d", vec![file_node("x", "1"), file_node("y", "2")]);
    let b = dir_node("d", vec![file_node("y", "2"), file_node("x", "1")]);
    assert!(tree_eq(&a, &b));
    let c = dir_node("d", vec![file_node("y", "2"), file_node("x", "other")]);
    assert!(!tree_eq(&a, &c));
}

#[test]
fn self_diff_is_empty() {
    let t = scan_directory(&sample_tree(), "/tmp/root", "").unwrap();
    let report = compare(&t, &t, "").unwrap();
    assert!(report.missing_in_left.is_empty());
    assert!(report.missing_in_right.is_empty());
    assert!(report.different_files.is_empty());
    assert!(report.is_empty());
}

#[test]
fn concrete_two_file_scenario() {
    let left = scan_directory(
        &dir_entry("d", vec![file_entry("a.txt", "hello"), file_entry("b.txt", "world")]),
        "/d",
        "",
    )
    .unwrap();
    let right = scan_directory(
        &dir_entry(
            "d",
            vec![
                file_entry("a.txt", "hello"),
                file_entry("b.txt", "WORLD"),
                file_entry("c.txt", "new"),
            ],
        ),
        "/d",
        "",
    )
    .unwrap();
    let report = compare(&left, &right, "").unwrap();
    assert_eq!(report.different_files, vec!["b.txt".to_string()]);
    assert_eq!(report.missing_in_left, vec!["c.txt".to_string()]);
    assert!(report.missing_in_right.is_empty());
}

#[test]
fn rename_is_reported_as_missing_only() {
    let left = dir_node("d", vec![file_node("old.txt", "data")]);
    let right = dir_node("d", vec![file_node("new.txt", "data")]);
    let report = compare(&left, &right, "").unwrap();
    assert_eq!(report.missing_in_right, vec!["old.txt".to_string()]);
    assert_eq!(report.missing_in_left, vec!["new.txt".to_string()]);
    assert!(report.different_files.is_empty());
}

#[test]
fn content_change_is_reported_as_different() {
    let left = dir_node("d", vec![file_node("a.txt", "one")]);
    let right = dir_node("d", vec![file_node("a.txt", "two")]);
    let report = compare(&left, &right, "").unwrap();
    assert!(report.missing_in_left.is_empty());
    assert!(report.missing_in_right.is_empty());
    assert_eq!(report.different_files, vec!["a.txt".to_string()]);
}

#[test]
fn excluded_name_is_reported_nowhere() {
    let left = dir_node("d", vec![file_node("a.txt", "one"), file_node("keep.txt", "k1")]);
    let right = dir_node("d", vec![file_node("a.txt", "two"), file_node("keep.txt", "k2")]);
    let report = compare(&left, &right, "a\\.txt").unwrap();
    assert!(report.missing_in_left.is_empty());
    assert!(report.missing_in_right.is_empty());
    assert_eq!(report.different_files, vec!["keep.txt".to_string()]);
}

#[test]
fn excluded_missing_name_is_reported_nowhere() {
    let left = dir_node("d", vec![file_node("gone.txt", "x")]);
    let right = dir_node("d", vec![file_node("fresh.txt", "y")]);
    let report = compare(&left, &right, "gone|fresh").unwrap();
    assert!(report.is_empty());
}

#[test]
fn type_change_is_mutually_missing() {
    let left = dir_node("d", vec![file_node("entry", "data")]);
    let right = dir_node("d", vec![dir_node("entry", vec![file_node("inner", "data")])]);
    let report = compare(&left, &right, "").unwrap();
    assert_eq!(report.missing_in_left, vec!["entry".to_string()]);
    assert_eq!(report.missing_in_right, vec!["entry".to_string()]);
    assert!(report.different_files.is_empty());
}

#[test]
fn mismatched_roots_are_mutually_missing() {
    let left = file_node("a.txt", "same");
    let right = file_node("b.txt", "same");
    let report = compare(&left, &right, "").unwrap();
    assert_eq!(report.missing_in_right, vec!["a.txt".to_string()]);
    assert_eq!(report.missing_in_left, vec!["b.txt".to_string()]);
    assert!(report.different_files.is_empty());
}

#[test]
fn mismatched_directory_roots_are_mutually_missing() {
    let left = dir_node("old", vec![file_node("x", "1")]);
    let right = dir_node("new", vec![file_node("x", "1")]);
    let report = compare(&left, &right, "").unwrap();
    assert_eq!(report.missing_in_right, vec!["old".to_string()]);
    assert_eq!(report.missing_in_left, vec!["new".to_string()]);
    assert!(report.different_files.is_empty());
}

#[test]
fn compare_rejects_bad_pattern_and_keeps_report() {
    let t = file_node("a.txt", "x");
    let mut report = DiffReport::new();
    let r = compare_nodes(&t, &t, &mut report, "[");
    assert_eq!(r.unwrap_err(), TreeError::InvalidExcludePattern);
    assert!(report.is_empty());
    assert_eq!(compare(&t, &t, "[").unwrap_err(), TreeError::InvalidExcludePattern);
}

#[test]
fn compare_accumulates_into_report() {
    let left = dir_node("d", vec![file_node("a.txt", "one")]);
    let right = dir_node("d", vec![file_node("a.txt", "two")]);
    let mut report = DiffReport::new();
    compare_nodes(&left, &right, &mut report, "").unwrap();
    compare_nodes(&left, &right, &mut report, "").unwrap();
    assert_eq!(report.different_files, vec!["a.txt".to_string(), "a.txt".to_string()]);
}

#[test]
fn snapshot_round_trip() {
    let t = scan_directory(&sample_tree(), "/tmp/root", "").unwrap();
    let bytes = encode_node(&t);
    let back = decode_node(&bytes).expect("decoding an encoded tree must succeed");
    assert!(tree_eq(&back, &t));
    assert!(tree_eq(&t, &back));
}

#[test]
fn round_trip_of_single_file() {
    let t = file_node("a.txt", "hello");
    let back = decode_node(&encode_node(&t)).unwrap();
    assert!(tree_eq(&back, &t));
}

#[test]
fn decode_rejects_corrupt_bytes() {
    assert_eq!(decode_node(&Vec::new()).unwrap_err(), TreeError::CorruptSnapshot);
    assert_eq!(decode_node(&vec![9u8, 0, 0]).unwrap_err(), TreeError::CorruptSnapshot);
    let mut bytes = encode_node(&file_node("a.txt", "hello"));
    bytes.push(0);
    assert_eq!(decode_node(&bytes).unwrap_err(), TreeError::CorruptSnapshot);
    let mut truncated = encode_node(&file_node("a.txt", "hello"));
    truncated.pop();
    assert_eq!(decode_node(&truncated).unwrap_err(), TreeError::CorruptSnapshot);
}

#[test]
fn get_name_returns_basename() {
    let f = file_node("a.txt", "x");
    assert_eq!(f.get_name(), "a.txt");
    let d = dir_node("sub", vec![]);
    assert_eq!(d.get_name(), "sub");
}

#[test]
fn new_report_is_empty() {
    let report = DiffReport::new();
    assert!(report.missing_in_left.is_empty());
    assert!(report.missing_in_right.is_empty());
    assert!(report.different_files.is_empty());
}

#[test]
fn empty_directory_round_trip_and_self_diff() {
    let t = scan_directory(&dir_entry("empty", vec![]), "/empty", "").unwrap();
    let back = decode_node(&encode_node(&t)).unwrap();
    assert!(tree_eq(&back, &t));
    assert!(compare(&t, &t, "").unwrap().is_empty());
}

#[test]
fn is_wf_detects_duplicate_names() {
    let good = dir_node("d", vec![file_node("a", "1"), file_node("b", "2")]);
    assert!(is_wf(&good));
    let bad = dir_node("d", vec![file_node("a", "1"), file_node("a", "2")]);
    assert!(!is_wf(&bad));
}
