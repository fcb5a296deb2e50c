use rit::bytes::{bytes_eq, bytes_lt, copy_range, find_byte, parse_unsigned, push_decimal, starts_with};
use rit::commands::ls_tree::TreeFile;
use rit::commands::status::{compute_status, WorkingFile};
use rit::index::{Index, IndexEntry};
use rit::refs::{
    current_branch, head_for_branch, is_full_hash, is_valid_ref_name, may_delete_branch, parse_head,
    ref_commit, ref_line, DeleteRefusal, HeadTarget,
};
use rit::text::{first_line_end, join_texts, split_text, trim_bounds};
use rit::{join_paths, Repository, RIT_DIR};

fn entry(path: &str, hash: &str) -> IndexEntry {
    IndexEntry { path: path.to_string(), hash: hash.to_string(), size: 1, mtime: 1 }
}

#[test]
fn repository_paths() {
    assert_eq!(RIT_DIR, ".rit");
    let repo = Repository::at("/work/project");
    assert_eq!(repo.root, "/work/project");
    assert_eq!(repo.rit_dir, "/work/project/.rit");
    assert_eq!(repo.objects_dir(), "/work/project/.rit/objects");
    assert_eq!(repo.refs_dir(), "/work/project/.rit/refs");
    assert_eq!(repo.head_path(), "/work/project/.rit/HEAD");
    assert_eq!(repo.index_path(), "/work/project/.rit/index");
    assert_eq!(repo.branch_ref_path("main"), "/work/project/.rit/refs/heads/main");
    assert_eq!(repo.tag_ref_path("v1.0.0"), "/work/project/.rit/refs/tags/v1.0.0");
    assert_eq!(Repository::at("").rit_dir, ".rit");
    assert_eq!(Repository::at("/").rit_dir, "/.rit");
    assert_eq!(join_paths("a", "b"), "a/b");
    assert_eq!(join_paths("a/", "b"), "a/b");
    assert_eq!(join_paths("a", "/b"), "/b");
    assert_eq!(join_paths("a", ""), "a/");
}

#[test]
fn index_entries() {
    let mut index = Index::new();
    assert!(!index.contains("a"));
    assert_eq!(index.get_entry("a"), None);
    index.add_entry(entry("a", "1"));
    index.add_entry(entry("b", "2"));
    index.add_entry(entry("a", "3"));
    assert_eq!(index.entries().len(), 2);
    assert_eq!(index.get_entry("a").unwrap().hash, "3");
    assert_eq!(index.entries()[0].path, "a");
    assert!(index.contains("b"));
    index.remove_entry("a");
    assert!(!index.contains("a"));
    assert_eq!(index.entries().len(), 1);
    index.remove_entry("missing");
    assert_eq!(index.entries().len(), 1);
    assert_eq!(index.position("b"), 0);
    assert_eq!(Index::default().entries.len(), 0);
}

#[test]
fn head_text() {
    assert_eq!(parse_head("ref: refs/heads/main\n"), HeadTarget::Ref("refs/heads/main".to_string()));
    assert_eq!(parse_head("  ref:   refs/tags/v1  \n"), HeadTarget::Ref("refs/tags/v1".to_string()));
    let hash = "a".repeat(40);
    assert_eq!(parse_head(&format!("{}\n", hash)), HeadTarget::Commit(hash));
    assert_eq!(parse_head(" \n"), HeadTarget::Empty);
    assert_eq!(parse_head(""), HeadTarget::Empty);
    assert_eq!(parse_head("ref:"), HeadTarget::Commit("ref:".to_string()));
    assert_eq!(current_branch("ref: refs/heads/main\n"), Some("main".to_string()));
    assert_eq!(current_branch("ref: refs/heads/feature/x\n"), Some("feature/x".to_string()));
    assert_eq!(current_branch("ref: refs/tags/v1\n"), None);
    assert_eq!(current_branch(&"a".repeat(40)), None);
    assert_eq!(ref_commit("abc\n"), "abc");
    assert_eq!(ref_commit("  abc  \r\n"), "abc");
    assert_eq!(ref_line("abc"), "abc\n");
    assert_eq!(head_for_branch("main"), "ref: refs/heads/main\n");
}

#[test]
fn reference_names() {
    assert!(is_valid_ref_name("feature"));
    assert!(is_valid_ref_name("v1.0.0"));
    assert!(!is_valid_ref_name(""));
    assert!(!is_valid_ref_name("a/b"));
    assert!(!is_valid_ref_name("a\\b"));
    assert!(!is_valid_ref_name("a b"));
    assert!(is_full_hash(&"a".repeat(40)));
    assert!(is_full_hash("0123456789abcdefABCDEF0123456789abcdef01"));
    assert!(!is_full_hash(&"a".repeat(39)));
    assert!(!is_full_hash(&"g".repeat(40)));
    assert!(!is_full_hash("main"));
}

#[test]
fn branch_deletion() {
    assert_eq!(may_delete_branch("f", Some("main"), "c1", Some("c1"), false), Ok(()));
    assert_eq!(
        may_delete_branch("f", Some("f"), "c1", Some("c1"), false),
        Err(DeleteRefusal::CheckedOut)
    );
    assert_eq!(
        may_delete_branch("f", Some("main"), "c1", Some("c2"), false),
        Err(DeleteRefusal::NotMerged)
    );
    assert_eq!(may_delete_branch("f", Some("f"), "c1", Some("c2"), true), Ok(()));
    assert_eq!(may_delete_branch("f", None, "c1", None, false), Ok(()));
}

#[test]
fn status_of_a_working_tree() {
    let mut index = Index::new();
    index.add_entry(entry("same.txt", "h1"));
    index.add_entry(entry("changed.txt", "h2"));
    index.add_entry(entry("restaged.txt", "h3new"));
    index.add_entry(entry("new.txt", "h4"));
    index.add_entry(entry("gone.txt", "h5"));
    let head = vec![
        TreeFile { path: "same.txt".to_string(), mode: "100644".to_string(), hash: "h1".to_string() },
        TreeFile { path: "changed.txt".to_string(), mode: "100644".to_string(), hash: "h2".to_string() },
        TreeFile { path: "restaged.txt".to_string(), mode: "100644".to_string(), hash: "h3".to_string() },
        TreeFile { path: "unstaged.txt".to_string(), mode: "100644".to_string(), hash: "h6".to_string() },
        TreeFile { path: "gone.txt".to_string(), mode: "100644".to_string(), hash: "h5".to_string() },
    ];
    let working = vec![
        WorkingFile { path: "same.txt".to_string(), hash: "h1".to_string() },
        WorkingFile { path: "changed.txt".to_string(), hash: "h2x".to_string() },
        WorkingFile { path: "restaged.txt".to_string(), hash: "h3new".to_string() },
        WorkingFile { path: "new.txt".to_string(), hash: "h4".to_string() },
        WorkingFile { path: "stray.txt".to_string(), hash: "h7".to_string() },
    ];
    let missing = vec!["gone.txt".to_string()];
    let report = compute_status(&index, Some(&head), &working, &missing);
    assert_eq!(report.staged, vec!["restaged.txt".to_string(), "new.txt".to_string()]);
    assert_eq!(report.modified, vec!["changed.txt".to_string()]);
    assert_eq!(report.deleted, vec!["unstaged.txt".to_string(), "gone.txt".to_string()]);
    assert_eq!(report.untracked, vec!["stray.txt".to_string()]);

    let first = compute_status(&index, None, &working, &vec![]);
    assert_eq!(first.staged.len(), 5);
    assert_eq!(first.staged[0], "same.txt");
    assert!(first.deleted.is_empty());
}

#[test]
fn byte_helpers() {
    assert_eq!(find_byte(b"a b c", 0, b' '), 1);
    assert_eq!(find_byte(b"a b c", 2, b' '), 3);
    assert_eq!(find_byte(b"a b c", 4, b' '), 5);
    assert!(bytes_eq(b"abc", b"abc"));
    assert!(!bytes_eq(b"abc", b"abd"));
    assert!(!bytes_eq(b"abc", b"ab"));
    assert!(starts_with(b"abc", b"ab"));
    assert!(starts_with(b"abc", b""));
    assert!(!starts_with(b"ab", b"abc"));
    assert_eq!(copy_range(b"abcdef", 2, 4), b"cd".to_vec());
    assert!(bytes_lt(b"a", b"b"));
    assert!(bytes_lt(b"a", b"ab"));
    assert!(bytes_lt(b"", b"a"));
    assert!(!bytes_lt(b"a", b"a"));
    assert!(!bytes_lt(b"b", b"a"));
    assert!(bytes_lt(b"lib/", b"lib0"));
    assert!(bytes_lt(b"\x7f", b"\x80"));
}

#[test]
fn decimal_numbers() {
    let mut out = b"n=".to_vec();
    push_decimal(&mut out, 0);
    push_decimal(&mut out, 9);
    push_decimal(&mut out, 10);
    push_decimal(&mut out, 18446744073709551615);
    assert_eq!(out, b"n=091018446744073709551615".to_vec());
    assert_eq!(parse_unsigned(b"0"), Some(0));
    assert_eq!(parse_unsigned(b"007"), Some(7));
    assert_eq!(parse_unsigned(b"+42"), Some(42));
    assert_eq!(parse_unsigned(b"18446744073709551615"), Some(u64::MAX));
    assert_eq!(parse_unsigned(b"18446744073709551616"), None);
    assert_eq!(parse_unsigned(b""), None);
    assert_eq!(parse_unsigned(b"+"), None);
    assert_eq!(parse_unsigned(b"-1"), None);
    assert_eq!(parse_unsigned(b"1 "), None);
    assert_eq!(parse_unsigned(b"1x"), None);
    assert_eq!(parse_unsigned(b"++1"), None);
}

#[test]
fn text_helpers() {
    assert_eq!(trim_bounds(b"  ab  ", 0, 6), (2, 4));
    assert_eq!(trim_bounds(b"\t\r\n", 0, 3), (3, 3));
    assert_eq!(trim_bounds("\u{2028}x y\u{205f}".as_bytes(), 0, 9), (3, 6));
    assert_eq!(trim_bounds(b"a\xc2", 0, 2), (0, 2));
    assert_eq!(split_text(b"a\n\nb"), vec![b"a".to_vec(), b"".to_vec(), b"b".to_vec()]);
    assert_eq!(split_text(b"\r\n"), vec![b"".to_vec()]);
    assert_eq!(first_line_end(b"one\r\ntwo"), 3);
    assert_eq!(first_line_end(b"one"), 3);
    assert_eq!(first_line_end(b"\nx"), 0);
    assert_eq!(join_texts(&vec![b"a".to_vec(), b"".to_vec(), b"b".to_vec()]), b"a\n\nb".to_vec());
    assert_eq!(join_texts(&vec![]), Vec::<u8>::new());
}

#[test]
fn test_get_current_branch() {
    let current = current_branch("ref: refs/heads/main\n");
    assert_eq!(current, Some("main".to_string()));
}
