use rit::commands::cat_file::read_object;
use rit::commands::commit::build_tree_from_index;
use rit::commands::commit_tree::{create_commit, is_tree_object};
use rit::commands::graph::collect_all_commits;
use rit::commands::hash_object::{header_bytes, store_object};
use rit::commands::log::{format_commit, format_timestamp, load_commit, traverse_commits, walk};
use rit::deflate::compress;
use rit::error::RitError;
use rit::index::{Index, IndexEntry};
use rit::objects::commit::{parse_author_bytes, Author, Commit};
use rit::store::ObjectStore;

fn author() -> Author {
    Author::with_timestamp("A U Thor", "author@example.com", 1700000000, "+0100")
}

fn store_with_tree() -> (ObjectStore, String) {
    let mut store = ObjectStore::new();
    let mut index = Index::new();
    index.add_entry(IndexEntry {
        path: "test.txt".to_string(),
        hash: "a".repeat(40),
        size: 4,
        mtime: 0,
    });
    let tree = build_tree_from_index(&mut store, &index).unwrap();
    (store, tree)
}

fn raw_commit(store: &mut ObjectStore, address: &str, parents: &[&str], message: &str) {
    let commit = Commit::new(
        "t".repeat(40),
        parents.iter().map(|p| p.to_string()).collect(),
        author(),
        author(),
        message.to_string(),
    );
    let content = commit.to_bytes();
    let header = header_bytes("commit", content.len());
    store.insert_raw(address.to_string(), compress(&header, &content).unwrap());
}

#[test]
fn test_commit_tree_initial() {
    let (mut store, tree_hash) = store_with_tree();
    let commit_hash =
        create_commit(&mut store, &tree_hash, vec![], author(), author(), "Initial commit").unwrap();
    assert!(store.contains(&commit_hash));
    let object = read_object(&store, &commit_hash).unwrap();
    assert_eq!(object.object_type, "commit");
}

#[test]
fn test_commit_tree_with_parent() {
    let (mut store, tree_hash) = store_with_tree();
    let parent_hash =
        create_commit(&mut store, &tree_hash, vec![], author(), author(), "First commit").unwrap();
    let commit_hash = create_commit(
        &mut store,
        &tree_hash,
        vec![parent_hash.clone()],
        author(),
        author(),
        "Second commit",
    )
    .unwrap();
    let object = read_object(&store, &commit_hash).unwrap();
    let commit_content = String::from_utf8_lossy(&object.content);
    assert!(commit_content.contains(&format!("parent {}", parent_hash)));
}

#[test]
fn test_collect_all_commits_empty() {
    let store = ObjectStore::new();
    let commits = collect_all_commits(&store, &vec![]);
    assert!(commits.is_empty());
}

#[test]
fn test_collect_all_commits_with_branch() {
    let store = ObjectStore::new();
    let commit_hash = "a".repeat(40);
    let commits = collect_all_commits(&store, &vec![commit_hash]);
    assert!(commits.is_empty());
}

#[test]
fn initial_commit_recovers_message() {
    let (mut store, tree_hash) = store_with_tree();
    let address = create_commit(&mut store, &tree_hash, vec![], author(), author(), "Initial\n").unwrap();
    let object = read_object(&store, &address).unwrap();
    let parsed = Commit::from_bytes(&object.content).unwrap();
    assert_eq!(parsed.parents.len(), 0);
    assert!(parsed.is_initial());
    assert_eq!(parsed.message, "Initial\n");
    assert_eq!(parsed.tree, tree_hash);
    let text = String::from_utf8(object.content).unwrap();
    assert_eq!(Commit::parse(&text).unwrap().message, "Initial\n");
}

#[test]
fn merge_commit_keeps_parent_order() {
    let one = "1".repeat(40);
    let two = "2".repeat(40);
    let commit = Commit::new(
        "t".repeat(40),
        vec![one.clone(), two.clone()],
        author(),
        author(),
        "Merge".to_string(),
    );
    assert!(commit.is_merge());
    assert!(!commit.is_initial());
    let text = commit.serialize();
    let first = text.find(&format!("parent {}\n", one)).unwrap();
    let second = text.find(&format!("parent {}\n", two)).unwrap();
    assert!(first < second);
    assert_eq!(text.matches("parent ").count(), 2);
    let parsed = Commit::parse(&text).unwrap();
    assert_eq!(parsed.parents, vec![one, two]);
    assert!(parsed.is_merge());
}

#[test]
fn commit_text() {
    let commit = Commit::simple("abc123", Some("def456"), author(), "Subject\n\nBody\n");
    assert_eq!(
        commit.serialize(),
        "tree abc123\nparent def456\nauthor A U Thor <author@example.com> 1700000000 +0100\n\
         committer A U Thor <author@example.com> 1700000000 +0100\n\nSubject\n\nBody\n"
    );
    assert_eq!(commit.to_bytes(), commit.serialize().into_bytes());
    let root = Commit::simple("abc123", None, author(), "");
    assert_eq!(
        root.serialize(),
        "tree abc123\nauthor A U Thor <author@example.com> 1700000000 +0100\n\
         committer A U Thor <author@example.com> 1700000000 +0100\n\n"
    );
}

#[test]
fn commit_round_trip_is_exact() {
    let other = Author::with_timestamp("C. Mitter", "c@example.org", 0, "-0530");
    let commit = Commit::new(
        "0123456789abcdef0123456789abcdef01234567".to_string(),
        vec!["a".repeat(40), "b".repeat(40), "c".repeat(40)],
        author(),
        other,
        "\n  leading and trailing\r\nlines \n\n".to_string(),
    );
    let parsed = Commit::parse(&commit.serialize()).unwrap();
    assert_eq!(parsed.tree, commit.tree);
    assert_eq!(parsed.parents, commit.parents);
    assert_eq!(parsed.author.name, "A U Thor");
    assert_eq!(parsed.author.email, "author@example.com");
    assert_eq!(parsed.author.timestamp, 1700000000);
    assert_eq!(parsed.author.timezone, "+0100");
    assert_eq!(parsed.committer.name, "C. Mitter");
    assert_eq!(parsed.committer.email, "c@example.org");
    assert_eq!(parsed.committer.timestamp, 0);
    assert_eq!(parsed.committer.timezone, "-0530");
    assert_eq!(parsed.message, commit.message);
}

#[test]
fn commit_parse_details() {
    let a = "author A <a@b> 1 +0000";
    let c = "committer C <c@d> 2 +0000";
    // unknown headers are passed over, a later tree line replaces an earlier one
    let text = format!("tree one\nencoding utf-8\ntree two\n{}\n{}\n\nmsg", a, c);
    let parsed = Commit::parse(&text).unwrap();
    assert_eq!(parsed.tree, "two");
    assert_eq!(parsed.message, "msg");
    // no empty line: no message
    let text = format!("tree t\n{}\n{}", a, c);
    assert_eq!(Commit::parse(&text).unwrap().message, "");
    let text = format!("tree t\n{}\n{}\n", a, c);
    assert_eq!(Commit::parse(&text).unwrap().message, "");
    // missing fields
    assert_eq!(Commit::parse(&format!("{}\n{}\n\nm", a, c)).unwrap_err(), RitError::MissingField);
    assert_eq!(Commit::parse(&format!("tree t\n{}\n\nm", c)).unwrap_err(), RitError::MissingField);
    assert_eq!(Commit::parse(&format!("tree t\n{}\n\nm", a)).unwrap_err(), RitError::MissingField);
    assert_eq!(Commit::parse("").unwrap_err(), RitError::MissingField);
    // headers behind the empty line belong to the message
    let text = format!("tree t\n{}\n\n{}\n", a, c);
    assert_eq!(Commit::parse(&text).unwrap_err(), RitError::MissingField);
    // an author line that cannot be read
    let text = format!("tree t\nauthor nobody\n{}\n\nm", c);
    assert_eq!(Commit::parse(&text).unwrap_err(), RitError::MalformedCommit);
    // an empty tree address is a tree line all the same
    let text = format!("tree \n{}\n{}\n\nm", a, c);
    assert_eq!(Commit::parse(&text).unwrap().tree, "");
}

#[test]
fn author_lines() {
    assert_eq!(Author::parse("no email").unwrap_err(), RitError::MalformedCommit);
    assert_eq!(Author::parse("Name <email 1 +0000").unwrap_err(), RitError::MalformedCommit);
    assert_eq!(Author::parse("Name <e> 1").unwrap_err(), RitError::MalformedCommit);
    assert_eq!(Author::parse("Name <e> x +0000").unwrap_err(), RitError::MalformedCommit);
    assert_eq!(Author::parse("Name <e>").unwrap_err(), RitError::MalformedCommit);
    assert_eq!(
        Author::parse("Name <e> 99999999999999999999999 +0000").unwrap_err(),
        RitError::MalformedCommit
    );
    let a = Author::parse("  Spaced  Name \t<e@x>   12 +0200 ignored ").unwrap();
    assert_eq!(a.name, "Spaced  Name");
    assert_eq!(a.email, "e@x");
    assert_eq!(a.timestamp, 12);
    assert_eq!(a.timezone, "+0200");
    let b = Author::parse("<> +7 z").unwrap();
    assert_eq!(b.name, "");
    assert_eq!(b.email, "");
    assert_eq!(b.timestamp, 7);
    assert_eq!(b.timezone, "z");
    let c = Author::parse("a>b <e> 18446744073709551615 tz").unwrap();
    assert_eq!(c.name, "a>b");
    assert_eq!(c.timestamp, u64::MAX);
    assert_eq!(parse_author_bytes(b"N <e> 1  z").unwrap().timezone, "");
    let d = Author::parse("\u{00A0}N\u{2003}<e> 5 +0000").unwrap();
    assert_eq!(d.name, "N");
}

#[test]
fn new_author_is_in_utc() {
    let a = Author::new("Name", "mail@example.com");
    assert_eq!(a.name, "Name");
    assert_eq!(a.email, "mail@example.com");
    assert_eq!(a.timezone, "+0000");
    assert!(a.timestamp > 1_600_000_000);
    let b = a.duplicate();
    assert_eq!(b.serialize(), a.serialize());
}

#[test]
fn commit_needs_a_known_tree() {
    let (mut store, tree_hash) = store_with_tree();
    let count = store.objects.len();
    let missing = "f".repeat(40);
    assert_eq!(
        create_commit(&mut store, &missing, vec![], author(), author(), "m"),
        Err(RitError::UnknownTree)
    );
    let blob = store_object(&mut store, "blob", b"not a tree").unwrap();
    assert_eq!(
        create_commit(&mut store, &blob, vec![], author(), author(), "m"),
        Err(RitError::UnknownTree)
    );
    assert_eq!(create_commit(&mut store, "", vec![], author(), author(), "m"), Err(RitError::UnknownTree));
    assert_eq!(store.objects.len(), count + 1);
    assert!(is_tree_object(&store, &tree_hash));
    assert!(!is_tree_object(&store, &blob));
    // parents are not looked up
    let orphan = create_commit(&mut store, &tree_hash, vec![missing.clone()], author(), author(), "m").unwrap();
    assert_eq!(load_commit(&store, &orphan).unwrap().unwrap().parents, vec![missing]);
}

#[test]
fn walk_follows_first_parents() {
    let (mut store, tree) = store_with_tree();
    let c1 = create_commit(&mut store, &tree, vec![], author(), author(), "one").unwrap();
    let c2 = create_commit(&mut store, &tree, vec![c1.clone()], author(), author(), "two").unwrap();
    let side = create_commit(&mut store, &tree, vec![], author(), author(), "side").unwrap();
    let c3 = create_commit(&mut store, &tree, vec![c2.clone(), side.clone()], author(), author(), "three")
        .unwrap();
    let history = walk(&store, &c3).unwrap();
    let addresses: Vec<&str> = history.iter().map(|r| r.address.as_str()).collect();
    assert_eq!(addresses, vec![c3.as_str(), c2.as_str(), c1.as_str()]);
    assert_eq!(history[0].commit.message, "three");
    assert_eq!(history[2].commit.message, "one");
    assert_eq!(walk(&store, "").unwrap().len(), 0);
}

#[test]
fn walk_ends_at_what_is_no_commit_and_fails_on_what_is_missing() {
    let (mut store, tree) = store_with_tree();
    let c1 = create_commit(&mut store, &tree, vec![tree.clone()], author(), author(), "on a tree").unwrap();
    assert_eq!(walk(&store, &c1).unwrap().len(), 1);
    assert_eq!(walk(&store, &tree).unwrap().len(), 0);
    let c2 = create_commit(&mut store, &tree, vec!["e".repeat(40)], author(), author(), "lost").unwrap();
    assert_eq!(walk(&store, &c2).unwrap_err(), RitError::NotFound);
    assert_eq!(walk(&store, &"e".repeat(40)).unwrap_err(), RitError::NotFound);
    assert_eq!(walk(&store, "abc").unwrap_err(), RitError::Corrupt);
    let bad = store_object(&mut store, "commit", b"tree only\n").unwrap();
    assert_eq!(walk(&store, &bad).unwrap_err(), RitError::MissingField);
    assert_eq!(traverse_commits(&store, &c2, true).unwrap_err(), RitError::NotFound);
}

#[test]
fn walk_is_safe_on_cycles() {
    let mut store = ObjectStore::new();
    let a = "a".repeat(40);
    let b = "b".repeat(40);
    let c = "c".repeat(40);
    raw_commit(&mut store, &a, &[&b], "a");
    raw_commit(&mut store, &b, &[&c], "b");
    raw_commit(&mut store, &c, &[&a], "c");
    let history = walk(&store, &a).unwrap();
    let addresses: Vec<&str> = history.iter().map(|r| r.address.as_str()).collect();
    assert_eq!(addresses, vec![a.as_str(), b.as_str(), c.as_str()]);

    let own = "d".repeat(40);
    raw_commit(&mut store, &own, &[&own], "self");
    assert_eq!(walk(&store, &own).unwrap().len(), 1);

    let nodes = collect_all_commits(&store, &vec![b.clone(), own.clone(), b.clone()]);
    let mut found: Vec<&str> = nodes.iter().map(|r| r.address.as_str()).collect();
    found.sort();
    assert_eq!(found, vec![a.as_str(), b.as_str(), c.as_str(), own.as_str()]);
}

#[test]
fn graph_follows_all_parents_once() {
    let (mut store, tree) = store_with_tree();
    let root = create_commit(&mut store, &tree, vec![], author(), author(), "root").unwrap();
    let left = create_commit(&mut store, &tree, vec![root.clone()], author(), author(), "left").unwrap();
    let right = create_commit(&mut store, &tree, vec![root.clone()], author(), author(), "right").unwrap();
    let merge = create_commit(
        &mut store,
        &tree,
        vec![left.clone(), right.clone(), "0".repeat(40), tree.clone()],
        author(),
        author(),
        "merge",
    )
    .unwrap();
    let unrelated = create_commit(&mut store, &tree, vec![], author(), author(), "unrelated").unwrap();

    let nodes = collect_all_commits(&store, &vec![merge.clone()]);
    let addresses: Vec<&str> = nodes.iter().map(|r| r.address.as_str()).collect();
    assert_eq!(addresses, vec![merge.as_str(), left.as_str(), right.as_str(), root.as_str()]);
    assert!(nodes[0].commit.is_merge());

    let both = collect_all_commits(&store, &vec![left.clone(), unrelated.clone(), merge.clone()]);
    assert_eq!(both.len(), 5);
    let none = collect_all_commits(&store, &vec![tree.clone(), "abc".to_string(), String::new()]);
    assert!(none.is_empty());
}

#[test]
fn commit_display() {
    let commit = Commit::new(
        "t".repeat(40),
        vec!["1234567890".to_string(), "abc".to_string()],
        author(),
        author(),
        "Subject\r\n\nBody line\n".to_string(),
    );
    let hash = "0123456789abcdef0123456789abcdef01234567";
    assert_eq!(format_commit(&commit, hash, true), "0123456 Subject");
    assert_eq!(format_commit(&commit, "abc", true), "abc Subject");
    assert_eq!(
        format_commit(&commit, hash, false),
        "commit 0123456789abcdef0123456789abcdef01234567\nMerge: 1234567 abc\n\
         Author: A U Thor <author@example.com>\nDate:   1700000000\n\n    Subject\n    \n    Body line"
    );
    let plain = Commit::simple("t", None, author(), "");
    assert_eq!(format_commit(&plain, "ff", true), "ff ");
    assert_eq!(
        format_commit(&plain, "ff", false),
        "commit ff\nAuthor: A U Thor <author@example.com>\nDate:   1700000000\n"
    );
    assert_eq!(format_timestamp(0), "0");
    assert_eq!(format_timestamp(1234567890), "1234567890");
    assert_eq!(format_timestamp(u64::MAX), "18446744073709551615");
}

#[test]
fn history_display() {
    let (mut store, tree) = store_with_tree();
    let c1 = create_commit(&mut store, &tree, vec![], author(), author(), "one").unwrap();
    let c2 = create_commit(&mut store, &tree, vec![c1.clone()], author(), author(), "two\nmore").unwrap();
    assert_eq!(
        traverse_commits(&store, &c2, true).unwrap(),
        vec![format!("{} two", &c2[..7]), format!("{} one", &c1[..7])]
    );
    let full = traverse_commits(&store, &c1, false).unwrap();
    assert_eq!(full.len(), 1);
    assert!(full[0].starts_with(&format!("commit {}\nAuthor: ", c1)));
}
