use rit::commands::cat_file::read_object;
use rit::commands::checkout::{
    checkout_files, find_file, get_tree_from_commit, read_blob, read_file_at,
};
use rit::commands::commit::{build_tree_from_index, check_path};
use rit::commands::hash_object::store_object;
use rit::commands::ls_tree::{
    format_entry, get_tree_files, list_tree_recursive, load_tree, TreeFile,
};
use rit::commands::write_tree::{is_tracked_name, write_tree, WorkFile};
use rit::error::RitError;
use rit::index::{Index, IndexEntry};
use rit::objects::tree::{MODE_DIR, MODE_EXEC, MODE_FILE, MODE_SYMLINK};
use rit::objects::{Tree, TreeEntry};
use rit::store::ObjectStore;

fn entry(path: &str, hash: &str) -> IndexEntry {
    IndexEntry { path: path.to_string(), hash: hash.to_string(), size: 1, mtime: 1 }
}

#[test]
fn test_format_entry() {
    let entry = TreeEntry::file("test.txt".to_string(), "a".repeat(40));
    let formatted = format_entry(&entry, false);
    assert!(formatted.contains("100644"));
    assert!(formatted.contains("blob"));
    assert!(formatted.contains("test.txt"));

    let dir_entry = TreeEntry::directory("src".to_string(), "b".repeat(40));
    let formatted = format_entry(&dir_entry, false);
    assert!(formatted.contains("tree"));
    assert!(formatted.contains("src"));
}

#[test]
fn test_format_entry_name_only() {
    let entry = TreeEntry::file("test.txt".to_string(), "a".repeat(40));
    let formatted = format_entry(&entry, true);
    assert_eq!(formatted, "test.txt");
}

#[test]
fn test_list_tree_simple() {
    let mut store = ObjectStore::new();

    let mut tree = Tree::new();
    tree.add_entry(TreeEntry::file("file1.txt".to_string(), "a".repeat(40)));
    tree.add_entry(TreeEntry::file("file2.txt".to_string(), "b".repeat(40)));

    let tree_content = tree.serialize().unwrap();
    let tree_hash = store_object(&mut store, "tree", &tree_content).unwrap();

    let output = list_tree_recursive(&store, &tree_hash, false, false, "").unwrap();
    assert_eq!(output.len(), 2);
    assert!(output[0].contains("file1.txt"));
    assert!(output[1].contains("file2.txt"));
}

#[test]
fn test_get_tree_from_commit() {
    let mut store = ObjectStore::new();

    let tree_hash = "b".repeat(40);
    let commit_content = format!(
        "tree {}\n\
         author Test <test@example.com> 1234567890 +0000\n\
         committer Test <test@example.com> 1234567890 +0000\n\
         \n\
         Test commit\n",
        tree_hash
    );

    let commit_hash = store_object(&mut store, "commit", commit_content.as_bytes()).unwrap();

    let resolved_tree = get_tree_from_commit(&store, &commit_hash).unwrap();
    assert_eq!(resolved_tree, tree_hash);
}

#[test]
fn mode_constants() {
    assert_eq!(MODE_FILE, "100644");
    assert_eq!(MODE_EXEC, "100755");
    assert_eq!(MODE_DIR, "40000");
    assert_eq!(MODE_SYMLINK, "120000");
    assert_eq!(TreeEntry::file("f".to_string(), String::new()).mode, MODE_FILE);
    assert_eq!(TreeEntry::directory("d".to_string(), String::new()).mode, MODE_DIR);
    let padded = TreeEntry::new("040000".to_string(), "d".to_string(), String::new());
    assert!(padded.is_tree());
    let exec = TreeEntry::new(MODE_EXEC.to_string(), "x".to_string(), String::new());
    assert!(exec.is_blob());
    let link = TreeEntry::new(MODE_SYMLINK.to_string(), "l".to_string(), String::new());
    assert!(!link.is_blob());
    assert!(!link.is_tree());
}

#[test]
fn entry_line_text() {
    let file = TreeEntry::file("a.txt".to_string(), "a".repeat(40));
    assert_eq!(format_entry(&file, false), format!("100644 blob {}    a.txt", "a".repeat(40)));
    let dir = TreeEntry::directory("src".to_string(), "b".repeat(40));
    assert_eq!(format_entry(&dir, false), format!("40000 tree {}    src", "b".repeat(40)));
}

#[test]
fn sort_counts_directories_with_a_slash() {
    // a file "lib" before a directory "lib-extra"
    let mut tree = Tree::new();
    tree.add_entry(TreeEntry::directory("lib-extra".to_string(), "a".repeat(40)));
    tree.add_entry(TreeEntry::file("lib".to_string(), "b".repeat(40)));
    tree.sort();
    assert_eq!(tree.entries[0].name, "lib");
    assert_eq!(tree.entries[1].name, "lib-extra");

    // a directory "lib" (as "lib/") before a file "lib0"
    let mut tree = Tree::new();
    tree.add_entry(TreeEntry::file("lib0".to_string(), "a".repeat(40)));
    tree.add_entry(TreeEntry::directory("lib".to_string(), "b".repeat(40)));
    tree.sort();
    assert_eq!(tree.entries[0].name, "lib");
    assert!(tree.entries[0].is_tree());
    assert_eq!(tree.entries[1].name, "lib0");

    // "abc" after the directory "ab", before "ab0"
    let mut tree = Tree::new();
    tree.add_entry(TreeEntry::file("ab0".to_string(), "a".repeat(40)));
    tree.add_entry(TreeEntry::file("abc".to_string(), "a".repeat(40)));
    tree.add_entry(TreeEntry::directory("ab".to_string(), "a".repeat(40)));
    tree.sort();
    let names: Vec<&str> = tree.entries.iter().map(|e| e.name.as_str()).collect();
    assert_eq!(names, vec!["ab", "ab0", "abc"]);

    // a file "lib." before a directory "lib", which a plain sort by name would not give
    let mut tree = Tree::new();
    tree.add_entry(TreeEntry::directory("lib".to_string(), "a".repeat(40)));
    tree.add_entry(TreeEntry::file("lib.".to_string(), "a".repeat(40)));
    tree.sort();
    assert_eq!(tree.entries[0].name, "lib.");
}

#[test]
fn sort_is_stable() {
    let mut tree = Tree::new();
    tree.add_entry(TreeEntry::file("same".to_string(), "1".repeat(40)));
    tree.add_entry(TreeEntry::file("a".to_string(), "0".repeat(40)));
    tree.add_entry(TreeEntry::file("same".to_string(), "2".repeat(40)));
    tree.sort();
    assert_eq!(tree.entries[0].name, "a");
    assert_eq!(tree.entries[1].hash, "1".repeat(40));
    assert_eq!(tree.entries[2].hash, "2".repeat(40));
}

#[test]
fn tree_bytes() {
    let mut tree = Tree::new();
    tree.add_entry(TreeEntry::file("a".to_string(), "0123456789abcdef0123456789abcdef01234567".to_string()));
    let bytes = tree.serialize().unwrap();
    let mut expected = b"100644 a\0".to_vec();
    expected.extend_from_slice(&[
        0x01, 0x23, 0x45, 0x67, 0x89, 0xab, 0xcd, 0xef, 0x01, 0x23, 0x45, 0x67, 0x89, 0xab, 0xcd,
        0xef, 0x01, 0x23, 0x45, 0x67,
    ]);
    assert_eq!(bytes, expected);
    assert_eq!(Tree::new().serialize().unwrap(), Vec::<u8>::new());
    assert_eq!(tree.entries[0].serialize().unwrap(), expected);
}

#[test]
fn tree_round_trip() {
    let mut tree = Tree::new();
    tree.add_entry(TreeEntry::file("z.txt".to_string(), "a".repeat(40)));
    tree.add_entry(TreeEntry::directory("dir".to_string(), "b".repeat(40)));
    tree.add_entry(TreeEntry::new("100755".to_string(), "run me.sh".to_string(), "c".repeat(40)));
    tree.add_entry(TreeEntry::new("120000".to_string(), "l\u{e9}n".to_string(), "d".repeat(40)));
    tree.sort();
    let parsed = Tree::parse(&tree.serialize().unwrap()).unwrap();
    assert_eq!(parsed.entries, tree.entries);
    assert_eq!(parsed.entries.len(), 4);
    assert_eq!(Tree::parse(b"").unwrap().entries.len(), 0);
}

#[test]
fn tree_with_bad_address_does_not_serialize() {
    let mut tree = Tree::new();
    tree.add_entry(TreeEntry::file("ok".to_string(), "a".repeat(40)));
    tree.add_entry(TreeEntry::file("bad".to_string(), "xyz".to_string()));
    assert_eq!(tree.serialize(), Err(RitError::InvalidAddress));
    assert_eq!(tree.entries[1].serialize(), Err(RitError::InvalidAddress));
}

#[test]
fn malformed_trees() {
    assert_eq!(Tree::parse(b"100644").unwrap_err(), RitError::MalformedTree);
    assert_eq!(Tree::parse(b"100644 name").unwrap_err(), RitError::MalformedTree);
    assert_eq!(Tree::parse(b"100644 name\0short").unwrap_err(), RitError::MalformedTree);
    let mut ok = b"100644 name\0".to_vec();
    ok.extend_from_slice(&[7u8; 20]);
    assert_eq!(Tree::parse(&ok).unwrap().entries[0].hash, "07".repeat(20));
    ok.push(b'x');
    assert_eq!(Tree::parse(&ok).unwrap_err(), RitError::MalformedTree);
}

#[test]
fn staged_paths_are_checked() {
    assert!(check_path(b"a"));
    assert!(check_path(b"a/b/c.txt"));
    assert!(!check_path(b""));
    assert!(!check_path(b"/a"));
    assert!(!check_path(b"a/"));
    assert!(!check_path(b"a//b"));
    let mut store = ObjectStore::new();
    let mut index = Index::new();
    index.add_entry(entry("a//b", &"a".repeat(40)));
    assert_eq!(build_tree_from_index(&mut store, &index), Err(RitError::InvalidPath));
    assert_eq!(store.objects.len(), 0);
}

#[test]
fn build_tree_rejects_bad_address() {
    let mut store = ObjectStore::new();
    let mut index = Index::new();
    index.add_entry(entry("dir/a", &"a".repeat(40)));
    index.add_entry(entry("b", "abc123x"));
    assert_eq!(build_tree_from_index(&mut store, &index), Err(RitError::InvalidAddress));
    assert_eq!(store.objects.len(), 0);
}

#[test]
fn build_tree_three_levels_without_files_between() {
    let mut store = ObjectStore::new();
    let mut index = Index::new();
    index.add_entry(entry("a/b/c/deep.txt", &"a".repeat(40)));
    index.add_entry(entry("a/b/other.txt", &"b".repeat(40)));
    index.add_entry(entry("top.txt", &"c".repeat(40)));
    index.add_entry(entry("a/b/c/second.txt", &"d".repeat(40)));
    let root = build_tree_from_index(&mut store, &index).unwrap();
    assert_eq!(store.objects.len(), 4);

    let files = get_tree_files(&store, &root).unwrap();
    let paths: Vec<&str> = files.iter().map(|f| f.path.as_str()).collect();
    assert_eq!(paths, vec!["a/b/c/deep.txt", "a/b/c/second.txt", "a/b/other.txt", "top.txt"]);
    assert_eq!(files[0].hash, "a".repeat(40));
    assert_eq!(files[3].mode, "100644");

    let top = load_tree(&store, &root).unwrap();
    assert_eq!(top.entries.len(), 2);
    assert_eq!(top.entries[0].name, "a");
    assert!(top.entries[0].is_tree());
    let a = load_tree(&store, &top.entries[0].hash).unwrap();
    assert_eq!(a.entries.len(), 1);
    assert_eq!(a.entries[0].name, "b");
    assert!(a.entries[0].is_tree());
}

#[test]
fn build_tree_does_not_depend_on_staging_order() {
    let mut one = Index::new();
    one.add_entry(entry("x", &"a".repeat(40)));
    one.add_entry(entry("d/y", &"b".repeat(40)));
    one.add_entry(entry("d/z", &"c".repeat(40)));
    let mut two = Index::new();
    two.add_entry(entry("d/z", &"c".repeat(40)));
    two.add_entry(entry("x", &"a".repeat(40)));
    two.add_entry(entry("d/y", &"b".repeat(40)));
    let mut s1 = ObjectStore::new();
    let mut s2 = ObjectStore::new();
    assert_eq!(
        build_tree_from_index(&mut s1, &one).unwrap(),
        build_tree_from_index(&mut s2, &two).unwrap()
    );
}

#[test]
fn listing_of_trees() {
    let mut store = ObjectStore::new();
    let mut index = Index::new();
    index.add_entry(entry("a.txt", &"a".repeat(40)));
    index.add_entry(entry("dir/b.txt", &"b".repeat(40)));
    let root = build_tree_from_index(&mut store, &index).unwrap();
    let dir_hash = load_tree(&store, &root).unwrap().entries[1].hash.clone();

    let flat = list_tree_recursive(&store, &root, false, false, "").unwrap();
    assert_eq!(
        flat,
        vec![
            format!("100644 blob {}    a.txt", "a".repeat(40)),
            format!("40000 tree {}    dir", dir_hash),
        ]
    );
    let names = list_tree_recursive(&store, &root, false, true, "pre").unwrap();
    assert_eq!(names, vec!["a.txt".to_string(), "pre/dir".to_string()]);
    let deep = list_tree_recursive(&store, &root, true, false, "").unwrap();
    assert_eq!(
        deep,
        vec![
            format!("100644 blob {}    a.txt", "a".repeat(40)),
            format!("100644 blob {}    dir/b.txt", "b".repeat(40)),
        ]
    );
    let deep_names = list_tree_recursive(&store, &root, true, true, "").unwrap();
    assert_eq!(deep_names, vec!["a.txt".to_string(), "dir/b.txt".to_string()]);
}

#[test]
fn listing_fails_on_what_is_no_tree() {
    let mut store = ObjectStore::new();
    let blob = store_object(&mut store, "blob", b"x").unwrap();
    assert_eq!(list_tree_recursive(&store, &blob, false, false, "").unwrap_err(), RitError::NotATree);
    assert_eq!(load_tree(&store, &blob).unwrap_err(), RitError::NotATree);
    assert_eq!(get_tree_files(&store, &"e".repeat(40)).unwrap_err(), RitError::NotFound);
    let bad = store_object(&mut store, "tree", b"100644 cut").unwrap();
    assert_eq!(load_tree(&store, &bad).unwrap_err(), RitError::MalformedTree);
}

#[test]
fn tree_that_contains_itself_is_corrupt() {
    let mut store = ObjectStore::new();
    let own = "ab".repeat(20);
    let mut tree = Tree::new();
    tree.add_entry(TreeEntry::directory("again".to_string(), own.clone()));
    let content = tree.serialize().unwrap();
    let header = rit::commands::hash_object::header_bytes("tree", content.len());
    store.insert_raw(own.clone(), rit::deflate::compress(&header, &content).unwrap());
    assert_eq!(get_tree_files(&store, &own).unwrap_err(), RitError::Corrupt);
    assert_eq!(list_tree_recursive(&store, &own, true, true, "").unwrap_err(), RitError::Corrupt);
    assert_eq!(list_tree_recursive(&store, &own, false, true, "").unwrap(), vec!["again".to_string()]);
}

#[test]
fn files_are_found_by_path() {
    let mut store = ObjectStore::new();
    let blob_a = store_object(&mut store, "blob", b"content a").unwrap();
    let blob_b = store_object(&mut store, "blob", b"content b").unwrap();
    let mut index = Index::new();
    index.add_entry(entry("a.txt", &blob_a));
    index.add_entry(entry("dir/sub/b.txt", &blob_b));
    let root = build_tree_from_index(&mut store, &index).unwrap();

    assert_eq!(find_file(&store, &root, "a.txt").unwrap(), blob_a);
    assert_eq!(find_file(&store, &root, "dir/sub/b.txt").unwrap(), blob_b);
    assert_eq!(read_file_at(&store, &root, "dir/sub/b.txt").unwrap(), b"content b".to_vec());
    assert_eq!(find_file(&store, &root, "missing").unwrap_err(), RitError::PathNotFound);
    assert_eq!(find_file(&store, &root, "dir").unwrap_err(), RitError::PathNotFound);
    assert_eq!(find_file(&store, &root, "a.txt/x").unwrap_err(), RitError::PathNotFound);
    assert_eq!(find_file(&store, &root, "").unwrap_err(), RitError::PathNotFound);
    assert_eq!(find_file(&store, &blob_a, "a.txt").unwrap_err(), RitError::NotATree);
    assert_eq!(read_blob(&store, &root).unwrap_err(), RitError::NotABlob);
    assert_eq!(read_blob(&store, &blob_a).unwrap(), b"content a".to_vec());
}

#[test]
fn checkout_lists_files_with_content() {
    let mut store = ObjectStore::new();
    let blob_a = store_object(&mut store, "blob", b"content a").unwrap();
    let blob_b = store_object(&mut store, "blob", b"#!/bin/sh\n").unwrap();
    let mut inner = Tree::new();
    inner.add_entry(TreeEntry::new("100755".to_string(), "run.sh".to_string(), blob_b.clone()));
    let inner_hash = store_object(&mut store, "tree", &inner.serialize().unwrap()).unwrap();
    let mut root = Tree::new();
    root.add_entry(TreeEntry::file("a.txt".to_string(), blob_a.clone()));
    root.add_entry(TreeEntry::directory("bin".to_string(), inner_hash));
    let root_hash = store_object(&mut store, "tree", &root.serialize().unwrap()).unwrap();

    let files = checkout_files(&store, &root_hash).unwrap();
    assert_eq!(files.len(), 2);
    assert_eq!(files[0].path, "a.txt");
    assert_eq!(files[0].content, b"content a".to_vec());
    assert!(!files[0].executable);
    assert_eq!(files[1].path, "bin/run.sh");
    assert_eq!(files[1].content, b"#!/bin/sh\n".to_vec());
    assert!(files[1].executable);

    let mut broken = Tree::new();
    broken.add_entry(TreeEntry::file("gone".to_string(), "f".repeat(40)));
    let broken_hash = store_object(&mut store, "tree", &broken.serialize().unwrap()).unwrap();
    assert_eq!(checkout_files(&store, &broken_hash).unwrap_err(), RitError::NotFound);
    assert_eq!(
        get_tree_files(&store, &broken_hash).unwrap(),
        vec![TreeFile { path: "gone".to_string(), mode: "100644".to_string(), hash: "f".repeat(40) }]
    );
}

#[test]
fn tree_of_a_commit() {
    let mut store = ObjectStore::new();
    let blob = store_object(&mut store, "blob", b"x").unwrap();
    assert_eq!(get_tree_from_commit(&store, &blob).unwrap_err(), RitError::NotACommit);
    assert_eq!(get_tree_from_commit(&store, &"9".repeat(40)).unwrap_err(), RitError::NotFound);
    let no_author = store_object(&mut store, "commit", b"tree abc\n\nmsg").unwrap();
    assert_eq!(get_tree_from_commit(&store, &no_author).unwrap_err(), RitError::MissingField);
    assert_eq!(read_object(&store, &no_author).unwrap().object_type, "commit");
}

#[test]
fn tree_of_a_working_directory() {
    let mut store = ObjectStore::new();
    let files = vec![
        WorkFile { path: "root.txt".to_string(), content: b"root".to_vec(), executable: false },
        WorkFile { path: "subdir/sub.txt".to_string(), content: b"sub".to_vec(), executable: false },
        WorkFile { path: "subdir/run.sh".to_string(), content: b"#!".to_vec(), executable: true },
    ];
    let dirs = vec!["subdir".to_string(), "empty".to_string(), "empty/inner".to_string()];
    let root = write_tree(&mut store, &files, &dirs).unwrap();
    assert_eq!(root.len(), 40);
    assert_eq!(read_object(&store, &root).unwrap().object_type, "tree");

    let top = load_tree(&store, &root).unwrap();
    let names: Vec<&str> = top.entries.iter().map(|e| e.name.as_str()).collect();
    assert_eq!(names, vec!["empty", "root.txt", "subdir"]);
    assert!(top.entries[0].is_tree());
    let empty = load_tree(&store, &top.entries[0].hash).unwrap();
    assert_eq!(empty.entries.len(), 1);
    assert_eq!(empty.entries[0].name, "inner");
    // the empty tree of git
    assert_eq!(empty.entries[0].hash, "4b825dc642cb6eb9a060e54bf8d69288fbee4904");
    let sub = load_tree(&store, &top.entries[2].hash).unwrap();
    assert_eq!(sub.entries[0].name, "run.sh");
    assert_eq!(sub.entries[0].mode, "100755");
    assert_eq!(sub.entries[1].mode, "100644");
    assert_eq!(read_blob(&store, &sub.entries[1].hash).unwrap(), b"sub".to_vec());

    // two files without directories, as git writes them
    let mut plain = ObjectStore::new();
    let two = vec![
        WorkFile { path: "file1.txt".to_string(), content: b"content1".to_vec(), executable: false },
        WorkFile { path: "file2.txt".to_string(), content: b"content2".to_vec(), executable: false },
    ];
    let hash = write_tree(&mut plain, &two, &vec![]).unwrap();
    assert_eq!(hash.len(), 40);
    assert!(hash.chars().all(|c| c.is_ascii_hexdigit()));
    assert_eq!(plain.objects.len(), 3);

    let nothing = write_tree(&mut plain, &vec![], &vec![]).unwrap();
    assert_eq!(nothing, "4b825dc642cb6eb9a060e54bf8d69288fbee4904");
    let bad = vec![WorkFile { path: "a//b".to_string(), content: vec![], executable: false }];
    assert_eq!(write_tree(&mut plain, &bad, &vec![]), Err(RitError::InvalidPath));
    assert_eq!(write_tree(&mut plain, &vec![], &vec!["x/".to_string()]), Err(RitError::InvalidPath));
    assert!(is_tracked_name("src"));
    assert!(!is_tracked_name(".rit"));
    assert!(is_tracked_name(".rita"));
}

#[test]
fn test_write_tree_simple() {
    let mut store = ObjectStore::new();
    let files = vec![
        WorkFile { path: "file1.txt".to_string(), content: b"content1".to_vec(), executable: false },
        WorkFile { path: "file2.txt".to_string(), content: b"content2".to_vec(), executable: false },
    ];

    let hash = write_tree(&mut store, &files, &vec![]).unwrap();

    assert_eq!(hash.len(), 40);
    assert!(hash.chars().all(|c| c.is_ascii_hexdigit()));
}

#[test]
fn test_write_tree_with_subdir() {
    let mut store = ObjectStore::new();
    let files = vec![
        WorkFile { path: "root.txt".to_string(), content: b"root".to_vec(), executable: false },
        WorkFile { path: "subdir/sub.txt".to_string(), content: b"sub".to_vec(), executable: false },
    ];

    let hash = write_tree(&mut store, &files, &vec!["subdir".to_string()]).unwrap();

    assert_eq!(hash.len(), 40);

    let object = read_object(&store, &hash).unwrap();
    assert_eq!(object.object_type, "tree");
}
