use rit::commands::cat_file::read_object;
use rit::commands::commit::build_tree_from_index;
use rit::commands::hash_object::{hash_content, store_object};
use rit::error::RitError;
use rit::index::{Index, IndexEntry};
use rit::objects::commit::{Author, Commit};
use rit::objects::{Blob, Tree, TreeEntry};
use rit::store::ObjectStore;

#[test]
fn test_blob_hash() {
    let blob = Blob::new(b"test content\n".to_vec());
    assert_eq!(blob.hash(), "d670460b4b4aece5915caf5c68d12f560a9fe3e4");
}

#[test]
fn test_blob_as_text() {
    let text_blob = Blob::new(b"Hello, World!".to_vec());
    assert_eq!(text_blob.as_text(), Some("Hello, World!".to_string()));

    let binary_blob = Blob::new(vec![0xFF, 0xFE, 0x00]);
    assert!(binary_blob.as_text().is_none());
}

#[test]
fn test_hash_content() {
    let hash = hash_content("blob", b"Hello, World!");
    assert_eq!(hash.len(), 40);
}

#[test]
fn test_known_hash() {
    let hash = hash_content("blob", b"test content\n");
    assert_eq!(hash, "d670460b4b4aece5915caf5c68d12f560a9fe3e4");
}

#[test]
fn test_roundtrip() {
    let mut store = ObjectStore::new();
    let content = b"Hello, World!";
    let hash = store_object(&mut store, "blob", content).unwrap();

    let object = read_object(&store, &hash).unwrap();
    assert_eq!(object.object_type, "blob");
    assert_eq!(object.size, content.len());
    assert_eq!(object.content, content);
}

#[test]
fn test_tree_entry_types() {
    let file = TreeEntry::file("test.txt".to_string(), "a".repeat(40));
    assert!(file.is_blob());
    assert!(!file.is_tree());

    let dir = TreeEntry::directory("src".to_string(), "b".repeat(40));
    assert!(dir.is_tree());
    assert!(!dir.is_blob());
}

#[test]
fn test_tree_sorting() {
    let mut tree = Tree::new();
    tree.add_entry(TreeEntry::file("z.txt".to_string(), "a".repeat(40)));
    tree.add_entry(TreeEntry::file("a.txt".to_string(), "b".repeat(40)));
    tree.add_entry(TreeEntry::directory("m".to_string(), "c".repeat(40)));

    tree.sort();

    assert_eq!(tree.entries[0].name, "a.txt");
    assert_eq!(tree.entries[1].name, "m");
    assert_eq!(tree.entries[2].name, "z.txt");
}

#[test]
fn test_author_serialize() {
    let author = Author::with_timestamp("John Doe", "john@example.com", 1234567890, "+0000");
    assert_eq!(author.serialize(), "John Doe <john@example.com> 1234567890 +0000");
}

#[test]
fn test_author_parse() {
    let s = "John Doe <john@example.com> 1234567890 +0000";
    let author = Author::parse(s).unwrap();
    assert_eq!(author.name, "John Doe");
    assert_eq!(author.email, "john@example.com");
    assert_eq!(author.timestamp, 1234567890);
    assert_eq!(author.timezone, "+0000");
}

#[test]
fn test_commit_roundtrip() {
    let author = Author::with_timestamp("Test", "test@test.com", 1000, "+0000");
    let commit = Commit::simple("abc123", None, author, "Test message");

    let serialized = commit.serialize();
    let parsed = Commit::parse(&serialized).unwrap();

    assert_eq!(parsed.tree, "abc123");
    assert!(parsed.parents.is_empty());
    assert_eq!(parsed.message, "Test message");
}

#[test]
fn test_index_new() {
    let index = Index::new();
    assert!(index.entries.is_empty());
}

#[test]
fn test_index_add_entry() {
    let mut index = Index::new();
    let entry = IndexEntry {
        path: "test.txt".to_string(),
        hash: "abc123".to_string(),
        size: 100,
        mtime: 1234567890,
    };
    index.add_entry(entry.clone());
    assert_eq!(index.get_entry("test.txt"), Some(&entry));
}

#[test]
fn test_build_tree_from_index() {
    let mut store = ObjectStore::new();

    let mut index = Index::new();
    index.add_entry(IndexEntry {
        path: "file1.txt".to_string(),
        hash: "a".repeat(40),
        size: 10,
        mtime: 1000,
    });
    index.add_entry(IndexEntry {
        path: "file2.txt".to_string(),
        hash: "b".repeat(40),
        size: 20,
        mtime: 2000,
    });

    let tree_hash = build_tree_from_index(&mut store, &index).unwrap();
    assert_eq!(tree_hash.len(), 40);
}

#[test]
fn build_tree_nests_directories() {
    let mut store = ObjectStore::new();
    let addr_a = "a".repeat(40);
    let addr_b = "b".repeat(40);
    let mut index = Index::new();
    index.add_entry(IndexEntry { path: "a.txt".to_string(), hash: addr_a.clone(), size: 1, mtime: 1 });
    index.add_entry(IndexEntry { path: "dir/b.txt".to_string(), hash: addr_b.clone(), size: 1, mtime: 1 });

    let root = build_tree_from_index(&mut store, &index).unwrap();
    let object = read_object(&store, &root).unwrap();
    assert_eq!(object.object_type, "tree");
    let tree = Tree::parse(&object.content).unwrap();
    assert_eq!(tree.entries.len(), 2);
    assert_eq!(tree.entries[0].name, "a.txt");
    assert_eq!(tree.entries[0].hash, addr_a);
    assert!(tree.entries[0].is_blob());
    assert_eq!(tree.entries[1].name, "dir");
    assert!(tree.entries[1].is_tree());

    let child = read_object(&store, &tree.entries[1].hash).unwrap();
    assert_eq!(child.object_type, "tree");
    let child_tree = Tree::parse(&child.content).unwrap();
    assert_eq!(child_tree.entries.len(), 1);
    assert_eq!(child_tree.entries[0].name, "b.txt");
    assert_eq!(child_tree.entries[0].hash, addr_b);
}

#[test]
fn build_tree_of_empty_index_fails() {
    let mut store = ObjectStore::new();
    let index = Index::new();
    assert_eq!(build_tree_from_index(&mut store, &index), Err(RitError::EmptyIndex));
}
