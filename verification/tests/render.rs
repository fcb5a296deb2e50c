use rit::commands::graph::collect_all_commits;
use rit::commands::hash_object::header_bytes;
use rit::commands::render::{
    assign_levels, commit_node, generate_ascii_graph, generate_dot_graph, generate_mermaid_graph,
    graph_nodes, BranchTip, CommitNode,
};
use rit::deflate::compress;
use rit::objects::commit::{Author, Commit};
use rit::store::ObjectStore;

fn raw_commit(store: &mut ObjectStore, address: &str, parents: &[&str], message: &str) {
    let author = Author::with_timestamp("N", "n@example.com", 1, "+0000");
    let commit = Commit::new(
        "t".repeat(40),
        parents.iter().map(|p| p.to_string()).collect(),
        author.duplicate(),
        author,
        message.to_string(),
    );
    let content = commit.to_bytes();
    let header = header_bytes("commit", content.len());
    store.insert_raw(address.to_string(), compress(&header, &content).unwrap());
}

fn node(hash: &str, message: &str, parents: &[&str]) -> CommitNode {
    CommitNode {
        hash: hash.to_string(),
        short_hash: hash[..7.min(hash.len())].to_string(),
        message: message.to_string(),
        parents: parents.iter().map(|p| p.to_string()).collect(),
        is_merge: parents.len() > 1,
    }
}

fn tip(name: &str, commit: &str) -> BranchTip {
    BranchTip { name: name.to_string(), commit: commit.to_string() }
}

#[test]
fn nodes_of_commits() {
    let mut store = ObjectStore::new();
    let a = "a".repeat(40);
    let b = "b".repeat(40);
    raw_commit(&mut store, &a, &[], "first\nbody");
    raw_commit(&mut store, &b, &[&a, "miss"], "second\r\nmore");
    let records = collect_all_commits(&store, &vec![b.clone()]);
    let nodes = graph_nodes(&records);
    assert_eq!(nodes.len(), 2);
    assert_eq!(nodes[0].hash, b);
    assert_eq!(nodes[0].short_hash, "bbbbbbb");
    assert_eq!(nodes[0].message, "second");
    assert_eq!(nodes[0].parents, vec![a.clone(), "miss".to_string()]);
    assert!(nodes[0].is_merge);
    assert_eq!(nodes[1].message, "first");
    assert!(!nodes[1].is_merge);
    assert_eq!(commit_node(&records[1]).hash, a);
}

#[test]
fn mermaid_drawing() {
    let nodes = vec![
        node("cccccccccc", "merge of two", &["aaaaaaaaaa", "bbbbbbbbbb", "unknown000"]),
        node("aaaaaaaaaa", "a message that is longer than thirty characters", &[]),
        node("bbbbbbbbbb", "\u{e9}t\u{e9}", &[]),
    ];
    let tips = vec![tip("old", "cccccccccc"), tip("main", "cccccccccc"), tip("side", "bbbbbbbbbb")];
    assert_eq!(
        generate_mermaid_graph(&nodes, &tips),
        "graph TD\n    Cccccccc{{ccccccc: merge of two<br/>(main)}}\n    Caaaaaaa --> Cccccccc\n    \
         Cbbbbbbb --> Cccccccc\n    Caaaaaaa[aaaaaaa: a message that is longer than \
         ]\n    Cbbbbbbb[bbbbbbb: \u{e9}t\u{e9}<br/>(side)]"
    );
    assert_eq!(generate_mermaid_graph(&vec![], &vec![]), "graph TD");
}

#[test]
fn dot_drawing() {
    let nodes = vec![node("cccccccccc", "merge", &["aaaaaaaaaa", "zzz"]), node("aaaaaaaaaa", "root", &[])];
    let tips = vec![tip("main", "cccccccccc")];
    assert_eq!(
        generate_dot_graph(&nodes, &tips),
        "digraph GitGraph {\n    rankdir=LR;\n    node [shape=box];\n    \
         Cccccccc [label=\"ccccccc\\nmerge\\n(main)\", style=rounded];\n    \
         Caaaaaaa [label=\"aaaaaaa\\nroot\", style=box];\n    \
         Caaaaaaa -> Cccccccc;\n}"
    );
}

#[test]
fn ascii_drawing() {
    let nodes = vec![
        node("cccccccccc", "merge", &["aaaaaaaaaa", "bbbbbbbbbb"]),
        node("aaaaaaaaaa", "left", &["rrrrrrrrrr"]),
        node("bbbbbbbbbb", "right", &["rrrrrrrrrr"]),
        node("rrrrrrrrrr", "root", &[]),
    ];
    let tips = vec![tip("main", "cccccccccc")];
    assert_eq!(
        generate_ascii_graph(&nodes, &tips, Some("cccccccccc")),
        " ccccccc: merge (main)\n \u{2502} \u{2500}\u{2500}\u{2192} aaaaaaa\n \u{251c} \u{2500}\u{2500}\u{2192} bbbbbbb\n\
         \u{2500}\u{2500} aaaaaaa: left\n   \u{2502} \u{2500}\u{2500}\u{2192} rrrrrrr\n\
         \u{2500}\u{2500} bbbbbbb: right\n   \u{2502} \u{2500}\u{2500}\u{2192} rrrrrrr\n\
         \u{2500}\u{2500}\u{2500}\u{2500} rrrrrrr: root"
    );
    assert_eq!(generate_ascii_graph(&nodes, &vec![], None), "");
    assert_eq!(generate_ascii_graph(&nodes, &vec![], Some("rrrrrrrrrr")), " rrrrrrr: root");
}

#[test]
fn levels_of_commits() {
    let nodes = vec![
        node("tip", "t", &["mid", "old"]),
        node("mid", "m", &["old"]),
        node("old", "o", &["gone"]),
    ];
    let tips = vec![tip("a", "tip"), tip("b", "old"), tip("c", "tip"), tip("d", "nowhere")];
    let levels = assign_levels(&nodes, &tips, Some("mid"));
    let got: Vec<(&str, usize)> = levels.iter().map(|l| (l.hash.as_str(), l.level)).collect();
    assert_eq!(got, vec![("tip", 0), ("old", 1), ("mid", 1), ("gone", 2)]);
    // cycles end
    let ring = vec![node("x", "x", &["y"]), node("y", "y", &["x", "y"])];
    let levels = assign_levels(&ring, &vec![tip("b", "x")], None);
    let got: Vec<(&str, usize)> = levels.iter().map(|l| (l.hash.as_str(), l.level)).collect();
    assert_eq!(got, vec![("x", 0), ("y", 1)]);
}
