//! Drawings of the commit graph as text: plain lines, Mermaid and Graphviz.
//!
//! The commits are drawn in the order in which they are given. A commit
//! that several branches point at carries the name of the last of them.

use crate::bytes::{
    bytes_eq, distinct_keys, lemma_found_bound, lemma_position_of, lemma_position_of_unique,
    position_of,
};
use crate::commands::graph::{is_listed, listed};
use crate::commands::log::{push_short_hash, records_view, short_hash, CommitRecord, RecordView};
use crate::ignore::{first_width, width_at};
use crate::text::{
    first_line, first_line_end, join_lines, join_texts, lines_view, text_bytes, text_from_bytes,
    texts_view,
};
use vstd::prelude::*;
use vstd::string::*;
use vstd::utf8::*;

verus! {

/// A commit as the drawings show it.
#[derive(Debug, Clone)]
pub struct CommitNode {
    /// The address of the commit.
    pub hash: String,
    /// The first seven bytes of the address.
    pub short_hash: String,
    /// The first line of the message.
    pub message: String,
    /// The addresses of the parents.
    pub parents: Vec<String>,
    /// Whether the commit has more than one parent.
    pub is_merge: bool,
}

/// What a `CommitNode` stands for.
pub struct NodeView {
    pub hash: Seq<u8>,
    pub short_hash: Seq<u8>,
    pub message: Seq<u8>,
    pub parents: Seq<Seq<u8>>,
    pub is_merge: bool,
}

impl View for CommitNode {
    type V = NodeView;

    open spec fn view(&self) -> NodeView {
        NodeView {
            hash: encode_utf8(self.hash@),
            short_hash: encode_utf8(self.short_hash@),
            message: encode_utf8(self.message@),
            parents: texts_view(self.parents@),
            is_merge: self.is_merge,
        }
    }
}

/// The views of nodes.
pub open spec fn nodes_view(nodes: Seq<CommitNode>) -> Seq<NodeView> {
    nodes.map_values(|n: CommitNode| n@)
}

/// The addresses of nodes.
pub open spec fn hashes_of(nodes: Seq<NodeView>) -> Seq<Seq<u8>> {
    nodes.map_values(|n: NodeView| n.hash)
}

/// The node that shows a commit.
pub open spec fn node_of(r: RecordView) -> NodeView {
    NodeView {
        hash: r.address,
        short_hash: text_bytes(short_hash(r.address)),
        message: text_bytes(first_line(r.commit.message)),
        parents: r.commit.parents,
        is_merge: r.commit.parents.len() > 1,
    }
}

/// The node that shows the commit of `record`.
pub fn commit_node(record: &CommitRecord) -> (node: CommitNode)
    ensures
        node@ == node_of(record@),
{
    let mut short: Vec<u8> = Vec::new();
    push_short_hash(&mut short, record.address.as_str().as_bytes());
    assert(short@ =~= short_hash(record@.address));
    let message = record.commit.message.as_str().as_bytes();
    let end = first_line_end(message);
    assert(message@.subrange(0, end as int) =~= message@.take(end as int));
    let mut parents: Vec<String> = Vec::new();
    let mut i: usize = 0;
    assert(texts_view(parents@) =~= record@.commit.parents.take(0));
    while i < record.commit.parents.len()
        invariant
            i <= record.commit.parents@.len(),
            texts_view(parents@) == record@.commit.parents.take(i as int),
        decreases record.commit.parents@.len() - i,
    {
        let ghost before = texts_view(parents@);
        parents.push(record.commit.parents[i].clone());
        assert(texts_view(parents@) =~= before.push(record@.commit.parents[i as int]));
        assert(before.push(record@.commit.parents[i as int]) =~= record@.commit.parents.take(i + 1));
        i += 1;
    }
    assert(record@.commit.parents.take(i as int) =~= record@.commit.parents);
    CommitNode {
        hash: record.address.clone(),
        short_hash: text_from_bytes(short.as_slice()),
        message: text_from_bytes(&message[0..end]),
        parents,
        is_merge: record.commit.parents.len() > 1,
    }
}

/// The nodes that show `records`, in order.
pub fn graph_nodes(records: &Vec<CommitRecord>) -> (nodes: Vec<CommitNode>)
    ensures
        nodes_view(nodes@) == records_view(records@).map_values(|r: RecordView| node_of(r)),
{
    let ghost all = records_view(records@);
    let mut nodes: Vec<CommitNode> = Vec::new();
    let mut i: usize = 0;
    assert(nodes_view(nodes@) =~= all.take(0).map_values(|r: RecordView| node_of(r)));
    while i < records.len()
        invariant
            i <= records@.len(),
            all == records_view(records@),
            nodes_view(nodes@) == all.take(i as int).map_values(|r: RecordView| node_of(r)),
        decreases records@.len() - i,
    {
        let ghost before = nodes_view(nodes@);
        let node = commit_node(&records[i]);
        assert(all[i as int] == records@[i as int]@);
        nodes.push(node);
        assert(nodes_view(nodes@) =~= before.push(node@));
        assert(before.push(node@) =~= all.take(i + 1).map_values(|r: RecordView| node_of(r)));
        i += 1;
    }
    assert(all.take(i as int) =~= all);
    nodes
}

/// A branch and the commit that it points at.
#[derive(Debug, Clone)]
pub struct BranchTip {
    pub name: String,
    pub commit: String,
}

/// What a `BranchTip` stands for.
pub struct TipView {
    pub name: Seq<u8>,
    pub commit: Seq<u8>,
}

impl View for BranchTip {
    type V = TipView;

    open spec fn view(&self) -> TipView {
        TipView { name: encode_utf8(self.name@), commit: encode_utf8(self.commit@) }
    }
}

/// The views of branch tips.
pub open spec fn tips_view(tips: Seq<BranchTip>) -> Seq<TipView> {
    tips.map_values(|t: BranchTip| t@)
}

/// The name of the last branch that points at `hash`.
pub open spec fn branch_at(tips: Seq<TipView>, hash: Seq<u8>) -> Option<Seq<u8>>
    decreases tips.len(),
{
    if tips.len() == 0 {
        None
    } else if tips.last().commit == hash {
        Some(tips.last().name)
    } else {
        branch_at(tips.drop_last(), hash)
    }
}

/// Where the last branch that points at `hash` stands in `tips`.
pub fn find_branch(tips: &Vec<BranchTip>, hash: &str) -> (at: Option<usize>)
    ensures
        match at {
            Some(i) => i < tips@.len() && branch_at(tips_view(tips@), hash.spec_bytes()) == Some(
                tips@[i as int]@.name,
            ),
            None => branch_at(tips_view(tips@), hash.spec_bytes()) is None,
        },
{
    let ghost all = tips_view(tips@);
    let mut i: usize = tips.len();
    assert(all.take(i as int) =~= all);
    while i > 0
        invariant
            i <= tips@.len(),
            all == tips_view(tips@),
            branch_at(all, hash.spec_bytes()) == branch_at(all.take(i as int), hash.spec_bytes()),
        decreases i,
    {
        proof {
            assert(all.take(i as int).drop_last() =~= all.take(i - 1));
            assert(all.take(i as int).last() == tips@[i - 1]@);
        }
        if bytes_eq(tips[i - 1].commit.as_str().as_bytes(), hash.as_bytes()) {
            return Some((i - 1) as usize);
        }
        i -= 1;
    }
    None
}

/// The first `n` characters of `s`.
pub open spec fn take_chars(s: Seq<u8>, n: nat) -> Seq<u8>
    decreases n,
{
    if n == 0 || s.len() == 0 {
        Seq::<u8>::empty()
    } else {
        s.take(first_width(s)) + take_chars(s.skip(first_width(s)), (n - 1) as nat)
    }
}

/// Appends the first `n` characters of `text`.
pub fn push_chars(out: &mut Vec<u8>, text: &[u8], n: usize)
    ensures
        final(out)@ == old(out)@ + take_chars(text@, n as nat),
{
    let mut pos: usize = 0;
    let mut left: usize = n;
    proof {
        assert(text@.skip(0) =~= text@);
        assert(text@.take(0) =~= Seq::<u8>::empty());
    }
    while left > 0 && pos < text.len()
        invariant
            pos <= text.len(),
            take_chars(text@, n as nat) == text@.take(pos as int) + take_chars(
                text@.skip(pos as int),
                left as nat,
            ),
        decreases left,
    {
        let ghost rest = text@.skip(pos as int);
        let w = width_at(text, pos);
        proof {
            assert(rest.skip(w as int) =~= text@.skip(pos + w));
            assert(text@.take(pos as int) + rest.take(w as int) =~= text@.take(pos + w));
            assert(text@.take(pos as int) + (rest.take(w as int) + take_chars(
                rest.skip(w as int),
                (left - 1) as nat,
            )) =~= text@.take(pos + w) + take_chars(text@.skip(pos + w), (left - 1) as nat));
        }
        pos += w;
        left -= 1;
    }
    out.extend_from_slice(&text[0..pos]);
    proof {
        assert(text@.subrange(0, pos as int) =~= text@.take(pos as int));
        assert(take_chars(text@.skip(pos as int), left as nat) =~= Seq::<u8>::empty());
        assert(text@.take(pos as int) + Seq::<u8>::empty() =~= text@.take(pos as int));
    }
}

/// Appends the bytes of `text`.
pub fn push_text(out: &mut Vec<u8>, text: &str)
    ensures
        final(out)@ == old(out)@ + text.spec_bytes(),
{
    out.extend_from_slice(text.as_bytes());
}

/// The name of the node of a commit: `C` and its short address.
pub open spec fn node_id(hash: Seq<u8>) -> Seq<u8> {
    "C".spec_bytes() + short_hash(hash)
}

/// Appends the name of the node of a commit.
pub fn push_node_id(out: &mut Vec<u8>, hash: &str)
    ensures
        final(out)@ == old(out)@ + node_id(hash.spec_bytes()),
{
    push_text(out, "C");
    push_short_hash(out, hash.as_bytes());
    assert(final(out)@ =~= old(out)@ + node_id(hash.spec_bytes()));
}

/// The lines that link the first `k` parents of `node` to it, for the
/// parents that are among `known`: the parent, `arrow`, the node, `end`.
pub open spec fn edge_lines(
    known: Seq<Seq<u8>>,
    node: NodeView,
    k: nat,
    arrow: Seq<u8>,
    end: Seq<u8>,
) -> Seq<Seq<u8>>
    decreases k,
{
    if k == 0 || k > node.parents.len() {
        Seq::<Seq<u8>>::empty()
    } else {
        let before = edge_lines(known, node, (k - 1) as nat, arrow, end);
        let parent = node.parents[k - 1];
        if listed(known, 0, parent) {
            before.push("    ".spec_bytes() + node_id(parent) + arrow + node_id(node.hash) + end)
        } else {
            before
        }
    }
}

/// Whether one of `nodes` has the address `hash`.
pub fn is_node(nodes: &Vec<CommitNode>, hash: &str) -> (yes: bool)
    ensures
        yes == listed(hashes_of(nodes_view(nodes@)), 0, hash.spec_bytes()),
{
    let ghost hashes = hashes_of(nodes_view(nodes@));
    let mut i: usize = 0;
    while i < nodes.len()
        invariant
            i <= nodes@.len(),
            hashes == hashes_of(nodes_view(nodes@)),
            forall|k: int| 0 <= k < i ==> #[trigger] hashes[k] != hash.spec_bytes(),
        decreases nodes@.len() - i,
    {
        assert(hashes[i as int] == nodes@[i as int]@.hash);
        if bytes_eq(nodes[i].hash.as_str().as_bytes(), hash.as_bytes()) {
            return true;
        }
        i += 1;
    }
    false
}

/// Appends to `lines` the lines that link the parents of `node` to it.
pub fn push_edges(
    lines: &mut Vec<Vec<u8>>,
    nodes: &Vec<CommitNode>,
    node: &CommitNode,
    arrow: &str,
    end: &str,
)
    ensures
        lines_view(final(lines)@) == lines_view(old(lines)@) + edge_lines(
            hashes_of(nodes_view(nodes@)),
            node@,
            node@.parents.len(),
            arrow.spec_bytes(),
            end.spec_bytes(),
        ),
{
    let ghost known = hashes_of(nodes_view(nodes@));
    let ghost start = lines_view(lines@);
    let mut p: usize = 0;
    assert(lines_view(lines@) =~= start + edge_lines(
        known,
        node@,
        0,
        arrow.spec_bytes(),
        end.spec_bytes(),
    ));
    while p < node.parents.len()
        invariant
            p <= node.parents@.len(),
            known == hashes_of(nodes_view(nodes@)),
            lines_view(lines@) == start + edge_lines(
                known,
                node@,
                p as nat,
                arrow.spec_bytes(),
                end.spec_bytes(),
            ),
        decreases node.parents@.len() - p,
    {
        let ghost before = lines_view(lines@);
        assert(node@.parents[p as int] == encode_utf8(node.parents@[p as int]@));
        if is_node(nodes, node.parents[p].as_str()) {
            let mut line: Vec<u8> = Vec::new();
            push_text(&mut line, "    ");
            push_node_id(&mut line, node.parents[p].as_str());
            push_text(&mut line, arrow);
            push_node_id(&mut line, node.hash.as_str());
            push_text(&mut line, end);
            assert(line@ =~= "    ".spec_bytes() + node_id(node@.parents[p as int])
                + arrow.spec_bytes() + node_id(node@.hash) + end.spec_bytes());
            lines.push(line);
            assert(lines_view(lines@) =~= before.push(line@));
        }
        p += 1;
    }
}

/// The line of a node in a Mermaid drawing: its name, and in brackets (in
/// braces for a merge) its short address, the first 30 characters of its
/// message, and the branch that points at it.
pub open spec fn mermaid_node(node: NodeView, branch: Option<Seq<u8>>) -> Seq<u8> {
    "    ".spec_bytes() + node_id(node.hash) + (if node.is_merge {
        "{{".spec_bytes()
    } else {
        "[".spec_bytes()
    }) + node.short_hash + ": ".spec_bytes() + take_chars(node.message, 30) + (match branch {
        Some(b) => "<br/>(".spec_bytes() + b + ")".spec_bytes(),
        None => Seq::<u8>::empty(),
    }) + (if node.is_merge {
        "}}".spec_bytes()
    } else {
        "]".spec_bytes()
    })
}

/// The lines of the first `k` nodes of a Mermaid drawing: for each node
/// its line, and a line for each parent that is drawn.
pub open spec fn mermaid_lines(nodes: Seq<NodeView>, tips: Seq<TipView>, k: nat) -> Seq<Seq<u8>>
    decreases k,
{
    if k == 0 || k > nodes.len() {
        Seq::<Seq<u8>>::empty()
    } else {
        let node = nodes[k - 1];
        mermaid_lines(nodes, tips, (k - 1) as nat).push(
            mermaid_node(node, branch_at(tips, node.hash)),
        ) + edge_lines(
            hashes_of(nodes),
            node,
            node.parents.len(),
            " --> ".spec_bytes(),
            Seq::<u8>::empty(),
        )
    }
}

/// The Mermaid drawing of `nodes`.
pub open spec fn mermaid_graph(nodes: Seq<NodeView>, tips: Seq<TipView>) -> Seq<u8> {
    join_lines(seq!["graph TD".spec_bytes()] + mermaid_lines(nodes, tips, nodes.len()))
}

/// Generate Mermaid.js graph format
pub fn generate_mermaid_graph(nodes: &Vec<CommitNode>, tips: &Vec<BranchTip>) -> (text: String)
    ensures
        encode_utf8(text@) == text_bytes(mermaid_graph(nodes_view(nodes@), tips_view(tips@))),
{
    proof {
        reveal_strlit("");
        assert("".spec_bytes() =~= Seq::<u8>::empty());
    }
    let ghost all = nodes_view(nodes@);
    let ghost marks = tips_view(tips@);
    let mut lines: Vec<Vec<u8>> = Vec::new();
    let mut first: Vec<u8> = Vec::new();
    push_text(&mut first, "graph TD");
    assert(first@ =~= "graph TD".spec_bytes());
    lines.push(first);
    let ghost head = lines_view(lines@);
    assert(head =~= seq!["graph TD".spec_bytes()]);
    let mut i: usize = 0;
    assert(lines_view(lines@) =~= head + mermaid_lines(all, marks, 0));
    while i < nodes.len()
        invariant
            i <= nodes@.len(),
            all == nodes_view(nodes@),
            marks == tips_view(tips@),
            "".spec_bytes() == Seq::<u8>::empty(),
            lines_view(lines@) == head + mermaid_lines(all, marks, i as nat),
        decreases nodes@.len() - i,
    {
        let ghost before = lines_view(lines@);
        let node = &nodes[i];
        assert(all[i as int] == node@);
        let mut line: Vec<u8> = Vec::new();
        push_text(&mut line, "    ");
        push_node_id(&mut line, node.hash.as_str());
        push_text(&mut line, if node.is_merge {
            "{{"
        } else {
            "["
        });
        push_text(&mut line, node.short_hash.as_str());
        push_text(&mut line, ": ");
        push_chars(&mut line, node.message.as_str().as_bytes(), 30);
        match find_branch(tips, node.hash.as_str()) {
            Some(at) => {
                push_text(&mut line, "<br/>(");
                push_text(&mut line, tips[at].name.as_str());
                push_text(&mut line, ")");
            },
            None => {},
        }
        push_text(&mut line, if node.is_merge {
            "}}"
        } else {
            "]"
        });
        assert(line@ =~= mermaid_node(node@, branch_at(marks, node@.hash)));
        lines.push(line);
        assert(lines_view(lines@) =~= before.push(line@));
        push_edges(&mut lines, nodes, node, " --> ", "");
        assert(lines_view(lines@) =~= head + mermaid_lines(all, marks, (i + 1) as nat));
        i += 1;
    }
    let joined = join_texts(&lines);
    text_from_bytes(joined.as_slice())
}

/// The line of a node in a Graphviz drawing: its name, and as its label
/// its short address, the first 40 characters of its message, and the
/// branch that points at it; a merge is drawn rounded.
pub open spec fn dot_node(node: NodeView, branch: Option<Seq<u8>>) -> Seq<u8> {
    "    ".spec_bytes() + node_id(node.hash) + " [label=\"".spec_bytes() + node.short_hash
        + "\\n".spec_bytes() + take_chars(node.message, 40) + (match branch {
        Some(b) => "\\n(".spec_bytes() + b + ")".spec_bytes(),
        None => Seq::<u8>::empty(),
    }) + "\", style=".spec_bytes() + (if node.is_merge {
        "rounded".spec_bytes()
    } else {
        "box".spec_bytes()
    }) + "];".spec_bytes()
}

/// The lines of the first `k` nodes of a Graphviz drawing.
pub open spec fn dot_nodes(nodes: Seq<NodeView>, tips: Seq<TipView>, k: nat) -> Seq<Seq<u8>>
    decreases k,
{
    if k == 0 || k > nodes.len() {
        Seq::<Seq<u8>>::empty()
    } else {
        dot_nodes(nodes, tips, (k - 1) as nat).push(
            dot_node(nodes[k - 1], branch_at(tips, nodes[k - 1].hash)),
        )
    }
}

/// The lines that link the first `k` nodes of a Graphviz drawing to their
/// parents.
pub open spec fn dot_edges(nodes: Seq<NodeView>, k: nat) -> Seq<Seq<u8>>
    decreases k,
{
    if k == 0 || k > nodes.len() {
        Seq::<Seq<u8>>::empty()
    } else {
        dot_edges(nodes, (k - 1) as nat) + edge_lines(
            hashes_of(nodes),
            nodes[k - 1],
            nodes[k - 1].parents.len(),
            " -> ".spec_bytes(),
            ";".spec_bytes(),
        )
    }
}

/// The Graphviz drawing of `nodes`: the nodes, then the links.
pub open spec fn dot_graph(nodes: Seq<NodeView>, tips: Seq<TipView>) -> Seq<u8> {
    join_lines(
        seq![
            "digraph GitGraph {".spec_bytes(),
            "    rankdir=LR;".spec_bytes(),
            "    node [shape=box];".spec_bytes(),
        ] + dot_nodes(nodes, tips, nodes.len()) + dot_edges(nodes, nodes.len()) + seq![
            "}".spec_bytes(),
        ],
    )
}

/// Generate DOT format (Graphviz)
pub fn generate_dot_graph(nodes: &Vec<CommitNode>, tips: &Vec<BranchTip>) -> (text: String)
    ensures
        encode_utf8(text@) == text_bytes(dot_graph(nodes_view(nodes@), tips_view(tips@))),
{
    let ghost all = nodes_view(nodes@);
    let ghost marks = tips_view(tips@);
    let mut lines: Vec<Vec<u8>> = Vec::new();
    let mut l1: Vec<u8> = Vec::new();
    push_text(&mut l1, "digraph GitGraph {");
    let mut l2: Vec<u8> = Vec::new();
    push_text(&mut l2, "    rankdir=LR;");
    let mut l3: Vec<u8> = Vec::new();
    push_text(&mut l3, "    node [shape=box];");
    assert(l1@ =~= "digraph GitGraph {".spec_bytes());
    assert(l2@ =~= "    rankdir=LR;".spec_bytes());
    assert(l3@ =~= "    node [shape=box];".spec_bytes());
    lines.push(l1);
    lines.push(l2);
    lines.push(l3);
    let ghost head = lines_view(lines@);
    assert(head =~= seq![
        "digraph GitGraph {".spec_bytes(),
        "    rankdir=LR;".spec_bytes(),
        "    node [shape=box];".spec_bytes(),
    ]);
    let mut i: usize = 0;
    assert(lines_view(lines@) =~= head + dot_nodes(all, marks, 0));
    while i < nodes.len()
        invariant
            i <= nodes@.len(),
            all == nodes_view(nodes@),
            marks == tips_view(tips@),
            lines_view(lines@) == head + dot_nodes(all, marks, i as nat),
        decreases nodes@.len() - i,
    {
        let ghost before = lines_view(lines@);
        let node = &nodes[i];
        assert(all[i as int] == node@);
        let mut line: Vec<u8> = Vec::new();
        push_text(&mut line, "    ");
        push_node_id(&mut line, node.hash.as_str());
        push_text(&mut line, " [label=\"");
        push_text(&mut line, node.short_hash.as_str());
        push_text(&mut line, "\\n");
        push_chars(&mut line, node.message.as_str().as_bytes(), 40);
        match find_branch(tips, node.hash.as_str()) {
            Some(at) => {
                push_text(&mut line, "\\n(");
                push_text(&mut line, tips[at].name.as_str());
                push_text(&mut line, ")");
            },
            None => {},
        }
        push_text(&mut line, "\", style=");
        push_text(&mut line, if node.is_merge {
            "rounded"
        } else {
            "box"
        });
        push_text(&mut line, "];");
        assert(line@ =~= dot_node(node@, branch_at(marks, node@.hash)));
        lines.push(line);
        assert(lines_view(lines@) =~= before.push(line@));
        assert(before.push(line@) =~= head + dot_nodes(all, marks, (i + 1) as nat));
        i += 1;
    }
    let ghost drawn = lines_view(lines@);
    let mut j: usize = 0;
    assert(lines_view(lines@) =~= drawn + dot_edges(all, 0));
    while j < nodes.len()
        invariant
            j <= nodes@.len(),
            all == nodes_view(nodes@),
            lines_view(lines@) == drawn + dot_edges(all, j as nat),
        decreases nodes@.len() - j,
    {
        assert(all[j as int] == nodes@[j as int]@);
        push_edges(&mut lines, nodes, &nodes[j], " -> ", ";");
        assert(lines_view(lines@) =~= drawn + dot_edges(all, (j + 1) as nat));
        j += 1;
    }
    let ghost linked = lines_view(lines@);
    let mut last: Vec<u8> = Vec::new();
    push_text(&mut last, "}");
    assert(last@ =~= "}".spec_bytes());
    lines.push(last);
    assert(lines_view(lines@) =~= linked + seq!["}".spec_bytes()]);
    let joined = join_texts(&lines);
    text_from_bytes(joined.as_slice())
}

/// A commit and the level at which it is drawn.
#[derive(Debug, Clone)]
pub struct Level {
    pub hash: String,
    pub level: usize,
}

/// What a `Level` stands for.
pub struct LevelView {
    pub hash: Seq<u8>,
    pub level: nat,
}

impl View for Level {
    type V = LevelView;

    open spec fn view(&self) -> LevelView {
        LevelView { hash: encode_utf8(self.hash@), level: self.level as nat }
    }
}

/// The views of levels.
pub open spec fn levels_view(levels: Seq<Level>) -> Seq<LevelView> {
    levels.map_values(|l: Level| l@)
}

/// The addresses of levels.
pub open spec fn level_hashes(levels: Seq<LevelView>) -> Seq<Seq<u8>> {
    levels.map_values(|l: LevelView| l.hash)
}

/// The level of `hash`, if it has one.
pub open spec fn level_of(levels: Seq<LevelView>, hash: Seq<u8>) -> Option<nat> {
    let at = position_of(level_hashes(levels), hash);
    if 0 <= at < levels.len() {
        Some(levels[at].level)
    } else {
        None
    }
}

/// `levels` with `hash` at `level`: in the place it has, or else last.
pub open spec fn with_level(levels: Seq<LevelView>, hash: Seq<u8>, level: nat) -> Seq<LevelView> {
    let at = position_of(level_hashes(levels), hash);
    if 0 <= at < levels.len() {
        levels.update(at, LevelView { hash, level })
    } else {
        levels.push(LevelView { hash, level })
    }
}

/// The node with the address `hash`, if there is one.
pub open spec fn node_at(nodes: Seq<NodeView>, hash: Seq<u8>) -> Option<NodeView> {
    let at = position_of(hashes_of(nodes), hash);
    if 0 <= at < nodes.len() {
        Some(nodes[at])
    } else {
        None
    }
}

/// The number of nodes whose address is not among `visited`.
pub open spec fn unvisited(nodes: Seq<NodeView>, visited: Seq<Seq<u8>>) -> nat
    decreases nodes.len(),
{
    if nodes.len() == 0 {
        0
    } else {
        unvisited(nodes.drop_last(), visited) + if listed(visited, 0, nodes.last().hash) {
            0nat
        } else {
            1nat
        }
    }
}

/// Visiting one more address leaves no more nodes unvisited, and fewer if
/// the address is that of a node that was not visited.
pub proof fn lemma_unvisited_push(nodes: Seq<NodeView>, visited: Seq<Seq<u8>>, hash: Seq<u8>)
    ensures
        unvisited(nodes, visited.push(hash)) <= unvisited(nodes, visited),
        node_at(nodes, hash) is Some && !listed(visited, 0, hash) ==> unvisited(
            nodes,
            visited.push(hash),
        ) < unvisited(nodes, visited),
        node_at(nodes, hash) is None ==> unvisited(nodes, visited.push(hash)) == unvisited(
            nodes,
            visited,
        ),
    decreases nodes.len(),
{
    let more = visited.push(hash);
    assert forall|x: Seq<u8>| listed(visited, 0, x) implies listed(more, 0, x) by {
        let j = choose|j: int| 0 <= j < visited.len() && visited[j] == x;
        assert(more[j] == x);
    }
    assert(more[visited.len() as int] == hash);
    assert(listed(more, 0, hash));
    assert forall|x: Seq<u8>| listed(more, 0, x) && x != hash implies listed(visited, 0, x) by {
        let j = choose|j: int| 0 <= j < more.len() && more[j] == x;
        assert(visited[j] == x);
    }
    lemma_position_of(hashes_of(nodes), hash);
    if nodes.len() > 0 {
        let front = nodes.drop_last();
        lemma_unvisited_push(front, visited, hash);
        lemma_position_of(hashes_of(front), hash);
        let last = nodes.last();
        assert(hashes_of(nodes)[nodes.len() - 1] == last.hash);
        assert forall|i: int| 0 <= i < front.len() implies hashes_of(front)[i] == hashes_of(nodes)[i] by {}
        if node_at(nodes, hash) is None {
            assert(last.hash != hash);
            assert(node_at(front, hash) is None) by {
                let at = position_of(hashes_of(front), hash);
                if at < front.len() {
                    assert(hashes_of(nodes)[at] == hash);
                }
            }
        } else if !listed(visited, 0, hash) {
            if last.hash != hash {
                let at = position_of(hashes_of(nodes), hash);
                assert(at < front.len());
                assert(hashes_of(front)[at] == hash);
                assert(node_at(front, hash) is Some) by {
                    let found = position_of(hashes_of(front), hash);
                    if found >= front.len() {
                        assert(hashes_of(front)[at] != hash);
                    }
                }
            }
        }
    }
}

/// The greater of two levels.
pub open spec fn higher(a: nat, b: nat) -> nat {
    if a > b {
        a
    } else {
        b
    }
}

/// Levels and queue after the first `k` of `parents` were looked at, from
/// a commit at `level`: a parent that was not visited is queued, at a level
/// that is at least one further on and no lower than the level it had.
pub open spec fn raise_parents(
    levels: Seq<LevelView>,
    queue: Seq<Seq<u8>>,
    parents: Seq<Seq<u8>>,
    k: nat,
    visited: Seq<Seq<u8>>,
    level: nat,
) -> (Seq<LevelView>, Seq<Seq<u8>>)
    decreases k,
{
    if k == 0 || k > parents.len() {
        (levels, queue)
    } else {
        let before = raise_parents(levels, queue, parents, (k - 1) as nat, visited, level);
        let parent = parents[k - 1];
        if listed(visited, 0, parent) {
            before
        } else {
            let next = match level_of(before.0, parent) {
                Some(had) => higher(had, level + 1),
                None => level + 1,
            };
            (with_level(before.0, parent, next), before.1.push(parent))
        }
    }
}

/// The levels after the queue was worked off from `head` on. An address
/// that was visited is passed over; the others are visited, and the
/// parents of a node are given their levels and queued.
pub open spec fn levels_run(
    nodes: Seq<NodeView>,
    queue: Seq<Seq<u8>>,
    head: nat,
    visited: Seq<Seq<u8>>,
    levels: Seq<LevelView>,
) -> Seq<LevelView>
    decreases unvisited(nodes, visited), queue.len() - head,
{
    if head >= queue.len() {
        levels
    } else {
        let hash = queue[head as int];
        if listed(visited, 0, hash) {
            levels_run(nodes, queue, head + 1, visited, levels)
        } else {
            proof {
                lemma_unvisited_push(nodes, visited, hash);
            }
            match node_at(nodes, hash) {
                None => levels_run(nodes, queue, head + 1, visited.push(hash), levels),
                Some(node) => {
                    let level = match level_of(levels, hash) {
                        Some(l) => l,
                        None => 0,
                    };
                    let raised = raise_parents(
                        levels,
                        queue,
                        node.parents,
                        node.parents.len(),
                        visited.push(hash),
                        level,
                    );
                    levels_run(nodes, raised.1, head + 1, visited.push(hash), raised.0)
                },
            }
        }
    }
}

/// The commits that the drawing starts from, after the first `k` branch
/// tips: the commits that a branch points at and that are drawn, each once.
pub open spec fn tip_roots(nodes: Seq<NodeView>, tips: Seq<TipView>, k: nat) -> Seq<Seq<u8>>
    decreases k,
{
    if k == 0 || k > tips.len() {
        Seq::<Seq<u8>>::empty()
    } else {
        let before = tip_roots(nodes, tips, (k - 1) as nat);
        let commit = tips[k - 1].commit;
        if listed(hashes_of(nodes), 0, commit) && !listed(before, 0, commit) {
            before.push(commit)
        } else {
            before
        }
    }
}

/// The commits that the drawing starts from: those of the branches, and
/// that of `HEAD` if it is drawn and not among them.
pub open spec fn roots_of(nodes: Seq<NodeView>, tips: Seq<TipView>, head: Option<Seq<u8>>) -> Seq<
    Seq<u8>,
> {
    let from_tips = tip_roots(nodes, tips, tips.len());
    match head {
        Some(h) => if listed(hashes_of(nodes), 0, h) && !listed(from_tips, 0, h) {
            from_tips.push(h)
        } else {
            from_tips
        },
        None => from_tips,
    }
}

/// Every root at level 0.
pub open spec fn root_levels(roots: Seq<Seq<u8>>) -> Seq<LevelView> {
    roots.map_values(|h: Seq<u8>| LevelView { hash: h, level: 0 })
}

/// The level of each commit of the drawing, in the order in which the
/// commits were met.
pub open spec fn graph_levels(nodes: Seq<NodeView>, tips: Seq<TipView>, head: Option<Seq<u8>>) -> Seq<
    LevelView,
> {
    let roots = roots_of(nodes, tips, head);
    levels_run(nodes, roots, 0, Seq::empty(), root_levels(roots))
}

/// Where `hash` stands in `levels`, or the number of levels.
pub fn level_position(levels: &Vec<Level>, hash: &str) -> (at: usize)
    ensures
        at == position_of(level_hashes(levels_view(levels@)), hash.spec_bytes()),
        at <= levels@.len(),
{
    let ghost hashes = level_hashes(levels_view(levels@));
    let mut at: usize = 0;
    while at < levels.len()
        invariant
            at <= levels@.len(),
            hashes == level_hashes(levels_view(levels@)),
            forall|i: int| 0 <= i < at ==> #[trigger] hashes[i] != hash.spec_bytes(),
        decreases levels@.len() - at,
    {
        assert(hashes[at as int] == levels@[at as int]@.hash);
        if bytes_eq(levels[at].hash.as_str().as_bytes(), hash.as_bytes()) {
            proof {
                lemma_position_of_unique(hashes, hash.spec_bytes(), at as int);
            }
            return at;
        }
        at += 1;
    }
    proof {
        lemma_position_of_unique(hashes, hash.spec_bytes(), at as int);
    }
    at
}

/// Where the node with the address `hash` stands, or the number of nodes.
pub fn node_position(nodes: &Vec<CommitNode>, hash: &str) -> (at: usize)
    ensures
        at == position_of(hashes_of(nodes_view(nodes@)), hash.spec_bytes()),
        at <= nodes@.len(),
{
    let ghost hashes = hashes_of(nodes_view(nodes@));
    let mut at: usize = 0;
    while at < nodes.len()
        invariant
            at <= nodes@.len(),
            hashes == hashes_of(nodes_view(nodes@)),
            forall|i: int| 0 <= i < at ==> #[trigger] hashes[i] != hash.spec_bytes(),
        decreases nodes@.len() - at,
    {
        assert(hashes[at as int] == nodes@[at as int]@.hash);
        if bytes_eq(nodes[at].hash.as_str().as_bytes(), hash.as_bytes()) {
            proof {
                lemma_position_of_unique(hashes, hash.spec_bytes(), at as int);
            }
            return at;
        }
        at += 1;
    }
    proof {
        lemma_position_of_unique(hashes, hash.spec_bytes(), at as int);
    }
    at
}

/// Whether every level is at most `bound`.
pub open spec fn levels_within(levels: Seq<LevelView>, bound: nat) -> bool {
    forall|i: int| 0 <= i < levels.len() ==> (#[trigger] levels[i]).level <= bound
}

/// Puts `hash` at `level`.
pub fn set_level(levels: &mut Vec<Level>, hash: &str, level: usize)
    ensures
        levels_view(final(levels)@) == with_level(
            levels_view(old(levels)@),
            hash.spec_bytes(),
            level as nat,
        ),
{
    let at = level_position(levels, hash);
    let ghost before = levels_view(levels@);
    let item = Level { hash: hash.to_owned(), level };
    if at < levels.len() {
        levels[at] = item;
        assert(levels_view(levels@) =~= before.update(at as int, item@));
    } else {
        levels.push(item);
        assert(levels_view(levels@) =~= before.push(item@));
    }
}

/// Gives the parents of a commit at `level` their levels and queues them.
pub fn push_parents(
    levels: &mut Vec<Level>,
    queue: &mut Vec<String>,
    parents: &Vec<String>,
    visited: &Vec<String>,
    level: usize,
)
    requires
        level < usize::MAX,
    ensures
        (levels_view(final(levels)@), texts_view(final(queue)@)) == raise_parents(
            levels_view(old(levels)@),
            texts_view(old(queue)@),
            texts_view(parents@),
            parents@.len(),
            texts_view(visited@),
            level as nat,
        ),
        forall|bound: nat|
            #[trigger] levels_within(levels_view(old(levels)@), bound) && level + 1 <= bound
                ==> levels_within(levels_view(final(levels)@), bound),
        old(queue)@.len() <= final(queue)@.len(),
{
    let ghost levels0 = levels_view(levels@);
    let ghost queue0 = texts_view(queue@);
    let ghost all = texts_view(parents@);
    let ghost seen = texts_view(visited@);
    let mut p: usize = 0;
    while p < parents.len()
        invariant
            p <= parents@.len(),
            level < usize::MAX,
            all == texts_view(parents@),
            seen == texts_view(visited@),
            (levels_view(levels@), texts_view(queue@)) == raise_parents(
                levels0,
                queue0,
                all,
                p as nat,
                seen,
                level as nat,
            ),
            forall|bound: nat|
                #[trigger] levels_within(levels0, bound) && level + 1 <= bound ==> levels_within(
                    levels_view(levels@),
                    bound,
                ),
            queue0.len() <= queue@.len(),
        decreases parents@.len() - p,
    {
        let ghost levels_then = levels_view(levels@);
        let ghost queue_then = texts_view(queue@);
        let parent = &parents[p];
        assert(all[p as int] == encode_utf8(parent@));
        if !is_listed(visited, parent.as_str()) {
            let at = level_position(levels, parent.as_str());
            let next: usize = if at < levels.len() {
                assert(levels_then[at as int] == levels@[at as int]@);
                if levels[at].level > level + 1 {
                    levels[at].level
                } else {
                    level + 1
                }
            } else {
                level + 1
            };
            set_level(levels, parent.as_str(), next);
            queue.push(parent.clone());
            proof {
                assert(texts_view(queue@) =~= queue_then.push(all[p as int]));
                let now = levels_view(levels@);
                assert forall|bound: nat|
                    #[trigger] levels_within(levels0, bound) && level + 1 <= bound implies levels_within(
                    now,
                    bound,
                ) by {
                    assert(levels_within(levels_then, bound));
                    assert forall|i: int| 0 <= i < now.len() implies (#[trigger] now[i]).level
                        <= bound by {
                        if i < levels_then.len() && i != at {
                            assert(now[i] == levels_then[i]);
                        } else if i < levels_then.len() {
                            assert(levels_then[i].level <= bound);
                        }
                    }
                }
            }
        }
        p += 1;
    }
}

/// The commits that the drawing starts from.
pub fn graph_roots(nodes: &Vec<CommitNode>, tips: &Vec<BranchTip>, head: Option<&str>) -> (roots: Vec<
    String,
>)
    ensures
        texts_view(roots@) == roots_of(
            nodes_view(nodes@),
            tips_view(tips@),
            match head {
                Some(h) => Some(h.spec_bytes()),
                None => None,
            },
        ),
{
    let ghost all = nodes_view(nodes@);
    let ghost marks = tips_view(tips@);
    let mut roots: Vec<String> = Vec::new();
    let mut i: usize = 0;
    assert(texts_view(roots@) =~= tip_roots(all, marks, 0));
    while i < tips.len()
        invariant
            i <= tips@.len(),
            all == nodes_view(nodes@),
            marks == tips_view(tips@),
            texts_view(roots@) == tip_roots(all, marks, i as nat),
        decreases tips@.len() - i,
    {
        let ghost before = texts_view(roots@);
        let commit = &tips[i].commit;
        assert(marks[i as int] == tips@[i as int]@);
        if is_node(nodes, commit.as_str()) && !is_listed(&roots, commit.as_str()) {
            roots.push(commit.clone());
            assert(texts_view(roots@) =~= before.push(marks[i as int].commit));
        }
        i += 1;
    }
    match head {
        Some(h) => {
            if is_node(nodes, h) && !is_listed(&roots, h) {
                let ghost before = texts_view(roots@);
                roots.push(h.to_owned());
                assert(texts_view(roots@) =~= before.push(h.spec_bytes()));
            }
        },
        None => {},
    }
    roots
}

/// Assigns each commit of the drawing its level: the branch tips and
/// `HEAD` stand at level 0, and the queue of commits is worked off first
/// in, first out.
pub fn assign_levels(nodes: &Vec<CommitNode>, tips: &Vec<BranchTip>, head: Option<&str>) -> (levels:
    Vec<Level>)
    ensures
        levels_view(levels@) == graph_levels(
            nodes_view(nodes@),
            tips_view(tips@),
            match head {
                Some(h) => Some(h.spec_bytes()),
                None => None,
            },
        ),
{
    let ghost all = nodes_view(nodes@);
    let mut queue = graph_roots(nodes, tips, head);
    let ghost roots = texts_view(queue@);
    let mut levels: Vec<Level> = Vec::new();
    let mut r: usize = 0;
    assert(levels_view(levels@) =~= root_levels(roots.take(0)));
    while r < queue.len()
        invariant
            r <= queue@.len(),
            roots == texts_view(queue@),
            levels_view(levels@) == root_levels(roots.take(r as int)),
        decreases queue@.len() - r,
    {
        let ghost before = levels_view(levels@);
        let item = Level { hash: queue[r].clone(), level: 0 };
        levels.push(item);
        assert(levels_view(levels@) =~= before.push(item@));
        assert(before.push(item@) =~= root_levels(roots.take(r + 1)));
        r += 1;
    }
    assert(roots.take(r as int) =~= roots);
    let ghost goal = levels_run(all, roots, 0, Seq::<Seq<u8>>::empty(), root_levels(roots));
    let mut visited: Vec<String> = Vec::new();
    let ghost mut done: Seq<Seq<u8>> = Seq::empty();
    let mut head_at: usize = 0;
    assert(texts_view(visited@) =~= Seq::<Seq<u8>>::empty());
    loop
        invariant_except_break
            head_at <= queue@.len(),
            all == nodes_view(nodes@),
            goal == levels_run(
                all,
                texts_view(queue@),
                head_at as nat,
                texts_view(visited@),
                levels_view(levels@),
            ),
            distinct_keys(done),
            forall|i: int|
                0 <= i < done.len() ==> position_of(hashes_of(all), #[trigger] done[i]) < all.len(),
            forall|i: int| 0 <= i < done.len() ==> listed(texts_view(visited@), 0, #[trigger] done[i]),
            levels_within(levels_view(levels@), done.len()),
        ensures
            levels_view(levels@) == goal,
        decreases unvisited(all, texts_view(visited@)), queue@.len() - head_at,
    {
        if head_at >= queue.len() {
            break;
        }
        let ghost seen = texts_view(visited@);
        let ghost waiting = texts_view(queue@);
        let ghost held = levels_view(levels@);
        let hash = queue[head_at].clone();
        assert(waiting[head_at as int] == encode_utf8(hash@));
        head_at += 1;
        if !is_listed(&visited, hash.as_str()) {
            proof {
                lemma_unvisited_push(all, seen, encode_utf8(hash@));
            }
            visited.push(hash.clone());
            let ghost seen_now = texts_view(visited@);
            proof {
                assert(seen_now =~= seen.push(encode_utf8(hash@)));
                assert forall|i: int| 0 <= i < done.len() implies listed(
                    seen_now,
                    0,
                    #[trigger] done[i],
                ) by {
                    let j = choose|j: int| 0 <= j < seen.len() && seen[j] == done[i];
                    assert(seen_now[j] == done[i]);
                }
            }
            let at = node_position(nodes, hash.as_str());
            if at < nodes.len() {
                assert(all[at as int] == nodes@[at as int]@);
                let ghost longer = done.push(encode_utf8(hash@));
                proof {
                    assert(distinct_keys(longer)) by {
                        assert forall|i: int, j: int| 0 <= i < j < longer.len() implies #[trigger]
                            longer[i] != #[trigger] longer[j] by {
                            if j == done.len() {
                                assert(listed(seen, 0, done[i]));
                            } else {
                                assert(done[i] != done[j]);
                            }
                        }
                    }
                    assert forall|i: int| 0 <= i < longer.len() implies position_of(
                        hashes_of(all),
                        #[trigger] longer[i],
                    ) < all.len() by {
                        if i < done.len() {
                            assert(longer[i] == done[i]);
                        }
                    }
                    lemma_found_bound(hashes_of(all), longer);
                    assert(seen_now[seen.len() as int] == encode_utf8(hash@));
                    assert(listed(seen_now, 0, encode_utf8(hash@)));
                }
                let found = level_position(&levels, hash.as_str());
                let level: usize = if found < levels.len() {
                    assert(held[found as int] == levels@[found as int]@);
                    levels[found].level
                } else {
                    0
                };
                proof {
                    assert(level <= done.len());
                    assert(levels_within(held, (done.len() + 1) as nat));
                }
                push_parents(&mut levels, &mut queue, &nodes[at].parents, &visited, level);
                proof {
                    done = longer;
                }
            }
        }
    }
    levels
}

/// `unit`, `n` times over.
pub open spec fn repeated(unit: Seq<u8>, n: nat) -> Seq<u8>
    decreases n,
{
    if n == 0 {
        Seq::<u8>::empty()
    } else {
        repeated(unit, (n - 1) as nat) + unit
    }
}

/// Appends `unit`, `n` times over.
pub fn push_repeated(out: &mut Vec<u8>, unit: &str, n: usize)
    ensures
        final(out)@ == old(out)@ + repeated(unit.spec_bytes(), n as nat),
{
    let mut i: usize = 0;
    assert(out@ =~= old(out)@ + repeated(unit.spec_bytes(), 0));
    while i < n
        invariant
            i <= n,
            out@ == old(out)@ + repeated(unit.spec_bytes(), i as nat),
        decreases n - i,
    {
        push_text(out, unit);
        assert(out@ =~= old(out)@ + repeated(unit.spec_bytes(), (i + 1) as nat));
        i += 1;
    }
}

/// The lines of the first `k` parents of a node at `level`: indented by
/// two spaces for each level, a bar (a branching bar for all but the first
/// parent), an arrow, and the short address of the parent.
pub open spec fn parent_lines(node: NodeView, level: nat, k: nat) -> Seq<Seq<u8>>
    decreases k,
{
    if k == 0 || k > node.parents.len() {
        Seq::<Seq<u8>>::empty()
    } else {
        parent_lines(node, level, (k - 1) as nat).push(
            repeated("  ".spec_bytes(), level) + " ".spec_bytes() + (if k == 1 {
                "│".spec_bytes()
            } else {
                "├".spec_bytes()
            }) + " ──→ ".spec_bytes() + short_hash(node.parents[k - 1]),
        )
    }
}

/// The lines of a node at `level`: two dashes for each level, its short
/// address, its message and the branch that points at it; then a line for
/// each parent.
pub open spec fn ascii_node(node: NodeView, level: nat, branch: Option<Seq<u8>>) -> Seq<Seq<u8>> {
    seq![
        repeated("──".spec_bytes(), level) + " ".spec_bytes() + node.short_hash + ": ".spec_bytes()
            + node.message + (match branch {
            Some(b) => " (".spec_bytes() + b + ")".spec_bytes(),
            None => Seq::<u8>::empty(),
        }),
    ] + parent_lines(node, level, node.parents.len())
}

/// The lines of the nodes among the first `k` of `levels` that stand at `level`.
pub open spec fn level_lines(
    nodes: Seq<NodeView>,
    tips: Seq<TipView>,
    levels: Seq<LevelView>,
    level: nat,
    k: nat,
) -> Seq<Seq<u8>>
    decreases k,
{
    if k == 0 || k > levels.len() {
        Seq::<Seq<u8>>::empty()
    } else {
        let before = level_lines(nodes, tips, levels, level, (k - 1) as nat);
        let entry = levels[k - 1];
        match node_at(nodes, entry.hash) {
            Some(node) => if entry.level == level {
                before + ascii_node(node, level, branch_at(tips, entry.hash))
            } else {
                before
            },
            None => before,
        }
    }
}

/// The lines of the nodes at the levels below `upto`, level by level.
pub open spec fn ascii_lines(
    nodes: Seq<NodeView>,
    tips: Seq<TipView>,
    levels: Seq<LevelView>,
    upto: nat,
) -> Seq<Seq<u8>>
    decreases upto,
{
    if upto == 0 {
        Seq::<Seq<u8>>::empty()
    } else {
        ascii_lines(nodes, tips, levels, (upto - 1) as nat) + level_lines(
            nodes,
            tips,
            levels,
            (upto - 1) as nat,
            levels.len(),
        )
    }
}

/// The highest level, 0 where there is none.
pub open spec fn top_level(levels: Seq<LevelView>) -> nat
    decreases levels.len(),
{
    if levels.len() == 0 {
        0
    } else {
        higher(top_level(levels.drop_last()), levels.last().level)
    }
}

/// The drawing of the commit graph in plain lines: the commits level by
/// level, the branch tips first.
pub open spec fn ascii_graph(nodes: Seq<NodeView>, tips: Seq<TipView>, head: Option<Seq<u8>>) -> Seq<
    u8,
> {
    let levels = graph_levels(nodes, tips, head);
    join_lines(ascii_lines(nodes, tips, levels, top_level(levels) + 1))
}

/// Appends to `lines` the lines of `node` at `level`.
pub fn push_ascii_node(lines: &mut Vec<Vec<u8>>, node: &CommitNode, level: usize, tips: &Vec<BranchTip>)
    ensures
        lines_view(final(lines)@) == lines_view(old(lines)@) + ascii_node(
            node@,
            level as nat,
            branch_at(tips_view(tips@), node@.hash),
        ),
{
    proof {
        reveal_strlit("");
        assert("".spec_bytes() =~= Seq::<u8>::empty());
    }
    let ghost start = lines_view(lines@);
    let mut first: Vec<u8> = Vec::new();
    push_repeated(&mut first, "──", level);
    push_text(&mut first, " ");
    push_text(&mut first, node.short_hash.as_str());
    push_text(&mut first, ": ");
    push_text(&mut first, node.message.as_str());
    match find_branch(tips, node.hash.as_str()) {
        Some(at) => {
            push_text(&mut first, " (");
            push_text(&mut first, tips[at].name.as_str());
            push_text(&mut first, ")");
        },
        None => {},
    }
    let ghost head_line = repeated("──".spec_bytes(), level as nat) + " ".spec_bytes()
        + node@.short_hash + ": ".spec_bytes() + node@.message + (match branch_at(
        tips_view(tips@),
        node@.hash,
    ) {
        Some(b) => " (".spec_bytes() + b + ")".spec_bytes(),
        None => Seq::<u8>::empty(),
    });
    assert(first@ =~= head_line);
    lines.push(first);
    let ghost headed = lines_view(lines@);
    assert(headed =~= start + seq![head_line]);
    let mut p: usize = 0;
    assert(lines_view(lines@) =~= headed + parent_lines(node@, level as nat, 0));
    while p < node.parents.len()
        invariant
            p <= node.parents@.len(),
            lines_view(lines@) == headed + parent_lines(node@, level as nat, p as nat),
        decreases node.parents@.len() - p,
    {
        let ghost before = lines_view(lines@);
        let mut line: Vec<u8> = Vec::new();
        push_repeated(&mut line, "  ", level);
        push_text(&mut line, " ");
        push_text(&mut line, if p == 0 {
            "│"
        } else {
            "├"
        });
        push_text(&mut line, " ──→ ");
        push_short_hash(&mut line, node.parents[p].as_str().as_bytes());
        proof {
            assert(node@.parents[p as int] == encode_utf8(node.parents@[p as int]@));
            assert(line@ =~= repeated("  ".spec_bytes(), level as nat) + " ".spec_bytes() + (if p
                == 0 {
                "│".spec_bytes()
            } else {
                "├".spec_bytes()
            }) + " ──→ ".spec_bytes() + short_hash(node@.parents[p as int]));
        }
        lines.push(line);
        proof {
            assert(lines_view(lines@) =~= before.push(line@));
            assert(before.push(line@) =~= headed + parent_lines(node@, level as nat, (p + 1) as nat));
        }
        p += 1;
    }
    assert(lines_view(lines@) =~= start + ascii_node(
        node@,
        level as nat,
        branch_at(tips_view(tips@), node@.hash),
    ));
}

/// The highest level.
pub fn highest_level(levels: &Vec<Level>) -> (top: usize)
    ensures
        top == top_level(levels_view(levels@)),
{
    let ghost all = levels_view(levels@);
    let mut top: usize = 0;
    let mut i: usize = 0;
    assert(all.take(0) =~= Seq::<LevelView>::empty());
    while i < levels.len()
        invariant
            i <= levels@.len(),
            all == levels_view(levels@),
            top == top_level(all.take(i as int)),
        decreases levels@.len() - i,
    {
        proof {
            assert(all.take(i + 1).drop_last() =~= all.take(i as int));
            assert(all.take(i + 1).last() == levels@[i as int]@);
        }
        if levels[i].level > top {
            top = levels[i].level;
        }
        i += 1;
    }
    assert(all.take(i as int) =~= all);
    top
}

/// Generate ASCII graph output
pub fn generate_ascii_graph(nodes: &Vec<CommitNode>, tips: &Vec<BranchTip>, head: Option<&str>) -> (text:
    String)
    ensures
        encode_utf8(text@) == text_bytes(
            ascii_graph(
                nodes_view(nodes@),
                tips_view(tips@),
                match head {
                    Some(h) => Some(h.spec_bytes()),
                    None => None,
                },
            ),
        ),
{
    let ghost all = nodes_view(nodes@);
    let ghost marks = tips_view(tips@);
    let levels = assign_levels(nodes, tips, head);
    let ghost placed = levels_view(levels@);
    let top = highest_level(&levels);
    let mut lines: Vec<Vec<u8>> = Vec::new();
    let mut level: usize = 0;
    assert(lines_view(lines@) =~= ascii_lines(all, marks, placed, 0));
    loop
        invariant_except_break
            level <= top,
            all == nodes_view(nodes@),
            marks == tips_view(tips@),
            placed == levels_view(levels@),
            lines_view(lines@) == ascii_lines(all, marks, placed, level as nat),
        ensures
            lines_view(lines@) == ascii_lines(all, marks, placed, (top + 1) as nat),
        decreases top - level,
    {
        let ghost done = lines_view(lines@);
        let mut i: usize = 0;
        assert(lines_view(lines@) =~= done + level_lines(all, marks, placed, level as nat, 0));
        while i < levels.len()
            invariant
                i <= levels@.len(),
                all == nodes_view(nodes@),
                marks == tips_view(tips@),
                placed == levels_view(levels@),
                lines_view(lines@) == done + level_lines(all, marks, placed, level as nat, i as nat),
            decreases levels@.len() - i,
        {
            let ghost before = lines_view(lines@);
            let entry = &levels[i];
            assert(placed[i as int] == entry@);
            let at = node_position(nodes, entry.hash.as_str());
            if at < nodes.len() && entry.level == level {
                assert(all[at as int] == nodes@[at as int]@);
                proof {
                    lemma_position_of(hashes_of(all), entry@.hash);
                }
                push_ascii_node(&mut lines, &nodes[at], level, tips);
                assert(lines_view(lines@) =~= done + level_lines(
                    all,
                    marks,
                    placed,
                    level as nat,
                    (i + 1) as nat,
                ));
            }
            i += 1;
        }
        if level == top {
            break;
        }
        level += 1;
    }
    let joined = join_texts(&lines);
    text_from_bytes(joined.as_slice())
}

} // verus!
