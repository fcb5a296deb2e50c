//! Building the tree objects of a commit from the staging index.
//!
//! The staged paths are split at `/`. The files whose path has no `/` are
//! the files of the root tree; the others are grouped by their first
//! segment, and each group, with that segment taken off, makes the tree of
//! the directory of that name. Trees are written children first, the root
//! tree last.

use crate::bytes::{bytes_eq, copy_range, find_byte, index_of, lemma_index_of};
use crate::commands::hash_object::{
    address_of, hash_content, store_object, store_outcome, stored, tag_tree, tree_type,
};
use crate::error::{text_result, RitError};
use crate::hexcodec::{from_hex, is_address, is_hex, lemma_hex_canonical};
use crate::index::Index;
use crate::objects::tree::{
    exec_mode, file_mode, lemma_sorted_entries_members, mode_dir, mode_exec, mode_file,
    sorted_entries, tree_bytes, EntryView, Tree, TreeEntry,
};
use crate::store::ObjectStore;
use crate::text::{text_bytes, text_from_bytes};
use vstd::prelude::*;
use vstd::string::*;
use vstd::utf8::*;

verus! {

/// A staged file: its path, relative to the directory that is being built,
/// the address of its content, and whether it is executable. An empty path
/// stands for the directory itself, which is there even without files.
#[derive(Debug, Clone)]
pub struct Staged {
    pub path: Vec<u8>,
    pub hash: String,
    pub executable: bool,
}

/// What a `Staged` stands for.
pub struct StagedView {
    pub path: Seq<u8>,
    pub hash: Seq<u8>,
    pub executable: bool,
}

impl View for Staged {
    type V = StagedView;

    open spec fn view(&self) -> StagedView {
        StagedView { path: self.path@, hash: encode_utf8(self.hash@), executable: self.executable }
    }
}

/// The views of staged files.
pub open spec fn staged_views(files: Seq<Staged>) -> Seq<StagedView> {
    files.map_values(|f: Staged| f@)
}

/// Whether `path` names a file of the directory itself: it holds no `/`.
pub open spec fn is_direct(path: Seq<u8>) -> bool {
    index_of(path, 47) == path.len()
}

/// The first segment of `path`.
pub open spec fn head_of(path: Seq<u8>) -> Seq<u8> {
    path.take(index_of(path, 47))
}

/// `path` without its first segment and the `/` behind it.
pub open spec fn tail_of(path: Seq<u8>) -> Seq<u8> {
    path.skip(index_of(path, 47) + 1)
}

/// Whether `f` lies below the directory `dir` of the directory being built.
pub open spec fn in_dir(f: StagedView, dir: Seq<u8>) -> bool {
    !is_direct(f.path) && head_of(f.path) == dir
}

/// The files below `dir`, their paths relative to it, in order.
pub open spec fn below(files: Seq<StagedView>, dir: Seq<u8>) -> Seq<StagedView>
    decreases files.len(),
{
    if files.len() == 0 {
        Seq::<StagedView>::empty()
    } else {
        let rest = below(files.drop_last(), dir);
        let f = files.last();
        if in_dir(f, dir) {
            rest.push(StagedView { path: tail_of(f.path), hash: f.hash, executable: f.executable })
        } else {
            rest
        }
    }
}

/// Whether one of the first `k` files lies below `dir`.
pub open spec fn dir_seen(files: Seq<StagedView>, k: int, dir: Seq<u8>) -> bool {
    exists|j: int| 0 <= j < k && j < files.len() && in_dir(#[trigger] files[j], dir)
}

/// The entries of a tree that is being put together, and the contents of
/// the trees below it.
pub struct Scan {
    pub entries: Seq<EntryView>,
    pub trees: Seq<Seq<u8>>,
}

/// The address of a tree, and the contents of the tree objects that make it
/// up: those of its directories first, its own last.
pub struct Plan {
    pub address: Seq<u8>,
    pub trees: Seq<Seq<u8>>,
}

/// The bytes of a tree, empty where an address in it is not hexadecimal.
pub open spec fn tree_content(t: Seq<EntryView>) -> Seq<u8> {
    match tree_bytes(t) {
        Some(b) => b,
        None => Seq::<u8>::empty(),
    }
}

/// The mode of a file.
pub open spec fn mode_of(executable: bool) -> Seq<u8> {
    if executable {
        mode_exec()
    } else {
        mode_file()
    }
}

/// The entries that the first `k` files give to the tree of their
/// directory: a file entry for a file of the directory itself, a directory
/// entry where a directory is met for the first time, nothing for an empty
/// path. `depth` bounds the number of segments that are looked at.
pub open spec fn level_scan(files: Seq<StagedView>, k: nat, depth: nat) -> Scan
    decreases depth, k,
{
    if k == 0 || k > files.len() {
        Scan { entries: Seq::empty(), trees: Seq::empty() }
    } else {
        let prev = level_scan(files, (k - 1) as nat, depth);
        let f = files[k - 1];
        if f.path.len() == 0 {
            prev
        } else if is_direct(f.path) || depth == 0 {
            Scan {
                entries: prev.entries.push(
                    EntryView { mode: mode_of(f.executable), name: text_bytes(f.path), hash: f.hash },
                ),
                trees: prev.trees,
            }
        } else if dir_seen(files, k - 1, head_of(f.path)) {
            prev
        } else {
            let sub = level_plan(below(files, head_of(f.path)), (depth - 1) as nat);
            Scan {
                entries: prev.entries.push(
                    EntryView {
                        mode: mode_dir(),
                        name: text_bytes(head_of(f.path)),
                        hash: sub.address,
                    },
                ),
                trees: prev.trees + sub.trees,
            }
        }
    }
}

/// The tree of a directory that holds `files`: its entries sorted, its
/// address the address of their bytes.
pub open spec fn level_plan(files: Seq<StagedView>, depth: nat) -> Plan
    decreases depth, files.len() + 1,
{
    let scan = level_scan(files, files.len(), depth);
    let content = tree_content(sorted_entries(scan.entries));
    Plan { address: address_of(tag_tree(), content), trees: scan.trees.push(content) }
}

/// The length of the longest path.
pub open spec fn longest(files: Seq<StagedView>) -> nat
    decreases files.len(),
{
    if files.len() == 0 {
        0
    } else {
        let rest = longest(files.drop_last());
        if files.last().path.len() > rest {
            files.last().path.len()
        } else {
            rest
        }
    }
}

/// No path is longer than the longest.
pub proof fn lemma_longest(files: Seq<StagedView>, i: int)
    requires
        0 <= i < files.len(),
    ensures
        files[i].path.len() <= longest(files),
    decreases files.len(),
{
    if i < files.len() - 1 {
        lemma_longest(files.drop_last(), i);
    }
}

/// Whether every segment of `path` has at least one byte.
pub open spec fn path_ok(path: Seq<u8>) -> bool {
    &&& path.len() > 0
    &&& path[0] != 47
    &&& path.last() != 47
    &&& forall|i: int| 0 <= i < path.len() - 1 ==> !(#[trigger] path[i] == 47 && path[i + 1] == 47)
}

/// Whether every segment of `path` has at least one byte.
pub fn check_path(path: &[u8]) -> (ok: bool)
    ensures
        ok == path_ok(path@),
{
    let n = path.len();
    if n == 0 || path[0] == 47 || path[n - 1] == 47 {
        return false;
    }
    let mut i: usize = 0;
    while i < n - 1
        invariant
            n == path.len(),
            n > 0,
            i <= n - 1,
            forall|k: int| 0 <= k < i ==> !(#[trigger] path@[k] == 47 && path@[k + 1] == 47),
        decreases n - i,
    {
        if path[i] == 47 && path[i + 1] == 47 {
            return false;
        }
        i += 1;
    }
    true
}

/// The files of `files` below `dir`, their paths relative to it.
pub fn files_below(files: &Vec<Staged>, dir: &[u8]) -> (sub: Vec<Staged>)
    ensures
        staged_views(sub@) == below(staged_views(files@), dir@),
{
    let mut sub: Vec<Staged> = Vec::new();
    let mut i: usize = 0;
    let ghost all = staged_views(files@);
    assert(all.take(0) =~= Seq::<StagedView>::empty());
    assert(staged_views(sub@) =~= Seq::<StagedView>::empty());
    while i < files.len()
        invariant
            i <= files@.len(),
            all == staged_views(files@),
            staged_views(sub@) == below(all.take(i as int), dir@),
        decreases files@.len() - i,
    {
        let path = files[i].path.as_slice();
        let slash = find_byte(path, 0, 47);
        proof {
            assert(path@.skip(0) =~= path@);
            assert(all.take(i + 1).drop_last() =~= all.take(i as int));
            assert(all.take(i + 1).last() == files@[i as int]@);
        }
        if slash < path.len() && bytes_eq(&path[0..slash], dir) {
            assert(path@.subrange(0, slash as int) =~= head_of(path@));
            let rest = copy_range(path, slash + 1, path.len());
            assert(rest@ =~= tail_of(path@));
            let ghost before = staged_views(sub@);
            let item = Staged {
                path: rest,
                hash: files[i].hash.clone(),
                executable: files[i].executable,
            };
            sub.push(item);
            assert(staged_views(sub@) =~= before.push(item@));
        } else {
            assert(path@.subrange(0, slash as int) =~= head_of(path@));
        }
        i += 1;
    }
    assert(all.take(i as int) =~= all);
    sub
}

/// Whether one of the first `k` files lies below `dir`.
pub fn seen_before(files: &Vec<Staged>, k: usize, dir: &[u8]) -> (seen: bool)
    requires
        k <= files@.len(),
    ensures
        seen == dir_seen(staged_views(files@), k as int, dir@),
{
    let ghost all = staged_views(files@);
    let mut j: usize = 0;
    while j < k
        invariant
            j <= k <= files@.len(),
            all == staged_views(files@),
            forall|x: int| 0 <= x < j ==> !in_dir(#[trigger] all[x], dir@),
        decreases k - j,
    {
        let path = files[j].path.as_slice();
        let slash = find_byte(path, 0, 47);
        proof {
            assert(path@.skip(0) =~= path@);
            assert(path@.subrange(0, slash as int) =~= head_of(path@));
            assert(all[j as int] == files@[j as int]@);
        }
        if slash < path.len() && bytes_eq(&path[0..slash], dir) {
            return true;
        }
        j += 1;
    }
    false
}

/// Whether every address of `t` is hexadecimal.
pub open spec fn all_hex(t: Seq<EntryView>) -> bool {
    forall|i: int| 0 <= i < t.len() ==> is_hex(#[trigger] t[i].hash)
}

/// A tree whose addresses are hexadecimal has bytes.
pub proof fn lemma_all_hex_serializes(t: Seq<EntryView>)
    requires
        all_hex(t),
    ensures
        tree_bytes(t) is Some,
    decreases t.len(),
{
    if t.len() > 0 {
        let rest = t.drop_first();
        assert forall|i: int| 0 <= i < rest.len() implies is_hex(#[trigger] rest[i].hash) by {
            assert(rest[i] == t[i + 1]);
        }
        lemma_all_hex_serializes(rest);
        assert(is_hex(t[0].hash));
    }
}

/// Sorting keeps every address hexadecimal.
pub proof fn lemma_all_hex_sorted(t: Seq<EntryView>)
    requires
        all_hex(t),
    ensures
        all_hex(sorted_entries(t)),
{
    let s = sorted_entries(t);
    assert forall|i: int| 0 <= i < s.len() implies is_hex(#[trigger] s[i].hash) by {
        lemma_sorted_entries_members(t, i);
        let w = choose|w: int| 0 <= w < t.len() && t[w] == s[i];
        assert(is_hex(t[w].hash));
    }
}

/// Whether the address of every file is hexadecimal.
pub open spec fn hashes_ok(files: Seq<StagedView>) -> bool {
    forall|i: int| 0 <= i < files.len() ==> is_hex(#[trigger] files[i].hash)
}

/// The files below a directory have the addresses of files of the directory.
pub proof fn lemma_below(files: Seq<StagedView>, dir: Seq<u8>, depth: nat)
    requires
        hashes_ok(files),
        forall|i: int| 0 <= i < files.len() ==> (#[trigger] files[i]).path.len() <= depth,
        depth > 0,
    ensures
        hashes_ok(below(files, dir)),
        forall|i: int|
            0 <= i < below(files, dir).len() ==> (#[trigger] below(files, dir)[i]).path.len()
                <= depth - 1,
    decreases files.len(),
{
    if files.len() > 0 {
        let front = files.drop_last();
        assert forall|i: int| 0 <= i < front.len() implies is_hex(#[trigger] front[i].hash) by {
            assert(front[i] == files[i]);
        }
        assert forall|i: int| 0 <= i < front.len() implies (#[trigger] front[i]).path.len()
            <= depth by {
            assert(front[i] == files[i]);
        }
        lemma_below(front, dir, depth);
        let f = files.last();
        assert(f == files[files.len() - 1]);
        assert(is_hex(f.hash));
        lemma_index_of(f.path, 47);
    }
}

/// Builds the tree of the directory that holds `files`, and the trees below
/// it: appends the content of each to `trees`, children first, and returns
/// the address of the directory's own tree.
pub fn build_level(files: &Vec<Staged>, depth: usize, trees: &mut Vec<Vec<u8>>) -> (address: String)
    requires
        hashes_ok(staged_views(files@)),
        forall|i: int| 0 <= i < files@.len() ==> (#[trigger] files@[i]).path@.len() <= depth,
    ensures
        encode_utf8(address@) == level_plan(staged_views(files@), depth as nat).address,
        is_address(encode_utf8(address@)),
        final(trees)@.map_values(|t: Vec<u8>| t@) == old(trees)@.map_values(|t: Vec<u8>| t@)
            + level_plan(staged_views(files@), depth as nat).trees,
    decreases depth,
{
    let ghost all = staged_views(files@);
    let ghost start = old(trees)@.map_values(|t: Vec<u8>| t@);
    let mut tree = Tree::new();
    let mut i: usize = 0;
    assert(trees@.map_values(|t: Vec<u8>| t@) =~= start + level_scan(all, 0, depth as nat).trees);
    while i < files.len()
        invariant
            i <= files@.len(),
            all == staged_views(files@),
            hashes_ok(all),
            forall|k: int| 0 <= k < files@.len() ==> (#[trigger] files@[k]).path@.len() <= depth,
            tree@ == level_scan(all, i as nat, depth as nat).entries,
            all_hex(tree@),
            trees@.map_values(|t: Vec<u8>| t@) == start + level_scan(
                all,
                i as nat,
                depth as nat,
            ).trees,
        decreases files@.len() - i,
    {
        let path = files[i].path.as_slice();
        let slash = find_byte(path, 0, 47);
        proof {
            assert(path@.skip(0) =~= path@);
            assert(all[i as int] == files@[i as int]@);
            assert(is_hex(all[i as int].hash));
            assert(files@[i as int].path@.len() <= depth);
        }
        let ghost before = tree@;
        if path.len() == 0 {
        } else if slash == path.len() || depth == 0 {
            let name = text_from_bytes(path);
            let mode = if files[i].executable {
                exec_mode()
            } else {
                file_mode()
            };
            tree.add_entry(TreeEntry::new(mode.to_owned(), name, files[i].hash.clone()));
        } else {
            let head = &path[0..slash];
            assert(head@ =~= head_of(path@));
            if !seen_before(files, i, head) {
                let sub = files_below(files, head);
                proof {
                    assert forall|k: int| 0 <= k < all.len() implies (#[trigger] all[k]).path.len()
                        <= depth by {
                        assert(all[k] == files@[k]@);
                    }
                    lemma_below(all, head@, depth as nat);
                    assert forall|k: int| 0 <= k < sub@.len() implies (#[trigger] sub@[k]).path@.len()
                        <= depth - 1 by {
                        assert(staged_views(sub@)[k] == sub@[k]@);
                    }
                }
                let ghost trees_before = trees@.map_values(|t: Vec<u8>| t@);
                let address = build_level(&sub, depth - 1, trees);
                proof {
                    lemma_hex_canonical(encode_utf8(address@));
                    assert(trees@.map_values(|t: Vec<u8>| t@) =~= start + (level_scan(
                        all,
                        i as nat,
                        depth as nat,
                    ).trees + level_plan(staged_views(sub@), (depth - 1) as nat).trees));
                }
                let name = text_from_bytes(head);
                tree.add_entry(TreeEntry::directory(name, address));
            }
        }
        proof {
            assert forall|k: int| 0 <= k < tree@.len() implies is_hex(#[trigger] tree@[k].hash) by {
                if k < before.len() {
                    assert(tree@[k] == before[k]);
                }
            }
        }
        i += 1;
    }
    tree.sort();
    proof {
        lemma_all_hex_sorted(level_scan(all, files@.len(), depth as nat).entries);
        lemma_all_hex_serializes(tree@);
    }
    let content: Vec<u8> = match tree.serialize() {
        Ok(bytes) => bytes,
        Err(_) => Vec::new(),
    };
    let address = hash_content(tree_type(), content.as_slice());
    let ghost scanned = trees@.map_values(|t: Vec<u8>| t@);
    trees.push(content);
    proof {
        assert(trees@.map_values(|t: Vec<u8>| t@) =~= scanned.push(content@));
        assert(scanned.push(content@) =~= start + level_plan(all, depth as nat).trees);
    }
    address
}

/// The staged files of an index: path and address of each entry, in order.
pub open spec fn staged_of(index: Index) -> Seq<StagedView> {
    Seq::new(
        index.entries@.len(),
        |i: int|
            StagedView {
                path: index.entries@[i]@.path,
                hash: index.entries@[i]@.hash,
                executable: false,
            },
    )
}

/// Whether every path has segments of at least one byte.
pub open spec fn paths_ok(files: Seq<StagedView>) -> bool {
    forall|i: int| 0 <= i < files.len() ==> path_ok(#[trigger] files[i].path)
}

/// The store after the tree objects `trees` were written to it in order,
/// up to the first that could not be written; and whether all were written.
pub open spec fn store_trees(store: Map<Seq<u8>, Seq<u8>>, trees: Seq<Seq<u8>>) -> (
    Map<Seq<u8>, Seq<u8>>,
    bool,
)
    decreases trees.len(),
{
    if trees.len() == 0 {
        (store, true)
    } else if store_outcome(store, tag_tree(), trees[0]) is Err {
        (store, false)
    } else {
        store_trees(stored(store, tag_tree(), trees[0]), trees.drop_first())
    }
}

/// What building the trees of `files` returns, and the store it leaves.
/// Nothing is written unless every path and address is in order.
pub open spec fn build_outcome(store: Map<Seq<u8>, Seq<u8>>, files: Seq<StagedView>) -> (
    Result<Seq<u8>, RitError>,
    Map<Seq<u8>, Seq<u8>>,
) {
    if files.len() == 0 {
        (Err(RitError::EmptyIndex), store)
    } else if !paths_ok(files) {
        (Err(RitError::InvalidPath), store)
    } else if !hashes_ok(files) {
        (Err(RitError::InvalidAddress), store)
    } else {
        let plan = level_plan(files, longest(files));
        let written = store_trees(store, plan.trees);
        if written.1 {
            (Ok(plan.address), written.0)
        } else {
            (Err(RitError::Io), written.0)
        }
    }
}

/// Writes the tree objects `trees` to the store, in order; `Io` at the
/// first that cannot be written.
pub fn write_trees(store: &mut ObjectStore, trees: &Vec<Vec<u8>>) -> (res: Result<(), RitError>)
    ensures
        final(store)@ == store_trees(old(store)@, trees@.map_values(|t: Vec<u8>| t@)).0,
        store_trees(old(store)@, trees@.map_values(|t: Vec<u8>| t@)).1 ==> res is Ok,
        !store_trees(old(store)@, trees@.map_values(|t: Vec<u8>| t@)).1 ==> res == Err::<
            (),
            RitError,
        >(RitError::Io),
{
    let ghost all = trees@.map_values(|t: Vec<u8>| t@);
    let mut i: usize = 0;
    assert(all.skip(0) =~= all);
    while i < trees.len()
        invariant
            i <= trees@.len(),
            all == trees@.map_values(|t: Vec<u8>| t@),
            store_trees(old(store)@, all) == store_trees(store@, all.skip(i as int)),
        decreases trees@.len() - i,
    {
        proof {
            assert(all.skip(i as int)[0] == trees@[i as int]@);
            assert(all.skip(i as int).drop_first() =~= all.skip(i + 1));
        }
        match store_object(store, tree_type(), trees[i].as_slice()) {
            Ok(_) => {},
            Err(e) => {
                return Err(e);
            },
        }
        i += 1;
    }
    Ok(())
}

/// Build the tree objects for the staged entries of `index`, write them to
/// the store, and return the address of the root tree.
///
/// `EmptyIndex` where nothing is staged, `InvalidPath` where a path has an
/// empty segment, `InvalidAddress` where an address is not hexadecimal; the
/// store is then unchanged. `Io` where a tree cannot be written.
pub fn build_tree_from_index(store: &mut ObjectStore, index: &Index) -> (res: Result<
    String,
    RitError,
>)
    ensures
        text_result(res) == build_outcome(old(store)@, staged_of(*index)).0,
        final(store)@ == build_outcome(old(store)@, staged_of(*index)).1,
        res is Ok ==> is_address(encode_utf8(res->Ok_0@)),
{
    let ghost all = staged_of(*index);
    let count = index.entries.len();
    if count == 0 {
        return Err(RitError::EmptyIndex);
    }
    let mut i: usize = 0;
    while i < count
        invariant
            i <= count,
            count == index.entries@.len(),
            all == staged_of(*index),
            forall|k: int| 0 <= k < i ==> path_ok(#[trigger] all[k].path),
        decreases count - i,
    {
        if !check_path(index.entries[i].path.as_str().as_bytes()) {
            assert(!path_ok(all[i as int].path));
            return Err(RitError::InvalidPath);
        }
        i += 1;
    }
    let mut files: Vec<Staged> = Vec::new();
    let mut depth: usize = 0;
    let mut j: usize = 0;
    assert(staged_views(files@) =~= all.take(0));
    while j < count
        invariant
            j <= count,
            count == index.entries@.len(),
            all == staged_of(*index),
            paths_ok(all),
            staged_views(files@) == all.take(j as int),
            hashes_ok(all.take(j as int)),
            depth == longest(all.take(j as int)),
        decreases count - j,
    {
        let entry = &index.entries[j];
        proof {
            assert(all.take(j + 1).drop_last() =~= all.take(j as int));
            assert(all.take(j + 1).last() == all[j as int]);
        }
        match from_hex(entry.hash.as_str()) {
            Ok(_) => {},
            Err(e) => {
                assert(!is_hex(all[j as int].hash));
                return Err(e);
            },
        }
        let path = entry.path.as_str().as_bytes();
        if path.len() > depth {
            depth = path.len();
        }
        let ghost before = staged_views(files@);
        let item = Staged {
            path: copy_range(path, 0, path.len()),
            hash: entry.hash.clone(),
            executable: false,
        };
        assert(item.path@ =~= path@);
        files.push(item);
        proof {
            assert(staged_views(files@) =~= before.push(item@));
            assert(before.push(item@) =~= all.take(j + 1));
            assert forall|k: int| 0 <= k < j + 1 implies is_hex(#[trigger] all.take(j + 1)[k].hash) by {
                if k < j {
                    assert(all.take(j + 1)[k] == all.take(j as int)[k]);
                }
            }
        }
        j += 1;
    }
    proof {
        assert(all.take(count as int) =~= all);
        assert forall|k: int| 0 <= k < files@.len() implies (#[trigger] files@[k]).path@.len()
            <= depth by {
            lemma_longest(all, k);
            assert(staged_views(files@)[k] == files@[k]@);
        }
    }
    let mut trees: Vec<Vec<u8>> = Vec::new();
    let root = build_level(&files, depth, &mut trees);
    proof {
        assert(trees@.map_values(|t: Vec<u8>| t@) =~= level_plan(all, depth as nat).trees);
    }
    match write_trees(store, &trees) {
        Ok(_) => Ok(root),
        Err(e) => Err(e),
    }
}

} // verus!
