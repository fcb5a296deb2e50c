//! Writing the tree of a working directory: the blobs of its files, and the
//! trees of it and of the directories below it, the empty ones too.

use crate::bytes::bytes_eq;
use crate::commands::commit::{
    build_level, check_path, lemma_longest, level_plan, longest, path_ok, staged_views,
    store_trees, write_trees, Staged, StagedView,
};
use crate::commands::hash_object::{
    address_of, blob_type, store_object, store_outcome, stored, tag_blob,
};
use crate::error::{text_result, RitError};
use crate::hexcodec::{is_hex, lemma_hex_roundtrip};
use crate::store::ObjectStore;
use crate::text::texts_view;
use vstd::prelude::*;
use vstd::string::*;
use vstd::utf8::*;

verus! {

/// A file of the working directory: its path from the root of the
/// directory, its content, and whether it is executable.
#[derive(Debug, Clone, PartialEq)]
pub struct WorkFile {
    pub path: String,
    pub content: Vec<u8>,
    pub executable: bool,
}

/// What a `WorkFile` stands for.
pub struct WorkView {
    pub path: Seq<u8>,
    pub content: Seq<u8>,
    pub executable: bool,
}

impl View for WorkFile {
    type V = WorkView;

    open spec fn view(&self) -> WorkView {
        WorkView {
            path: encode_utf8(self.path@),
            content: self.content@,
            executable: self.executable,
        }
    }
}

/// The views of working files.
pub open spec fn work_view(files: Seq<WorkFile>) -> Seq<WorkView> {
    files.map_values(|f: WorkFile| f@)
}

/// Whether a file or directory of this name belongs to the working
/// directory: the repository's own directory does not.
pub fn is_tracked_name(name: &str) -> (yes: bool)
    ensures
        yes == (name.spec_bytes() != ".rit".spec_bytes()),
{
    !bytes_eq(name.as_bytes(), ".rit".as_bytes())
}

/// The store after the blobs of `files` were written to it in order, up to
/// the first that could not be written; and whether all were written.
pub open spec fn store_blobs(store: Map<Seq<u8>, Seq<u8>>, files: Seq<WorkView>) -> (
    Map<Seq<u8>, Seq<u8>>,
    bool,
)
    decreases files.len(),
{
    if files.len() == 0 {
        (store, true)
    } else if store_outcome(store, tag_blob(), files[0].content) is Err {
        (store, false)
    } else {
        store_blobs(stored(store, tag_blob(), files[0].content), files.drop_first())
    }
}

/// The file that is staged for a working file: at its path, with the
/// address of its content.
pub open spec fn staged_file(f: WorkView) -> StagedView {
    StagedView { path: f.path, hash: address_of(tag_blob(), f.content), executable: f.executable }
}

/// What is staged for a directory: the empty path below it.
pub open spec fn staged_dir(dir: Seq<u8>) -> StagedView {
    StagedView { path: dir.push(47u8), hash: Seq::<u8>::empty(), executable: false }
}

/// What is staged for a working directory: its files, then its directories.
pub open spec fn work_staged(files: Seq<WorkView>, dirs: Seq<Seq<u8>>) -> Seq<StagedView> {
    files.map_values(|f: WorkView| staged_file(f)) + dirs.map_values(|d: Seq<u8>| staged_dir(d))
}

/// Whether every segment of every path has at least one byte.
pub open spec fn work_paths_ok(files: Seq<WorkView>, dirs: Seq<Seq<u8>>) -> bool {
    &&& forall|i: int| 0 <= i < files.len() ==> path_ok(#[trigger] files[i].path)
    &&& forall|i: int| 0 <= i < dirs.len() ==> path_ok(#[trigger] dirs[i])
}

/// What writing the tree of a working directory returns, and the store it
/// leaves. Nothing is written unless every path is in order.
pub open spec fn write_tree_outcome(
    store: Map<Seq<u8>, Seq<u8>>,
    files: Seq<WorkView>,
    dirs: Seq<Seq<u8>>,
) -> (Result<Seq<u8>, RitError>, Map<Seq<u8>, Seq<u8>>) {
    if !work_paths_ok(files, dirs) {
        (Err(RitError::InvalidPath), store)
    } else {
        let blobs = store_blobs(store, files);
        if !blobs.1 {
            (Err(RitError::Io), blobs.0)
        } else {
            let staged = work_staged(files, dirs);
            let plan = level_plan(staged, longest(staged));
            let written = store_trees(blobs.0, plan.trees);
            if written.1 {
                (Ok(plan.address), written.0)
            } else {
                (Err(RitError::Io), written.0)
            }
        }
    }
}

/// The length of the longest path.
pub fn deepest(files: &Vec<Staged>) -> (depth: usize)
    ensures
        depth == longest(staged_views(files@)),
{
    let ghost all = staged_views(files@);
    let mut depth: usize = 0;
    let mut i: usize = 0;
    assert(all.take(0) =~= Seq::<StagedView>::empty());
    while i < files.len()
        invariant
            i <= files@.len(),
            all == staged_views(files@),
            depth == longest(all.take(i as int)),
        decreases files@.len() - i,
    {
        proof {
            assert(all.take(i + 1).drop_last() =~= all.take(i as int));
            assert(all.take(i + 1).last() == files@[i as int]@);
        }
        if files[i].path.len() > depth {
            depth = files[i].path.len();
        }
        i += 1;
    }
    assert(all.take(i as int) =~= all);
    depth
}

/// Writes the blobs of the files and the trees of the directories of a
/// working directory to the store, and returns the address of the tree of
/// its root. `dirs` are the directories below the root; one without files
/// gets an empty tree.
///
/// `InvalidPath`, with the store unchanged, where a path has an empty
/// segment; `Io` where an object cannot be written.
pub fn write_tree(store: &mut ObjectStore, files: &Vec<WorkFile>, dirs: &Vec<String>) -> (res: Result<
    String,
    RitError,
>)
    ensures
        text_result(res) == write_tree_outcome(old(store)@, work_view(files@), texts_view(dirs@)).0,
        final(store)@ == write_tree_outcome(old(store)@, work_view(files@), texts_view(dirs@)).1,
{
    let ghost all = work_view(files@);
    let ghost below = texts_view(dirs@);
    let mut i: usize = 0;
    while i < files.len()
        invariant
            i <= files@.len(),
            all == work_view(files@),
            forall|k: int| 0 <= k < i ==> path_ok(#[trigger] all[k].path),
        decreases files@.len() - i,
    {
        assert(all[i as int] == files@[i as int]@);
        if !check_path(files[i].path.as_str().as_bytes()) {
            assert(!path_ok(all[i as int].path));
            return Err(RitError::InvalidPath);
        }
        i += 1;
    }
    let mut d: usize = 0;
    while d < dirs.len()
        invariant
            d <= dirs@.len(),
            below == texts_view(dirs@),
            forall|k: int| 0 <= k < d ==> path_ok(#[trigger] below[k]),
        decreases dirs@.len() - d,
    {
        assert(below[d as int] == encode_utf8(dirs@[d as int]@));
        if !check_path(dirs[d].as_str().as_bytes()) {
            assert(!path_ok(below[d as int]));
            return Err(RitError::InvalidPath);
        }
        d += 1;
    }
    let ghost start = store@;
    let mut staged: Vec<Staged> = Vec::new();
    let mut j: usize = 0;
    proof {
        assert(all.skip(0) =~= all);
        assert(staged_views(staged@) =~= all.take(0).map_values(|f: WorkView| staged_file(f)));
    }
    while j < files.len()
        invariant
            j <= files@.len(),
            all == work_view(files@),
            below == texts_view(dirs@),
            start == old(store)@,
            work_paths_ok(all, below),
            store_blobs(start, all) == store_blobs(store@, all.skip(j as int)),
            staged_views(staged@) == all.take(j as int).map_values(|f: WorkView| staged_file(f)),
        decreases files@.len() - j,
    {
        let ghost before = staged_views(staged@);
        let file = &files[j];
        proof {
            assert(all[j as int] == file@);
            assert(all.skip(j as int)[0] == file@);
            assert(all.skip(j as int).drop_first() =~= all.skip(j + 1));
        }
        let address = match store_object(store, blob_type(), file.content.as_slice()) {
            Ok(a) => a,
            Err(e) => {
                return Err(e);
            },
        };
        let mut path: Vec<u8> = Vec::new();
        path.extend_from_slice(file.path.as_str().as_bytes());
        assert(path@ =~= file@.path);
        let item = Staged { path, hash: address, executable: file.executable };
        staged.push(item);
        proof {
            assert(staged_views(staged@) =~= before.push(item@));
            assert(before.push(staged_file(file@)) =~= all.take(j + 1).map_values(
                |f: WorkView| staged_file(f),
            ));
        }
        j += 1;
    }
    let ghost from_files = staged_views(staged@);
    proof {
        assert(all.take(j as int) =~= all);
        assert(all.skip(j as int) =~= Seq::<WorkView>::empty());
    }
    let mut k: usize = 0;
    assert(staged_views(staged@) =~= from_files + below.take(0).map_values(
        |p: Seq<u8>| staged_dir(p),
    ));
    while k < dirs.len()
        invariant
            k <= dirs@.len(),
            below == texts_view(dirs@),
            staged_views(staged@) == from_files + below.take(k as int).map_values(
                |p: Seq<u8>| staged_dir(p),
            ),
        decreases dirs@.len() - k,
    {
        let ghost before = staged_views(staged@);
        let mut path: Vec<u8> = Vec::new();
        path.extend_from_slice(dirs[k].as_str().as_bytes());
        path.push(47);
        let item = Staged { path, hash: String::new(), executable: false };
        proof {
            assert(below[k as int] == encode_utf8(dirs@[k as int]@));
            assert(item.path@ =~= below[k as int].push(47u8));
            assert(encode_utf8(item.hash@) =~= Seq::<u8>::empty());
        }
        staged.push(item);
        proof {
            assert(staged_views(staged@) =~= before.push(item@));
            assert(before.push(staged_dir(below[k as int])) =~= from_files + below.take(
                k + 1,
            ).map_values(|p: Seq<u8>| staged_dir(p)));
        }
        k += 1;
    }
    let ghost whole = staged_views(staged@);
    proof {
        assert(below.take(k as int) =~= below);
        assert(whole =~= work_staged(all, below));
        assert forall|x: int| 0 <= x < whole.len() implies is_hex(#[trigger] whole[x].hash) by {
            if x < all.len() {
                lemma_hex_roundtrip(
                    crate::commands::hash_object::sha1_digest(
                        crate::commands::hash_object::object_bytes(tag_blob(), all[x].content),
                    ),
                );
            } else {
                assert(whole[x].hash =~= Seq::<u8>::empty());
            }
        }
    }
    let depth = deepest(&staged);
    proof {
        assert forall|x: int| 0 <= x < staged@.len() implies (#[trigger] staged@[x]).path@.len()
            <= depth by {
            lemma_longest(whole, x);
            assert(whole[x] == staged@[x]@);
        }
    }
    let mut trees: Vec<Vec<u8>> = Vec::new();
    let root = build_level(&staged, depth, &mut trees);
    proof {
        assert(trees@.map_values(|t: Vec<u8>| t@) =~= level_plan(whole, depth as nat).trees);
    }
    match write_trees(store, &trees) {
        Ok(_) => Ok(root),
        Err(e) => Err(e),
    }
}

} // verus!
