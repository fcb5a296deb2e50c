//! Working tree status: which paths are staged, modified, deleted or
//! untracked, given the index, the files of the `HEAD` commit, and the
//! files of the working directory.

use crate::bytes::bytes_eq;
use crate::commands::graph::{is_listed, listed};
use crate::commands::ls_tree::TreeFile;
use crate::index::{Index, IndexEntryView};
use crate::text::texts_view;
use vstd::prelude::*;
use vstd::string::*;
use vstd::utf8::*;

verus! {

/// A file of the working directory, with the address of its content.
#[derive(Debug, Clone, PartialEq)]
pub struct WorkingFile {
    pub path: String,
    pub hash: String,
}

/// A path and the address of the content there.
pub struct PathHash {
    pub path: Seq<u8>,
    pub hash: Seq<u8>,
}

impl View for WorkingFile {
    type V = PathHash;

    open spec fn view(&self) -> PathHash {
        PathHash { path: encode_utf8(self.path@), hash: encode_utf8(self.hash@) }
    }
}

/// The paths and addresses of working files.
pub open spec fn working_view(files: Seq<WorkingFile>) -> Seq<PathHash> {
    files.map_values(|f: WorkingFile| f@)
}

/// The paths and addresses of the files of a tree.
pub open spec fn head_view(files: Seq<TreeFile>) -> Seq<PathHash> {
    files.map_values(|f: TreeFile| PathHash { path: f@.path, hash: f@.hash })
}

/// The paths and addresses of the entries of an index, in order.
pub open spec fn index_view(index: Index) -> Seq<PathHash> {
    Seq::new(
        index.entries@.len(),
        |i: int| PathHash { path: index.entries@[i]@.path, hash: index.entries@[i]@.hash },
    )
}

/// The paths of `items`.
pub open spec fn paths_of(items: Seq<PathHash>) -> Seq<Seq<u8>> {
    items.map_values(|f: PathHash| f.path)
}

/// The paths of the items that `keep` holds for, in order.
pub open spec fn select_paths(items: Seq<PathHash>, keep: spec_fn(PathHash) -> bool) -> Seq<Seq<u8>>
    decreases items.len(),
{
    if items.len() == 0 {
        Seq::<Seq<u8>>::empty()
    } else {
        let rest = select_paths(items.drop_last(), keep);
        if keep(items.last()) {
            rest.push(items.last().path)
        } else {
            rest
        }
    }
}

/// Whether the index holds the path of `f` with another address.
pub open spec fn differs(index: Map<Seq<u8>, IndexEntryView>, f: PathHash) -> bool {
    index.contains_key(f.path) && index[f.path].hash != f.hash
}

/// Whether the index does not hold the path of `f`.
pub open spec fn unknown(index: Map<Seq<u8>, IndexEntryView>, f: PathHash) -> bool {
    !index.contains_key(f.path)
}

/// `found` with the paths of `entries` that are missing from the working
/// directory and not in `found` yet.
pub open spec fn add_missing(found: Seq<Seq<u8>>, entries: Seq<PathHash>, missing: Seq<Seq<u8>>) -> Seq<
    Seq<u8>,
>
    decreases entries.len(),
{
    if entries.len() == 0 {
        found
    } else {
        let prev = add_missing(found, entries.drop_last(), missing);
        let path = entries.last().path;
        if listed(missing, 0, path) && !listed(prev, 0, path) {
            prev.push(path)
        } else {
            prev
        }
    }
}

/// The status of a working tree.
#[derive(Debug, Clone, PartialEq)]
pub struct StatusReport {
    /// Paths whose staged content is not that of `HEAD`.
    pub staged: Vec<String>,
    /// Paths whose content in the working directory is not the staged one.
    pub modified: Vec<String>,
    /// Paths that are in `HEAD` but not staged, or staged but not in the
    /// working directory.
    pub deleted: Vec<String>,
    /// Paths of the working directory that are not staged.
    pub untracked: Vec<String>,
}

/// The staged paths: the files of `HEAD` that are staged with another
/// address, then the staged paths that are not in `HEAD`. Without `HEAD`
/// every staged path.
pub open spec fn staged_paths(
    index: Map<Seq<u8>, IndexEntryView>,
    entries: Seq<PathHash>,
    head: Option<Seq<PathHash>>,
) -> Seq<Seq<u8>> {
    match head {
        Some(files) => select_paths(files, |f: PathHash| differs(index, f)) + select_paths(
            entries,
            |e: PathHash| !listed(paths_of(files), 0, e.path),
        ),
        None => select_paths(entries, |e: PathHash| true),
    }
}

/// The deleted paths: the files of `HEAD` that are not staged, then the
/// staged paths that are missing from the working directory.
pub open spec fn deleted_paths(
    index: Map<Seq<u8>, IndexEntryView>,
    entries: Seq<PathHash>,
    head: Option<Seq<PathHash>>,
    missing: Seq<Seq<u8>>,
) -> Seq<Seq<u8>> {
    add_missing(
        match head {
            Some(files) => select_paths(files, |f: PathHash| unknown(index, f)),
            None => Seq::<Seq<u8>>::empty(),
        },
        entries,
        missing,
    )
}

/// The paths of the working files that are staged with another address.
pub fn modified_files(index: &Index, working: &Vec<WorkingFile>) -> (paths: Vec<String>)
    ensures
        texts_view(paths@) == select_paths(working_view(working@), |f: PathHash| differs(index@, f)),
{
    let ghost all = working_view(working@);
    let ghost keep = |f: PathHash| differs(index@, f);
    let mut paths: Vec<String> = Vec::new();
    let mut i: usize = 0;
    assert(all.take(0) =~= Seq::<PathHash>::empty());
    assert(texts_view(paths@) =~= Seq::<Seq<u8>>::empty());
    while i < working.len()
        invariant
            i <= working@.len(),
            all == working_view(working@),
            keep == |f: PathHash| differs(index@, f),
            texts_view(paths@) == select_paths(all.take(i as int), keep),
        decreases working@.len() - i,
    {
        let ghost before = texts_view(paths@);
        let file = &working[i];
        proof {
            assert(all.take(i + 1).drop_last() =~= all.take(i as int));
            assert(all.take(i + 1).last() == file@);
        }
        match index.get_entry(file.path.as_str()) {
            Some(entry) => {
                if !bytes_eq(entry.hash.as_str().as_bytes(), file.hash.as_str().as_bytes()) {
                    paths.push(file.path.clone());
                    assert(texts_view(paths@) =~= before.push(file@.path));
                }
            },
            None => {},
        }
        i += 1;
    }
    assert(all.take(i as int) =~= all);
    paths
}

/// The paths of the working files that are not staged.
pub fn untracked_files(index: &Index, working: &Vec<WorkingFile>) -> (paths: Vec<String>)
    ensures
        texts_view(paths@) == select_paths(working_view(working@), |f: PathHash| unknown(index@, f)),
{
    let ghost all = working_view(working@);
    let ghost keep = |f: PathHash| unknown(index@, f);
    let mut paths: Vec<String> = Vec::new();
    let mut i: usize = 0;
    assert(all.take(0) =~= Seq::<PathHash>::empty());
    assert(texts_view(paths@) =~= Seq::<Seq<u8>>::empty());
    while i < working.len()
        invariant
            i <= working@.len(),
            all == working_view(working@),
            keep == |f: PathHash| unknown(index@, f),
            texts_view(paths@) == select_paths(all.take(i as int), keep),
        decreases working@.len() - i,
    {
        let ghost before = texts_view(paths@);
        let file = &working[i];
        proof {
            assert(all.take(i + 1).drop_last() =~= all.take(i as int));
            assert(all.take(i + 1).last() == file@);
        }
        if !index.contains(file.path.as_str()) {
            paths.push(file.path.clone());
            assert(texts_view(paths@) =~= before.push(file@.path));
        }
        i += 1;
    }
    assert(all.take(i as int) =~= all);
    paths
}

/// Whether one of `files` has the path `path`.
pub fn has_path(files: &Vec<TreeFile>, path: &str) -> (yes: bool)
    ensures
        yes == listed(paths_of(head_view(files@)), 0, path.spec_bytes()),
{
    let ghost paths = paths_of(head_view(files@));
    let mut i: usize = 0;
    while i < files.len()
        invariant
            i <= files@.len(),
            paths == paths_of(head_view(files@)),
            forall|k: int| 0 <= k < i ==> #[trigger] paths[k] != path.spec_bytes(),
        decreases files@.len() - i,
    {
        assert(paths[i as int] == files@[i as int]@.path);
        if bytes_eq(files[i].path.as_str().as_bytes(), path.as_bytes()) {
            return true;
        }
        i += 1;
    }
    false
}

/// The staged paths.
pub fn staged_files(index: &Index, head: Option<&Vec<TreeFile>>) -> (paths: Vec<String>)
    ensures
        texts_view(paths@) == staged_paths(
            index@,
            index_view(*index),
            match head {
                Some(files) => Some(head_view(files@)),
                None => None,
            },
        ),
{
    let ghost entries = index_view(*index);
    let mut paths: Vec<String> = Vec::new();
    assert(texts_view(paths@) =~= Seq::<Seq<u8>>::empty());
    let ghost mut first: Seq<Seq<u8>> = Seq::empty();
    let ghost mut keep_entry: spec_fn(PathHash) -> bool = |e: PathHash| true;
    match head {
        Some(files) => {
            let ghost all = head_view(files@);
            let ghost keep = |f: PathHash| differs(index@, f);
            let mut i: usize = 0;
            assert(all.take(0) =~= Seq::<PathHash>::empty());
            while i < files.len()
                invariant
                    i <= files@.len(),
                    all == head_view(files@),
                    keep == |f: PathHash| differs(index@, f),
                    texts_view(paths@) == select_paths(all.take(i as int), keep),
                decreases files@.len() - i,
            {
                let ghost before = texts_view(paths@);
                let file = &files[i];
                proof {
                    assert(all.take(i + 1).drop_last() =~= all.take(i as int));
                    assert(all.take(i + 1).last() == PathHash { path: file@.path, hash: file@.hash });
                }
                match index.get_entry(file.path.as_str()) {
                    Some(entry) => {
                        if !bytes_eq(entry.hash.as_str().as_bytes(), file.hash.as_str().as_bytes()) {
                            paths.push(file.path.clone());
                            assert(texts_view(paths@) =~= before.push(file@.path));
                        }
                    },
                    None => {},
                }
                i += 1;
            }
            proof {
                assert(all.take(i as int) =~= all);
                first = texts_view(paths@);
                keep_entry = |e: PathHash| !listed(paths_of(all), 0, e.path);
            }
        },
        None => {},
    }
    let mut j: usize = 0;
    assert(entries.take(0) =~= Seq::<PathHash>::empty());
    assert(texts_view(paths@) =~= first + select_paths(entries.take(0), keep_entry));
    while j < index.entries.len()
        invariant
            j <= index.entries@.len(),
            entries == index_view(*index),
            match head {
                Some(files) => keep_entry == |e: PathHash|
                    !listed(paths_of(head_view(files@)), 0, e.path),
                None => keep_entry == |e: PathHash| true,
            },
            texts_view(paths@) == first + select_paths(entries.take(j as int), keep_entry),
        decreases index.entries@.len() - j,
    {
        let ghost before = texts_view(paths@);
        let entry = &index.entries[j];
        proof {
            assert(entries.take(j + 1).drop_last() =~= entries.take(j as int));
            assert(entries.take(j + 1).last() == entries[j as int]);
        }
        let keep: bool = match head {
            Some(files) => !has_path(files, entry.path.as_str()),
            None => true,
        };
        if keep {
            paths.push(entry.path.clone());
            proof {
                assert(texts_view(paths@) =~= before.push(entries[j as int].path));
                assert(before.push(entries[j as int].path) =~= first + select_paths(
                    entries.take(j + 1),
                    keep_entry,
                ));
            }
        }
        j += 1;
    }
    proof {
        assert(entries.take(j as int) =~= entries);
        if head is None {
            assert(first + select_paths(entries, keep_entry) =~= select_paths(entries, keep_entry));
        }
    }
    paths
}

/// The deleted paths; `missing` are the staged paths that are not in the
/// working directory.
pub fn deleted_files(index: &Index, head: Option<&Vec<TreeFile>>, missing: &Vec<String>) -> (paths:
    Vec<String>)
    ensures
        texts_view(paths@) == deleted_paths(
            index@,
            index_view(*index),
            match head {
                Some(files) => Some(head_view(files@)),
                None => None,
            },
            texts_view(missing@),
        ),
{
    let ghost entries = index_view(*index);
    let ghost gone = texts_view(missing@);
    let mut paths: Vec<String> = Vec::new();
    assert(texts_view(paths@) =~= Seq::<Seq<u8>>::empty());
    match head {
        Some(files) => {
            let ghost all = head_view(files@);
            let ghost keep = |f: PathHash| unknown(index@, f);
            let mut i: usize = 0;
            assert(all.take(0) =~= Seq::<PathHash>::empty());
            while i < files.len()
                invariant
                    i <= files@.len(),
                    all == head_view(files@),
                    keep == |f: PathHash| unknown(index@, f),
                    texts_view(paths@) == select_paths(all.take(i as int), keep),
                decreases files@.len() - i,
            {
                let ghost before = texts_view(paths@);
                let file = &files[i];
                proof {
                    assert(all.take(i + 1).drop_last() =~= all.take(i as int));
                    assert(all.take(i + 1).last() == PathHash { path: file@.path, hash: file@.hash });
                }
                if !index.contains(file.path.as_str()) {
                    paths.push(file.path.clone());
                    assert(texts_view(paths@) =~= before.push(file@.path));
                }
                i += 1;
            }
            assert(all.take(i as int) =~= all);
        },
        None => {},
    }
    let ghost first = texts_view(paths@);
    let mut j: usize = 0;
    assert(entries.take(0) =~= Seq::<PathHash>::empty());
    while j < index.entries.len()
        invariant
            j <= index.entries@.len(),
            entries == index_view(*index),
            gone == texts_view(missing@),
            texts_view(paths@) == add_missing(first, entries.take(j as int), gone),
        decreases index.entries@.len() - j,
    {
        let ghost before = texts_view(paths@);
        let entry = &index.entries[j];
        proof {
            assert(entries.take(j + 1).drop_last() =~= entries.take(j as int));
            assert(entries.take(j + 1).last() == entries[j as int]);
        }
        if is_listed(missing, entry.path.as_str()) && !is_listed(&paths, entry.path.as_str()) {
            paths.push(entry.path.clone());
            assert(texts_view(paths@) =~= before.push(entries[j as int].path));
        }
        j += 1;
    }
    assert(entries.take(j as int) =~= entries);
    paths
}

/// Compares the working directory with the index, and the index with the
/// files of the `HEAD` commit.
pub fn compute_status(
    index: &Index,
    head: Option<&Vec<TreeFile>>,
    working: &Vec<WorkingFile>,
    missing: &Vec<String>,
) -> (report: StatusReport)
    ensures
        texts_view(report.staged@) == staged_paths(
            index@,
            index_view(*index),
            match head {
                Some(files) => Some(head_view(files@)),
                None => None,
            },
        ),
        texts_view(report.modified@) == select_paths(
            working_view(working@),
            |f: PathHash| differs(index@, f),
        ),
        texts_view(report.deleted@) == deleted_paths(
            index@,
            index_view(*index),
            match head {
                Some(files) => Some(head_view(files@)),
                None => None,
            },
            texts_view(missing@),
        ),
        texts_view(report.untracked@) == select_paths(
            working_view(working@),
            |f: PathHash| unknown(index@, f),
        ),
{
    StatusReport {
        staged: staged_files(index, head),
        modified: modified_files(index, working),
        deleted: deleted_files(index, head, missing),
        untracked: untracked_files(index, working),
    }
}

} // verus!
