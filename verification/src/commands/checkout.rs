//! Reading a commit's files back: the tree of a commit, a file by its
//! path, and the files that a checkout writes.

use crate::bytes::{bytes_eq, find_byte, index_of, lemma_position_of_unique, position_of};
use crate::commands::cat_file::{read_object, read_spec};
use crate::commands::hash_object::{blob_type, tag_blob};
use crate::commands::log::{load_commit, read_commit};
use crate::commands::ls_tree::{
    collect_tree_files, files_view, load_tree, read_tree, tree_files, FileView,
};
use crate::error::{bytes_result, text_result, RitError};
use crate::objects::tree::{exec_mode, is_tree_mode, mode_exec, EntryView, Tree};
use crate::store::ObjectStore;
use vstd::prelude::*;
use vstd::string::*;
use vstd::utf8::*;

verus! {

/// The tree of the commit at `address`; `NotACommit` where the object is
/// of another type.
pub open spec fn commit_tree_spec(store: Map<Seq<u8>, Seq<u8>>, address: Seq<u8>) -> Result<
    Seq<u8>,
    RitError,
> {
    match read_commit(store, address) {
        Err(e) => Err(e),
        Ok(None) => Err(RitError::NotACommit),
        Ok(Some(c)) => Ok(c.tree),
    }
}

/// Get the tree hash from a commit
pub fn get_tree_from_commit(store: &ObjectStore, commit_hash: &str) -> (res: Result<String, RitError>)
    ensures
        text_result(res) == commit_tree_spec(store@, commit_hash.spec_bytes()),
{
    match load_commit(store, commit_hash) {
        Err(e) => Err(e),
        Ok(None) => Err(RitError::NotACommit),
        Ok(Some(commit)) => Ok(commit.tree),
    }
}

/// The content of the blob at `address`; `NotABlob` where the object is of
/// another type.
#[verifier::opaque]
pub open spec fn blob_at(store: Map<Seq<u8>, Seq<u8>>, address: Seq<u8>) -> Result<Seq<u8>, RitError> {
    match read_spec(store, address) {
        Err(e) => Err(e),
        Ok(o) => if o.object_type != tag_blob() {
            Err(RitError::NotABlob)
        } else {
            Ok(o.content)
        },
    }
}

/// Reads the content of the blob at `address`.
pub fn read_blob(store: &ObjectStore, address: &str) -> (res: Result<Vec<u8>, RitError>)
    ensures
        bytes_result(res) == blob_at(store@, address.spec_bytes()),
{
    reveal(blob_at);
    let object = match read_object(store, address) {
        Ok(o) => o,
        Err(e) => {
            return Err(e);
        },
    };
    if !bytes_eq(object.object_type.as_str().as_bytes(), blob_type().as_bytes()) {
        return Err(RitError::NotABlob);
    }
    Ok(object.content)
}

/// The names of entries.
pub open spec fn names_of(entries: Seq<EntryView>) -> Seq<Seq<u8>> {
    entries.map_values(|e: EntryView| e.name)
}

/// The address of the file at `path` below the tree at `tree`. The path is
/// followed segment by segment; `PathNotFound` where a segment is not in
/// its tree, where a segment before the last is no directory, or where the
/// last is one.
pub open spec fn file_at(store: Map<Seq<u8>, Seq<u8>>, tree: Seq<u8>, path: Seq<u8>) -> Result<
    Seq<u8>,
    RitError,
>
    decreases path.len(),
{
    match read_tree(store, tree) {
        Err(e) => Err(e),
        Ok(entries) => {
            let slash = index_of(path, 47);
            let last = !(0 <= slash < path.len());
            let name = if last {
                path
            } else {
                path.take(slash)
            };
            let at = position_of(names_of(entries), name);
            if !(0 <= at < entries.len()) {
                Err(RitError::PathNotFound)
            } else if last {
                if is_tree_mode(entries[at].mode) {
                    Err(RitError::PathNotFound)
                } else {
                    Ok(entries[at].hash)
                }
            } else if !is_tree_mode(entries[at].mode) {
                Err(RitError::PathNotFound)
            } else {
                file_at(store, entries[at].hash, path.skip(slash + 1))
            }
        },
    }
}

/// Where the entry named `name` stands in `tree`, or the number of entries.
pub fn entry_position(tree: &Tree, name: &[u8]) -> (at: usize)
    ensures
        at == position_of(names_of(tree@), name@),
        at <= tree.entries@.len(),
{
    let ghost names = names_of(tree@);
    let mut at: usize = 0;
    while at < tree.entries.len()
        invariant
            at <= tree.entries@.len(),
            names == names_of(tree@),
            forall|i: int| 0 <= i < at ==> #[trigger] names[i] != name@,
        decreases tree.entries@.len() - at,
    {
        assert(names[at as int] == tree.entries@[at as int]@.name);
        if bytes_eq(tree.entries[at].name.as_str().as_bytes(), name) {
            proof {
                lemma_position_of_unique(names, name@, at as int);
            }
            return at;
        }
        at += 1;
    }
    proof {
        lemma_position_of_unique(names, name@, at as int);
    }
    at
}

/// Finds the file at `path` below the tree at `tree_hash`, and returns its
/// address.
pub fn find_file(store: &ObjectStore, tree_hash: &str, path: &str) -> (res: Result<String, RitError>)
    ensures
        text_result(res) == file_at(store@, tree_hash.spec_bytes(), path.spec_bytes()),
{
    let data = path.as_bytes();
    let ghost map = store@;
    let mut current: String = tree_hash.to_owned();
    let mut pos: usize = 0;
    proof {
        assert(data@.skip(0) =~= data@);
    }
    loop
        invariant
            pos <= data.len(),
            map == store@,
            data@ == path.spec_bytes(),
            file_at(map, tree_hash.spec_bytes(), path.spec_bytes()) == file_at(
                map,
                encode_utf8(current@),
                data@.skip(pos as int),
            ),
        decreases data.len() - pos,
    {
        let ghost rest = data@.skip(pos as int);
        let tree = match load_tree(store, current.as_str()) {
            Ok(t) => t,
            Err(e) => {
                return Err(e);
            },
        };
        let slash = find_byte(data, pos, 47);
        let last = slash == data.len();
        let name = &data[pos..slash];
        proof {
            if last {
                assert(name@ =~= rest);
            } else {
                assert(name@ =~= rest.take(slash - pos));
                assert(rest.skip(slash - pos + 1) =~= data@.skip(slash + 1));
            }
        }
        let at = entry_position(&tree, name);
        if at == tree.entries.len() {
            return Err(RitError::PathNotFound);
        }
        let entry = &tree.entries[at];
        assert(tree@[at as int] == entry@);
        if last {
            if entry.is_tree() {
                return Err(RitError::PathNotFound);
            }
            return Ok(entry.hash.clone());
        }
        if !entry.is_tree() {
            return Err(RitError::PathNotFound);
        }
        current = entry.hash.clone();
        pos = slash + 1;
    }
}

/// The content of the file at `path` below the tree at `tree`.
pub open spec fn file_content_at(store: Map<Seq<u8>, Seq<u8>>, tree: Seq<u8>, path: Seq<u8>) -> Result<
    Seq<u8>,
    RitError,
> {
    match file_at(store, tree, path) {
        Err(e) => Err(e),
        Ok(address) => blob_at(store, address),
    }
}

/// Reads the content of the file at `path` below the tree at `tree_hash`.
pub fn read_file_at(store: &ObjectStore, tree_hash: &str, path: &str) -> (res: Result<Vec<u8>, RitError>)
    ensures
        bytes_result(res) == file_content_at(store@, tree_hash.spec_bytes(), path.spec_bytes()),
{
    match find_file(store, tree_hash, path) {
        Err(e) => Err(e),
        Ok(address) => read_blob(store, address.as_str()),
    }
}

/// A file that a checkout writes.
#[derive(Debug, Clone, PartialEq)]
pub struct CheckoutFile {
    /// The path of the file below the working directory.
    pub path: String,
    /// The bytes of the file.
    pub content: Vec<u8>,
    /// Whether the file is to be made executable.
    pub executable: bool,
}

/// What a `CheckoutFile` stands for.
pub struct CheckoutView {
    pub path: Seq<u8>,
    pub content: Seq<u8>,
    pub executable: bool,
}

impl View for CheckoutFile {
    type V = CheckoutView;

    open spec fn view(&self) -> CheckoutView {
        CheckoutView {
            path: encode_utf8(self.path@),
            content: self.content@,
            executable: self.executable,
        }
    }
}

/// The views of checkout files.
pub open spec fn checkout_view(files: Seq<CheckoutFile>) -> Seq<CheckoutView> {
    files.map_values(|f: CheckoutFile| f@)
}

/// The files to write for the first `k` of `files`: each with the content
/// of its blob, executable where its mode is `100755`.
pub open spec fn checkout_scan(store: Map<Seq<u8>, Seq<u8>>, files: Seq<FileView>, k: nat) -> Result<
    Seq<CheckoutView>,
    RitError,
>
    decreases k,
{
    if k == 0 || k > files.len() {
        Ok(Seq::empty())
    } else {
        match checkout_scan(store, files, (k - 1) as nat) {
            Err(e) => Err(e),
            Ok(before) => match blob_at(store, files[k - 1].hash) {
                Err(e) => Err(e),
                Ok(content) => Ok(
                    before.push(
                        CheckoutView {
                            path: files[k - 1].path,
                            content,
                            executable: files[k - 1].mode == mode_exec(),
                        },
                    ),
                ),
            },
        }
    }
}

/// The files that a checkout of the tree at `tree` writes.
pub open spec fn checkout_plan(store: Map<Seq<u8>, Seq<u8>>, tree: Seq<u8>, depth: nat) -> Result<
    Seq<CheckoutView>,
    RitError,
> {
    match tree_files(store, tree, Seq::<u8>::empty(), depth) {
        Err(e) => Err(e),
        Ok(files) => checkout_scan(store, files, files.len()),
    }
}

/// A scan that has failed stays failed, with the same failure.
pub proof fn lemma_checkout_fails(store: Map<Seq<u8>, Seq<u8>>, files: Seq<FileView>, k: int)
    requires
        0 <= k <= files.len(),
        checkout_scan(store, files, k as nat) is Err,
    ensures
        checkout_scan(store, files, files.len()) == checkout_scan(store, files, k as nat),
    decreases files.len() - k,
{
    if k < files.len() {
        assert(checkout_scan(store, files, (k + 1) as nat) == checkout_scan(store, files, k as nat));
        lemma_checkout_fails(store, files, k + 1);
    }
}

/// The view of a result that carries checkout files.
pub open spec fn checkout_result(res: Result<Vec<CheckoutFile>, RitError>) -> Result<
    Seq<CheckoutView>,
    RitError,
> {
    match res {
        Ok(files) => Ok(checkout_view(files@)),
        Err(e) => Err(e),
    }
}

/// Lists the files that a checkout of the tree at `tree_hash` writes, in
/// the order of the tree, each with its content. Nothing is listed unless
/// every tree and blob can be read.
pub fn checkout_files(store: &ObjectStore, tree_hash: &str) -> (res: Result<Vec<CheckoutFile>, RitError>)
    ensures
        checkout_result(res) == checkout_plan(store@, tree_hash.spec_bytes(), store.objects@.len()),
{
    proof {
        reveal_strlit("");
        assert("".spec_bytes() =~= Seq::<u8>::empty());
    }
    let files = match collect_tree_files(store, tree_hash, "", store.objects.len()) {
        Ok(f) => f,
        Err(e) => {
            return Err(e);
        },
    };
    let ghost all = files_view(files@);
    let ghost map = store@;
    let mut out: Vec<CheckoutFile> = Vec::new();
    let mut i: usize = 0;
    assert(checkout_view(out@) =~= Seq::<CheckoutView>::empty());
    while i < files.len()
        invariant
            i <= files@.len(),
            all == files_view(files@),
            map == store@,
            tree_files(map, tree_hash.spec_bytes(), Seq::<u8>::empty(), store.objects@.len())
                == Ok::<Seq<FileView>, RitError>(all),
            checkout_scan(map, all, i as nat) == Ok::<Seq<CheckoutView>, RitError>(
                checkout_view(out@),
            ),
        decreases files@.len() - i,
    {
        let ghost before = checkout_view(out@);
        let file = &files[i];
        assert(all[i as int] == file@);
        let content = match read_blob(store, file.hash.as_str()) {
            Ok(c) => c,
            Err(e) => {
                proof {
                    assert(checkout_scan(map, all, (i + 1) as nat) == Err::<
                        Seq<CheckoutView>,
                        RitError,
                    >(e));
                    lemma_checkout_fails(map, all, i + 1);
                }
                return Err(e);
            },
        };
        let executable = bytes_eq(file.mode.as_str().as_bytes(), exec_mode().as_bytes());
        let item = CheckoutFile { path: file.path.clone(), content, executable };
        out.push(item);
        assert(checkout_view(out@) =~= before.push(item@));
        i += 1;
    }
    Ok(out)
}

} // verus!
