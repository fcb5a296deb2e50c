//! Listing trees: the entries of one tree, or every file below it.

use crate::bytes::bytes_eq;
use crate::commands::cat_file::{read_object, read_spec};
use crate::commands::hash_object::{blob_type, tag_blob, tag_tree, tree_type};
use crate::error::RitError;
use crate::objects::tree::{
    is_tree_mode, parse_tree, parsed, tree_result, EntryView, Tree, TreeEntry,
};
use crate::store::ObjectStore;
use crate::text::{lemma_ascii_is_utf8, lemma_utf8_concat, text_from_bytes, texts_view};
use vstd::prelude::*;
use vstd::string::*;
use vstd::utf8::*;

verus! {

/// What reading `address` as a tree gives: its entries; `NotATree` where
/// the object is of another type; the failure where the object cannot be
/// read or its bytes are no tree.
pub open spec fn read_tree(store: Map<Seq<u8>, Seq<u8>>, address: Seq<u8>) -> Result<
    Seq<EntryView>,
    RitError,
> {
    match read_spec(store, address) {
        Err(e) => Err(e),
        Ok(o) => if o.object_type != tag_tree() {
            Err(RitError::NotATree)
        } else {
            parsed(parse_tree(o.content))
        },
    }
}

/// Reads the object at `address` as a tree.
pub fn load_tree(store: &ObjectStore, address: &str) -> (res: Result<Tree, RitError>)
    ensures
        tree_result(res) == read_tree(store@, address.spec_bytes()),
{
    let object = match read_object(store, address) {
        Ok(o) => o,
        Err(e) => {
            return Err(e);
        },
    };
    if !bytes_eq(object.object_type.as_str().as_bytes(), tree_type().as_bytes()) {
        return Err(RitError::NotATree);
    }
    Tree::parse(object.content.as_slice())
}

/// A file of a tree, with its path from the root of the listing.
#[derive(Debug, Clone, PartialEq)]
pub struct TreeFile {
    pub path: String,
    pub mode: String,
    pub hash: String,
}

/// What a `TreeFile` stands for.
pub struct FileView {
    pub path: Seq<u8>,
    pub mode: Seq<u8>,
    pub hash: Seq<u8>,
}

impl View for TreeFile {
    type V = FileView;

    open spec fn view(&self) -> FileView {
        FileView {
            path: encode_utf8(self.path@),
            mode: encode_utf8(self.mode@),
            hash: encode_utf8(self.hash@),
        }
    }
}

/// The views of files.
pub open spec fn files_view(files: Seq<TreeFile>) -> Seq<FileView> {
    files.map_values(|f: TreeFile| f@)
}

/// The path of `name` in the directory `prefix`; the root has the empty prefix.
pub open spec fn child_path(prefix: Seq<u8>, name: Seq<u8>) -> Seq<u8> {
    if prefix.len() == 0 {
        name
    } else {
        prefix + seq![47u8] + name
    }
}

/// The files that the first `k` of `entries` give, in order: an entry that
/// is no directory is a file, a directory gives the files of its tree.
pub open spec fn files_scan(
    store: Map<Seq<u8>, Seq<u8>>,
    entries: Seq<EntryView>,
    k: nat,
    prefix: Seq<u8>,
    depth: nat,
) -> Result<Seq<FileView>, RitError>
    decreases depth, 0nat, k,
{
    if k == 0 || k > entries.len() {
        Ok(Seq::empty())
    } else {
        match files_scan(store, entries, (k - 1) as nat, prefix, depth) {
            Err(e) => Err(e),
            Ok(before) => {
                let entry = entries[k - 1];
                let path = child_path(prefix, entry.name);
                if !is_tree_mode(entry.mode) {
                    Ok(before.push(FileView { path, mode: entry.mode, hash: entry.hash }))
                } else if depth == 0 {
                    Err(RitError::Corrupt)
                } else {
                    match tree_files(store, entry.hash, path, (depth - 1) as nat) {
                        Err(e) => Err(e),
                        Ok(sub) => Ok(before + sub),
                    }
                }
            },
        }
    }
}

/// The files of the tree at `address` and of the trees below it, in the
/// order of the entries, with `prefix` before their paths. `Corrupt` where
/// trees are nested more than `depth` deep.
pub open spec fn tree_files(
    store: Map<Seq<u8>, Seq<u8>>,
    address: Seq<u8>,
    prefix: Seq<u8>,
    depth: nat,
) -> Result<Seq<FileView>, RitError>
    decreases depth, 1nat, 0nat,
{
    match read_tree(store, address) {
        Err(e) => Err(e),
        Ok(entries) => files_scan(store, entries, entries.len(), prefix, depth),
    }
}

/// The view of a result that carries files.
pub open spec fn files_result(res: Result<Vec<TreeFile>, RitError>) -> Result<Seq<FileView>, RitError> {
    match res {
        Ok(files) => Ok(files_view(files@)),
        Err(e) => Err(e),
    }
}

/// The path of `name` in the directory `prefix`.
pub fn join_path(prefix: &str, name: &str) -> (path: String)
    ensures
        encode_utf8(path@) == child_path(prefix.spec_bytes(), name.spec_bytes()),
{
    if prefix.as_bytes().len() == 0 {
        return name.to_owned();
    }
    let mut bytes: Vec<u8> = Vec::new();
    bytes.extend_from_slice(prefix.as_bytes());
    bytes.push(47);
    bytes.extend_from_slice(name.as_bytes());
    proof {
        encode_utf8_valid_utf8(prefix@);
        encode_utf8_valid_utf8(name@);
        lemma_ascii_is_utf8(seq![47u8]);
        lemma_utf8_concat(prefix.spec_bytes(), seq![47u8]);
        lemma_utf8_concat(prefix.spec_bytes() + seq![47u8], name.spec_bytes());
        assert(bytes@ =~= prefix.spec_bytes() + seq![47u8] + name.spec_bytes());
    }
    text_from_bytes(bytes.as_slice())
}

/// Collects the files of the tree at `tree_hash` and of the trees below
/// it; `Corrupt` where trees are nested more than `depth` deep.
pub fn collect_tree_files(store: &ObjectStore, tree_hash: &str, prefix: &str, depth: usize) -> (res:
    Result<Vec<TreeFile>, RitError>)
    ensures
        files_result(res) == tree_files(
            store@,
            tree_hash.spec_bytes(),
            prefix.spec_bytes(),
            depth as nat,
        ),
    decreases depth,
{
    let tree = match load_tree(store, tree_hash) {
        Ok(t) => t,
        Err(e) => {
            return Err(e);
        },
    };
    let ghost entries = tree@;
    let ghost map = store@;
    let ghost pre = prefix.spec_bytes();
    let mut files: Vec<TreeFile> = Vec::new();
    let mut i: usize = 0;
    assert(files_view(files@) =~= Seq::<FileView>::empty());
    while i < tree.entries.len()
        invariant
            i <= tree.entries@.len(),
            entries == tree@,
            map == store@,
            pre == prefix.spec_bytes(),
            read_tree(map, tree_hash.spec_bytes()) == Ok::<Seq<EntryView>, RitError>(entries),
            files_scan(map, entries, i as nat, pre, depth as nat) == Ok::<Seq<FileView>, RitError>(
                files_view(files@),
            ),
        decreases tree.entries@.len() - i,
    {
        let entry = &tree.entries[i];
        assert(entries[i as int] == entry@);
        let ghost before = files_view(files@);
        let path = join_path(prefix, entry.name.as_str());
        if !entry.is_tree() {
            let file = TreeFile { path, mode: entry.mode.clone(), hash: entry.hash.clone() };
            files.push(file);
            assert(files_view(files@) =~= before.push(file@));
        } else if depth == 0 {
            proof {
                assert(files_scan(map, entries, (i + 1) as nat, pre, depth as nat) == Err::<
                    Seq<FileView>,
                    RitError,
                >(RitError::Corrupt));
                lemma_scan_fails(map, entries, i + 1, pre, depth as nat);
            }
            return Err(RitError::Corrupt);
        } else {
            match collect_tree_files(store, entry.hash.as_str(), path.as_str(), depth - 1) {
                Ok(mut sub) => {
                    let ghost added = files_view(sub@);
                    files.append(&mut sub);
                    assert(files_view(files@) =~= before + added);
                },
                Err(e) => {
                    proof {
                        assert(files_scan(map, entries, (i + 1) as nat, pre, depth as nat) == Err::<
                            Seq<FileView>,
                            RitError,
                        >(e));
                        lemma_scan_fails(map, entries, i + 1, pre, depth as nat);
                    }
                    return Err(e);
                },
            }
        }
        i += 1;
    }
    Ok(files)
}

/// A scan that has failed stays failed, with the same failure.
pub proof fn lemma_scan_fails(
    store: Map<Seq<u8>, Seq<u8>>,
    entries: Seq<EntryView>,
    k: int,
    prefix: Seq<u8>,
    depth: nat,
)
    requires
        0 <= k <= entries.len(),
        files_scan(store, entries, k as nat, prefix, depth) is Err,
    ensures
        files_scan(store, entries, entries.len(), prefix, depth) == files_scan(
            store,
            entries,
            k as nat,
            prefix,
            depth,
        ),
    decreases entries.len() - k,
{
    if k < entries.len() {
        assert(files_scan(store, entries, (k + 1) as nat, prefix, depth) == files_scan(
            store,
            entries,
            k as nat,
            prefix,
            depth,
        ));
        lemma_scan_fails(store, entries, k + 1, prefix, depth);
    }
}

/// Get all files in a tree (recursively), each with its path and address.
/// `Corrupt` where trees are nested deeper than the store has objects,
/// which only a tree that contains itself can be.
pub fn get_tree_files(store: &ObjectStore, tree_hash: &str) -> (res: Result<Vec<TreeFile>, RitError>)
    ensures
        files_result(res) == tree_files(
            store@,
            tree_hash.spec_bytes(),
            Seq::<u8>::empty(),
            store.objects@.len(),
        ),
{
    proof {
        reveal_strlit("");
        assert("".spec_bytes() =~= Seq::<u8>::empty());
    }
    collect_tree_files(store, tree_hash, "", store.objects.len())
}

/// The line of an entry: `<mode> <kind> <address>    <name>`.
pub open spec fn entry_line(mode: Seq<u8>, kind: Seq<u8>, hash: Seq<u8>, name: Seq<u8>) -> Seq<u8> {
    mode + seq![32u8] + kind + seq![32u8] + hash + seq![32u8, 32u8, 32u8, 32u8] + name
}

/// The kind of object that an entry with this mode names.
pub open spec fn kind_word(mode: Seq<u8>) -> Seq<u8> {
    if is_tree_mode(mode) {
        tag_tree()
    } else {
        tag_blob()
    }
}

/// The line that shows an entry: its name, or its mode, kind, address and name.
pub open spec fn entry_text(e: EntryView, name_only: bool) -> Seq<u8> {
    if name_only {
        e.name
    } else {
        entry_line(e.mode, kind_word(e.mode), e.hash, e.name)
    }
}

/// The line `<mode> <kind> <address>    <name>`.
pub fn make_line(mode: &str, kind: &str, hash: &str, name: &str) -> (line: String)
    ensures
        encode_utf8(line@) == entry_line(
            mode.spec_bytes(),
            kind.spec_bytes(),
            hash.spec_bytes(),
            name.spec_bytes(),
        ),
{
    let mut bytes: Vec<u8> = Vec::new();
    bytes.extend_from_slice(mode.as_bytes());
    bytes.push(32);
    bytes.extend_from_slice(kind.as_bytes());
    bytes.push(32);
    bytes.extend_from_slice(hash.as_bytes());
    bytes.push(32);
    bytes.push(32);
    bytes.push(32);
    bytes.push(32);
    bytes.extend_from_slice(name.as_bytes());
    proof {
        let m = mode.spec_bytes();
        let k = kind.spec_bytes();
        let h = hash.spec_bytes();
        let n = name.spec_bytes();
        encode_utf8_valid_utf8(mode@);
        encode_utf8_valid_utf8(kind@);
        encode_utf8_valid_utf8(hash@);
        encode_utf8_valid_utf8(name@);
        lemma_ascii_is_utf8(seq![32u8]);
        lemma_ascii_is_utf8(seq![32u8, 32u8, 32u8, 32u8]);
        lemma_utf8_concat(m, seq![32u8]);
        lemma_utf8_concat(m + seq![32u8], k);
        lemma_utf8_concat(m + seq![32u8] + k, seq![32u8]);
        lemma_utf8_concat(m + seq![32u8] + k + seq![32u8], h);
        lemma_utf8_concat(m + seq![32u8] + k + seq![32u8] + h, seq![32u8, 32u8, 32u8, 32u8]);
        lemma_utf8_concat(m + seq![32u8] + k + seq![32u8] + h + seq![32u8, 32u8, 32u8, 32u8], n);
        assert(bytes@ =~= entry_line(m, k, h, n));
    }
    text_from_bytes(bytes.as_slice())
}

/// Format a tree entry for display: `<mode> <type> <hash>    <name>`, or
/// the name alone.
pub fn format_entry(entry: &TreeEntry, name_only: bool) -> (line: String)
    ensures
        encode_utf8(line@) == entry_text(entry@, name_only),
{
    if name_only {
        return entry.name.clone();
    }
    let kind = if entry.is_tree() {
        tree_type()
    } else {
        blob_type()
    };
    make_line(entry.mode.as_str(), kind, entry.hash.as_str(), entry.name.as_str())
}

/// The line that shows a file of a recursive listing.
pub open spec fn file_text(f: FileView, name_only: bool) -> Seq<u8> {
    if name_only {
        f.path
    } else {
        entry_line(f.mode, tag_blob(), f.hash, f.path)
    }
}

/// The line that shows an entry in the listing of one tree: a directory
/// with its path where names only are asked for, else as it is.
pub open spec fn listed_text(e: EntryView, name_only: bool, prefix: Seq<u8>) -> Seq<u8> {
    if is_tree_mode(e.mode) {
        if name_only {
            child_path(prefix, e.name)
        } else {
            entry_text(e, false)
        }
    } else if name_only {
        e.name
    } else {
        entry_line(e.mode, tag_blob(), e.hash, e.name)
    }
}

/// The listing of the tree at `address`: a line for each file below it
/// where `recursive`, else a line for each of its entries.
pub open spec fn tree_listing(
    store: Map<Seq<u8>, Seq<u8>>,
    address: Seq<u8>,
    recursive: bool,
    name_only: bool,
    prefix: Seq<u8>,
    depth: nat,
) -> Result<Seq<Seq<u8>>, RitError> {
    if recursive {
        match tree_files(store, address, prefix, depth) {
            Ok(files) => Ok(files.map_values(|f: FileView| file_text(f, name_only))),
            Err(e) => Err(e),
        }
    } else {
        match read_tree(store, address) {
            Ok(entries) => Ok(entries.map_values(|e: EntryView| listed_text(e, name_only, prefix))),
            Err(e) => Err(e),
        }
    }
}

/// The view of a result that carries lines.
pub open spec fn lines_result(res: Result<Vec<String>, RitError>) -> Result<Seq<Seq<u8>>, RitError> {
    match res {
        Ok(lines) => Ok(texts_view(lines@)),
        Err(e) => Err(e),
    }
}

/// List tree contents, one line for each entry; where `recursive`, one
/// line for each file of the tree and of the trees below it, with its path.
/// `Corrupt` where trees are nested deeper than the store has objects.
pub fn list_tree_recursive(
    store: &ObjectStore,
    tree_hash: &str,
    recursive: bool,
    name_only: bool,
    prefix: &str,
) -> (res: Result<Vec<String>, RitError>)
    ensures
        lines_result(res) == tree_listing(
            store@,
            tree_hash.spec_bytes(),
            recursive,
            name_only,
            prefix.spec_bytes(),
            store.objects@.len(),
        ),
{
    let mut output: Vec<String> = Vec::new();
    if recursive {
        let files = match collect_tree_files(store, tree_hash, prefix, store.objects.len()) {
            Ok(f) => f,
            Err(e) => {
                return Err(e);
            },
        };
        let ghost all = files_view(files@);
        let mut i: usize = 0;
        assert(texts_view(output@) =~= all.take(0).map_values(|f: FileView| file_text(f, name_only)));
        while i < files.len()
            invariant
                i <= files@.len(),
                all == files_view(files@),
                texts_view(output@) == all.take(i as int).map_values(
                    |f: FileView| file_text(f, name_only),
                ),
            decreases files@.len() - i,
        {
            let ghost before = texts_view(output@);
            let file = &files[i];
            assert(all[i as int] == file@);
            let line = if name_only {
                file.path.clone()
            } else {
                make_line(file.mode.as_str(), blob_type(), file.hash.as_str(), file.path.as_str())
            };
            output.push(line);
            proof {
                assert(texts_view(output@) =~= before.push(encode_utf8(line@)));
                assert(before.push(file_text(all[i as int], name_only)) =~= all.take(i + 1).map_values(
                    |f: FileView| file_text(f, name_only),
                ));
            }
            i += 1;
        }
        assert(all.take(i as int) =~= all);
    } else {
        let tree = match load_tree(store, tree_hash) {
            Ok(t) => t,
            Err(e) => {
                return Err(e);
            },
        };
        let ghost all = tree@;
        let ghost pre = prefix.spec_bytes();
        let mut i: usize = 0;
        assert(texts_view(output@) =~= all.take(0).map_values(
            |e: EntryView| listed_text(e, name_only, pre),
        ));
        while i < tree.entries.len()
            invariant
                i <= tree.entries@.len(),
                all == tree@,
                pre == prefix.spec_bytes(),
                texts_view(output@) == all.take(i as int).map_values(
                    |e: EntryView| listed_text(e, name_only, pre),
                ),
            decreases tree.entries@.len() - i,
        {
            let ghost before = texts_view(output@);
            let entry = &tree.entries[i];
            assert(all[i as int] == entry@);
            let line = if entry.is_tree() {
                if name_only {
                    join_path(prefix, entry.name.as_str())
                } else {
                    format_entry(entry, false)
                }
            } else if name_only {
                entry.name.clone()
            } else {
                make_line(entry.mode.as_str(), blob_type(), entry.hash.as_str(), entry.name.as_str())
            };
            output.push(line);
            proof {
                assert(texts_view(output@) =~= before.push(encode_utf8(line@)));
                assert(before.push(listed_text(all[i as int], name_only, pre)) =~= all.take(
                    i + 1,
                ).map_values(|e: EntryView| listed_text(e, name_only, pre)));
            }
            i += 1;
        }
        assert(all.take(i as int) =~= all);
    }
    Ok(output)
}

} // verus!
