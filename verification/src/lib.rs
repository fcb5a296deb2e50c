//! A small version-control engine: a content-addressed object store holding
//! blobs, trees and commits, a staging index, a tree builder and commit-graph
//! traversal.
//!
//! Text fields are carried as `String`s; every contract speaks of their UTF-8
//! bytes, because the address of an object is derived from its exact byte
//! encoding.

pub mod bytes;
pub mod commands;
pub mod deflate;
pub mod error;
pub mod hexcodec;
pub mod ignore;
pub mod index;
pub mod objects;
pub mod refs;
pub mod store;
pub mod text;

use crate::text::{lemma_ascii_is_utf8, lemma_utf8_concat, text_from_bytes};
use vstd::prelude::*;
use vstd::string::*;
use vstd::utf8::*;

verus! {

/// The name of the rit directory (like .git)
pub const RIT_DIR: &'static str = ".rit";

/// The path of `name` below `base`. A `name` that begins with `/` stands
/// for itself; a `/` is put between the two unless `base` is empty or ends
/// in one.
pub open spec fn path_join(base: Seq<u8>, name: Seq<u8>) -> Seq<u8> {
    if name.len() > 0 && name[0] == 47 {
        name
    } else if base.len() == 0 || base.last() == 47 {
        base + name
    } else {
        base + seq![47u8] + name
    }
}

/// The path of `name` below `base`.
pub fn join_paths(base: &str, name: &str) -> (path: String)
    ensures
        encode_utf8(path@) == path_join(base.spec_bytes(), name.spec_bytes()),
{
    let b = base.as_bytes();
    let n = name.as_bytes();
    if n.len() > 0 && n[0] == 47 {
        return name.to_owned();
    }
    let mut out: Vec<u8> = Vec::new();
    out.extend_from_slice(b);
    if b.len() > 0 && b[b.len() - 1] != 47 {
        out.push(47);
    }
    out.extend_from_slice(n);
    proof {
        encode_utf8_valid_utf8(base@);
        encode_utf8_valid_utf8(name@);
        lemma_ascii_is_utf8(seq![47u8]);
        lemma_utf8_concat(b@, seq![47u8]);
        lemma_utf8_concat(b@ + seq![47u8], n@);
        lemma_utf8_concat(b@, n@);
        assert(out@ =~= path_join(b@, n@));
    }
    text_from_bytes(out.as_slice())
}

/// Represents a Rit repository
#[derive(Debug)]
pub struct Repository {
    /// The root directory of the repository (where .rit lives)
    pub root: String,
    /// The .rit directory path
    pub rit_dir: String,
}

impl Repository {
    /// The repository whose working directory is `root`.
    pub fn at(root: &str) -> (repo: Self)
        ensures
            repo.root@ == root@,
            encode_utf8(repo.rit_dir@) == path_join(root.spec_bytes(), ".rit".spec_bytes()),
    {
        Repository { root: root.to_owned(), rit_dir: join_paths(root, ".rit") }
    }

    /// Get the path to the objects directory
    pub fn objects_dir(&self) -> (path: String)
        ensures
            encode_utf8(path@) == path_join(encode_utf8(self.rit_dir@), "objects".spec_bytes()),
    {
        join_paths(self.rit_dir.as_str(), "objects")
    }

    /// Get the path to the refs directory
    pub fn refs_dir(&self) -> (path: String)
        ensures
            encode_utf8(path@) == path_join(encode_utf8(self.rit_dir@), "refs".spec_bytes()),
    {
        join_paths(self.rit_dir.as_str(), "refs")
    }

    /// Get the path to the HEAD file
    pub fn head_path(&self) -> (path: String)
        ensures
            encode_utf8(path@) == path_join(encode_utf8(self.rit_dir@), "HEAD".spec_bytes()),
    {
        join_paths(self.rit_dir.as_str(), "HEAD")
    }

    /// Get the path to the index file
    pub fn index_path(&self) -> (path: String)
        ensures
            encode_utf8(path@) == path_join(encode_utf8(self.rit_dir@), "index".spec_bytes()),
    {
        join_paths(self.rit_dir.as_str(), "index")
    }

    /// Get the path to a branch reference file
    pub fn branch_ref_path(&self, branch_name: &str) -> (path: String)
        ensures
            encode_utf8(path@) == path_join(
                path_join(
                    path_join(encode_utf8(self.rit_dir@), "refs".spec_bytes()),
                    "heads".spec_bytes(),
                ),
                branch_name.spec_bytes(),
            ),
    {
        let refs = join_paths(self.rit_dir.as_str(), "refs");
        let heads = join_paths(refs.as_str(), "heads");
        join_paths(heads.as_str(), branch_name)
    }

    /// Get the path to a tag reference file
    pub fn tag_ref_path(&self, tag_name: &str) -> (path: String)
        ensures
            encode_utf8(path@) == path_join(
                path_join(
                    path_join(encode_utf8(self.rit_dir@), "refs".spec_bytes()),
                    "tags".spec_bytes(),
                ),
                tag_name.spec_bytes(),
            ),
    {
        let refs = join_paths(self.rit_dir.as_str(), "refs");
        let tags = join_paths(refs.as_str(), "tags");
        join_paths(tags.as_str(), tag_name)
    }
}

} // verus!
