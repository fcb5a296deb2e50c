//! Creating a commit object for a tree.

use crate::bytes::bytes_eq;
use crate::commands::cat_file::{read_object, read_spec};
use crate::commands::hash_object::{
    commit_type, store_object, store_outcome, stored, tag_commit, tag_tree, tree_type,
};
use crate::error::{text_result, RitError};
use crate::objects::commit::{commit_bytes, Author, Commit, CommitView};
use crate::store::ObjectStore;
use crate::text::texts_view;
use vstd::prelude::*;
use vstd::string::*;
use vstd::utf8::*;

verus! {

/// Whether `address` reads from `store` as a tree object.
pub open spec fn tree_known(store: Map<Seq<u8>, Seq<u8>>, address: Seq<u8>) -> bool {
    match read_spec(store, address) {
        Ok(o) => o.object_type == tag_tree(),
        Err(_) => false,
    }
}

/// Whether `address` reads from `store` as a tree object.
pub fn is_tree_object(store: &ObjectStore, address: &str) -> (known: bool)
    ensures
        known == tree_known(store@, address.spec_bytes()),
{
    match read_object(store, address) {
        Ok(object) => bytes_eq(object.object_type.as_str().as_bytes(), tree_type().as_bytes()),
        Err(_) => false,
    }
}

/// Creates a commit for the tree at `tree_hash` and writes it to the store.
/// The parents are recorded in the order given; they are not looked up.
///
/// `UnknownTree`, with the store unchanged, where `tree_hash` does not read
/// as a tree object; `Io` where the commit cannot be written.
pub fn create_commit(
    store: &mut ObjectStore,
    tree_hash: &str,
    parents: Vec<String>,
    author: Author,
    committer: Author,
    message: &str,
) -> (res: Result<String, RitError>)
    ensures
        !tree_known(old(store)@, tree_hash.spec_bytes()) ==> res == Err::<String, RitError>(
            RitError::UnknownTree,
        ) && final(store)@ == old(store)@,
        tree_known(old(store)@, tree_hash.spec_bytes()) ==> ({
            let content = commit_bytes(
                CommitView {
                    tree: tree_hash.spec_bytes(),
                    parents: texts_view(parents@),
                    author: author@,
                    committer: committer@,
                    message: message.spec_bytes(),
                },
            );
            &&& text_result(res) == store_outcome(old(store)@, tag_commit(), content)
            &&& final(store)@ == stored(old(store)@, tag_commit(), content)
        }),
{
    if !is_tree_object(store, tree_hash) {
        return Err(RitError::UnknownTree);
    }
    let commit = Commit::new(tree_hash.to_owned(), parents, author, committer, message.to_owned());
    let content = commit.to_bytes();
    store_object(store, commit_type(), content.as_slice())
}

} // verus!
