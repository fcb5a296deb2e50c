//! Addresses of objects, and writing objects to the store.
//!
//! An object is framed as `<type> <length>\0<content>`. Its address is the
//! SHA-1 digest of the framed bytes, in hexadecimal.

use crate::bytes::{decimal, push_decimal};
use crate::deflate::{compress, packed, zlib_inflated};
use crate::error::{text_result, RitError};
use crate::hexcodec::{hex_digits, is_address, lemma_hex_of_digest, to_hex};
use crate::store::ObjectStore;
use sha1::Digest;
use vstd::prelude::*;
use vstd::string::*;
use vstd::utf8::*;

verus! {

/// The SHA-1 digest of `data`.
pub uninterp spec fn sha1_digest(data: Seq<u8>) -> Seq<u8>;

/// `sha1::Sha1`, fed `head` and then `body`. Trusted: the result is the
/// 20-byte digest of the two joined, and depends on nothing else.
#[verifier::external_body]
fn sha1_of(head: &[u8], body: &[u8]) -> (digest: Vec<u8>)
    ensures
        digest@ == sha1_digest(head@ + body@),
        digest@.len() == 20,
{
    let mut hasher = sha1::Sha1::new();
    hasher.update(head);
    hasher.update(body);
    hasher.finalize().to_vec()
}

/// The header of an object: the type, a space, the content's length in
/// decimal, and a NUL byte.
pub open spec fn object_header(object_type: Seq<u8>, len: nat) -> Seq<u8> {
    object_type + seq![32u8] + decimal(len) + seq![0u8]
}

/// The framed bytes of an object: its header, then its content.
pub open spec fn object_bytes(object_type: Seq<u8>, content: Seq<u8>) -> Seq<u8> {
    object_header(object_type, content.len()) + content
}

/// The address of an object: the digest of its framed bytes, in hexadecimal.
pub open spec fn address_of(object_type: Seq<u8>, content: Seq<u8>) -> Seq<u8> {
    hex_digits(sha1_digest(object_bytes(object_type, content)))
}

/// Equal content of one type has one address.
pub proof fn lemma_address_deterministic(object_type: Seq<u8>, c1: Seq<u8>, c2: Seq<u8>)
    requires
        c1 == c2,
    ensures
        address_of(object_type, c1) == address_of(object_type, c2),
{
}

/// The header for content of `len` bytes.
pub fn header_bytes(object_type: &str, len: usize) -> (header: Vec<u8>)
    ensures
        header@ == object_header(object_type.spec_bytes(), len as nat),
{
    let mut header: Vec<u8> = Vec::new();
    header.extend_from_slice(object_type.as_bytes());
    header.push(32);
    push_decimal(&mut header, len as u64);
    header.push(0);
    assert(header@ =~= object_header(object_type.spec_bytes(), len as nat));
    header
}

/// The address of the object of type `object_type` with content `content`.
pub fn hash_content(object_type: &str, content: &[u8]) -> (address: String)
    ensures
        encode_utf8(address@) == address_of(object_type.spec_bytes(), content@),
        is_address(encode_utf8(address@)),
{
    let header = header_bytes(object_type, content.len());
    let digest = sha1_of(header.as_slice(), content);
    proof {
        lemma_hex_of_digest(digest@);
    }
    to_hex(digest.as_slice())
}

/// The store after an object was written to it: unchanged where the address
/// is taken or the object cannot be compressed and inflated again.
pub open spec fn stored(
    store: Map<Seq<u8>, Seq<u8>>,
    object_type: Seq<u8>,
    content: Seq<u8>,
) -> Map<Seq<u8>, Seq<u8>> {
    let address = address_of(object_type, content);
    if store.contains_key(address) {
        store
    } else {
        match packed(object_bytes(object_type, content)) {
            Some(z) => store.insert(address, z),
            None => store,
        }
    }
}

/// What writing an object returns: its address, or `Io` where the object is
/// new and cannot be compressed.
pub open spec fn store_outcome(
    store: Map<Seq<u8>, Seq<u8>>,
    object_type: Seq<u8>,
    content: Seq<u8>,
) -> Result<Seq<u8>, RitError> {
    let address = address_of(object_type, content);
    if store.contains_key(address) || packed(object_bytes(object_type, content)) is Some {
        Ok(address)
    } else {
        Err(RitError::Io)
    }
}

/// Writing the same object a second time returns the same address, does not
/// fail, and leaves the store as the first write left it.
pub proof fn lemma_store_idempotent(
    store: Map<Seq<u8>, Seq<u8>>,
    object_type: Seq<u8>,
    content: Seq<u8>,
)
    requires
        store_outcome(store, object_type, content) is Ok,
    ensures
        store_outcome(stored(store, object_type, content), object_type, content) == store_outcome(
            store,
            object_type,
            content,
        ),
        stored(stored(store, object_type, content), object_type, content) == stored(
            store,
            object_type,
            content,
        ),
{
}

/// Writes an object into `store` unless its address is taken, and returns
/// the address.
pub fn store_object(store: &mut ObjectStore, object_type: &str, content: &[u8]) -> (res: Result<
    String,
    RitError,
>)
    ensures
        final(store)@ == stored(old(store)@, object_type.spec_bytes(), content@),
        text_result(res) == store_outcome(old(store)@, object_type.spec_bytes(), content@),
        res is Ok ==> final(store)@.contains_key(address_of(object_type.spec_bytes(), content@)),
        res is Ok ==> is_address(address_of(object_type.spec_bytes(), content@)),
        res is Ok && !old(store)@.contains_key(address_of(object_type.spec_bytes(), content@))
            ==> zlib_inflated(final(store)@[address_of(object_type.spec_bytes(), content@)])
            == Some(object_bytes(object_type.spec_bytes(), content@)),
{
    let address = hash_content(object_type, content);
    if store.contains(address.as_str()) {
        return Ok(address);
    }
    let header = header_bytes(object_type, content.len());
    match compress(header.as_slice(), content) {
        Ok(z) => {
            let copy = address.clone();
            store.insert_raw(copy, z);
            Ok(address)
        },
        Err(e) => Err(e),
    }
}

/// The bytes of `blob`, the type of a blob.
pub open spec fn tag_blob() -> Seq<u8> {
    seq![98u8, 108u8, 111u8, 98u8]
}

/// The bytes of `tree`, the type of a tree.
pub open spec fn tag_tree() -> Seq<u8> {
    seq![116u8, 114u8, 101u8, 101u8]
}

/// The bytes of `commit`, the type of a commit.
pub open spec fn tag_commit() -> Seq<u8> {
    seq![99u8, 111u8, 109u8, 109u8, 105u8, 116u8]
}

/// The type of a blob, as text.
pub fn blob_type() -> (tag: &'static str)
    ensures
        tag.spec_bytes() == tag_blob(),
{
    proof {
        reveal_strlit("blob");
        is_ascii_spec_bytes("blob");
        assert("blob".spec_bytes() =~= tag_blob());
    }
    "blob"
}

/// The type of a tree, as text.
pub fn tree_type() -> (tag: &'static str)
    ensures
        tag.spec_bytes() == tag_tree(),
{
    proof {
        reveal_strlit("tree");
        is_ascii_spec_bytes("tree");
        assert("tree".spec_bytes() =~= tag_tree());
    }
    "tree"
}

/// The type of a commit, as text.
pub fn commit_type() -> (tag: &'static str)
    ensures
        tag.spec_bytes() == tag_commit(),
{
    proof {
        reveal_strlit("commit");
        is_ascii_spec_bytes("commit");
        assert("commit".spec_bytes() =~= tag_commit());
    }
    "commit"
}

} // verus!
