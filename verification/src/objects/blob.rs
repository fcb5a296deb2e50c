//! Blob objects: the content of one file, with no name and no structure.

use crate::commands::hash_object::{
    address_of, blob_type, hash_content, store_object, store_outcome, stored, tag_blob,
};
use crate::error::{text_result, RitError};
use crate::hexcodec::is_address;
use crate::store::ObjectStore;
use crate::text::text_if_utf8;
use vstd::prelude::*;
use vstd::string::*;
use vstd::utf8::*;

verus! {

/// Represents a blob object
#[derive(Debug, Clone)]
pub struct Blob {
    /// The raw content of the blob
    pub content: Vec<u8>,
}

impl View for Blob {
    type V = Seq<u8>;

    open spec fn view(&self) -> Seq<u8> {
        self.content@
    }
}

impl Blob {
    /// Create a new blob from raw bytes
    pub fn new(content: Vec<u8>) -> (blob: Self)
        ensures
            blob.content == content,
    {
        Blob { content }
    }

    /// The blob that object content stands for: the content itself.
    pub fn parse(content: &[u8]) -> (blob: Self)
        ensures
            blob@ == content@,
    {
        let mut owned: Vec<u8> = Vec::new();
        owned.extend_from_slice(content);
        assert(owned@ =~= content@);
        Blob { content: owned }
    }

    /// The object content of the blob: its bytes, unchanged.
    pub fn serialize(&self) -> (bytes: Vec<u8>)
        ensures
            bytes@ == self@,
    {
        let mut bytes: Vec<u8> = Vec::new();
        bytes.extend_from_slice(self.content.as_slice());
        assert(bytes@ =~= self@);
        bytes
    }

    /// Compute the address of this blob
    pub fn hash(&self) -> (address: String)
        ensures
            encode_utf8(address@) == address_of(tag_blob(), self@),
            is_address(encode_utf8(address@)),
    {
        hash_content(blob_type(), self.content.as_slice())
    }

    /// Store this blob in the object store and return its address
    pub fn store(&self, store: &mut ObjectStore) -> (res: Result<String, RitError>)
        ensures
            final(store)@ == stored(old(store)@, tag_blob(), self@),
            text_result(res) == store_outcome(old(store)@, tag_blob(), self@),
    {
        store_object(store, blob_type(), self.content.as_slice())
    }

    /// Get the size of the blob content in bytes
    pub fn size(&self) -> (n: usize)
        ensures
            n == self@.len(),
    {
        self.content.len()
    }

    /// Try to interpret the content as UTF-8 text: `Some` exactly when the
    /// content is valid UTF-8.
    pub fn as_text(&self) -> (text: Option<String>)
        ensures
            text is Some <==> valid_utf8(self@),
            text matches Some(t) ==> encode_utf8(t@) == self@,
    {
        text_if_utf8(self.content.as_slice())
    }
}

} // verus!
