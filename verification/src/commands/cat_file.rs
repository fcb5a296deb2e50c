//! Reading objects back from the store.

use crate::bytes::{
    copy_range, decimal, find_byte, index_of, lemma_decimal, lemma_index_of_absent,
    lemma_index_of_delimited, parse_unsigned, unsigned_value,
};
use crate::commands::hash_object::object_bytes;
use crate::deflate::{inflate, zlib_inflated};
use crate::error::RitError;
use crate::store::ObjectStore;
use crate::text::{text_bytes, text_from_bytes};
use vstd::prelude::*;
use vstd::string::*;
use vstd::utf8::*;

verus! {

/// An object as read from the store.
#[derive(Debug)]
pub struct GitObject {
    /// The type of the object: `blob`, `tree` or `commit`.
    pub object_type: String,
    /// The length of the content in bytes.
    pub size: usize,
    /// The content, without the header.
    pub content: Vec<u8>,
}

/// What a `GitObject` stands for.
pub struct ObjectView {
    pub object_type: Seq<u8>,
    pub size: nat,
    pub content: Seq<u8>,
}

impl View for GitObject {
    type V = ObjectView;

    open spec fn view(&self) -> ObjectView {
        ObjectView {
            object_type: encode_utf8(self.object_type@),
            size: self.size as nat,
            content: self.content@,
        }
    }
}

/// The object that the framed bytes `raw` hold. The header ends at the first
/// NUL byte and is split at spaces: the first part is the type, the second
/// is the length, which must be the number of bytes after the NUL.
pub open spec fn decode_object(raw: Seq<u8>) -> Option<ObjectView> {
    let nul = index_of(raw, 0);
    let header = raw.take(nul);
    let space = index_of(header, 32);
    let after = header.skip(space + 1);
    let field = after.take(index_of(after, 32));
    let content = raw.skip(nul + 1);
    if nul < raw.len() && space < header.len() && unsigned_value(field) == Some(content.len()) {
        Some(ObjectView { object_type: text_bytes(header.take(space)), size: content.len(), content })
    } else {
        None
    }
}

/// The view of the result of reading an object.
pub open spec fn object_result(res: Result<GitObject, RitError>) -> Result<ObjectView, RitError> {
    match res {
        Ok(o) => Ok(o@),
        Err(e) => Err(e),
    }
}

/// What `parse_object` returns for the framed bytes `raw`.
pub open spec fn parse_object_spec(raw: Seq<u8>) -> Result<ObjectView, RitError> {
    match decode_object(raw) {
        Some(o) => Ok(o),
        None => Err(RitError::Corrupt),
    }
}

/// Reads the framed bytes of an object; `Corrupt` where they are not
/// `<type> <length>\0<content>` with the right length.
pub fn parse_object(raw: &[u8]) -> (res: Result<GitObject, RitError>)
    ensures
        object_result(res) == parse_object_spec(raw@),
{
    let nul = find_byte(raw, 0, 0);
    proof {
        assert(raw@.skip(0) =~= raw@);
    }
    if nul == raw.len() {
        return Err(RitError::Corrupt);
    }
    let header = &raw[0..nul];
    assert(header@ =~= raw@.take(nul as int));
    let space = find_byte(header, 0, 32);
    proof {
        assert(header@.skip(0) =~= header@);
    }
    if space == header.len() {
        return Err(RitError::Corrupt);
    }
    let after = &header[space + 1..nul];
    assert(after@ =~= header@.skip(space + 1));
    let end = find_byte(after, 0, 32);
    proof {
        assert(after@.skip(0) =~= after@);
    }
    let field = &after[0..end];
    assert(field@ =~= after@.take(end as int));
    let size: usize = raw.len() - nul - 1;
    assert(raw@.skip(nul + 1).len() == size);
    match parse_unsigned(field) {
        Some(n) => {
            if n != size as u64 {
                return Err(RitError::Corrupt);
            }
        },
        None => {
            return Err(RitError::Corrupt);
        },
    }
    let object_type = text_from_bytes(&header[0..space]);
    assert(header@.subrange(0, space as int) =~= header@.take(space as int));
    let content = copy_range(raw, nul + 1, raw.len());
    assert(content@ =~= raw@.skip(nul + 1));
    Ok(GitObject { object_type, size, content })
}

/// Framed bytes decode to the object they were made from, as long as the
/// type holds neither a space nor a NUL byte.
pub proof fn lemma_decode_object_of_bytes(object_type: Seq<u8>, content: Seq<u8>)
    requires
        valid_utf8(object_type),
        !object_type.contains(32),
        !object_type.contains(0),
    ensures
        decode_object(object_bytes(object_type, content)) == Some(
            ObjectView { object_type, size: content.len(), content },
        ),
{
    let n = content.len();
    let digits = decimal(n);
    lemma_decimal(n);
    let front = object_type + seq![32u8] + digits;
    let raw = object_bytes(object_type, content);
    assert(raw =~= front + seq![0u8] + content);
    assert(!front.contains(0)) by {
        if front.contains(0) {
            let i = choose|i: int| 0 <= i < front.len() && front[i] == 0;
            if i < object_type.len() {
                assert(object_type.contains(front[i]));
            } else if i > object_type.len() {
                assert(front[i] == digits[i - object_type.len() - 1]);
            }
        }
    }
    lemma_index_of_delimited(front, 0, content);
    let nul = index_of(raw, 0);
    assert(raw.take(nul) =~= front);
    assert(raw.skip(nul + 1) =~= content);
    lemma_index_of_delimited(object_type, 32, digits);
    let space = index_of(front, 32);
    assert(front.skip(space + 1) =~= digits);
    assert(front.take(space) =~= object_type);
    assert(!digits.contains(32)) by {
        if digits.contains(32) {
            let i = choose|i: int| 0 <= i < digits.len() && digits[i] == 32;
            assert(crate::bytes::is_digit(digits[i]));
        }
    }
    lemma_index_of_absent(digits, 32);
    assert(digits.take(digits.len() as int) =~= digits);
}

/// What reading `address` from `store` returns.
pub open spec fn read_spec(store: Map<Seq<u8>, Seq<u8>>, address: Seq<u8>) -> Result<
    ObjectView,
    RitError,
> {
    if address.len() < 4 {
        Err(RitError::Corrupt)
    } else if !store.contains_key(address) {
        Err(RitError::NotFound)
    } else {
        match zlib_inflated(store[address]) {
            Some(raw) => parse_object_spec(raw),
            None => Err(RitError::Corrupt),
        }
    }
}

/// Reads the object stored under `hash`.
pub fn read_object(store: &ObjectStore, hash: &str) -> (res: Result<GitObject, RitError>)
    ensures
        object_result(res) == read_spec(store@, hash.spec_bytes()),
{
    if hash.as_bytes().len() < 4 {
        return Err(RitError::Corrupt);
    }
    match store.raw(hash) {
        None => Err(RitError::NotFound),
        Some(data) => match inflate(data.as_slice()) {
            Ok(raw) => parse_object(raw.as_slice()),
            Err(e) => Err(e),
        },
    }
}

/// An object that was newly written reads back as it was written, as long as
/// its type holds neither a space nor a NUL byte.
pub proof fn lemma_read_after_store(
    store: Map<Seq<u8>, Seq<u8>>,
    object_type: Seq<u8>,
    content: Seq<u8>,
    address: Seq<u8>,
)
    requires
        valid_utf8(object_type),
        !object_type.contains(32),
        !object_type.contains(0),
        address.len() >= 4,
        store.contains_key(address),
        zlib_inflated(store[address]) == Some(object_bytes(object_type, content)),
    ensures
        read_spec(store, address) == Ok::<ObjectView, RitError>(
            ObjectView { object_type, size: content.len(), content },
        ),
{
    lemma_decode_object_of_bytes(object_type, content);
}

} // verus!
