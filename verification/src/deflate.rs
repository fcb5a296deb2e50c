//! The compression that objects are stored under.

use crate::bytes::bytes_eq;
use crate::error::{bytes_result, RitError};
use std::io::{Read, Write};
use vstd::prelude::*;

verus! {

/// The zlib stream that compressing `data` at the default level gives, or
/// `None` where the compressor reports a failure.
pub uninterp spec fn zlib_compressed(data: Seq<u8>) -> Option<Seq<u8>>;

/// The bytes that inflating the zlib stream `data` gives, or `None` where
/// `data` is not a complete zlib stream.
pub uninterp spec fn zlib_inflated(data: Seq<u8>) -> Option<Seq<u8>>;

/// `flate2::write::ZlibEncoder` at `Compression::default()`, fed `head` and
/// then `body`. Trusted: the outcome depends on the bytes alone.
#[verifier::external_body]
fn zlib_encode(head: &[u8], body: &[u8]) -> (out: Option<Vec<u8>>)
    ensures
        match out {
            Some(z) => zlib_compressed(head@ + body@) == Some(z@),
            None => zlib_compressed(head@ + body@) is None,
        },
{
    let mut encoder = flate2::write::ZlibEncoder::new(Vec::new(), flate2::Compression::default());
    encoder.write_all(head).ok()?;
    encoder.write_all(body).ok()?;
    encoder.finish().ok()
}

/// `flate2::read::ZlibDecoder`, read to its end. Trusted: the outcome
/// depends on the bytes alone.
#[verifier::external_body]
fn zlib_decode(data: &[u8]) -> (out: Option<Vec<u8>>)
    ensures
        match out {
            Some(d) => zlib_inflated(data@) == Some(d@),
            None => zlib_inflated(data@) is None,
        },
{
    let mut decoder = flate2::read::ZlibDecoder::new(data);
    let mut out = Vec::new();
    match decoder.read_to_end(&mut out) {
        Ok(_) => Some(out),
        Err(_) => None,
    }
}

/// The stream that `data` is stored as: what the compressor makes of it,
/// if that inflates to `data` again.
pub open spec fn packed(data: Seq<u8>) -> Option<Seq<u8>> {
    match zlib_compressed(data) {
        Some(z) => if zlib_inflated(z) == Some(data) {
            Some(z)
        } else {
            None
        },
        None => None,
    }
}

/// What `compress` returns, given the stream that the bytes are stored as.
pub open spec fn compress_result(made: Option<Seq<u8>>) -> Result<Seq<u8>, RitError> {
    match made {
        Some(z) => Ok(z),
        None => Err(RitError::Io),
    }
}

/// What `inflate` returns, given what the decompressor made of the bytes.
pub open spec fn inflate_result(made: Option<Seq<u8>>) -> Result<Seq<u8>, RitError> {
    match made {
        Some(d) => Ok(d),
        None => Err(RitError::Corrupt),
    }
}

/// Compresses `head` followed by `body`, and makes sure that the stream
/// inflates to them again; `Io` where the compressor fails or the stream
/// does not.
pub fn compress(head: &[u8], body: &[u8]) -> (res: Result<Vec<u8>, RitError>)
    ensures
        bytes_result(res) == compress_result(packed(head@ + body@)),
        res matches Ok(z) ==> zlib_inflated(z@) == Some(head@ + body@),
{
    let z = match zlib_encode(head, body) {
        Some(z) => z,
        None => {
            return Err(RitError::Io);
        },
    };
    let back = match zlib_decode(z.as_slice()) {
        Some(b) => b,
        None => {
            return Err(RitError::Io);
        },
    };
    if back.len() < head.len() || back.len() - head.len() != body.len() {
        assert(back@ != head@ + body@);
        return Err(RitError::Io);
    }
    let front = &back.as_slice()[0..head.len()];
    let rest = &back.as_slice()[head.len()..back.len()];
    if bytes_eq(front, head) && bytes_eq(rest, body) {
        assert(back@ =~= head@ + body@);
        Ok(z)
    } else {
        proof {
            if back@ == head@ + body@ {
                assert(front@ =~= head@);
                assert(rest@ =~= body@);
            }
        }
        Err(RitError::Io)
    }
}

/// Inflates a stored stream; `Corrupt` where it is not a zlib stream.
pub fn inflate(data: &[u8]) -> (res: Result<Vec<u8>, RitError>)
    ensures
        bytes_result(res) == inflate_result(zlib_inflated(data@)),
{
    match zlib_decode(data) {
        Some(d) => Ok(d),
        None => Err(RitError::Corrupt),
    }
}

} // verus!
