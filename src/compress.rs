//! Deciding from a payload's own bytes whether it is a zlib stream, and
//! producing the bytes to write for it.
use crate::error::DatError;
use std::io::Read;
use vstd::prelude::*;

verus! {

/// First byte of the zlib stream header that archived payloads carry.
pub const ZLIB_FIRST_MAGIC_BYTE: u8 = 0x78;

/// Second byte of that header.
pub const ZLIB_SECOND_MAGIC_BYTE: u8 = 0xDA;

/// `data` opens with the zlib magic bytes.
pub open spec fn has_zlib_magic(data: Seq<u8>) -> bool {
    data.len() >= 2 && data[0] == ZLIB_FIRST_MAGIC_BYTE && data[1] == ZLIB_SECOND_MAGIC_BYTE
}

/// Whether `data` is to be treated as a zlib stream: decided by its first two
/// bytes alone, never by the flag that the archive declares.
pub fn is_zlib_compressed(data: &[u8]) -> (r: bool)
    ensures
        r == has_zlib_magic(data@),
{
    data.len() >= 2 && data[0] == ZLIB_FIRST_MAGIC_BYTE && data[1] == ZLIB_SECOND_MAGIC_BYTE
}

/// The bytes that inflating the zlib stream `data` yields, or `None` when the
/// stream is corrupt or ends early.
pub uninterp spec fn zlib_inflated(data: Seq<u8>) -> Option<Seq<u8>>;

/// Relies on flate2's `read::ZlibDecoder`, read to its end: it inflates the
/// zlib stream held in `data`, and fails where the stream is corrupt or ends
/// early; the outcome depends on `data` alone.
#[verifier::external_body]
fn inflate(data: &[u8]) -> (r: Option<Vec<u8>>)
    ensures
        match r {
            Some(v) => zlib_inflated(data@) == Some(v@),
            None => zlib_inflated(data@) is None,
        },
{
    let mut out = Vec::new();
    match flate2::read::ZlibDecoder::new(data).read_to_end(&mut out) {
        Ok(_) => Some(out),
        Err(_) => None,
    }
}

/// The bytes to write for a payload: inflated when it opens with the zlib
/// magic, verbatim otherwise; `None` when its zlib stream is corrupt.
pub open spec fn materialized(payload: Seq<u8>) -> Option<Seq<u8>> {
    if has_zlib_magic(payload) {
        zlib_inflated(payload)
    } else {
        Some(payload)
    }
}

/// The content of an archived file, ready to be written.
pub enum Materialized<'a> {
    /// The payload itself, which holds no zlib stream.
    Verbatim(&'a [u8]),
    /// What the payload's zlib stream inflated to.
    Inflated(Vec<u8>),
}

impl<'a> View for Materialized<'a> {
    type V = Seq<u8>;

    open spec fn view(&self) -> Seq<u8> {
        match self {
            Materialized::Verbatim(b) => b@,
            Materialized::Inflated(v) => v@,
        }
    }
}

impl<'a> Materialized<'a> {
    /// The bytes of this content.
    pub fn as_bytes(&self) -> (r: &[u8])
        ensures
            r@ == self@,
    {
        match self {
            Materialized::Verbatim(b) => b,
            Materialized::Inflated(v) => v.as_slice(),
        }
    }
}

/// The content that an inflation outcome gives: the inflated bytes, or a
/// decompression failure when the stream could not be inflated.
pub fn inflated_content<'a>(inflated: Option<Vec<u8>>) -> (r: Result<Materialized<'a>, DatError>)
    ensures
        match inflated {
            Some(v) => r matches Ok(Materialized::Inflated(w)) && w@ == v@,
            None => r matches Err(DatError::DecompressionFailed),
        },
{
    match inflated {
        Some(v) => Ok(Materialized::Inflated(v)),
        None => Err(DatError::DecompressionFailed),
    }
}

/// The content of a payload: it is inflated whenever it opens with the zlib
/// magic, whatever the archive declares, and written verbatim otherwise,
/// which is never an error.
pub fn materialize(payload: &[u8]) -> (r: Result<Materialized<'_>, DatError>)
    ensures
        match materialized(payload@) {
            Some(b) => r matches Ok(m) && m@ == b,
            None => r matches Err(DatError::DecompressionFailed),
        },
        !has_zlib_magic(payload@) ==> (r matches Ok(Materialized::Verbatim(b)) && b@ == payload@),
{
    if is_zlib_compressed(payload) {
        inflated_content(inflate(payload))
    } else {
        Ok(Materialized::Verbatim(payload))
    }
}

} // verus!
