//! Little-endian integer fields of the archive format.
use byteorder::ByteOrder;
use vstd::prelude::*;

verus! {

/// The unsigned value of the four bytes of `b` at `at`, least significant first.
pub open spec fn le_u32_at(b: Seq<u8>, at: int) -> nat {
    (b[at] as nat) + 0x100 * (b[at + 1] as nat) + 0x1_0000 * (b[at + 2] as nat) + 0x100_0000 * (
    b[at + 3] as nat)
}

/// Relies on byteorder's `LittleEndian::read_u32`: it decodes the first four
/// bytes of `b` with `u32::from_le_bytes` and panics only when fewer are given.
#[verifier::external_body]
fn read_u32_le(b: &[u8]) -> (r: u32)
    requires
        b@.len() >= 4,
    ensures
        r as nat == le_u32_at(b@, 0),
{
    byteorder::LittleEndian::read_u32(b)
}

/// The four-byte little-endian field of `data` that starts at `at`.
pub fn field_u32(data: &[u8], at: usize) -> (r: u32)
    requires
        at + 4 <= data@.len(),
    ensures
        r as nat == le_u32_at(data@, at as int),
{
    assert(data@.len() == data.len());
    let field = &data[at..at + 4];
    read_u32_le(field)
}

} // verus!
