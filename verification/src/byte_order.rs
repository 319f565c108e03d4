//! Little-endian reads and writes of `u64`s in byte buffers, done with the
//! `byteorder` crate.

use vstd::prelude::*;
use vstd::bytes::{spec_u64_to_le_bytes, spec_u64_from_le_bytes};
use byteorder::{ByteOrder, LittleEndian};

verus! {

/// Writes `n` into the first eight bytes of `buf` with
/// `<LittleEndian as ByteOrder>::write_u64`.
///
/// Claims what the `byteorder` source shows: the first eight bytes become
/// `n.to_le_bytes()` and the rest of the buffer is left alone. The call
/// panics on a shorter buffer, which `requires` rules out.
#[verifier::external_body]
pub(crate) fn le_write_u64(buf: &mut Vec<u8>, n: u64)
    requires
        old(buf)@.len() >= 8,
    ensures
        final(buf)@ == spec_u64_to_le_bytes(n) + old(buf)@.subrange(8, old(buf)@.len() as int),
{
    <LittleEndian as ByteOrder>::write_u64(buf.as_mut_slice(), n)
}

/// Reads a `u64` from the first eight bytes of `buf` with
/// `<LittleEndian as ByteOrder>::read_u64`.
///
/// Claims what the `byteorder` source shows: the result is
/// `u64::from_le_bytes` of the first eight bytes. The call panics on a
/// shorter buffer, which `requires` rules out.
#[verifier::external_body]
pub(crate) fn le_read_u64(buf: &Vec<u8>) -> (r: u64)
    requires
        buf@.len() >= 8,
    ensures
        r == spec_u64_from_le_bytes(buf@.subrange(0, 8)),
{
    <LittleEndian as ByteOrder>::read_u64(buf.as_slice())
}

} // verus!
