use vstd::prelude::*;

use byteorder::{LittleEndian, WriteBytesExt};

verus! {

/// The four bytes of `n`, least significant first.
pub open spec fn u32_le_bytes(n: u32) -> Seq<u8> {
    seq![(n & 0xff) as u8, ((n >> 8) & 0xff) as u8, ((n >> 16) & 0xff) as u8, ((n >> 24) & 0xff) as u8]
}

/// Appends `n` to `buf` in little-endian byte order.
/// Calls `byteorder::WriteBytesExt::write_u32::<LittleEndian>`, which writes
/// `n.to_le_bytes()` with `write_all`; writing into a `Vec<u8>` never fails and
/// appends the bytes.
#[verifier::external_body]
pub(crate) fn write_u32_le(buf: &mut Vec<u8>, n: u32)
    ensures
        final(buf)@ == old(buf)@ + u32_le_bytes(n),
{
    let _ = buf.write_u32::<LittleEndian>(n);
}

/// Appends `n` to `buf` in little-endian two's complement byte order.
/// Calls `byteorder::WriteBytesExt::write_i32::<LittleEndian>`, which writes
/// the bytes of `n as u32` as `write_u32` does.
#[verifier::external_body]
pub(crate) fn write_i32_le(buf: &mut Vec<u8>, n: i32)
    ensures
        final(buf)@ == old(buf)@ + u32_le_bytes(n as u32),
{
    let _ = buf.write_i32::<LittleEndian>(n);
}

} // verus!
