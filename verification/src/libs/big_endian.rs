//! Big-endian integers on byte buffers, as the wire format of the server
//! writes them. The byte order itself comes from the `byteorder` crate;
//! these are the few calls the library makes into it.
use byteorder::{BigEndian, ByteOrder, WriteBytesExt};
use vstd::prelude::*;

verus! {

/// The two bytes of `n`, most significant first.
pub open spec fn be16_bytes(n: int) -> Seq<u8> {
    seq![(n / 256) as u8, (n % 256) as u8]
}

/// The four bytes of `n`, most significant first.
pub open spec fn be32_bytes(n: int) -> Seq<u8> {
    seq![(n / 16777216) as u8, ((n / 65536) % 256) as u8, ((n / 256) % 256) as u8, (n % 256) as u8]
}

/// The number that the two bytes of `s` at `pos` spell, most significant first.
pub open spec fn be16_at(s: Seq<u8>, pos: int) -> int {
    s[pos] * 256 + s[pos + 1]
}

/// The number that the four bytes of `s` at `pos` spell, most significant
/// first.
pub open spec fn be32_at(s: Seq<u8>, pos: int) -> int {
    be16_at(s, pos) * 65536 + be16_at(s, pos + 2)
}

/// The number that the eight bytes of `s` at `pos` spell, most significant
/// first.
pub open spec fn be64_at(s: Seq<u8>, pos: int) -> int {
    be32_at(s, pos) * 4294967296 + be32_at(s, pos + 4)
}

/// `BigEndian::read_u16` of `byteorder`, on the bytes of `buf` from `pos`
/// on: the two bytes at `pos` read as one number, most significant byte
/// first. The crate panics on fewer than two bytes, which `requires` rules
/// out.
#[verifier::external_body]
pub(crate) fn read_u16_be(buf: &[u8], pos: usize) -> (r: u16)
    requires
        pos + 2 <= buf@.len(),
    ensures
        r == be16_at(buf@, pos as int),
{
    BigEndian::read_u16(&buf[pos..])
}

/// `BigEndian::read_u32` of `byteorder`, on the bytes of `buf` from `pos`
/// on: the four bytes at `pos` read as one number, most significant byte
/// first. The crate panics on fewer than four bytes, which `requires` rules
/// out.
#[verifier::external_body]
pub(crate) fn read_u32_be(buf: &[u8], pos: usize) -> (r: u32)
    requires
        pos + 4 <= buf@.len(),
    ensures
        r == be32_at(buf@, pos as int),
{
    BigEndian::read_u32(&buf[pos..])
}

/// `BigEndian::read_u64` of `byteorder`, on the bytes of `buf` from `pos`
/// on: the eight bytes at `pos` read as one number, most significant byte
/// first. The crate panics on fewer than eight bytes, which `requires` rules
/// out.
#[verifier::external_body]
pub(crate) fn read_u64_be(buf: &[u8], pos: usize) -> (r: u64)
    requires
        pos + 8 <= buf@.len(),
    ensures
        r == be64_at(buf@, pos as int),
{
    BigEndian::read_u64(&buf[pos..])
}

/// `WriteBytesExt::write_u16::<BigEndian>` of `byteorder` on a `Vec<u8>`:
/// appends the two bytes of `n`, most significant first. Writing into a
/// vector does not fail, so the returned `io::Result` is dropped.
#[verifier::external_body]
pub(crate) fn push_u16_be(out: &mut Vec<u8>, n: u16)
    ensures
        final(out)@ == old(out)@ + be16_bytes(n as int),
{
    let _ = out.write_u16::<BigEndian>(n);
}

/// `WriteBytesExt::write_u32::<BigEndian>` of `byteorder` on a `Vec<u8>`:
/// appends the four bytes of `n`, most significant first. Writing into a
/// vector does not fail, so the returned `io::Result` is dropped.
#[verifier::external_body]
pub(crate) fn push_u32_be(out: &mut Vec<u8>, n: u32)
    ensures
        final(out)@ == old(out)@ + be32_bytes(n as int),
{
    let _ = out.write_u32::<BigEndian>(n);
}

} // verus!
