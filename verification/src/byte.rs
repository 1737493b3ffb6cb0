//! Little-endian integers and byte runs at fixed offsets of a buffer.

use vstd::prelude::*;

verus! {

/// The unsigned 16-bit integer stored at `off`, least significant byte first.
pub open spec fn u16_at(buf: Seq<u8>, off: int) -> u16 {
    (buf[off] + 256 * buf[off + 1]) as u16
}

/// The unsigned 32-bit integer stored at `off`, least significant byte first.
pub open spec fn u32_at(buf: Seq<u8>, off: int) -> u32 {
    (buf[off] + 256 * buf[off + 1] + 65536 * buf[off + 2] + 16777216 * buf[off + 3]) as u32
}

/// `buf` with the bytes of `src` in place of those that start at `off`.
pub open spec fn overwrite(buf: Seq<u8>, off: int, src: Seq<u8>) -> Seq<u8> {
    Seq::new(
        buf.len(),
        |i: int|
            if off <= i < off + src.len() {
                src[i - off]
            } else {
                buf[i]
            },
    )
}

/// The two bytes of `v`, least significant first.
pub open spec fn u16_bytes(v: u16) -> Seq<u8> {
    seq![(v % 256) as u8, (v / 256) as u8]
}

/// The four bytes of `v`, least significant first.
pub open spec fn u32_bytes(v: u32) -> Seq<u8> {
    seq![
        (v % 256) as u8,
        (v / 256 % 256) as u8,
        (v / 65536 % 256) as u8,
        (v / 16777216) as u8,
    ]
}

/// Reads the integer stored in the two bytes at `off`.
pub fn read_u16(buf: &[u8], off: usize) -> (v: u16)
    requires
        off + 2 <= buf@.len(),
    ensures
        v == u16_at(buf@, off as int),
{
    buf[off] as u16 + 256 * (buf[off + 1] as u16)
}

/// Reads the integer stored in the four bytes at `off`.
pub fn read_u32(buf: &[u8], off: usize) -> (v: u32)
    requires
        off + 4 <= buf@.len(),
    ensures
        v == u32_at(buf@, off as int),
{
    buf[off] as u32 + 256 * (buf[off + 1] as u32) + 65536 * (buf[off + 2] as u32) + 16777216 * (
    buf[off + 3] as u32)
}

/// Stores `v` in the two bytes at `off`.
pub fn write_u16(buf: &mut [u8], off: usize, v: u16)
    requires
        off + 2 <= old(buf)@.len(),
    ensures
        final(buf)@ == overwrite(old(buf)@, off as int, u16_bytes(v)),
        u16_at(final(buf)@, off as int) == v,
{
    buf[off] = (v % 256) as u8;
    buf[off + 1] = (v / 256) as u8;
    assert(buf@ =~= overwrite(old(buf)@, off as int, u16_bytes(v)));
}

/// Stores `v` in the four bytes at `off`.
pub fn write_u32(buf: &mut [u8], off: usize, v: u32)
    requires
        off + 4 <= old(buf)@.len(),
    ensures
        final(buf)@ == overwrite(old(buf)@, off as int, u32_bytes(v)),
        u32_at(final(buf)@, off as int) == v,
{
    buf[off] = (v % 256) as u8;
    buf[off + 1] = (v / 256 % 256) as u8;
    buf[off + 2] = (v / 65536 % 256) as u8;
    buf[off + 3] = (v / 16777216) as u8;
    assert(buf@ =~= overwrite(old(buf)@, off as int, u32_bytes(v)));
}

/// Copies `src` over the bytes that start at `off`.
pub fn write_bytes(buf: &mut [u8], off: usize, src: &[u8])
    requires
        off + src@.len() <= old(buf)@.len(),
    ensures
        final(buf)@ == overwrite(old(buf)@, off as int, src@),
        final(buf)@.subrange(off as int, off + src@.len()) == src@,
{
    let total: usize = buf.len();
    let mut i: usize = 0;
    while i < src.len()
        invariant
            i <= src@.len(),
            off + src@.len() <= total,
            buf@.len() == total,
            old(buf)@.len() == total,
            buf@ == overwrite(old(buf)@, off as int, src@.take(i as int)),
        decreases src@.len() - i,
    {
        buf[off + i] = src[i];
        i += 1;
        assert(buf@ =~= overwrite(old(buf)@, off as int, src@.take(i as int)));
    }
    assert(src@.take(src@.len() as int) =~= src@);
    assert(buf@.subrange(off as int, off + src@.len()) =~= src@);
}

/// Integers are stored with their least significant byte first, and are read back from the bytes
/// that hold them.
pub proof fn law_little_endian(b: Seq<u8>, off: int, v: u16, w: u32)
    ensures
        u16_at(b, off) == b[off] + 256 * b[off + 1],
        u32_at(b, off) == b[off] + 256 * b[off + 1] + 65536 * b[off + 2] + 16777216 * b[off + 3],
        u16_bytes(v).len() == 2,
        u16_bytes(v)[0] + 256 * u16_bytes(v)[1] == v,
        u32_bytes(w).len() == 4,
        u32_bytes(w)[0] + 256 * u32_bytes(w)[1] + 65536 * u32_bytes(w)[2] + 16777216
            * u32_bytes(w)[3] == w,
{
}

/// Bytes written over a buffer stand where they were written, and all others stay.
pub proof fn law_overwrite(b: Seq<u8>, off: int, src: Seq<u8>)
    requires
        0 <= off,
        off + src.len() <= b.len(),
    ensures
        overwrite(b, off, src) == b.take(off) + src + b.skip(off + src.len()),
{
    assert(overwrite(b, off, src) =~= b.take(off) + src + b.skip(off + src.len()));
}

} // verus!
