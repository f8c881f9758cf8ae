//! Fixed-width integers in byte buffers, little and big endian.

use vstd::prelude::*;

verus! {

/// The byte of `b` at `i`, or 0 where `b` has no such byte.
pub open spec fn byte_or_zero(b: Seq<u8>, i: int) -> nat {
    if 0 <= i < b.len() {
        b[i] as nat
    } else {
        0
    }
}

/// The 16-bit number whose low byte is at `off` and whose high byte follows;
/// a byte past the end of `b` counts as 0.
pub open spec fn le16_at(b: Seq<u8>, off: int) -> nat {
    byte_or_zero(b, off) + 0x100 * byte_or_zero(b, off + 1)
}

/// The 32-bit number whose four bytes start at `off`, lowest first; a byte
/// past the end of `b` counts as 0.
pub open spec fn le32_at(b: Seq<u8>, off: int) -> nat {
    byte_or_zero(b, off) + 0x100 * byte_or_zero(b, off + 1) + 0x1_0000 * byte_or_zero(b, off + 2)
        + 0x100_0000 * byte_or_zero(b, off + 3)
}

/// The 32-bit number whose four bytes start at `off`, highest first; a byte
/// past the end of `b` counts as 0.
pub open spec fn be32_at(b: Seq<u8>, off: int) -> nat {
    0x100_0000 * byte_or_zero(b, off) + 0x1_0000 * byte_or_zero(b, off + 1) + 0x100
        * byte_or_zero(b, off + 2) + byte_or_zero(b, off + 3)
}

/// The two bytes of `v`, low byte first.
pub open spec fn le16(v: nat) -> Seq<u8> {
    seq![(v % 0x100) as u8, ((v / 0x100) % 0x100) as u8]
}

/// The four bytes of `v`, lowest first.
pub open spec fn le32(v: nat) -> Seq<u8> {
    seq![
        (v % 0x100) as u8,
        ((v / 0x100) % 0x100) as u8,
        ((v / 0x1_0000) % 0x100) as u8,
        ((v / 0x100_0000) % 0x100) as u8,
    ]
}

/// The byte at `off`, or 0 past the end.
pub fn get_or_zero(b: &[u8], off: usize) -> (r: u8)
    ensures
        r as nat == byte_or_zero(b@, off as int),
{
    if off < b.len() {
        b[off]
    } else {
        0
    }
}

/// Reads a little-endian `u16` at `off`; bytes past the end read as 0.
pub fn read_le16(b: &[u8], off: usize) -> (r: u16)
    requires
        off + 2 <= usize::MAX,
    ensures
        r as nat == le16_at(b@, off as int),
{
    get_or_zero(b, off) as u16 + 0x100 * (get_or_zero(b, off + 1) as u16)
}

/// Reads a little-endian `u32` at `off`; bytes past the end read as 0.
pub fn read_le32(b: &[u8], off: usize) -> (r: u32)
    requires
        off + 4 <= usize::MAX,
    ensures
        r as nat == le32_at(b@, off as int),
{
    get_or_zero(b, off) as u32 + 0x100 * (get_or_zero(b, off + 1) as u32) + 0x1_0000 * (
    get_or_zero(b, off + 2) as u32) + 0x100_0000 * (get_or_zero(b, off + 3) as u32)
}

/// Reads a big-endian `u32` at `off`; bytes past the end read as 0.
pub fn read_be32(b: &[u8], off: usize) -> (r: u32)
    requires
        off + 4 <= usize::MAX,
    ensures
        r as nat == be32_at(b@, off as int),
{
    0x100_0000 * (get_or_zero(b, off) as u32) + 0x1_0000 * (get_or_zero(b, off + 1) as u32)
        + 0x100 * (get_or_zero(b, off + 2) as u32) + get_or_zero(b, off + 3) as u32
}

/// Appends the two bytes of `v`, low byte first.
pub fn push_le16(out: &mut Vec<u8>, v: u16)
    ensures
        final(out)@ == old(out)@ + le16(v as nat),
{
    out.push((v % 0x100) as u8);
    out.push((v / 0x100) as u8);
    assert(out@ =~= old(out)@ + le16(v as nat));
}

/// Appends the four bytes of `v`, lowest first.
pub fn push_le32(out: &mut Vec<u8>, v: u32)
    ensures
        final(out)@ == old(out)@ + le32(v as nat),
{
    out.push((v % 0x100) as u8);
    out.push(((v / 0x100) % 0x100) as u8);
    out.push(((v / 0x1_0000) % 0x100) as u8);
    out.push((v / 0x100_0000) as u8);
    assert(out@ =~= old(out)@ + le32(v as nat));
}

/// Appends every byte of `bytes`.
pub fn push_all(out: &mut Vec<u8>, bytes: &[u8])
    ensures
        final(out)@ == old(out)@ + bytes@,
{
    let mut i: usize = 0;
    while i < bytes.len()
        invariant
            i <= bytes@.len(),
            out@ == old(out)@ + bytes@.subrange(0, i as int),
        decreases bytes@.len() - i,
    {
        out.push(bytes[i]);
        i += 1;
        assert(out@ =~= old(out)@ + bytes@.subrange(0, i as int));
    }
    assert(bytes@.subrange(0, bytes@.len() as int) =~= bytes@);
}

/// The bytes of `file` from `from` up to `to`.
pub fn copy_range(file: &[u8], from: usize, to: usize) -> (v: Vec<u8>)
    requires
        from <= to <= file@.len(),
    ensures
        v@ == file@.subrange(from as int, to as int),
{
    let mut v: Vec<u8> = Vec::new();
    let mut i: usize = from;
    while i < to
        invariant
            from <= i <= to <= file@.len(),
            v@ == file@.subrange(from as int, i as int),
        decreases to - i,
    {
        v.push(file[i]);
        i += 1;
        assert(v@ =~= file@.subrange(from as int, i as int));
    }
    v
}

/// `Vec::into_boxed_slice`: the box holds the elements of the vector, in
/// the same order.
#[verifier::external_body]
pub(crate) fn into_boxed(v: Vec<u8>) -> (b: Box<[u8]>)
    ensures
        b@ == v@,
{
    v.into_boxed_slice()
}

} // verus!
