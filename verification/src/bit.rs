//! Reading bits from a byte buffer, least significant bit first.
//!
//! A bit offset `k` names bit `k % 8` of byte `k / 8`, where bit 0 is the
//! least significant bit of the byte. Nothing here keeps a cursor: callers
//! carry the offset themselves.

use vstd::prelude::*;
use crate::error::DecodeError;
use vstd::arithmetic::power2::{pow2, lemma_pow2_unfold, lemma_pow2_pos, lemma2_to64};
use vstd::bits::{lemma_u8_shr_is_div, lemma_usize_shl_is_mul, lemma_usize_pow2_no_overflow};

verus! {

/// The bit of `buf` at bit offset `off`, as 0 or 1.
pub open spec fn bit_at(buf: Seq<u8>, off: int) -> nat {
    ((buf[off / 8] as nat) / pow2((off % 8) as nat)) % 2
}

/// The number whose binary digits are the `n` bits of `buf` from bit offset
/// `off` on, the first bit read being the lowest digit:
/// the sum over `i < n` of `bit_at(buf, off + i) * 2^i`.
pub open spec fn bits_value(buf: Seq<u8>, off: int, n: nat) -> nat
    decreases n,
{
    if n == 0 {
        0
    } else {
        bits_value(buf, off, (n - 1) as nat) + bit_at(buf, off + n - 1) * pow2((n - 1) as nat)
    }
}

/// Whether the `n` bits from bit offset `off` on all lie inside `buf`.
pub open spec fn bits_in_range(buf: Seq<u8>, off: int, n: nat) -> bool {
    0 <= off && off + n <= 8 * buf.len()
}

/// Whether every bit of `buf` has an offset that fits in `usize`.
pub open spec fn addressable(buf: Seq<u8>) -> bool {
    8 * buf.len() <= usize::MAX
}

/// A number made of `n` bits is below `2^n`.
pub proof fn lemma_bits_value_bound(buf: Seq<u8>, off: int, n: nat)
    ensures
        bits_value(buf, off, n) < pow2(n),
    decreases n,
{
    if n == 0 {
        lemma2_to64();
    } else {
        lemma_bits_value_bound(buf, off, (n - 1) as nat);
        lemma_pow2_unfold(n);
        let p = pow2((n - 1) as nat);
        let b = bit_at(buf, off + n - 1);
        assert(b * p <= p) by (nonlinear_arith)
            requires
                b <= 1,
        ;
    }
}

/// Reads the bit at `bit_offset`: bit `bit_offset % 8` of byte
/// `bit_offset / 8`.
pub fn read_one_bit(buffer: &[u8], bit_offset: usize) -> (bit: u8)
    requires
        bit_offset / 8 < buffer@.len(),
    ensures
        bit as nat == bit_at(buffer@, bit_offset as int),
        bit <= 1,
{
    let byte: usize = bit_offset >> 3;
    let bit: usize = bit_offset & 0b111;
    assert(bit_offset >> 3 == bit_offset / 8) by (bit_vector);
    assert(bit_offset & 0b111 == bit_offset % 8) by (bit_vector);
    let b: u8 = buffer[byte];
    let k: u8 = bit as u8;
    proof {
        lemma_u8_shr_is_div(b, k);
        let shifted: u8 = b >> k;
        assert(shifted & 1 == shifted % 2) by (bit_vector);
    }
    (b >> k) & 1
}

/// Reads `bits` bits from `bit_offset` on, least significant first: the first
/// bit read is bit 0 of the result, the second is bit 1, and so on.
pub fn read_bits(buffer: &[u8], bit_offset: usize, bits: u8) -> (value: usize)
    requires
        bits <= usize::BITS,
        bit_offset + bits <= usize::MAX,
        bits > 0 ==> bits_in_range(buffer@, bit_offset as int, bits as nat),
    ensures
        value as nat == bits_value(buffer@, bit_offset as int, bits as nat),
{
    let mut value: usize = 0;
    let mut i: u8 = 0;
    proof {
        lemma2_to64();
    }
    while i < bits
        invariant
            i <= bits,
            bits <= usize::BITS,
            bit_offset + bits <= usize::MAX,
            bits > 0 ==> bits_in_range(buffer@, bit_offset as int, bits as nat),
            value as nat == bits_value(buffer@, bit_offset as int, i as nat),
            value < pow2(i as nat),
        decreases bits - i,
    {
        assert(bit_offset + i < 8 * buffer@.len());
        let bit: usize = read_one_bit(buffer, bit_offset + i as usize) as usize;
        proof {
            let ghost p = pow2(i as nat);
            lemma_pow2_pos(i as nat);
            lemma_pow2_unfold((i + 1) as nat);
            lemma_usize_pow2_no_overflow(i as nat);
            assert(bit * p <= usize::MAX) by (nonlinear_arith)
                requires
                    bit <= 1,
                    p <= usize::MAX,
            ;
            lemma_usize_shl_is_mul(bit, i as usize);
            lemma_usize_shl_is_mul(1usize, i as usize);
            let one: usize = 1usize << (i as usize);
            let sh: usize = bit << (i as usize);
            assert(one == p);
            assert(sh == bit * p);
            assert(bit == 0 ==> sh == 0) by (nonlinear_arith)
                requires
                    sh == bit * p,
            ;
            assert(bit == 1 ==> sh == one) by (nonlinear_arith)
                requires
                    sh == bit * p,
                    one == p,
            ;
            let k: usize = i as usize;
            assert(value < (1usize << k) && k < usize::BITS ==> value | (1usize << k) == value + (
            1usize << k)) by (bit_vector);
            assert(value | 0usize == value) by (bit_vector);
        }
        value = value | (bit << i);
        i += 1;
    }
    value
}

/// Reads `bits` bits from `bit_offset` on as `read_bits` does, or fails with
/// `Corrupted` when they do not all lie inside the buffer.
pub fn try_read_bits(buffer: &[u8], bit_offset: usize, bits: u8) -> (r: Result<usize, DecodeError>)
    requires
        bits <= usize::BITS,
        addressable(buffer@),
    ensures
        bits_in_range(buffer@, bit_offset as int, bits as nat) ==> r == Ok::<usize, DecodeError>(
            bits_value(buffer@, bit_offset as int, bits as nat) as usize,
        ) && bits_value(buffer@, bit_offset as int, bits as nat) <= usize::MAX,
        !bits_in_range(buffer@, bit_offset as int, bits as nat) ==> r == Err::<usize, DecodeError>(
            DecodeError::Corrupted,
        ),
{
    let total: usize = buffer.len() * 8;
    if bit_offset > total || bits as usize > total - bit_offset {
        return Err(DecodeError::Corrupted);
    }
    Ok(read_bits(buffer, bit_offset, bits))
}

/// Whether every bit of `buffer` has an offset that fits in `usize`.
pub fn is_addressable(buffer: &[u8]) -> (ok: bool)
    ensures
        ok == addressable(buffer@),
{
    buffer.len() <= usize::MAX / 8
}

} // verus!
