//! The DEFLATE decompressor: a loop over blocks, each stored verbatim or
//! coded with Huffman codes and back-references into the output so far.

use vstd::prelude::*;
use crate::bit::{
    bit_at, bits_value, bits_in_range, addressable, read_one_bit, try_read_bits,
    lemma_bits_value_bound,
};
use crate::error::DecodeError;
use crate::huffman_table::{
    Codebook, HuffmanTable, canonical_book, decode_symbol, lemma_decode_from_bounds,
};

verus! {

/// The smallest match length of each length symbol, from symbol 257 on.
pub open spec fn length_bases() -> Seq<u16> {
    seq![
        3u16, 4, 5, 6, 7, 8, 9, 10, 11, 13, 15, 17, 19, 23, 27, 31, 35, 43, 51, 59, 67, 83, 99,
        115, 131, 163, 195, 227, 258,
    ]
}

/// How many extra bits follow each length symbol, from symbol 257 on.
pub open spec fn length_extra_bits() -> Seq<u8> {
    seq![
        0u8, 0, 0, 0, 0, 0, 0, 0, 1, 1, 1, 1, 2, 2, 2, 2, 3, 3, 3, 3, 4, 4, 4, 4, 5, 5, 5, 5, 0,
    ]
}

/// The smallest distance of each distance symbol.
pub open spec fn distance_bases() -> Seq<u16> {
    seq![
        1u16, 2, 3, 4, 5, 7, 9, 13, 17, 25, 33, 49, 65, 97, 129, 193, 257, 385, 513, 769, 1025,
        1537, 2049, 3073, 4097, 6145, 8193, 12289, 16385, 24577,
    ]
}

/// How many extra bits follow each distance symbol.
pub open spec fn distance_extra_bits() -> Seq<u8> {
    seq![
        0u8, 0, 0, 0, 1, 1, 2, 2, 3, 3, 4, 4, 5, 5, 6, 6, 7, 7, 8, 8, 9, 9, 10, 10, 11, 11, 12,
        12, 13, 13,
    ]
}

/// The order in which a dynamic block lists the lengths of its code length
/// codes.
pub open spec fn code_length_order() -> Seq<u8> {
    seq![16u8, 17, 18, 0, 8, 7, 9, 6, 10, 5, 11, 4, 12, 3, 13, 2, 14, 1, 15]
}

/// The code lengths of the fixed literal/length alphabet.
pub open spec fn fixed_literal_lengths() -> Seq<u8> {
    Seq::new(
        288,
        |s: int|
            if s <= 143 {
                8u8
            } else if s <= 255 {
                9u8
            } else if s <= 279 {
                7u8
            } else {
                8u8
            },
    )
}

/// The code lengths of the fixed distance alphabet: 30 codes of 5 bits.
pub open spec fn fixed_distance_lengths() -> Seq<u8> {
    Seq::new(30, |s: int| 5u8)
}

/// The output after `length` bytes are copied, one at a time, from `distance`
/// bytes before its end to its end; a byte just written may be read again.
pub open spec fn copy_back(out: Seq<u8>, distance: nat, length: nat) -> Seq<u8>
    decreases length,
{
    if length == 0 || distance == 0 || distance > out.len() {
        out
    } else {
        copy_back(out.push(out[out.len() - distance]), distance, (length - 1) as nat)
    }
}

/// A stored block whose header ended at bit offset `off`: the output with the
/// block's bytes appended, and the offset behind the block. The length field
/// starts at the next byte boundary; the two bytes after it are skipped.
pub open spec fn stored_block(buf: Seq<u8>, off: int, out: Seq<u8>) -> Option<(Seq<u8>, int)> {
    let start = (off + 7) / 8;
    if off < 0 || start + 4 > buf.len() {
        None
    } else {
        let len = buf[start] as int + 256 * (buf[start + 1] as int);
        if start + 4 + len > buf.len() {
            None
        } else {
            Some((out + buf.subrange(start + 4, start + 4 + len), 8 * (start + 4 + len)))
        }
    }
}

/// The match that the length symbol `symbol` opens at bit offset `off`, just
/// behind the symbol's code: its length, its distance and the offset behind
/// it. `None` when a symbol is outside its alphabet, no distance code
/// matches or the buffer ends.
pub open spec fn back_reference(dist: Codebook, buf: Seq<u8>, off: int, symbol: u16) -> Option<
    (nat, nat, int),
> {
    if symbol < 257 || symbol > 285 {
        None
    } else {
        let extra = length_extra_bits()[symbol - 257] as nat;
        if !bits_in_range(buf, off, extra) {
            None
        } else {
            let length = length_bases()[symbol - 257] as nat + bits_value(buf, off, extra);
            match decode_symbol(dist, buf, off + extra) {
                None => None,
                Some((d, n)) => {
                    if d >= 30 {
                        None
                    } else {
                        let off2 = off + extra + n;
                        let dextra = distance_extra_bits()[d as int] as nat;
                        if !bits_in_range(buf, off2, dextra) {
                            None
                        } else {
                            Some(
                                (
                                    length,
                                    distance_bases()[d as int] as nat + bits_value(
                                        buf,
                                        off2,
                                        dextra,
                                    ),
                                    off2 + dextra,
                                ),
                            )
                        }
                    }
                },
            }
        }
    }
}

/// The coded data of a block from bit offset `off` on: literals are
/// appended, a match copies from the output so far, symbol 256 ends the
/// block. Gives the output and the offset behind the end symbol; `None` when
/// a code has no symbol, a match reaches before the start of the output or
/// the buffer ends before the end symbol.
pub open spec fn coded_data(
    lit: Codebook,
    dist: Codebook,
    buf: Seq<u8>,
    off: int,
    out: Seq<u8>,
) -> Option<(Seq<u8>, int)>
    decreases 8 * buf.len() - off,
{
    match decode_symbol(lit, buf, off) {
        None => None,
        Some((symbol, n)) => {
            proof {
                lemma_decode_from_bounds(lit, buf, off, 1);
            }
            if symbol < 256 {
                coded_data(lit, dist, buf, off + n, out.push(symbol as u8))
            } else if symbol == 256 {
                Some((out, off + n))
            } else {
                match back_reference(dist, buf, off + n, symbol) {
                    None => None,
                    Some((length, distance, off2)) => {
                        proof {
                            lemma_back_reference_bounds(dist, buf, off + n, symbol);
                        }
                        if distance > out.len() {
                            None
                        } else {
                            coded_data(lit, dist, buf, off2, copy_back(out, distance, length))
                        }
                    },
                }
            }
        },
    }
}

/// A match ends inside the buffer, no earlier than it starts, and is between
/// 3 and 258 bytes long, from 1 to 32768 bytes back.
pub proof fn lemma_back_reference_bounds(dist: Codebook, buf: Seq<u8>, off: int, symbol: u16)
    ensures
        back_reference(dist, buf, off, symbol) matches Some((length, distance, off2)) ==> off
            <= off2 <= 8 * buf.len() && 3 <= length <= 289 && 1 <= distance <= 32768,
{
    if 257 <= symbol <= 285 {
        let extra = length_extra_bits()[symbol - 257] as nat;
        if bits_in_range(buf, off, extra) {
            lemma_decode_from_bounds(dist, buf, off + extra, 1);
            lemma_bits_value_bound(buf, off, extra);
            vstd::arithmetic::power2::lemma2_to64();
            match decode_symbol(dist, buf, off + extra) {
                None => {},
                Some((d, n)) => {
                    if d < 30 {
                        let dextra = distance_extra_bits()[d as int] as nat;
                        lemma_bits_value_bound(buf, off + extra + n, dextra);
                    }
                },
            }
        }
    }
}

/// The smallest match length of the length symbol `257 + i`.
fn length_base(i: usize) -> (r: usize)
    requires
        i < 29,
    ensures
        r == length_bases()[i as int],
{
    let table: [u16; 29] = [
        3, 4, 5, 6, 7, 8, 9, 10, 11, 13, 15, 17, 19, 23, 27, 31, 35, 43, 51, 59, 67, 83, 99, 115,
        131, 163, 195, 227, 258,
    ];
    table[i] as usize
}

/// How many extra bits follow the length symbol `257 + i`.
fn length_extra(i: usize) -> (r: u8)
    requires
        i < 29,
    ensures
        r == length_extra_bits()[i as int],
        r <= 5,
{
    let table: [u8; 29] = [
        0, 0, 0, 0, 0, 0, 0, 0, 1, 1, 1, 1, 2, 2, 2, 2, 3, 3, 3, 3, 4, 4, 4, 4, 5, 5, 5, 5, 0,
    ];
    table[i]
}

/// The smallest distance of the distance symbol `i`.
fn distance_base(i: usize) -> (r: usize)
    requires
        i < 30,
    ensures
        r == distance_bases()[i as int],
{
    let table: [u16; 30] = [
        1, 2, 3, 4, 5, 7, 9, 13, 17, 25, 33, 49, 65, 97, 129, 193, 257, 385, 513, 769, 1025, 1537,
        2049, 3073, 4097, 6145, 8193, 12289, 16385, 24577,
    ];
    table[i] as usize
}

/// How many extra bits follow the distance symbol `i`.
fn distance_extra(i: usize) -> (r: u8)
    requires
        i < 30,
    ensures
        r == distance_extra_bits()[i as int],
        r <= 13,
{
    let table: [u8; 30] = [
        0, 0, 0, 0, 1, 1, 2, 2, 3, 3, 4, 4, 5, 5, 6, 6, 7, 7, 8, 8, 9, 9, 10, 10, 11, 11, 12, 12,
        13, 13,
    ];
    table[i]
}

/// Copies a stored block to the output. `bit_offset` is the offset just
/// behind the block header; the result is the offset behind the block.
/// On failure the output is left as it was.
pub fn inflate_uncompressed_block(
    compressed: &[u8],
    inflated: &mut Vec<u8>,
    bit_offset: usize,
) -> (r: Result<usize, DecodeError>)
    requires
        addressable(compressed@),
    ensures
        match stored_block(compressed@, bit_offset as int, old(inflated)@) {
            Some((out, off)) => r == Ok::<usize, DecodeError>(off as usize) && final(inflated)@
                == out && off <= 8 * compressed@.len(),
            None => r == Err::<usize, DecodeError>(DecodeError::Corrupted) && final(inflated)@
                == old(inflated)@,
        },
{
    let n: usize = compressed.len();
    let start: usize = bit_offset / 8 + if bit_offset % 8 == 0 {
        0
    } else {
        1
    };
    if start > n || n - start < 4 {
        return Err(DecodeError::Corrupted);
    }
    let length: usize = compressed[start] as usize + 256 * (compressed[start + 1] as usize);
    let from: usize = start + 4;
    if n - from < length {
        return Err(DecodeError::Corrupted);
    }
    let mut i: usize = 0;
    while i < length
        invariant
            i <= length,
            from + length <= n,
            n == compressed@.len(),
            inflated@ == old(inflated)@ + compressed@.subrange(from as int, from + i),
        decreases length - i,
    {
        inflated.push(compressed[from + i]);
        assert(compressed@.subrange(from as int, from + i + 1) == compressed@.subrange(
            from as int,
            from + i,
        ).push(compressed@[from + i]));
        i += 1;
    }
    Ok((from + length) * 8)
}

/// Reads the rest of a match whose length symbol `symbol` ended at
/// `bit_offset`: the extra length bits, the distance code and its extra bits.
/// Returns length, distance and the offset behind the match.
fn read_back_reference(
    dist: &HuffmanTable,
    compressed: &[u8],
    bit_offset: usize,
    symbol: u16,
) -> (r: Result<(usize, usize, usize), DecodeError>)
    requires
        addressable(compressed@),
    ensures
        match back_reference(dist@, compressed@, bit_offset as int, symbol) {
            Some((length, distance, off)) => r == Ok::<(usize, usize, usize), DecodeError>(
                (length as usize, distance as usize, off as usize),
            ) && off <= 8 * compressed@.len() && length <= 289 && 1 <= distance <= 32768,
            None => r == Err::<(usize, usize, usize), DecodeError>(DecodeError::Corrupted),
        },
{
    proof {
        lemma_back_reference_bounds(dist@, compressed@, bit_offset as int, symbol);
    }
    if symbol < 257 || symbol > 285 {
        return Err(DecodeError::Corrupted);
    }
    let index: usize = (symbol - 257) as usize;
    let extra: u8 = length_extra(index);
    let low: usize = match try_read_bits(compressed, bit_offset, extra) {
        Ok(v) => v,
        Err(_) => {
            return Err(DecodeError::Corrupted);
        },
    };
    proof {
        lemma_bits_value_bound(compressed@, bit_offset as int, extra as nat);
        vstd::arithmetic::power2::lemma2_to64();
    }
    let length: usize = length_base(index) + low;
    let off1: usize = bit_offset + extra as usize;
    let (d, off2) = match dist.decode(compressed, off1) {
        Ok(pair) => pair,
        Err(_) => {
            return Err(DecodeError::Corrupted);
        },
    };
    if d >= 30 {
        return Err(DecodeError::Corrupted);
    }
    let dextra: u8 = distance_extra(d as usize);
    let dlow: usize = match try_read_bits(compressed, off2, dextra) {
        Ok(v) => v,
        Err(_) => {
            return Err(DecodeError::Corrupted);
        },
    };
    proof {
        lemma_bits_value_bound(compressed@, off2 as int, dextra as nat);
    }
    let distance: usize = distance_base(d as usize) + dlow;
    Ok((length, distance, off2 + dextra as usize))
}

/// Appends `length` bytes to the output, each read `distance` bytes before
/// the end at the time it is written.
fn copy_match(inflated: &mut Vec<u8>, distance: usize, length: usize)
    requires
        1 <= distance <= old(inflated)@.len(),
    ensures
        final(inflated)@ == copy_back(old(inflated)@, distance as nat, length as nat),
        final(inflated)@.len() >= old(inflated)@.len(),
        final(inflated)@.subrange(0, old(inflated)@.len() as int) == old(inflated)@,
{
    let mut i: usize = 0;
    while i < length
        invariant
            i <= length,
            1 <= distance <= old(inflated)@.len() <= inflated@.len(),
            inflated@.subrange(0, old(inflated)@.len() as int) == old(inflated)@,
            copy_back(inflated@, distance as nat, (length - i) as nat) == copy_back(
                old(inflated)@,
                distance as nat,
                length as nat,
            ),
        decreases length - i,
    {
        let ghost before = inflated@;
        let byte: u8 = inflated[inflated.len() - distance];
        inflated.push(byte);
        assert(inflated@.subrange(0, old(inflated)@.len() as int) == before.subrange(
            0,
            old(inflated)@.len() as int,
        ));
        i += 1;
    }
}

/// Decodes the coded data of a block from `bit_offset` on with the two
/// tables: literals are appended to the output, matches are copied from it,
/// symbol 256 ends the block. Returns the offset behind the end symbol.
/// On failure the output is left as it was.
pub fn inflate_coded_data(
    lit: &HuffmanTable,
    dist: &HuffmanTable,
    compressed: &[u8],
    inflated: &mut Vec<u8>,
    bit_offset: usize,
) -> (r: Result<usize, DecodeError>)
    requires
        addressable(compressed@),
    ensures
        match coded_data(lit@, dist@, compressed@, bit_offset as int, old(inflated)@) {
            Some((out, off)) => r == Ok::<usize, DecodeError>(off as usize) && final(inflated)@
                == out && off <= 8 * compressed@.len(),
            None => r == Err::<usize, DecodeError>(DecodeError::Corrupted) && final(inflated)@
                == old(inflated)@,
        },
{
    let start_len: usize = inflated.len();
    let mut off: usize = bit_offset;
    loop
        invariant
            addressable(compressed@),
            start_len == old(inflated)@.len(),
            inflated@.len() >= start_len,
            inflated@.subrange(0, start_len as int) == old(inflated)@,
            coded_data(lit@, dist@, compressed@, off as int, inflated@) == coded_data(
                lit@,
                dist@,
                compressed@,
                bit_offset as int,
                old(inflated)@,
            ),
        decreases 8 * compressed@.len() - off,
    {
        proof {
            lemma_decode_from_bounds(lit@, compressed@, off as int, 1);
        }
        match lit.decode(compressed, off) {
            Err(_) => {
                inflated.truncate(start_len);
                return Err(DecodeError::Corrupted);
            },
            Ok((symbol, next)) => {
                if symbol < 256 {
                    let ghost before = inflated@;
                    inflated.push(symbol as u8);
                    assert(inflated@.subrange(0, start_len as int) == before.subrange(
                        0,
                        start_len as int,
                    ));
                    off = next;
                } else if symbol == 256 {
                    return Ok(next);
                } else {
                    match read_back_reference(dist, compressed, next, symbol) {
                        Err(_) => {
                            inflated.truncate(start_len);
                            return Err(DecodeError::Corrupted);
                        },
                        Ok((length, distance, next2)) => {
                            if distance > inflated.len() {
                                inflated.truncate(start_len);
                                return Err(DecodeError::Corrupted);
                            }
                            let ghost before = inflated@;
                            copy_match(inflated, distance, length);
                            assert(inflated@.subrange(0, start_len as int) == inflated@.subrange(
                                0,
                                before.len() as int,
                            ).subrange(0, start_len as int));
                            proof {
                                lemma_back_reference_bounds(
                                    dist@,
                                    compressed@,
                                    next as int,
                                    symbol,
                                );
                            }
                            off = next2;
                        },
                    }
                }
            },
        }
    }
}

/// A coded block ends inside the buffer, no earlier than it starts.
pub proof fn lemma_coded_data_bounds(
    lit: Codebook,
    dist: Codebook,
    buf: Seq<u8>,
    off: int,
    out: Seq<u8>,
)
    ensures
        coded_data(lit, dist, buf, off, out) matches Some((_, off2)) ==> off < off2 <= 8
            * buf.len(),
    decreases 8 * buf.len() - off,
{
    lemma_decode_from_bounds(lit, buf, off, 1);
    match decode_symbol(lit, buf, off) {
        None => {},
        Some((symbol, n)) => {
            if symbol < 256 {
                lemma_coded_data_bounds(lit, dist, buf, off + n, out.push(symbol as u8));
            } else if symbol == 256 {
            } else {
                lemma_back_reference_bounds(dist, buf, off + n, symbol);
                match back_reference(dist, buf, off + n, symbol) {
                    None => {},
                    Some((length, distance, off2)) => {
                        if distance <= out.len() {
                            lemma_coded_data_bounds(
                                lit,
                                dist,
                                buf,
                                off2,
                                copy_back(out, distance, length),
                            );
                        }
                    },
                }
            }
        },
    }
}

/// A block coded with the fixed tables, from bit offset `off` on.
pub open spec fn static_block(buf: Seq<u8>, off: int, out: Seq<u8>) -> Option<(Seq<u8>, int)> {
    coded_data(
        canonical_book(fixed_literal_lengths()),
        canonical_book(fixed_distance_lengths()),
        buf,
        off,
        out,
    )
}

/// The lengths of the 19 code length codes after the first `count` of them
/// are read, 3 bits each from bit offset `off` on, in the order of
/// `code_length_order`; the others are 0.
pub open spec fn meta_lengths(buf: Seq<u8>, off: int, count: nat) -> Seq<u8>
    decreases count,
{
    if count == 0 {
        Seq::new(19, |i: int| 0u8)
    } else {
        meta_lengths(buf, off, (count - 1) as nat).update(
            code_length_order()[count - 1] as int,
            bits_value(buf, off + 3 * (count - 1), 3) as u8,
        )
    }
}

/// `acc` followed by `count` times `value`.
pub open spec fn repeated(acc: Seq<u8>, value: u8, count: nat) -> Seq<u8> {
    acc + Seq::new(count, |i: int| value)
}

/// The code lengths that one code length symbol, whose code ended at `off`,
/// adds to `acc`: the new list, the length to remember and the offset behind
/// the symbol's extra bits. Symbols 0 to 15 are a length, which is also
/// remembered; 16 repeats the remembered length 3 to 6 times; 17 and 18
/// write 3 to 10 and 11 to 138 zeros.
pub open spec fn run_step(buf: Seq<u8>, off: int, symbol: u16, acc: Seq<u8>, last: u8) -> Option<
    (Seq<u8>, u8, int),
> {
    if symbol <= 15 {
        Some((acc.push(symbol as u8), symbol as u8, off))
    } else if symbol == 16 {
        if bits_in_range(buf, off, 2) {
            Some((repeated(acc, last, 3 + bits_value(buf, off, 2)), last, off + 2))
        } else {
            None
        }
    } else if symbol == 17 {
        if bits_in_range(buf, off, 3) {
            Some((repeated(acc, 0, 3 + bits_value(buf, off, 3)), last, off + 3))
        } else {
            None
        }
    } else if symbol == 18 {
        if bits_in_range(buf, off, 7) {
            Some((repeated(acc, 0, 11 + bits_value(buf, off, 7)), last, off + 7))
        } else {
            None
        }
    } else {
        None
    }
}

/// The list of `total` code lengths that a dynamic block spells from bit
/// offset `off` on with the code length book `book`, given the lengths `acc`
/// read so far and the remembered length `last`; with the offset behind the
/// list. `None` when a code has no symbol, the buffer ends, or a repeat runs
/// past `total`.
pub open spec fn run_lengths(
    book: Codebook,
    buf: Seq<u8>,
    off: int,
    total: nat,
    acc: Seq<u8>,
    last: u8,
) -> Option<(Seq<u8>, int)>
    decreases 8 * buf.len() - off,
{
    match decode_symbol(book, buf, off) {
        None => None,
        Some((symbol, n)) => {
            proof {
                lemma_decode_from_bounds(book, buf, off, 1);
            }
            match run_step(buf, off + n, symbol, acc, last) {
                None => None,
                Some((acc2, last2, off2)) => {
                    if acc2.len() == total {
                        Some((acc2, off2))
                    } else if acc2.len() > total {
                        None
                    } else {
                        run_lengths(book, buf, off2, total, acc2, last2)
                    }
                },
            }
        },
    }
}

/// A list of code lengths ends inside the buffer, behind where it starts,
/// has `total` entries, and none of them is above 15 if none of `acc` is.
pub proof fn lemma_run_lengths_bounds(
    book: Codebook,
    buf: Seq<u8>,
    off: int,
    total: nat,
    acc: Seq<u8>,
    last: u8,
)
    requires
        last <= 15,
        forall|i: int| 0 <= i < acc.len() ==> #[trigger] acc[i] <= 15,
    ensures
        run_lengths(book, buf, off, total, acc, last) matches Some((lens, off2)) ==> off < off2
            <= 8 * buf.len() && lens.len() == total && forall|i: int|
            0 <= i < lens.len() ==> #[trigger] lens[i] <= 15,
    decreases 8 * buf.len() - off,
{
    lemma_decode_from_bounds(book, buf, off, 1);
    match decode_symbol(book, buf, off) {
        None => {},
        Some((symbol, n)) => {
            match run_step(buf, off + n, symbol, acc, last) {
                None => {},
                Some((acc2, last2, off2)) => {
                    if acc2.len() < total {
                        lemma_run_lengths_bounds(book, buf, off2, total, acc2, last2);
                    }
                },
            }
        },
    }
}

/// A block that brings its own tables, from bit offset `off` on: three
/// counts, the lengths of the code length codes, the code lengths of the
/// literal/length and distance alphabets in one list, then the coded data.
pub open spec fn dynamic_block(buf: Seq<u8>, off: int, out: Seq<u8>) -> Option<(Seq<u8>, int)> {
    if !bits_in_range(buf, off, 14) {
        None
    } else {
        let hlit = bits_value(buf, off, 5) + 257;
        let hdist = bits_value(buf, off + 5, 5) + 1;
        let hclen = bits_value(buf, off + 10, 4) + 4;
        if !bits_in_range(buf, off + 14, 3 * hclen) {
            None
        } else {
            let book = canonical_book(meta_lengths(buf, off + 14, hclen));
            match run_lengths(book, buf, off + 14 + 3 * hclen, hlit + hdist, Seq::empty(), 0) {
                None => None,
                Some((lens, off2)) => coded_data(
                    canonical_book(lens.subrange(0, hlit as int)),
                    canonical_book(lens.subrange(hlit as int, (hlit + hdist) as int)),
                    buf,
                    off2,
                    out,
                ),
            }
        }
    }
}

/// The block of type `btype` whose header ended at bit offset `off`: the
/// output with the block's bytes appended, and the offset behind the block.
/// Type 3 is no block.
pub open spec fn block(buf: Seq<u8>, off: int, btype: nat, out: Seq<u8>) -> Option<
    (Seq<u8>, int),
> {
    if btype == 0 {
        stored_block(buf, off, out)
    } else if btype == 1 {
        static_block(buf, off, out)
    } else if btype == 2 {
        dynamic_block(buf, off, out)
    } else {
        None
    }
}

/// A block ends inside the buffer, no earlier than it starts.
pub proof fn lemma_block_bounds(buf: Seq<u8>, off: int, btype: nat, out: Seq<u8>)
    requires
        0 <= off,
    ensures
        block(buf, off, btype, out) matches Some((_, off2)) ==> off <= off2 <= 8 * buf.len(),
{
    if btype == 1 {
        lemma_coded_data_bounds(
            canonical_book(fixed_literal_lengths()),
            canonical_book(fixed_distance_lengths()),
            buf,
            off,
            out,
        );
    } else if btype == 2 {
        if bits_in_range(buf, off, 14) {
            let hlit = bits_value(buf, off, 5) + 257;
            let hdist = bits_value(buf, off + 5, 5) + 1;
            let hclen = bits_value(buf, off + 10, 4) + 4;
            if bits_in_range(buf, off + 14, 3 * hclen) {
                let book = canonical_book(meta_lengths(buf, off + 14, hclen));
                lemma_run_lengths_bounds(
                    book,
                    buf,
                    off + 14 + 3 * hclen,
                    hlit + hdist,
                    Seq::empty(),
                    0,
                );
                match run_lengths(book, buf, off + 14 + 3 * hclen, hlit + hdist, Seq::empty(), 0) {
                    None => {},
                    Some((lens, off2)) => {
                        lemma_coded_data_bounds(
                            canonical_book(lens.subrange(0, hlit as int)),
                            canonical_book(lens.subrange(hlit as int, (hlit + hdist) as int)),
                            buf,
                            off2,
                            out,
                        );
                    },
                }
            }
        }
    }
}

/// The output of the blocks from bit offset `off` on, appended to `out`: each
/// block starts with one bit that marks the last block and two bits that
/// give its type. `None` when a block fails or the buffer ends before the
/// last block does.
pub open spec fn blocks(buf: Seq<u8>, off: int, out: Seq<u8>) -> Option<Seq<u8>>
    decreases 8 * buf.len() - off,
{
    if !bits_in_range(buf, off, 3) {
        None
    } else {
        match block(buf, off + 3, bits_value(buf, off + 1, 2), out) {
            None => None,
            Some((out2, off2)) => {
                proof {
                    lemma_block_bounds(buf, off + 3, bits_value(buf, off + 1, 2), out);
                }
                if bit_at(buf, off) == 1 {
                    Some(out2)
                } else {
                    blocks(buf, off2, out2)
                }
            },
        }
    }
}

/// What a DEFLATE stream decompresses to, or `None` if it is not one.
pub open spec fn inflated(buf: Seq<u8>) -> Option<Seq<u8>> {
    blocks(buf, 0, Seq::empty())
}

/// Decodes a block coded with the fixed tables: literal/length codes of 8, 9,
/// 7 and 8 bits for the symbols up to 143, 255, 279 and 287, and 30 distance
/// codes of 5 bits. `bit_offset` is the offset just behind the block header;
/// the result is the offset behind the block. On failure the output is left
/// as it was.
pub fn inflate_static_block(compressed: &[u8], inflated: &mut Vec<u8>, bit_offset: usize) -> (r:
    Result<usize, DecodeError>)
    requires
        addressable(compressed@),
    ensures
        match static_block(compressed@, bit_offset as int, old(inflated)@) {
            Some((out, off)) => r == Ok::<usize, DecodeError>(off as usize) && final(inflated)@
                == out && off <= 8 * compressed@.len(),
            None => r == Err::<usize, DecodeError>(DecodeError::Corrupted) && final(inflated)@
                == old(inflated)@,
        },
{
    let mut literal_lengths: Vec<u8> = Vec::new();
    let mut i: usize = 0;
    while i < 288
        invariant
            i <= 288,
            literal_lengths@.len() == i,
            forall|s: int| 0 <= s < i ==> #[trigger] literal_lengths@[s] == fixed_literal_lengths()[s],
        decreases 288 - i,
    {
        literal_lengths.push(
            if i <= 143 {
                8
            } else if i <= 255 {
                9
            } else if i <= 279 {
                7
            } else {
                8
            },
        );
        i += 1;
    }
    assert(literal_lengths@ =~= fixed_literal_lengths());
    let distance_lengths: Vec<u8> = vec![5u8; 30];
    assert(distance_lengths@ =~= fixed_distance_lengths());
    let lit = HuffmanTable::from_lengths(literal_lengths.as_slice());
    let dist = HuffmanTable::from_lengths(distance_lengths.as_slice());
    inflate_coded_data(&lit, &dist, compressed, inflated, bit_offset)
}

/// The place in the code length alphabet of the `i`-th length that a dynamic
/// block lists.
fn code_length_place(i: usize) -> (r: usize)
    requires
        i < 19,
    ensures
        r == code_length_order()[i as int],
        r < 19,
{
    let table: [u8; 19] = [16, 17, 18, 0, 8, 7, 9, 6, 10, 5, 11, 4, 12, 3, 13, 2, 14, 1, 15];
    table[i] as usize
}

/// Appends `count` times `value` to `list`.
fn push_repeated(list: &mut Vec<u8>, value: u8, count: usize)
    ensures
        final(list)@ == repeated(old(list)@, value, count as nat),
{
    let mut i: usize = 0;
    while i < count
        invariant
            i <= count,
            list@ == repeated(old(list)@, value, i as nat),
        decreases count - i,
    {
        list.push(value);
        i += 1;
        assert(list@ =~= repeated(old(list)@, value, i as nat));
    }
    assert(list@ =~= repeated(old(list)@, value, count as nat));
}

/// Reads the list of `total` code lengths of a dynamic block from
/// `bit_offset` on with the code length table `book`. Returns the list and
/// the offset behind it.
fn read_code_lengths(book: &HuffmanTable, compressed: &[u8], bit_offset: usize, total: usize) -> (r:
    Result<(Vec<u8>, usize), DecodeError>)
    requires
        addressable(compressed@),
    ensures
        match run_lengths(
            book@,
            compressed@,
            bit_offset as int,
            total as nat,
            Seq::empty(),
            0,
        ) {
            Some((lens, off)) => r matches Ok((v, o)) && v@ == lens && o == off && off <= 8
                * compressed@.len(),
            None => r matches Err(e) && e == DecodeError::Corrupted,
        },
{
    let mut lengths: Vec<u8> = Vec::new();
    let mut last: u8 = 0;
    let mut off: usize = bit_offset;
    loop
        invariant
            addressable(compressed@),
            last <= 15,
            forall|i: int| 0 <= i < lengths@.len() ==> #[trigger] lengths@[i] <= 15,
            run_lengths(book@, compressed@, off as int, total as nat, lengths@, last)
                == run_lengths(
                book@,
                compressed@,
                bit_offset as int,
                total as nat,
                Seq::empty(),
                0,
            ),
        decreases 8 * compressed@.len() - off,
    {
        proof {
            lemma_decode_from_bounds(book@, compressed@, off as int, 1);
            vstd::arithmetic::power2::lemma2_to64();
        }
        let (symbol, next) = match book.decode(compressed, off) {
            Ok(pair) => pair,
            Err(_) => {
                return Err(DecodeError::Corrupted);
            },
        };
        if symbol <= 15 {
            lengths.push(symbol as u8);
            last = symbol as u8;
            off = next;
        } else if symbol == 16 {
            let extra: usize = match try_read_bits(compressed, next, 2) {
                Ok(v) => v,
                Err(_) => {
                    return Err(DecodeError::Corrupted);
                },
            };
            proof {
                lemma_bits_value_bound(compressed@, next as int, 2);
            }
            push_repeated(&mut lengths, last, 3 + extra);
            off = next + 2;
        } else if symbol == 17 {
            let extra: usize = match try_read_bits(compressed, next, 3) {
                Ok(v) => v,
                Err(_) => {
                    return Err(DecodeError::Corrupted);
                },
            };
            proof {
                lemma_bits_value_bound(compressed@, next as int, 3);
            }
            push_repeated(&mut lengths, 0, 3 + extra);
            off = next + 3;
        } else if symbol == 18 {
            let extra: usize = match try_read_bits(compressed, next, 7) {
                Ok(v) => v,
                Err(_) => {
                    return Err(DecodeError::Corrupted);
                },
            };
            proof {
                lemma_bits_value_bound(compressed@, next as int, 7);
            }
            push_repeated(&mut lengths, 0, 11 + extra);
            off = next + 7;
        } else {
            return Err(DecodeError::Corrupted);
        }
        if lengths.len() == total {
            return Ok((lengths, off));
        }
        if lengths.len() > total {
            return Err(DecodeError::Corrupted);
        }
    }
}

/// Decodes a block that brings its own tables. `bit_offset` is the offset
/// just behind the block header; the result is the offset behind the block.
/// On failure the output is left as it was.
pub fn inflate_dynamic_block(compressed: &[u8], inflated: &mut Vec<u8>, bit_offset: usize) -> (r:
    Result<usize, DecodeError>)
    requires
        addressable(compressed@),
    ensures
        match dynamic_block(compressed@, bit_offset as int, old(inflated)@) {
            Some((out, off)) => r == Ok::<usize, DecodeError>(off as usize) && final(inflated)@
                == out && off <= 8 * compressed@.len(),
            None => r == Err::<usize, DecodeError>(DecodeError::Corrupted) && final(inflated)@
                == old(inflated)@,
        },
{
    let total_bits: usize = compressed.len() * 8;
    if bit_offset > total_bits || total_bits - bit_offset < 14 {
        return Err(DecodeError::Corrupted);
    }
    proof {
        lemma_bits_value_bound(compressed@, bit_offset as int, 5);
        lemma_bits_value_bound(compressed@, bit_offset + 5, 5);
        lemma_bits_value_bound(compressed@, bit_offset + 10, 4);
        vstd::arithmetic::power2::lemma2_to64();
    }
    let literal_codes_count: usize = match try_read_bits(compressed, bit_offset, 5) {
        Ok(v) => v + 257,
        Err(_) => {
            return Err(DecodeError::Corrupted);
        },
    };
    let distance_codes_count: usize = match try_read_bits(compressed, bit_offset + 5, 5) {
        Ok(v) => v + 1,
        Err(_) => {
            return Err(DecodeError::Corrupted);
        },
    };
    let code_length_codes_count: usize = match try_read_bits(compressed, bit_offset + 10, 4) {
        Ok(v) => v + 4,
        Err(_) => {
            return Err(DecodeError::Corrupted);
        },
    };
    let start: usize = bit_offset + 14;
    if total_bits - start < 3 * code_length_codes_count {
        return Err(DecodeError::Corrupted);
    }
    let mut code_length_code_lengths: Vec<u8> = vec![0u8; 19];
    assert(code_length_code_lengths@ =~= meta_lengths(compressed@, start as int, 0));
    let mut i: usize = 0;
    while i < code_length_codes_count
        invariant
            i <= code_length_codes_count <= 19,
            addressable(compressed@),
            total_bits == 8 * compressed@.len(),
            start + 3 * code_length_codes_count <= total_bits,
            code_length_code_lengths@ == meta_lengths(compressed@, start as int, i as nat),
            code_length_code_lengths@.len() == 19,
            forall|s: int| 0 <= s < 19 ==> #[trigger] code_length_code_lengths@[s] <= 7,
        decreases code_length_codes_count - i,
    {
        proof {
            lemma_bits_value_bound(compressed@, start + 3 * i, 3);
            vstd::arithmetic::power2::lemma2_to64();
        }
        let length: usize = match try_read_bits(compressed, start + 3 * i, 3) {
            Ok(v) => v,
            Err(_) => {
                return Err(DecodeError::Corrupted);
            },
        };
        code_length_code_lengths.set(code_length_place(i), length as u8);
        i += 1;
    }
    let code_length_huffman = HuffmanTable::from_lengths(code_length_code_lengths.as_slice());
    let after: usize = start + 3 * code_length_codes_count;
    proof {
        lemma_run_lengths_bounds(
            code_length_huffman@,
            compressed@,
            after as int,
            (literal_codes_count + distance_codes_count) as nat,
            Seq::empty(),
            0,
        );
    }
    let (code_lengths, data_start) = match read_code_lengths(
        &code_length_huffman,
        compressed,
        after,
        literal_codes_count + distance_codes_count,
    ) {
        Ok(pair) => pair,
        Err(_) => {
            return Err(DecodeError::Corrupted);
        },
    };
    let mut literal_code_lengths: Vec<u8> = Vec::new();
    let mut distance_code_lengths: Vec<u8> = Vec::new();
    let mut k: usize = 0;
    while k < literal_codes_count
        invariant
            k <= literal_codes_count <= code_lengths@.len(),
            literal_code_lengths@ == code_lengths@.subrange(0, k as int),
        decreases literal_codes_count - k,
    {
        literal_code_lengths.push(code_lengths[k]);
        k += 1;
        assert(literal_code_lengths@ =~= code_lengths@.subrange(0, k as int));
    }
    let end: usize = literal_codes_count + distance_codes_count;
    while k < end
        invariant
            literal_codes_count <= k <= end == code_lengths@.len(),
            distance_code_lengths@ == code_lengths@.subrange(
                literal_codes_count as int,
                k as int,
            ),
        decreases end - k,
    {
        distance_code_lengths.push(code_lengths[k]);
        k += 1;
        assert(distance_code_lengths@ =~= code_lengths@.subrange(
            literal_codes_count as int,
            k as int,
        ));
    }
    let literal_codes_huffman = HuffmanTable::from_lengths(literal_code_lengths.as_slice());
    let distance_codes_huffman = HuffmanTable::from_lengths(distance_code_lengths.as_slice());
    inflate_coded_data(
        &literal_codes_huffman,
        &distance_codes_huffman,
        compressed,
        inflated,
        data_start,
    )
}

/// Decompresses a DEFLATE stream: block after block until the one marked
/// last has been decoded. Fails with `Corrupted` when a block has type 3, a
/// code has no symbol, a match reaches before the start of the output, or
/// the buffer ends before the last block does.
pub fn inflate(compressed: &[u8]) -> (r: Result<Vec<u8>, DecodeError>)
    requires
        addressable(compressed@),
    ensures
        match inflated(compressed@) {
            Some(out) => r matches Ok(v) && v@ == out,
            None => r matches Err(e) && e == DecodeError::Corrupted,
        },
{
    let total_bits: usize = compressed.len() * 8;
    let mut bit_offset: usize = 0;
    let mut inflated: Vec<u8> = Vec::new();
    loop
        invariant
            addressable(compressed@),
            total_bits == 8 * compressed@.len(),
            bit_offset <= total_bits,
            blocks(compressed@, bit_offset as int, inflated@) == blocks(
                compressed@,
                0,
                Seq::empty(),
            ),
        decreases total_bits - bit_offset,
    {
        if total_bits - bit_offset < 3 {
            return Err(DecodeError::Corrupted);
        }
        let is_final: bool = read_one_bit(compressed, bit_offset) == 1;
        let block_type: usize = match try_read_bits(compressed, bit_offset + 1, 2) {
            Ok(v) => v,
            Err(_) => {
                return Err(DecodeError::Corrupted);
            },
        };
        proof {
            lemma_block_bounds(
                compressed@,
                bit_offset + 3,
                bits_value(compressed@, bit_offset + 1, 2),
                inflated@,
            );
        }
        let next = if block_type == 0 {
            inflate_uncompressed_block(compressed, &mut inflated, bit_offset + 3)
        } else if block_type == 1 {
            inflate_static_block(compressed, &mut inflated, bit_offset + 3)
        } else if block_type == 2 {
            inflate_dynamic_block(compressed, &mut inflated, bit_offset + 3)
        } else {
            Err(DecodeError::Corrupted)
        };
        match next {
            Ok(off) => {
                if is_final {
                    return Ok(inflated);
                }
                bit_offset = off;
            },
            Err(_) => {
                return Err(DecodeError::Corrupted);
            },
        }
    }
}

} // verus!
