//! What was compressed comes out again: a stored block gives its bytes
//! back, and a block of Huffman codes gives back the literals and matches
//! that its bits spell.

use vstd::prelude::*;
use vstd::arithmetic::power2::{pow2, lemma2_to64};
use crate::bit::{bit_at, bits_value, bits_in_range};
use crate::deflate::{
    back_reference, block, blocks, coded_data, copy_back, distance_bases, distance_extra_bits,
    dynamic_block, fixed_distance_lengths, fixed_literal_lengths, inflated, length_bases,
    length_extra_bits, meta_lengths, run_lengths, static_block, stored_block,
};
use crate::huffman_table::{
    canonical_book, canonical_code, codes_of_length, symbol_count, valid_lengths,
};
use crate::huffman_proofs::{
    first_code_exact, has_code, lemma_decode_reads_code, not_oversubscribed, spells,
};

verus! {

/// One step of coded data: a literal byte, or a match given by its length
/// symbol, the value of the extra bits behind it, its distance symbol, and
/// the value of the extra bits behind that.
pub enum Item {
    Literal(u8),
    Match { length_symbol: u16, length_extra: nat, distance_symbol: u16, distance_extra: nat },
}

/// The length of a match.
pub open spec fn match_length(length_symbol: u16, length_extra: nat) -> nat {
    length_bases()[length_symbol - 257] as nat + length_extra
}

/// The distance of a match.
pub open spec fn match_distance(distance_symbol: u16, distance_extra: nat) -> nat {
    distance_bases()[distance_symbol as int] as nat + distance_extra
}

/// Whether `item` can follow the output `out`: a match has symbols of the
/// two alphabets, extra values that fit in its extra bits, and a distance
/// that does not reach before the start of the output.
pub open spec fn item_fits(out: Seq<u8>, item: Item) -> bool {
    match item {
        Item::Literal(_) => true,
        Item::Match { length_symbol, length_extra, distance_symbol, distance_extra } => {
            &&& 257 <= length_symbol <= 285
            &&& distance_symbol < 30
            &&& length_extra < pow2(length_extra_bits()[length_symbol - 257] as nat)
            &&& distance_extra < pow2(distance_extra_bits()[distance_symbol as int] as nat)
            &&& match_distance(distance_symbol, distance_extra) <= out.len()
        },
    }
}

/// The output after `item`.
pub open spec fn after_item(out: Seq<u8>, item: Item) -> Seq<u8> {
    match item {
        Item::Literal(byte) => out.push(byte),
        Item::Match { length_symbol, length_extra, distance_symbol, distance_extra } => copy_back(
            out,
            match_distance(distance_symbol, distance_extra),
            match_length(length_symbol, length_extra),
        ),
    }
}

/// The output after all of `items`, in order.
pub open spec fn after_items(out: Seq<u8>, items: Seq<Item>) -> Seq<u8>
    decreases items.len(),
{
    if items.len() == 0 {
        out
    } else {
        after_items(after_item(out, items[0]), items.drop_first())
    }
}

/// Whether every one of `items` can follow what stands before it.
pub open spec fn items_fit(out: Seq<u8>, items: Seq<Item>) -> bool
    decreases items.len(),
{
    if items.len() == 0 {
        true
    } else {
        item_fits(out, items[0]) && items_fit(after_item(out, items[0]), items.drop_first())
    }
}

/// How many bits `item` takes with the code lengths `lit` and `dist`.
pub open spec fn item_bits(lit: Seq<u8>, dist: Seq<u8>, item: Item) -> nat {
    match item {
        Item::Literal(byte) => lit[byte as int] as nat,
        Item::Match { length_symbol, length_extra, distance_symbol, distance_extra } => {
            lit[length_symbol as int] as nat + length_extra_bits()[length_symbol - 257] as nat
                + dist[distance_symbol as int] as nat + distance_extra_bits()[distance_symbol as int] as nat
        },
    }
}

/// Whether the bits of `buf` from `off` on spell `item`: for a literal its
/// canonical code; for a match the code of the length symbol, the extra
/// length bits lowest first, the code of the distance symbol, and the extra
/// distance bits lowest first.
pub open spec fn spells_item(buf: Seq<u8>, off: int, lit: Seq<u8>, dist: Seq<u8>, item: Item) -> bool {
    match item {
        Item::Literal(byte) => {
            &&& has_code(lit, byte as int)
            &&& spells(buf, off, canonical_code(lit, byte as int), lit[byte as int] as nat)
        },
        Item::Match { length_symbol, length_extra, distance_symbol, distance_extra } => {
            let l1 = lit[length_symbol as int] as nat;
            let e1 = length_extra_bits()[length_symbol - 257] as nat;
            let l2 = dist[distance_symbol as int] as nat;
            let e2 = distance_extra_bits()[distance_symbol as int] as nat;
            &&& has_code(lit, length_symbol as int)
            &&& has_code(dist, distance_symbol as int)
            &&& spells(buf, off, canonical_code(lit, length_symbol as int), l1)
            &&& bits_in_range(buf, off + l1, e1)
            &&& bits_value(buf, off + l1, e1) == length_extra
            &&& spells(buf, off + l1 + e1, canonical_code(dist, distance_symbol as int), l2)
            &&& bits_in_range(buf, off + l1 + e1 + l2, e2)
            &&& bits_value(buf, off + l1 + e1 + l2, e2) == distance_extra
        },
    }
}

/// Whether the bits of `buf` from `off` on spell `items` one after the other
/// and then the code of the end symbol 256.
pub open spec fn spells_items(
    buf: Seq<u8>,
    off: int,
    lit: Seq<u8>,
    dist: Seq<u8>,
    items: Seq<Item>,
) -> bool
    decreases items.len(),
{
    if items.len() == 0 {
        has_code(lit, 256) && spells(buf, off, canonical_code(lit, 256), lit[256] as nat)
    } else {
        &&& spells_item(buf, off, lit, dist, items[0])
        &&& spells_items(buf, off + item_bits(lit, dist, items[0]), lit, dist, items.drop_first())
    }
}

/// How many bits `items` and the end symbol take.
pub open spec fn items_bits(lit: Seq<u8>, dist: Seq<u8>, items: Seq<Item>) -> nat
    decreases items.len(),
{
    if items.len() == 0 {
        lit[256] as nat
    } else {
        item_bits(lit, dist, items[0]) + items_bits(lit, dist, items.drop_first())
    }
}

/// Whether code lengths can be used for coded data: they make a table and
/// are not oversubscribed.
pub open spec fn usable(lengths: Seq<u8>) -> bool {
    valid_lengths(lengths) && not_oversubscribed(lengths)
}

/// Where the bits spell a match, the decoder reads the same match.
proof fn lemma_back_reference(
    buf: Seq<u8>,
    off: int,
    dist: Seq<u8>,
    length_symbol: u16,
    length_extra: nat,
    distance_symbol: u16,
    distance_extra: nat,
)
    requires
        usable(dist),
        257 <= length_symbol <= 285,
        distance_symbol < 30,
        has_code(dist, distance_symbol as int),
        bits_in_range(buf, off, length_extra_bits()[length_symbol - 257] as nat),
        bits_value(buf, off, length_extra_bits()[length_symbol - 257] as nat) == length_extra,
        spells(
            buf,
            off + length_extra_bits()[length_symbol - 257],
            canonical_code(dist, distance_symbol as int),
            dist[distance_symbol as int] as nat,
        ),
        bits_in_range(
            buf,
            off + length_extra_bits()[length_symbol - 257] + dist[distance_symbol as int],
            distance_extra_bits()[distance_symbol as int] as nat,
        ),
        bits_value(
            buf,
            off + length_extra_bits()[length_symbol - 257] + dist[distance_symbol as int],
            distance_extra_bits()[distance_symbol as int] as nat,
        ) == distance_extra,
    ensures
        back_reference(canonical_book(dist), buf, off, length_symbol) == Some(
            (
                match_length(length_symbol, length_extra),
                match_distance(distance_symbol, distance_extra),
                off + length_extra_bits()[length_symbol - 257] + dist[distance_symbol as int]
                    + distance_extra_bits()[distance_symbol as int],
            ),
        ),
{
    let e1 = length_extra_bits()[length_symbol - 257] as nat;
    lemma_decode_reads_code(dist, buf, off + e1, distance_symbol as int);
}

/// A block of Huffman codes gives back what its bits spell: where the bits
/// from `off` on spell `items` and the end symbol with the canonical codes
/// of the code lengths `lit` and `dist`, the decoder appends to `out` what
/// the items stand for and stops behind the end symbol. This holds for
/// every choice of literals and matches whose distances stay inside the
/// output, and for all code lengths that are not oversubscribed, be they
/// the fixed ones or those of a dynamic block.
pub proof fn lemma_coded_data_inverts(
    buf: Seq<u8>,
    off: int,
    lit: Seq<u8>,
    dist: Seq<u8>,
    out: Seq<u8>,
    items: Seq<Item>,
)
    requires
        usable(lit),
        usable(dist),
        items_fit(out, items),
        spells_items(buf, off, lit, dist, items),
    ensures
        coded_data(canonical_book(lit), canonical_book(dist), buf, off, out) == Some(
            (after_items(out, items), off + items_bits(lit, dist, items)),
        ),
    decreases items.len(),
{
    if items.len() == 0 {
        lemma_decode_reads_code(lit, buf, off, 256);
    } else {
        let rest = items.drop_first();
        match items[0] {
            Item::Literal(byte) => {
                lemma_decode_reads_code(lit, buf, off, byte as int);
                lemma_coded_data_inverts(
                    buf,
                    off + lit[byte as int],
                    lit,
                    dist,
                    out.push(byte),
                    rest,
                );
            },
            Item::Match { length_symbol, length_extra, distance_symbol, distance_extra } => {
                let l1 = lit[length_symbol as int] as nat;
                lemma_decode_reads_code(lit, buf, off, length_symbol as int);
                lemma_back_reference(
                    buf,
                    off + l1,
                    dist,
                    length_symbol,
                    length_extra,
                    distance_symbol,
                    distance_extra,
                );
                lemma_coded_data_inverts(
                    buf,
                    off + item_bits(lit, dist, items[0]),
                    lit,
                    dist,
                    after_item(out, items[0]),
                    rest,
                );
            },
        }
    }
}

/// A stored block gives its bytes back: where `data`, of at most 65535
/// bytes, stands behind its length and two more bytes at the first byte
/// boundary from `off` on, the decoder appends `data` to `out` and stops
/// behind it.
pub proof fn lemma_stored_block_inverts(buf: Seq<u8>, off: int, out: Seq<u8>, data: Seq<u8>)
    requires
        0 <= off,
        data.len() <= 0xffff,
        (off + 7) / 8 + 4 + data.len() <= buf.len(),
        buf[(off + 7) / 8] == data.len() % 256,
        buf[(off + 7) / 8 + 1] == data.len() / 256,
        buf.subrange((off + 7) / 8 + 4, (off + 7) / 8 + 4 + data.len()) == data,
    ensures
        stored_block(buf, off, out) == Some(
            (out + data, 8 * ((off + 7) / 8 + 4 + data.len() as int)),
        ),
{
}

/// A stream whose first block is marked last decompresses to what that
/// block gives.
pub proof fn lemma_single_block(buf: Seq<u8>, btype: nat, out: Seq<u8>, end: int)
    requires
        bits_in_range(buf, 0, 3),
        bit_at(buf, 0) == 1,
        bits_value(buf, 1, 2) == btype,
        block(buf, 3, btype, Seq::empty()) == Some((out, end)),
    ensures
        inflated(buf) == Some(out),
{
}

/// A stream of one stored block gives its bytes back: the byte 1, the
/// length of `data` in two bytes, low byte first, any two bytes, and `data`
/// decompress to `data`.
pub proof fn lemma_stored_stream_inverts(data: Seq<u8>, check: Seq<u8>)
    requires
        data.len() <= 0xffff,
        check.len() == 2,
    ensures
        inflated(
            seq![1u8, (data.len() % 256) as u8, (data.len() / 256) as u8] + check + data,
        ) == Some(data),
{
    let buf = seq![1u8, (data.len() % 256) as u8, (data.len() / 256) as u8] + check + data;
    assert(buf.len() == 5 + data.len());
    assert(buf[0] == 1u8 && buf[1] == data.len() % 256 && buf[2] == data.len() / 256);
    lemma_head_bits(buf, 0);
    assert(buf.subrange(5, 5 + data.len() as int) =~= data);
    lemma_stored_block_inverts(buf, 3, Seq::empty(), data);
    assert(Seq::<u8>::empty() + data =~= data);
    assert(block(buf, 3, 0, Seq::empty()) == stored_block(buf, 3, Seq::empty()));
    lemma_single_block(buf, 0, data, 8 * (5 + data.len() as int));
}

/// How many of the first `upto` symbols of the fixed literal/length
/// alphabet have a code of `len` bits.
proof fn lemma_fixed_literal_counts(len: nat, upto: nat)
    requires
        upto <= 288,
    ensures
        symbol_count(fixed_literal_lengths(), len, upto) == if len == 8 {
            if upto <= 144 {
                upto
            } else if upto <= 280 {
                144
            } else {
                (upto - 136) as nat
            }
        } else if len == 9 {
            if upto <= 144 {
                0
            } else if upto <= 256 {
                (upto - 144) as nat
            } else {
                112
            }
        } else if len == 7 {
            if upto <= 256 {
                0
            } else if upto <= 280 {
                (upto - 256) as nat
            } else {
                24
            }
        } else {
            0
        },
    decreases upto,
{
    if upto > 0 {
        lemma_fixed_literal_counts(len, (upto - 1) as nat);
    }
}

/// How many of the first `upto` symbols of the fixed distance alphabet
/// have a code of `len` bits.
proof fn lemma_fixed_distance_counts(len: nat, upto: nat)
    requires
        upto <= 30,
    ensures
        symbol_count(fixed_distance_lengths(), len, upto) == if len == 5 {
            upto
        } else {
            0
        },
    decreases upto,
{
    if upto > 0 {
        lemma_fixed_distance_counts(len, (upto - 1) as nat);
    }
}

/// How many codes of each length the fixed literal/length alphabet has.
proof fn lemma_fixed_literal_totals()
    ensures
        forall|len: nat|
            #[trigger] codes_of_length(fixed_literal_lengths(), len) == if len == 7 {
                24nat
            } else if len == 8 {
                152nat
            } else if len == 9 {
                112nat
            } else {
                0nat
            },
{
    assert forall|len: nat|
        #[trigger] codes_of_length(fixed_literal_lengths(), len) == if len == 7 {
            24nat
        } else if len == 8 {
            152nat
        } else if len == 9 {
            112nat
        } else {
            0nat
        } by {
        lemma_fixed_literal_counts(len, 288);
    }
}

/// How many codes of each length the fixed distance alphabet has.
proof fn lemma_fixed_distance_totals()
    ensures
        forall|len: nat|
            #[trigger] codes_of_length(fixed_distance_lengths(), len) == if len == 5 {
                30nat
            } else {
                0nat
            },
{
    assert forall|len: nat|
        #[trigger] codes_of_length(fixed_distance_lengths(), len) == if len == 5 {
            30nat
        } else {
            0nat
        } by {
        lemma_fixed_distance_counts(len, 30);
    }
}

/// The first code of each length of the fixed literal/length alphabet.
proof fn lemma_fixed_literal_first_codes()
    ensures
        forall|len: nat| len <= 7 ==> #[trigger] first_code_exact(fixed_literal_lengths(), len) == 0,
        first_code_exact(fixed_literal_lengths(), 8) == 48,
        first_code_exact(fixed_literal_lengths(), 9) == 400,
        forall|len: nat|
            10 <= len <= 15 ==> #[trigger] first_code_exact(fixed_literal_lengths(), len) == pow2(
                len,
            ),
{
    let lit = fixed_literal_lengths();
    lemma_fixed_literal_totals();
    lemma2_to64();
    assert(first_code_exact(lit, 0) == 0);
    assert(first_code_exact(lit, 1) == 2 * (first_code_exact(lit, 0) + codes_of_length(lit, 0)));
    assert(first_code_exact(lit, 2) == 2 * (first_code_exact(lit, 1) + codes_of_length(lit, 1)));
    assert(first_code_exact(lit, 3) == 2 * (first_code_exact(lit, 2) + codes_of_length(lit, 2)));
    assert(first_code_exact(lit, 4) == 2 * (first_code_exact(lit, 3) + codes_of_length(lit, 3)));
    assert(first_code_exact(lit, 5) == 2 * (first_code_exact(lit, 4) + codes_of_length(lit, 4)));
    assert(first_code_exact(lit, 6) == 2 * (first_code_exact(lit, 5) + codes_of_length(lit, 5)));
    assert(first_code_exact(lit, 7) == 2 * (first_code_exact(lit, 6) + codes_of_length(lit, 6)));
    assert(first_code_exact(lit, 8) == 2 * (first_code_exact(lit, 7) + codes_of_length(lit, 7)));
    assert(first_code_exact(lit, 9) == 2 * (first_code_exact(lit, 8) + codes_of_length(lit, 8)));
    assert(first_code_exact(lit, 10) == 2 * (first_code_exact(lit, 9) + codes_of_length(lit, 9)));
    assert(first_code_exact(lit, 11) == 2 * (first_code_exact(lit, 10) + codes_of_length(lit, 10)));
    assert(first_code_exact(lit, 12) == 2 * (first_code_exact(lit, 11) + codes_of_length(lit, 11)));
    assert(first_code_exact(lit, 13) == 2 * (first_code_exact(lit, 12) + codes_of_length(lit, 12)));
    assert(first_code_exact(lit, 14) == 2 * (first_code_exact(lit, 13) + codes_of_length(lit, 13)));
    assert(first_code_exact(lit, 15) == 2 * (first_code_exact(lit, 14) + codes_of_length(lit, 14)));
}

/// The first code of each length of the fixed distance alphabet.
proof fn lemma_fixed_distance_first_codes()
    ensures
        forall|len: nat| len <= 5 ==> #[trigger] first_code_exact(fixed_distance_lengths(), len) == 0,
        forall|len: nat|
            6 <= len <= 15 ==> #[trigger] first_code_exact(fixed_distance_lengths(), len) <= pow2(
                len,
            ),
{
    let dist = fixed_distance_lengths();
    lemma_fixed_distance_totals();
    lemma2_to64();
    assert(first_code_exact(dist, 0) == 0);
    assert(first_code_exact(dist, 1) == 2 * (first_code_exact(dist, 0) + codes_of_length(dist, 0)));
    assert(first_code_exact(dist, 2) == 2 * (first_code_exact(dist, 1) + codes_of_length(dist, 1)));
    assert(first_code_exact(dist, 3) == 2 * (first_code_exact(dist, 2) + codes_of_length(dist, 2)));
    assert(first_code_exact(dist, 4) == 2 * (first_code_exact(dist, 3) + codes_of_length(dist, 3)));
    assert(first_code_exact(dist, 5) == 2 * (first_code_exact(dist, 4) + codes_of_length(dist, 4)));
    assert(first_code_exact(dist, 6) == 2 * (first_code_exact(dist, 5) + codes_of_length(dist, 5)));
    assert(first_code_exact(dist, 7) == 2 * (first_code_exact(dist, 6) + codes_of_length(dist, 6)));
    assert(first_code_exact(dist, 8) == 2 * (first_code_exact(dist, 7) + codes_of_length(dist, 7)));
    assert(first_code_exact(dist, 9) == 2 * (first_code_exact(dist, 8) + codes_of_length(dist, 8)));
    assert(first_code_exact(dist, 10) == 2 * (first_code_exact(dist, 9) + codes_of_length(dist, 9)));
    assert(first_code_exact(dist, 11) == 2 * (first_code_exact(dist, 10) + codes_of_length(dist, 10)));
    assert(first_code_exact(dist, 12) == 2 * (first_code_exact(dist, 11) + codes_of_length(dist, 11)));
    assert(first_code_exact(dist, 13) == 2 * (first_code_exact(dist, 12) + codes_of_length(dist, 12)));
    assert(first_code_exact(dist, 14) == 2 * (first_code_exact(dist, 13) + codes_of_length(dist, 13)));
    assert(first_code_exact(dist, 15) == 2 * (first_code_exact(dist, 14) + codes_of_length(dist, 14)));
}

/// The fixed code lengths make tables and are not oversubscribed.
pub proof fn lemma_fixed_lengths_usable()
    ensures
        usable(fixed_literal_lengths()),
        usable(fixed_distance_lengths()),
{
    let lit = fixed_literal_lengths();
    let dist = fixed_distance_lengths();
    assert(valid_lengths(lit));
    assert(valid_lengths(dist));
    assert(not_oversubscribed(lit)) by {
        lemma_fixed_literal_totals();
        lemma_fixed_literal_first_codes();
        lemma2_to64();
    }
    assert(not_oversubscribed(dist)) by {
        lemma_fixed_distance_totals();
        lemma_fixed_distance_first_codes();
        lemma2_to64();
    }
}

/// A block of fixed codes gives back what its bits spell.
pub proof fn lemma_static_block_inverts(buf: Seq<u8>, off: int, out: Seq<u8>, items: Seq<Item>)
    requires
        items_fit(out, items),
        spells_items(buf, off, fixed_literal_lengths(), fixed_distance_lengths(), items),
    ensures
        static_block(buf, off, out) == Some(
            (
                after_items(out, items),
                off + items_bits(fixed_literal_lengths(), fixed_distance_lengths(), items),
            ),
        ),
{
    lemma_fixed_lengths_usable();
    lemma_coded_data_inverts(
        buf,
        off,
        fixed_literal_lengths(),
        fixed_distance_lengths(),
        out,
        items,
    );
}

/// How many literal/length code lengths the head of a dynamic block at
/// `off` announces.
pub open spec fn announced_literals(buf: Seq<u8>, off: int) -> int {
    (bits_value(buf, off, 5) + 257) as int
}

/// How many distance code lengths the head of a dynamic block at `off`
/// announces.
pub open spec fn announced_distances(buf: Seq<u8>, off: int) -> int {
    (bits_value(buf, off + 5, 5) + 1) as int
}

/// How many code length code lengths the head of a dynamic block at `off`
/// announces.
pub open spec fn announced_meta(buf: Seq<u8>, off: int) -> nat {
    bits_value(buf, off + 10, 4) + 4
}

/// A block that brings its tables gives back what its bits spell: where the
/// head of the block is inside the buffer, the list of code lengths reads
/// as `lens` and ends at `data`, and the bits from there on spell `items`
/// with the canonical codes of those lengths, the first part of `lens` for
/// literals and lengths, the rest for distances.
pub proof fn lemma_dynamic_block_inverts(
    buf: Seq<u8>,
    off: int,
    out: Seq<u8>,
    lens: Seq<u8>,
    data: int,
    items: Seq<Item>,
)
    requires
        bits_in_range(buf, off, 14),
        bits_in_range(buf, off + 14, 3 * announced_meta(buf, off)),
        run_lengths(
            canonical_book(meta_lengths(buf, off + 14, announced_meta(buf, off))),
            buf,
            off + 14 + 3 * announced_meta(buf, off),
            (announced_literals(buf, off) + announced_distances(buf, off)) as nat,
            Seq::empty(),
            0,
        ) == Some((lens, data)),
        usable(lens.subrange(0, announced_literals(buf, off))),
        usable(
            lens.subrange(
                announced_literals(buf, off),
                announced_literals(buf, off) + announced_distances(buf, off),
            ),
        ),
        items_fit(out, items),
        spells_items(
            buf,
            data,
            lens.subrange(0, announced_literals(buf, off)),
            lens.subrange(
                announced_literals(buf, off),
                announced_literals(buf, off) + announced_distances(buf, off),
            ),
            items,
        ),
    ensures
        dynamic_block(buf, off, out) == Some(
            (
                after_items(out, items),
                data + items_bits(
                    lens.subrange(0, announced_literals(buf, off)),
                    lens.subrange(
                        announced_literals(buf, off),
                        announced_literals(buf, off) + announced_distances(buf, off),
                    ),
                    items,
                ),
            ),
        ),
{
    let hlit = announced_literals(buf, off);
    let hdist = announced_distances(buf, off);
    lemma_coded_data_inverts(
        buf,
        data,
        lens.subrange(0, hlit),
        lens.subrange(hlit, hlit + hdist),
        out,
        items,
    );
}

/// A stream of one block of fixed codes decompresses to what its bits
/// spell: the bit that marks the last block, the two bits of type 1, then
/// the items and the end symbol.
pub proof fn lemma_static_stream_inverts(buf: Seq<u8>, items: Seq<Item>)
    requires
        bits_in_range(buf, 0, 3),
        bit_at(buf, 0) == 1,
        bits_value(buf, 1, 2) == 1,
        items_fit(Seq::empty(), items),
        spells_items(buf, 3, fixed_literal_lengths(), fixed_distance_lengths(), items),
    ensures
        inflated(buf) == Some(after_items(Seq::empty(), items)),
{
    lemma_static_block_inverts(buf, 3, Seq::empty(), items);
    assert(block(buf, 3, 1, Seq::empty()) == static_block(buf, 3, Seq::empty()));
    lemma_single_block(
        buf,
        1,
        after_items(Seq::empty(), items),
        3 + items_bits(fixed_literal_lengths(), fixed_distance_lengths(), items) as int,
    );
}

/// The head of a stored block of `len` bytes: one byte that says whether
/// the block is the last, the length in two bytes, low byte first, and its
/// complement.
pub open spec fn stored_head(last: bool, len: nat) -> Seq<u8> {
    seq![
        if last {
            1u8
        } else {
            0u8
        },
        (len % 256) as u8,
        (len / 256) as u8,
        (255 - len % 256) as u8,
        (255 - len / 256) as u8,
    ]
}

/// The bytes `v` as a DEFLATE stream of stored blocks: blocks of 65535
/// bytes while more than that are left, then one last block with the rest.
pub open spec fn stored_stream(v: Seq<u8>) -> Seq<u8>
    decreases v.len(),
{
    if v.len() <= 0xffff {
        stored_head(true, v.len()) + v
    } else {
        stored_head(false, 0xffff) + v.subrange(0, 0xffff) + stored_stream(
            v.subrange(0xffff, v.len() as int),
        )
    }
}

/// The first three bits of a byte that is 0 or 1, at a byte boundary: the
/// first is the byte, the next two are 0.
proof fn lemma_head_bits(buf: Seq<u8>, at: int)
    requires
        0 <= at < buf.len(),
        buf[at] <= 1,
    ensures
        bits_in_range(buf, 8 * at, 3),
        bit_at(buf, 8 * at) == buf[at],
        bits_value(buf, 8 * at + 1, 2) == 0,
{
    lemma2_to64();
    let first = buf[at] as nat;
    assert((8 * at) / 8 == at && (8 * at) % 8 == 0);
    assert((8 * at + 1) / 8 == at && (8 * at + 1) % 8 == 1);
    assert((8 * at + 2) / 8 == at && (8 * at + 2) % 8 == 2);
    assert(pow2(0) == 1 && pow2(1) == 2 && pow2(2) == 4);
    assert(first / 1 == first && first / 2 == 0 && first / 4 == 0);
    assert(bit_at(buf, 8 * at) == (first / pow2(0)) % 2);
    assert(bit_at(buf, 8 * at + 1) == (first / pow2(1)) % 2);
    assert(bit_at(buf, 8 * at + 2) == (first / pow2(2)) % 2);
    assert(bits_value(buf, 8 * at + 1, 0) == 0);
    assert(bits_value(buf, 8 * at + 1, 1) == bits_value(buf, 8 * at + 1, 0) + bit_at(
        buf,
        8 * at + 1,
    ) * pow2(0));
    assert(bits_value(buf, 8 * at + 1, 2) == bits_value(buf, 8 * at + 1, 1) + bit_at(
        buf,
        8 * at + 2,
    ) * pow2(1));
}

/// Where a stream of stored blocks that holds `v` stands in a buffer from
/// byte `at` on, the decoder appends `v` to the output.
proof fn lemma_stored_blocks(buf: Seq<u8>, at: int, out: Seq<u8>, v: Seq<u8>)
    requires
        0 <= at,
        at + stored_stream(v).len() <= buf.len(),
        buf.subrange(at, at + stored_stream(v).len()) == stored_stream(v),
    ensures
        blocks(buf, 8 * at, out) == Some(out + v),
    decreases v.len(),
{
    let stream = stored_stream(v);
    let last = v.len() <= 0xffff;
    let len: nat = if last {
        v.len()
    } else {
        0xffff
    };
    let head = stored_head(last, len);
    let data = v.subrange(0, len as int);
    assert(stream.subrange(0, 5) =~= head);
    assert(stream.subrange(5, 5 + len as int) =~= data);
    assert(buf[at] == head[0] && buf[at + 1] == head[1] && buf[at + 2] == head[2]) by {
        let part = buf.subrange(at, at + stream.len());
        assert(part[0] == buf[at] && part[1] == buf[at + 1] && part[2] == buf[at + 2]);
        assert(stream[0] == head[0] && stream[1] == head[1] && stream[2] == head[2]);
    }
    lemma_head_bits(buf, at);
    assert((8 * at + 3 + 7) / 8 == at + 1);
    assert(buf.subrange(at + 5, at + 5 + len) =~= data) by {
        assert(buf.subrange(at + 5, at + 5 + len) =~= buf.subrange(
            at,
            at + stream.len(),
        ).subrange(5, 5 + len as int));
    }
    lemma_stored_block_inverts(buf, 8 * at + 3, out, data);
    assert(block(buf, 8 * at + 3, 0, out) == stored_block(buf, 8 * at + 3, out));
    if last {
        assert(data =~= v);
    } else {
        let rest = v.subrange(0xffff, v.len() as int);
        let next = at + 5 + 0xffff;
        assert(stream == head + data + stored_stream(rest));
        assert(buf.subrange(next, next + stored_stream(rest).len()) =~= stored_stream(rest)) by {
            assert(buf.subrange(next, next + stored_stream(rest).len()) =~= buf.subrange(
                at,
                at + stream.len(),
            ).subrange(5int + 0xffff, stream.len() as int));
        }
        lemma_stored_blocks(buf, next, out + data, rest);
        assert(out + data + rest =~= out + v);
        assert(8 * (at + 1 + 4 + len) == 8 * next);
    }
}

/// Every sequence of bytes comes out again: the stream of stored blocks
/// that holds `v` decompresses to `v`.
pub proof fn lemma_inflate_inverts_stored(v: Seq<u8>)
    ensures
        inflated(stored_stream(v)) == Some(v),
{
    let stream = stored_stream(v);
    assert(stream.subrange(0, stream.len() as int) =~= stream);
    lemma_stored_blocks(stream, 0, Seq::empty(), v);
    assert(Seq::<u8>::empty() + v =~= v);
}

} // verus!
