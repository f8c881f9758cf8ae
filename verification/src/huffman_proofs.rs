//! Canonical codes can be read back: a bit stream that spells the codes of a
//! sequence of symbols decodes to that sequence.

use vstd::prelude::*;
use vstd::arithmetic::power2::{
    pow2, lemma_pow2_unfold, lemma_pow2_pos, lemma2_to64, lemma_pow2_strictly_increases,
};
use crate::bit::{bit_at, bits_in_range};
use crate::huffman_table::{
    Codebook, book_upto, canonical_book, canonical_code, code_at, codes_of_length, decode_from,
    decode_symbol, first_code, symbol_count, valid_lengths,
};

verus! {

/// The smallest code of `len` bits, computed without a limit on its size.
pub open spec fn first_code_exact(lengths: Seq<u8>, len: nat) -> nat
    decreases len,
{
    if len == 0 {
        0
    } else {
        2 * (first_code_exact(lengths, (len - 1) as nat) + codes_of_length(
            lengths,
            (len - 1) as nat,
        ))
    }
}

/// Whether the code lengths ask for no more codes than there are: at every
/// length, the codes of that length end within the numbers of that many
/// bits.
pub open spec fn not_oversubscribed(lengths: Seq<u8>) -> bool {
    forall|len: nat|
        1 <= len <= 15 ==> #[trigger] first_code_exact(lengths, len) + codes_of_length(
            lengths,
            len,
        ) <= pow2(len)
}

/// Whether `symbol` has a code.
pub open spec fn has_code(lengths: Seq<u8>, symbol: int) -> bool {
    0 <= symbol < lengths.len() && lengths[symbol] != 0
}

/// Bit `j` of the code `code` of `len` bits, in reading order: bit 0 is the
/// highest digit.
pub open spec fn code_bit(code: nat, len: nat, j: nat) -> nat {
    (code / pow2((len - 1 - j) as nat)) % 2
}

/// Whether the bits of `buf` from `off` on spell the code `code` of `len`
/// bits, highest digit first.
pub open spec fn spells(buf: Seq<u8>, off: int, code: nat, len: nat) -> bool {
    &&& bits_in_range(buf, off, len)
    &&& forall|j: nat| j < len ==> #[trigger] bit_at(buf, off + j) == code_bit(code, len, j)
}

/// Whether the bits of `buf` from `off` on spell the canonical codes of
/// `symbols`, one after the other.
pub open spec fn encoded_at(buf: Seq<u8>, off: int, lengths: Seq<u8>, symbols: Seq<u16>) -> bool
    decreases symbols.len(),
{
    if symbols.len() == 0 {
        true
    } else {
        let s = symbols[0] as int;
        &&& has_code(lengths, s)
        &&& spells(buf, off, canonical_code(lengths, s), lengths[s] as nat)
        &&& encoded_at(buf, off + lengths[s], lengths, symbols.drop_first())
    }
}

/// How many bits the codes of `symbols` take.
pub open spec fn encoded_len(lengths: Seq<u8>, symbols: Seq<u16>) -> nat
    decreases symbols.len(),
{
    if symbols.len() == 0 {
        0
    } else {
        lengths[symbols[0] as int] as nat + encoded_len(lengths, symbols.drop_first())
    }
}

/// The `count` symbols that `book` reads from `off` on, and the offset
/// behind the last of them.
pub open spec fn decoded_run(book: Codebook, buf: Seq<u8>, off: int, count: nat) -> Option<
    (Seq<u16>, int),
>
    decreases count,
{
    if count == 0 {
        Some((Seq::empty(), off))
    } else {
        match decode_symbol(book, buf, off) {
            None => None,
            Some((s, n)) => match decoded_run(book, buf, off + n, (count - 1) as nat) {
                None => None,
                Some((rest, end)) => Some((seq![s] + rest, end)),
            },
        }
    }
}

/// Counting symbols of one length goes up by one at a symbol of that length
/// and stays where it is at any other.
proof fn lemma_count_monotonic(lengths: Seq<u8>, len: nat, a: nat, b: nat)
    requires
        a <= b,
    ensures
        symbol_count(lengths, len, a) <= symbol_count(lengths, len, b),
    decreases b - a,
{
    if a < b {
        lemma_count_monotonic(lengths, len, a, (b - 1) as nat);
    }
}

/// A symbol with a code comes before the end of the codes of its length:
/// fewer symbols of its length stand before it than there are in all.
proof fn lemma_rank_below_count(lengths: Seq<u8>, s: int)
    requires
        has_code(lengths, s),
    ensures
        symbol_count(lengths, lengths[s] as nat, s as nat) < codes_of_length(
            lengths,
            lengths[s] as nat,
        ),
{
    let len = lengths[s] as nat;
    assert(symbol_count(lengths, len, (s + 1) as nat) == symbol_count(lengths, len, s as nat) + 1);
    lemma_count_monotonic(lengths, len, (s + 1) as nat, lengths.len());
}

/// Of two symbols of one length, the earlier has the smaller rank.
proof fn lemma_rank_increases(lengths: Seq<u8>, s: int, t: int)
    requires
        has_code(lengths, s),
        has_code(lengths, t),
        lengths[s] == lengths[t],
        s < t,
    ensures
        symbol_count(lengths, lengths[s] as nat, s as nat) < symbol_count(
            lengths,
            lengths[s] as nat,
            t as nat,
        ),
{
    let len = lengths[s] as nat;
    assert(symbol_count(lengths, len, (s + 1) as nat) == symbol_count(lengths, len, s as nat) + 1);
    lemma_count_monotonic(lengths, len, (s + 1) as nat, t as nat);
}

/// Where no length is oversubscribed, the first code of each length is the
/// same with and without the limit of 16 bits.
proof fn lemma_first_code_exact(lengths: Seq<u8>, len: nat)
    requires
        not_oversubscribed(lengths),
        len <= 15,
    ensures
        first_code(lengths, len) == first_code_exact(lengths, len),
        first_code_exact(lengths, len) <= pow2(len),
    decreases len,
{
    lemma2_to64();
    if len > 0 {
        lemma_first_code_exact(lengths, (len - 1) as nat);
        assert(first_code_exact(lengths, len) + codes_of_length(lengths, len) <= pow2(len));
        lemma_pow2_strictly_increases(len, 16);
        vstd::arithmetic::div_mod::lemma_small_mod(first_code_exact(lengths, len), 0x10000);
    }
}

/// The canonical code of a symbol is the first code of its length plus its
/// rank, and fits in as many bits as its length.
proof fn lemma_code_value(lengths: Seq<u8>, s: int)
    requires
        valid_lengths(lengths),
        not_oversubscribed(lengths),
        has_code(lengths, s),
    ensures
        canonical_code(lengths, s) == first_code_exact(lengths, lengths[s] as nat) + symbol_count(
            lengths,
            lengths[s] as nat,
            s as nat,
        ),
        canonical_code(lengths, s) < first_code_exact(lengths, lengths[s] as nat)
            + codes_of_length(lengths, lengths[s] as nat),
        canonical_code(lengths, s) < pow2(lengths[s] as nat),
        canonical_code(lengths, s) < 0x10000,
{
    let len = lengths[s] as nat;
    lemma2_to64();
    lemma_first_code_exact(lengths, len);
    lemma_rank_below_count(lengths, s);
    assert(first_code_exact(lengths, len) + codes_of_length(lengths, len) <= pow2(len));
    lemma_pow2_strictly_increases(len, 16);
    vstd::arithmetic::div_mod::lemma_small_mod(
        first_code_exact(lengths, len) + symbol_count(lengths, len, s as nat),
        0x10000,
    );
}

/// Two symbols with the same length and the same code are one symbol.
pub proof fn lemma_codes_differ(lengths: Seq<u8>, s: int, t: int)
    requires
        valid_lengths(lengths),
        not_oversubscribed(lengths),
        has_code(lengths, s),
        has_code(lengths, t),
        lengths[s] == lengths[t],
        canonical_code(lengths, s) == canonical_code(lengths, t),
    ensures
        s == t,
{
    lemma_code_value(lengths, s);
    lemma_code_value(lengths, t);
    if s < t {
        lemma_rank_increases(lengths, s, t);
    } else if t < s {
        lemma_rank_increases(lengths, t, s);
    }
}

/// The first code of a longer length lies behind every code of a shorter
/// length, shifted to the longer length.
proof fn lemma_first_code_grows(lengths: Seq<u8>, short: nat, long: nat)
    requires
        short < long,
    ensures
        first_code_exact(lengths, long) >= pow2((long - short) as nat) * (first_code_exact(
            lengths,
            short,
        ) + codes_of_length(lengths, short)),
    decreases long - short,
{
    lemma2_to64();
    let end = first_code_exact(lengths, short) + codes_of_length(lengths, short);
    if long == short + 1 {
        assert(pow2(1) * end == 2 * end);
    } else {
        lemma_first_code_grows(lengths, short, (long - 1) as nat);
        let k = (long - 1 - short) as nat;
        lemma_pow2_unfold((long - short) as nat);
        let prev = first_code_exact(lengths, (long - 1) as nat);
        let more = codes_of_length(lengths, (long - 1) as nat);
        assert(2 * (prev + more) >= 2 * (pow2(k) * end)) by (nonlinear_arith)
            requires
                prev >= pow2(k) * end,
                more >= 0,
        ;
        assert(2 * (pow2(k) * end) == (2 * pow2(k)) * end) by (nonlinear_arith);
    }
}

/// No code is the start of a longer code: the first bits of the code of `s`
/// are not the code of a symbol `t` with a shorter code.
pub proof fn lemma_prefix_free(lengths: Seq<u8>, s: int, t: int)
    requires
        valid_lengths(lengths),
        not_oversubscribed(lengths),
        has_code(lengths, s),
        has_code(lengths, t),
        lengths[t] < lengths[s],
    ensures
        canonical_code(lengths, s) / pow2((lengths[s] - lengths[t]) as nat) != canonical_code(
            lengths,
            t,
        ),
{
    let long = lengths[s] as nat;
    let short = lengths[t] as nat;
    let k = (long - short) as nat;
    lemma_code_value(lengths, s);
    lemma_code_value(lengths, t);
    lemma_first_code_grows(lengths, short, long);
    lemma_pow2_pos(k);
    let end = first_code_exact(lengths, short) + codes_of_length(lengths, short);
    let c = canonical_code(lengths, s);
    assert(c >= pow2(k) * end);
    assert(c / pow2(k) >= end) by (nonlinear_arith)
        requires
            c >= pow2(k) * end,
            pow2(k) > 0,
    ;
}

/// Dropping one digit less from the end of a number keeps one more digit:
/// the digit that was dropped last.
proof fn lemma_shift_step(c: nat, k: nat)
    requires
        k >= 1,
    ensures
        c / pow2((k - 1) as nat) == 2 * (c / pow2(k)) + (c / pow2((k - 1) as nat)) % 2,
{
    let p = pow2((k - 1) as nat);
    lemma_pow2_pos((k - 1) as nat);
    lemma_pow2_unfold(k);
    let x = c / p;
    vstd::arithmetic::div_mod::lemma_div_denominator(c as int, p as int, 2);
    assert(p * 2 == pow2(k));
    assert(x / 2 == c / pow2(k));
    vstd::arithmetic::div_mod::lemma_fundamental_div_mod(x as int, 2);
}

/// While the bits spell a code, the bits read so far are the first digits
/// of that code.
proof fn lemma_code_at_prefix(buf: Seq<u8>, off: int, code: nat, len: nat, m: nat)
    requires
        spells(buf, off, code, len),
        code < pow2(len),
        len <= 15,
        m <= len,
    ensures
        code_at(buf, off, m) == code / pow2((len - m) as nat),
        code_at(buf, off, m) < pow2(m),
    decreases m,
{
    lemma2_to64();
    lemma_pow2_pos((len - m) as nat);
    if m == 0 {
        vstd::arithmetic::div_mod::lemma_basic_div(code as int, pow2(len) as int);
    } else {
        lemma_code_at_prefix(buf, off, code, len, (m - 1) as nat);
        let k = (len - m + 1) as nat;
        lemma_shift_step(code, k);
        assert(bit_at(buf, off + (m - 1) as nat) == code_bit(code, len, (m - 1) as nat));
        let prev = code_at(buf, off, (m - 1) as nat);
        let bit = bit_at(buf, off + m - 1);
        assert(bit == (code / pow2((len - m) as nat)) % 2);
        assert(prev == code / pow2(k));
        let now = 2 * prev + bit;
        assert(now == code / pow2((len - m) as nat));
        lemma_pow2_unfold(m);
        assert(now < pow2(m));
        lemma_pow2_strictly_increases(m, 16);
        vstd::arithmetic::div_mod::lemma_small_mod(now, 0x10000);
    }
}

/// What the book of the first `n` symbols holds: every entry is the code of
/// one of them, each of them finds itself under its code, and the lengths of
/// the book span their lengths.
proof fn lemma_book_upto(lengths: Seq<u8>, n: nat)
    requires
        valid_lengths(lengths),
        not_oversubscribed(lengths),
        n <= lengths.len(),
    ensures
        forall|len: nat, code: nat| #[trigger]
            book_upto(lengths, n).entries.contains_key((len, code)) ==> exists|t: int|
                0 <= t < n && has_code(lengths, t) && lengths[t] == len && #[trigger] canonical_code(
                    lengths,
                    t,
                ) == code,
        forall|t: int|
            0 <= t < n && has_code(lengths, t) ==> {
                &&& book_upto(lengths, n).entries.contains_key(
                    (lengths[t] as nat, #[trigger] canonical_code(lengths, t)),
                )
                &&& book_upto(lengths, n).entries[(lengths[t] as nat, canonical_code(lengths, t))]
                    == t
                &&& book_upto(lengths, n).min_len <= lengths[t] <= book_upto(lengths, n).max_len
            },
        book_upto(lengths, n).max_len <= 15,
    decreases n,
{
    if n > 0 {
        lemma_book_upto(lengths, (n - 1) as nat);
        let prev = book_upto(lengths, (n - 1) as nat);
        let now = book_upto(lengths, n);
        let s = (n - 1) as int;
        if lengths[s] != 0 {
            let key = (lengths[s] as nat, canonical_code(lengths, s));
            assert(now.entries == prev.entries.insert(key, s as u16));
            assert forall|len: nat, code: nat| #[trigger]
                now.entries.contains_key((len, code)) implies exists|t: int|
                0 <= t < n && has_code(lengths, t) && lengths[t] == len && #[trigger] canonical_code(
                    lengths,
                    t,
                ) == code by {
                if (len, code) == key {
                    assert(has_code(lengths, s) && canonical_code(lengths, s) == code);
                } else {
                    assert(prev.entries.contains_key((len, code)));
                }
            }
            assert forall|t: int| 0 <= t < n && has_code(lengths, t) implies {
                &&& now.entries.contains_key(
                    (lengths[t] as nat, #[trigger] canonical_code(lengths, t)),
                )
                &&& now.entries[(lengths[t] as nat, canonical_code(lengths, t))] == t
                &&& now.min_len <= lengths[t] <= now.max_len
            } by {
                if t != s {
                    if (lengths[t] as nat, canonical_code(lengths, t)) == key {
                        lemma_codes_differ(lengths, t, s);
                    }
                }
            }
        }
    }
}

/// Reading stops at no shorter length: while the bits spell the code of
/// `s`, no length from `m` up to the length of that code, but that length
/// itself, has a match.
proof fn lemma_decode_from(lengths: Seq<u8>, buf: Seq<u8>, off: int, s: int, m: nat)
    requires
        valid_lengths(lengths),
        not_oversubscribed(lengths),
        has_code(lengths, s),
        spells(buf, off, canonical_code(lengths, s), lengths[s] as nat),
        1 <= m <= lengths[s],
    ensures
        decode_from(canonical_book(lengths), buf, off, m) == Some((s as u16, lengths[s] as nat)),
    decreases lengths[s] - m,
{
    let book = canonical_book(lengths);
    let len = lengths[s] as nat;
    let code = canonical_code(lengths, s);
    lemma_book_upto(lengths, lengths.len());
    lemma_code_value(lengths, s);
    lemma_code_at_prefix(buf, off, code, len, m);
    assert(book.min_len <= len <= book.max_len);
    if m == len {
        lemma2_to64();
        assert(pow2((len - m) as nat) == 1);
        assert(code / 1 == code);
        assert(code_at(buf, off, m) == code);
    } else {
        if book.entries.contains_key((m, code_at(buf, off, m))) {
            let t = choose|t: int|
                0 <= t < lengths.len() && has_code(lengths, t) && lengths[t] == m
                    && #[trigger] canonical_code(lengths, t) == code_at(buf, off, m);
            lemma_prefix_free(lengths, s, t);
        }
        lemma_decode_from(lengths, buf, off, s, m + 1);
    }
}

/// Where the bits spell the canonical code of a symbol, the canonical table
/// reads that symbol and stops behind its code.
pub proof fn lemma_decode_reads_code(lengths: Seq<u8>, buf: Seq<u8>, off: int, s: int)
    requires
        valid_lengths(lengths),
        not_oversubscribed(lengths),
        has_code(lengths, s),
        spells(buf, off, canonical_code(lengths, s), lengths[s] as nat),
    ensures
        decode_symbol(canonical_book(lengths), buf, off) == Some((s as u16, lengths[s] as nat)),
{
    lemma_decode_from(lengths, buf, off, s, 1);
}

/// Encoding a sequence of symbols with the canonical codes and decoding the
/// bits gives the sequence back: where the bits from `off` on spell the
/// codes of `symbols` one after the other, the canonical table reads
/// exactly `symbols` and ends behind the last code. This holds for code
/// lengths that are not oversubscribed.
pub proof fn lemma_decode_inverts_encode(
    lengths: Seq<u8>,
    buf: Seq<u8>,
    off: int,
    symbols: Seq<u16>,
)
    requires
        valid_lengths(lengths),
        not_oversubscribed(lengths),
        encoded_at(buf, off, lengths, symbols),
    ensures
        decoded_run(canonical_book(lengths), buf, off, symbols.len()) == Some(
            (symbols, off + encoded_len(lengths, symbols)),
        ),
    decreases symbols.len(),
{
    if symbols.len() > 0 {
        let s = symbols[0] as int;
        lemma_decode_reads_code(lengths, buf, off, s);
        lemma_decode_inverts_encode(lengths, buf, off + lengths[s], symbols.drop_first());
        assert(seq![symbols[0]] + symbols.drop_first() =~= symbols);
    } else {
        assert(symbols =~= Seq::<u16>::empty());
    }
}

} // verus!
