//! Canonical Huffman tables: built from per-symbol code lengths, read from a
//! bit stream most significant bit first.

use vstd::prelude::*;
use std::collections::HashMap;
use crate::bit::{bit_at, bits_in_range, addressable, read_one_bit};
use crate::error::DecodeError;

verus! {

broadcast use vstd::std_specs::hash::group_hash_axioms;

/// What a table holds: for each code length and code value the symbol it
/// stands for, with the shortest and the longest length ever added.
pub struct Codebook {
    pub entries: Map<(nat, nat), u16>,
    pub min_len: nat,
    pub max_len: nat,
}

impl Codebook {
    /// The book with no code: nothing is shorter than 255, nothing longer than 0.
    pub open spec fn empty() -> Codebook {
        Codebook { entries: Map::empty(), min_len: 255, max_len: 0 }
    }

    /// This book after the code `code` of `len` bits is given to `symbol`.
    pub open spec fn with(self, len: nat, code: nat, symbol: u16) -> Codebook {
        Codebook {
            entries: self.entries.insert((len, code), symbol),
            min_len: if len < self.min_len {
                len
            } else {
                self.min_len
            },
            max_len: if len > self.max_len {
                len
            } else {
                self.max_len
            },
        }
    }
}

/// The code made of the `len` bits from `off` on, the first bit read being the
/// highest digit; only the low 16 digits are kept.
pub open spec fn code_at(buf: Seq<u8>, off: int, len: nat) -> nat
    decreases len,
{
    if len == 0 {
        0
    } else {
        (2 * code_at(buf, off, (len - 1) as nat) + bit_at(buf, off + len - 1)) % 0x10000
    }
}

/// The first match among the code lengths `len`, `len + 1`, ... up to the
/// longest of the book: the symbol and the number of bits of its code.
/// `None` when the buffer ends first or no length matches.
pub open spec fn decode_from(book: Codebook, buf: Seq<u8>, off: int, len: nat) -> Option<
    (u16, nat),
>
    decreases book.max_len + 1 - len,
{
    if len > book.max_len || !bits_in_range(buf, off, len) {
        None
    } else if len >= book.min_len && book.entries.contains_key((len, code_at(buf, off, len))) {
        Some((book.entries[(len, code_at(buf, off, len))], len))
    } else {
        decode_from(book, buf, off, len + 1)
    }
}

/// The symbol whose code starts at bit offset `off`, and the length of that
/// code: the shortest code of the book, of at least one bit, that the bits spell.
pub open spec fn decode_symbol(book: Codebook, buf: Seq<u8>, off: int) -> Option<(u16, nat)> {
    decode_from(book, buf, off, 1)
}

/// A decoded code has at least one bit and lies inside the buffer.
pub proof fn lemma_decode_from_bounds(book: Codebook, buf: Seq<u8>, off: int, len: nat)
    requires
        len >= 1,
    ensures
        decode_from(book, buf, off, len) matches Some((_, n)) ==> len <= n <= book.max_len
            && bits_in_range(buf, off, n),
    decreases book.max_len + 1 - len,
{
    if len > book.max_len || !bits_in_range(buf, off, len) {
    } else if len >= book.min_len && book.entries.contains_key((len, code_at(buf, off, len))) {
    } else {
        lemma_decode_from_bounds(book, buf, off, len + 1);
    }
}

/// How many of the symbols below `upto` have a code of `len` bits.
pub open spec fn symbol_count(lengths: Seq<u8>, len: nat, upto: nat) -> nat
    decreases upto,
{
    if upto == 0 {
        0
    } else {
        let rest = symbol_count(lengths, len, (upto - 1) as nat);
        if upto - 1 < lengths.len() && lengths[upto - 1] == len {
            rest + 1
        } else {
            rest
        }
    }
}

/// How many symbols have a code of `len` bits; a length of 0 marks a symbol
/// without a code, so there are none of that length.
pub open spec fn codes_of_length(lengths: Seq<u8>, len: nat) -> nat {
    if len == 0 {
        0
    } else {
        symbol_count(lengths, len, lengths.len())
    }
}

/// The smallest code of `len` bits: twice the code that follows the last code
/// of `len - 1` bits, kept to 16 digits.
pub open spec fn first_code(lengths: Seq<u8>, len: nat) -> nat
    decreases len,
{
    if len == 0 {
        0
    } else {
        (2 * (first_code(lengths, (len - 1) as nat) + codes_of_length(lengths, (len - 1) as nat)))
            % 0x10000
    }
}

/// The canonical code of `symbol`: codes of one length are consecutive and go
/// to the symbols of that length in ascending order.
pub open spec fn canonical_code(lengths: Seq<u8>, symbol: int) -> nat {
    (first_code(lengths, lengths[symbol] as nat) + symbol_count(
        lengths,
        lengths[symbol] as nat,
        symbol as nat,
    )) % 0x10000
}

/// The book that holds the canonical codes of the symbols below `n`.
pub open spec fn book_upto(lengths: Seq<u8>, n: nat) -> Codebook
    decreases n,
{
    if n == 0 {
        Codebook::empty()
    } else {
        let prev = book_upto(lengths, (n - 1) as nat);
        if lengths[n - 1] != 0 {
            prev.with(lengths[n - 1] as nat, canonical_code(lengths, n - 1), (n - 1) as u16)
        } else {
            prev
        }
    }
}

/// The canonical Huffman book of the code lengths `lengths`, where
/// `lengths[s]` is the length of the code of symbol `s` and 0 leaves `s` out.
pub open spec fn canonical_book(lengths: Seq<u8>) -> Codebook {
    book_upto(lengths, lengths.len())
}

/// Whether `lengths` can be given to the table builder: symbols fit in 16
/// bits and no code is longer than 15 bits.
pub open spec fn valid_lengths(lengths: Seq<u8>) -> bool {
    &&& lengths.len() <= 0x10000
    &&& forall|i: int| 0 <= i < lengths.len() ==> #[trigger] lengths[i] <= 15
}

/// A map from symbol to code length, written out for every 16-bit symbol:
/// a symbol that the map leaves out has length 0.
pub open spec fn dense_lengths(m: Map<u16, u8>) -> Seq<u8> {
    Seq::new(
        0x10000,
        |s: int|
            if m.contains_key(s as u16) {
                m[s as u16]
            } else {
                0u8
            },
    )
}

/// Where in the hash map the code `code` of `len` bits is kept.
pub open spec fn slot(len: nat, code: nat) -> u32 {
    (len * 0x10000 + code) as u32
}

/// A table from (code length, code) to symbol.
#[derive(Debug)]
pub struct HuffmanTable {
    map: HashMap<u32, u16>,
    min_len: u8,
    max_len: u8,
}

impl View for HuffmanTable {
    type V = Codebook;

    closed spec fn view(&self) -> Codebook {
        Codebook {
            entries: Map::new(
                |k: (nat, nat)| k.0 <= 255 && k.1 <= 0xffff && self.map@.contains_key(slot(k.0, k.1)),
                |k: (nat, nat)| self.map@[slot(k.0, k.1)],
            ),
            min_len: self.min_len as nat,
            max_len: self.max_len as nat,
        }
    }
}

impl HuffmanTable {
    /// An empty table.
    pub fn new() -> (table: HuffmanTable)
        ensures
            table@ == Codebook::empty(),
    {
        let table = HuffmanTable { map: HashMap::new(), min_len: u8::MAX, max_len: u8::MIN };
        assert(table@.entries =~= Map::<(nat, nat), u16>::empty());
        table
    }

    /// Gives the code `code` of `length` bits to the symbol `value`.
    pub fn add(&mut self, length: u8, code: u16, value: u16)
        ensures
            final(self)@ == old(self)@.with(length as nat, code as nat, value),
    {
        self.min_len = if length < self.min_len { length } else { self.min_len };
        self.max_len = if length > self.max_len { length } else { self.max_len };
        let key: u32 = length as u32 * 0x10000 + code as u32;
        self.map.insert(key, value);
        proof {
            let ghost want = old(self)@.with(length as nat, code as nat, value);
            assert(key == slot(length as nat, code as nat));
            assert forall|k: (nat, nat)| #[trigger]
                self@.entries.dom().contains(k) == want.entries.dom().contains(k) by {
                if k.0 <= 255 && k.1 <= 0xffff {
                    assert(slot(k.0, k.1) == key <==> k == (length as nat, code as nat));
                }
            }
            assert forall|k: (nat, nat)| #[trigger]
                self@.entries.dom().contains(k) implies self@.entries[k] == want.entries[k] by {
                assert(slot(k.0, k.1) == key <==> k == (length as nat, code as nat));
            }
            assert(self@.entries =~= want.entries);
        }
    }

    /// The canonical table of the code lengths `lengths`, where
    /// `lengths[s]` is the length of the code of symbol `s` and 0 leaves `s` out.
    pub fn from_lengths(lengths: &[u8]) -> (table: HuffmanTable)
        requires
            valid_lengths(lengths@),
        ensures
            table@ == canonical_book(lengths@),
    {
        let codes = codes_of_lengths(lengths);
        let mut table = HuffmanTable::new();
        let n: usize = lengths.len();
        let mut s: usize = 0;
        while s < n
            invariant
                s <= n,
                n == lengths@.len(),
                n <= 0x10000,
                codes@.len() == n,
                forall|t: int|
                    0 <= t < n ==> #[trigger] codes@[t] as nat == if lengths@[t] != 0 {
                        canonical_code(lengths@, t)
                    } else {
                        0
                    },
                table@ == book_upto(lengths@, s as nat),
            decreases n - s,
        {
            let length: u8 = lengths[s];
            if length != 0 {
                table.add(length, codes[s], s as u16);
            }
            s += 1;
        }
        table
    }

    /// The canonical table of a map from symbol to code length. A symbol that
    /// the map leaves out, or maps to 0, gets no code.
    pub fn from_code_lengths(lengths: &HashMap<u16, u8>) -> (table: HuffmanTable)
        requires
            forall|s: u16| lengths@.contains_key(s) ==> #[trigger] lengths@[s] <= 15,
        ensures
            table@ == canonical_book(dense_lengths(lengths@)),
    {
        let dense = densify(lengths);
        HuffmanTable::from_lengths(dense.as_slice())
    }

    /// Reads one symbol at `bit_offset`: bits are taken one at a time, each
    /// becoming the new lowest digit of the code, and the first length from
    /// the shortest of the table on at which the code has a symbol wins.
    /// Returns the symbol and the offset just behind its code; fails with
    /// `Corrupted` when the buffer ends or no length up to the longest matches.
    pub fn decode(&self, buffer: &[u8], bit_offset: usize) -> (r: Result<(u16, usize), DecodeError>)
        requires
            addressable(buffer@),
        ensures
            match decode_symbol(self@, buffer@, bit_offset as int) {
                Some((symbol, len)) => r == Ok::<(u16, usize), DecodeError>(
                    (symbol, (bit_offset + len) as usize),
                ) && bit_offset + len <= 8 * buffer@.len(),
                None => r == Err::<(u16, usize), DecodeError>(DecodeError::Corrupted),
            },
    {
        let total: usize = buffer.len() * 8;
        let mut code: u16 = 0;
        let mut len: usize = 1;
        while len <= self.max_len as usize
            invariant
                1 <= len <= self.max_len + 1,
                total == 8 * buffer@.len(),
                code as nat == code_at(buffer@, bit_offset as int, (len - 1) as nat),
                len > 1 ==> bits_in_range(buffer@, bit_offset as int, (len - 1) as nat),
                decode_symbol(self@, buffer@, bit_offset as int) == decode_from(
                    self@,
                    buffer@,
                    bit_offset as int,
                    len as nat,
                ),
            decreases self.max_len + 1 - len,
        {
            if bit_offset >= total || len > total - bit_offset {
                return Err(DecodeError::Corrupted);
            }
            let bit: u16 = read_one_bit(buffer, bit_offset + (len - 1)) as u16;
            let ghost prev = code;
            code = (code << 1) | bit;
            proof {
                assert(bit <= 1 ==> (prev << 1) | bit == (2 * prev + bit) % 0x10000) by (bit_vector);
            }
            if len >= self.min_len as usize {
                let key: u32 = len as u32 * 0x10000 + code as u32;
                assert(key == slot(len as nat, code as nat));
                match self.map.get(&key) {
                    Some(value) => {
                        return Ok((*value, bit_offset + len));
                    },
                    None => {},
                }
            }
            len += 1;
        }
        Err(DecodeError::Corrupted)
    }
}

/// A vector of `n` zeros.
fn zeros(n: usize) -> (v: Vec<u32>)
    ensures
        v@.len() == n,
        forall|i: int| 0 <= i < n ==> v@[i] == 0,
{
    let mut v: Vec<u32> = Vec::new();
    let mut i: usize = 0;
    while i < n
        invariant
            i <= n,
            v@.len() == i,
            forall|j: int| 0 <= j < i ==> v@[j] == 0,
        decreases n - i,
    {
        v.push(0);
        i += 1;
    }
    v
}

/// The canonical code of every symbol, by symbol; 0 for a symbol of length 0.
pub fn codes_of_lengths(lengths: &[u8]) -> (codes: Vec<u16>)
    requires
        valid_lengths(lengths@),
    ensures
        codes@.len() == lengths@.len(),
        forall|s: int|
            0 <= s < lengths@.len() ==> #[trigger] codes@[s] as nat == if lengths@[s] != 0 {
                canonical_code(lengths@, s)
            } else {
                0
            },
{
    let n: usize = lengths.len();
    let mut count: Vec<u32> = zeros(16);
    let mut i: usize = 0;
    while i < n
        invariant
            i <= n,
            n == lengths@.len(),
            valid_lengths(lengths@),
            count@.len() == 16,
            forall|l: int|
                0 <= l < 16 ==> #[trigger] count@[l] as nat == symbol_count(
                    lengths@,
                    l as nat,
                    i as nat,
                ),
            forall|l: int| 0 <= l < 16 ==> #[trigger] count@[l] <= i,
        decreases n - i,
    {
        let l: usize = lengths[i] as usize;
        let c: u32 = count[l];
        count.set(l, c + 1);
        i += 1;
    }
    count.set(0, 0);
    let mut next: Vec<u32> = zeros(16);
    let mut code: u32 = 0;
    let mut bits: usize = 1;
    while bits < 16
        invariant
            1 <= bits <= 16,
            n == lengths@.len(),
            n <= 0x10000,
            count@.len() == 16,
            next@.len() == 16,
            forall|l: int|
                0 <= l < 16 ==> #[trigger] count@[l] as nat == codes_of_length(
                    lengths@,
                    l as nat,
                ),
            forall|l: int| 0 <= l < 16 ==> #[trigger] count@[l] <= 0x10000,
            forall|l: int|
                0 <= l < bits ==> #[trigger] next@[l] as nat == first_code(lengths@, l as nat),
            code as nat == first_code(lengths@, (bits - 1) as nat),
            code < 0x10000,
        decreases 16 - bits,
    {
        code = ((code + count[bits - 1]) * 2) % 0x10000;
        next.set(bits, code);
        bits += 1;
    }
    let mut codes: Vec<u16> = Vec::new();
    let mut s: usize = 0;
    while s < n
        invariant
            s <= n,
            n == lengths@.len(),
            valid_lengths(lengths@),
            next@.len() == 16,
            codes@.len() == s,
            forall|l: int|
                1 <= l < 16 ==> #[trigger] next@[l] as nat == (first_code(lengths@, l as nat)
                    + symbol_count(lengths@, l as nat, s as nat)) % 0x10000,
            forall|t: int|
                0 <= t < s ==> #[trigger] codes@[t] as nat == if lengths@[t] != 0 {
                    canonical_code(lengths@, t)
                } else {
                    0
                },
        decreases n - s,
    {
        let l: usize = lengths[s] as usize;
        if l != 0 {
            let c: u32 = next[l];
            codes.push(c as u16);
            next.set(l, (c + 1) % 0x10000);
            proof {
                let ghost f = first_code(lengths@, l as nat);
                let ghost k = symbol_count(lengths@, l as nat, s as nat);
                assert(((f + k) % 0x10000 + 1) % 0x10000 == (f + k + 1) % 0x10000) by {
                    vstd::arithmetic::div_mod::lemma_add_mod_noop((f + k) as int, 1, 0x10000);
                }
            }
        } else {
            codes.push(0);
        }
        s += 1;
    }
    codes
}

/// Writes a map from symbol to code length out for every 16-bit symbol.
fn densify(lengths: &HashMap<u16, u8>) -> (dense: Vec<u8>)
    ensures
        dense@ == dense_lengths(lengths@),
{
    let mut dense: Vec<u8> = Vec::new();
    let mut s: u32 = 0;
    while s < 0x10000
        invariant
            s <= 0x10000,
            dense@.len() == s,
            forall|t: int| 0 <= t < s ==> #[trigger] dense@[t] == dense_lengths(lengths@)[t],
        decreases 0x10000 - s,
    {
        let key: u16 = s as u16;
        let length: u8 = match lengths.get(&key) {
            Some(l) => *l,
            None => 0,
        };
        dense.push(length);
        s += 1;
    }
    assert(dense@ =~= dense_lengths(lengths@));
    dense
}

/// The canonical code of every symbol that the map gives a nonzero length.
pub fn lengths_to_codes(lengths: &HashMap<u16, u8>) -> (codes: HashMap<u16, u16>)
    requires
        forall|s: u16| lengths@.contains_key(s) ==> #[trigger] lengths@[s] <= 15,
    ensures
        forall|s: u16|
            #[trigger] codes@.contains_key(s) <==> lengths@.contains_key(s) && lengths@[s] != 0,
        forall|s: u16|
            codes@.contains_key(s) ==> #[trigger] codes@[s] as nat == canonical_code(
                dense_lengths(lengths@),
                s as int,
            ),
{
    let dense = densify(lengths);
    let all = codes_of_lengths(dense.as_slice());
    let mut codes: HashMap<u16, u16> = HashMap::new();
    let mut s: u32 = 0;
    while s < 0x10000
        invariant
            s <= 0x10000,
            dense@ == dense_lengths(lengths@),
            all@.len() == 0x10000,
            forall|t: int|
                0 <= t < 0x10000 ==> #[trigger] all@[t] as nat == if dense@[t] != 0 {
                    canonical_code(dense@, t)
                } else {
                    0
                },
            forall|t: u16|
                #[trigger] codes@.contains_key(t) <==> t < s && lengths@.contains_key(t)
                    && lengths@[t] != 0,
            forall|t: u16|
                codes@.contains_key(t) ==> #[trigger] codes@[t] as nat == canonical_code(
                    dense@,
                    t as int,
                ),
        decreases 0x10000 - s,
    {
        if dense[s as usize] != 0 {
            codes.insert(s as u16, all[s as usize]);
        }
        s += 1;
    }
    codes
}

} // verus!
