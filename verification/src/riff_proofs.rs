//! Writing a well-formed chunk tree and parsing the bytes gives the tree
//! back.

use vstd::prelude::*;
use vstd::utf8::{
    encode_utf8, is_ascii_chars, is_ascii_chars_encode_utf8, encode_utf8_valid_utf8,
    encode_utf8_decode_utf8,
};
use crate::bytes::{le32, le32_at};
use crate::riff::{
    ChunkTree, chunk_at, chunks_in, emitted, emitted_all, is_list_tag, list_size, text,
};

verus! {

/// Text of four ASCII characters.
pub open spec fn four_ascii(s: Seq<char>) -> bool {
    s.len() == 4 && is_ascii_chars(s)
}

/// Whether the id `id` is that of a list.
pub open spec fn is_list_id(id: Seq<char>) -> bool {
    is_list_tag(encode_utf8(id))
}

/// A chunk tree as a builder makes it and a file can hold it: ids and form
/// types are four ASCII characters; a chunk with the id `RIFF` or `LIST` has
/// a form type, children that are all well formed, no data, and declares
/// the size of its children; any other chunk has data of even length, whose
/// length it declares, and neither form type nor children; every size fits
/// in 32 bits.
pub open spec fn well_formed(t: ChunkTree) -> bool
    decreases t,
{
    &&& four_ascii(t.id)
    &&& t.size <= u32::MAX
    &&& if is_list_id(t.id) {
        &&& four_ascii(t.form_type)
        &&& t.data.len() == 0
        &&& t.size == list_size(t.children)
        &&& forall|i: int| 0 <= i < t.children.len() ==> well_formed(#[trigger] t.children[i])
    } else {
        &&& t.form_type.len() == 0
        &&& t.children.len() == 0
        &&& t.size == t.data.len()
        &&& t.size % 2 == 0
    }
}

/// Four ASCII characters are written as four bytes, and read back as the
/// same characters.
proof fn lemma_four_ascii(s: Seq<char>)
    requires
        four_ascii(s),
    ensures
        encode_utf8(s).len() == 4,
        text(encode_utf8(s)) == s,
{
    is_ascii_chars_encode_utf8(s);
    encode_utf8_valid_utf8(s);
    encode_utf8_decode_utf8(s);
}

/// Four bytes written lowest first read back as the number, wherever in a
/// buffer they stand.
proof fn lemma_le32_at(b: Seq<u8>, k: int, v: nat)
    requires
        v <= u32::MAX,
        0 <= k,
        k + 4 <= b.len(),
        b.subrange(k, k + 4) == le32(v),
    ensures
        le32_at(b, k) == v,
{
    let part = b.subrange(k, k + 4);
    assert(part[0] == b[k] && part[1] == b[k + 1] && part[2] == b[k + 2] && part[3] == b[k + 3]);
}

/// The size that a list declares, taken child by child from the front.
proof fn lemma_list_size_prefix(ts: Seq<ChunkTree>, n: nat)
    requires
        0 < n <= ts.len(),
    ensures
        list_size(ts.subrange(0, n as int)) == list_size(ts.subrange(0, n - 1)) + ts[n - 1].size
            + 8,
{
    assert(ts.subrange(0, n as int).drop_last() =~= ts.subrange(0, n - 1));
}

/// A well-formed chunk is written as 8 bytes and as many more as its size
/// says, and its size is even.
pub proof fn lemma_emitted_len(t: ChunkTree)
    requires
        well_formed(t),
    ensures
        emitted(t).len() == 8 + t.size,
        t.size % 2 == 0,
    decreases t, 0nat,
{
    lemma_four_ascii(t.id);
    if is_list_id(t.id) {
        lemma_four_ascii(t.form_type);
        lemma_emitted_all_len(t.children, t.children.len());
        assert(t.children.subrange(0, t.children.len() as int) =~= t.children);
    }
}

/// The first `n` of a sequence of well-formed chunks are written as 4 bytes
/// less than a list of them declares, which is an even number.
pub proof fn lemma_emitted_all_len(ts: Seq<ChunkTree>, n: nat)
    requires
        n <= ts.len(),
        forall|i: int| 0 <= i < ts.len() ==> well_formed(#[trigger] ts[i]),
    ensures
        emitted_all(ts, n).len() + 4 == list_size(ts.subrange(0, n as int)),
        emitted_all(ts, n).len() % 2 == 0,
    decreases ts, n,
{
    if n == 0 {
        assert(ts.subrange(0, 0) =~= Seq::<ChunkTree>::empty());
    } else {
        lemma_emitted_all_len(ts, (n - 1) as nat);
        lemma_emitted_len(ts[n - 1]);
        lemma_list_size_prefix(ts, n);
    }
}

/// What is written for the first `k` chunks is the start of what is
/// written for the first `n`.
proof fn lemma_emitted_all_prefix(ts: Seq<ChunkTree>, k: nat, n: nat)
    requires
        k <= n <= ts.len(),
    ensures
        emitted_all(ts, k).len() <= emitted_all(ts, n).len(),
        emitted_all(ts, n).subrange(0, emitted_all(ts, k).len() as int) == emitted_all(ts, k),
    decreases n - k,
{
    if k < n {
        lemma_emitted_all_prefix(ts, k, (n - 1) as nat);
        let shorter = emitted_all(ts, (n - 1) as nat);
        let all = emitted_all(ts, n);
        assert(all == shorter + emitted(ts[n - 1]));
        assert(all.subrange(0, emitted_all(ts, k).len() as int) =~= shorter.subrange(
            0,
            emitted_all(ts, k).len() as int,
        ));
    } else {
        assert(emitted_all(ts, n).subrange(0, emitted_all(ts, n).len() as int) =~= emitted_all(
            ts,
            n,
        ));
    }
}

/// Where the bytes of a well-formed chunk stand in a buffer, the parser
/// finds that chunk.
pub proof fn lemma_chunk_at_emitted(b: Seq<u8>, off: int, t: ChunkTree)
    requires
        well_formed(t),
        0 <= off,
        off + emitted(t).len() <= b.len(),
        b.subrange(off, off + emitted(t).len()) == emitted(t),
    ensures
        chunk_at(b, off) == Some(t),
    decreases t, 0nat,
{
    lemma_emitted_len(t);
    lemma_four_ascii(t.id);
    let e = emitted(t);
    let id = encode_utf8(t.id);
    let size_bytes = le32(t.size % 0x1_0000_0000);
    assert(t.size % 0x1_0000_0000 == t.size);
    let tag = b.subrange(off, off + 4);
    assert(tag =~= id) by {
        assert(tag =~= e.subrange(0, 4));
        assert(e.subrange(0, 4) =~= id);
    }
    assert(b.subrange(off + 4, off + 8) =~= size_bytes) by {
        assert(b.subrange(off + 4, off + 8) =~= e.subrange(4, 8));
        assert(e.subrange(4, 8) =~= size_bytes);
    }
    lemma_le32_at(b, off + 4, t.size);
    if is_list_id(t.id) {
        lemma_four_ascii(t.form_type);
        let form = encode_utf8(t.form_type);
        let n = t.children.len();
        let body = emitted_all(t.children, n);
        lemma_emitted_all_len(t.children, n);
        assert(t.children.subrange(0, n as int) =~= t.children);
        assert(b.subrange(off + 8, off + 12) =~= form) by {
            assert(b.subrange(off + 8, off + 12) =~= e.subrange(8, 12));
            assert(e.subrange(8, 12) =~= form);
        }
        assert(b.subrange(off + 12, off + 12 + body.len()) =~= body) by {
            assert(b.subrange(off + 12, off + 12 + body.len()) =~= e.subrange(
                12,
                12 + body.len() as int,
            ));
            assert(e.subrange(12, 12 + body.len() as int) =~= body);
        }
        lemma_chunks_in_emitted(b, off + 12, t.children, 0, Seq::empty());
        assert(emitted_all(t.children, 0).len() == 0);
        assert(Seq::<ChunkTree>::empty() + t.children.subrange(0, n as int) =~= t.children);
        let got = chunk_at(b, off)->0;
        assert(got.data =~= t.data);
        assert(chunk_at(b, off) == Some(t));
    } else {
        assert(b.subrange(off + 8, off + 8 + t.size) =~= t.data) by {
            assert(b.subrange(off + 8, off + 8 + t.size) =~= e.subrange(8, 8 + t.size as int));
            assert(e.subrange(8, 8 + t.size as int) =~= t.data);
        }
        let got = chunk_at(b, off)->0;
        assert(got.form_type =~= t.form_type);
        assert(got.children =~= t.children);
        assert(chunk_at(b, off) == Some(t));
    }
}

/// Where the bytes of a sequence of well-formed chunks stand in a buffer
/// from byte `start` on, the parser finds the chunks from the `k`-th on.
pub proof fn lemma_chunks_in_emitted(
    b: Seq<u8>,
    start: int,
    ts: Seq<ChunkTree>,
    k: nat,
    acc: Seq<ChunkTree>,
)
    requires
        k <= ts.len(),
        forall|i: int| 0 <= i < ts.len() ==> well_formed(#[trigger] ts[i]),
        0 <= start,
        start + emitted_all(ts, ts.len()).len() <= b.len(),
        b.subrange(start, start + emitted_all(ts, ts.len()).len()) == emitted_all(ts, ts.len()),
    ensures
        chunks_in(
            b,
            start + emitted_all(ts, k).len(),
            start + emitted_all(ts, ts.len()).len(),
            acc,
        ) == Some(acc + ts.subrange(k as int, ts.len() as int)),
    decreases ts, ts.len() - k,
{
    let n = ts.len();
    let all = emitted_all(ts, n);
    let end = start + all.len();
    let at = start + emitted_all(ts, k).len();
    lemma_emitted_all_prefix(ts, k, n);
    if k == n {
        assert(acc + ts.subrange(k as int, n as int) =~= acc);
    } else {
        let child = ts[k as int];
        let next = emitted_all(ts, k + 1);
        lemma_emitted_all_prefix(ts, k + 1, n);
        lemma_emitted_len(child);
        assert(next == emitted_all(ts, k) + emitted(child));
        assert(b.subrange(at, at + emitted(child).len()) =~= emitted(child)) by {
            assert(b.subrange(at, at + emitted(child).len()) =~= all.subrange(
                at - start,
                at - start + emitted(child).len(),
            ));
            assert(all.subrange(at - start, at - start + emitted(child).len()) =~= all.subrange(
                0,
                next.len() as int,
            ).subrange(at - start, at - start + emitted(child).len()));
        }
        lemma_chunk_at_emitted(b, at, child);
        lemma_chunks_in_emitted(b, start, ts, k + 1, acc.push(child));
        assert(acc.push(child) + ts.subrange(k as int + 1, n as int) =~= acc + ts.subrange(
            k as int,
            n as int,
        ));
    }
}

/// Parsing what was written gives the tree back: for every well-formed
/// chunk tree, the parser reads from the bytes of the tree a tree with the
/// same ids, sizes, form types, children and data.
pub proof fn lemma_parse_inverts_write(t: ChunkTree)
    requires
        well_formed(t),
    ensures
        chunk_at(emitted(t), 0) == Some(t),
{
    let b = emitted(t);
    assert(b.subrange(0, b.len() as int) =~= b);
    lemma_chunk_at_emitted(b, 0, t);
}

} // verus!
