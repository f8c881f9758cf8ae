//! Uncompressed AVI files: the fixed headers, the index, and the chunk tree
//! that holds a sequence of frames.

use vstd::prelude::*;
use crate::bytes::{le16, le32, push_le16, push_le32, push_all, copy_range};
use crate::riff::{Chunk, ChunkTree, forest, list_size, lemma_forest_push};

verus! {

/// Index flag: the chunk is a list.
pub const AVIIF_LIST: u32 = 0x1;

/// Index flag: the frame is a key frame.
pub const AVIIF_KEYFRAME: u32 = 0x10;

/// Index flag: the chunk belongs to the compressor.
pub const AVIIF_COMPRESSOR: u32 = 0x100;

/// The main header of an AVI file, 56 bytes.
pub struct AVIHeader {
    pub micro_sec_per_frame: u32,
    pub max_bytes_per_sec: u32,
    pub padding_granularity: u32,
    pub flags: u32,
    pub total_frames: u32,
    pub initial_frames: u32,
    pub streams: u32,
    pub suggested_buffer_size: u32,
    pub width: u32,
    pub height: u32,
    pub reserved: [u32; 4],
}

/// One entry of the old-style index, 16 bytes.
pub struct AVIOldIndex {
    pub chunk_id: [u8; 4],
    pub flags: u32,
    pub offset: u32,
    pub size: u32,
}

/// The header of one stream, 56 bytes.
pub struct AVIStreamHeader {
    pub fcc_type: [u8; 4],
    pub fcc_handler: [u8; 4],
    pub flags: u32,
    pub priority: u16,
    pub language: u16,
    pub initial_frames: u32,
    pub scale: u32,
    pub rate: u32,
    pub start: u32,
    pub length: u32,
    pub suggested_buffer_size: u32,
    pub quality: u32,
    pub sample_size: u32,
    pub frame_left: i16,
    pub frame_top: i16,
    pub frame_right: i16,
    pub frame_bottom: i16,
}

/// The format of a video stream, 40 bytes.
pub struct BitMapInfoHeader {
    pub size: u32,
    pub width: i32,
    pub height: i32,
    pub planes: u16,
    pub bit_count: u16,
    pub compression: u32,
    pub size_image: u32,
    pub x_pels_per_meter: i32,
    pub y_pels_per_meter: i32,
    pub clr_used: u32,
    pub clr_important: u32,
}

/// The 16-bit number that stands for `v` in two's complement.
pub open spec fn twos16(v: int) -> nat {
    if v >= 0 {
        v as nat
    } else {
        (v + 0x1_0000) as nat
    }
}

/// The 32-bit number that stands for `v` in two's complement.
pub open spec fn twos32(v: int) -> nat {
    if v >= 0 {
        v as nat
    } else {
        (v + 0x1_0000_0000) as nat
    }
}

/// Appends the two bytes of `v` in two's complement, low byte first.
fn push_le16_signed(out: &mut Vec<u8>, v: i16)
    ensures
        final(out)@ == old(out)@ + le16(twos16(v as int)),
{
    let u: u16 = if v >= 0 {
        v as u16
    } else {
        (v as i32 + 0x1_0000) as u16
    };
    push_le16(out, u);
}

/// Appends the four bytes of `v` in two's complement, lowest first.
fn push_le32_signed(out: &mut Vec<u8>, v: i32)
    ensures
        final(out)@ == old(out)@ + le32(twos32(v as int)),
{
    let u: u32 = if v >= 0 {
        v as u32
    } else {
        (v as i64 + 0x1_0000_0000) as u32
    };
    push_le32(out, u);
}

impl AVIHeader {
    /// The 56 bytes of the header: its fields in order, each as four bytes,
    /// lowest first.
    pub open spec fn bytes(self) -> Seq<u8> {
        le32(self.micro_sec_per_frame as nat) + le32(self.max_bytes_per_sec as nat) + le32(
            self.padding_granularity as nat,
        ) + le32(self.flags as nat) + le32(self.total_frames as nat) + le32(
            self.initial_frames as nat,
        ) + le32(self.streams as nat) + le32(self.suggested_buffer_size as nat) + le32(
            self.width as nat,
        ) + le32(self.height as nat) + le32(self.reserved[0] as nat) + le32(
            self.reserved[1] as nat,
        ) + le32(self.reserved[2] as nat) + le32(self.reserved[3] as nat)
    }

    /// Writes the header out.
    pub fn to_bytes(&self) -> (out: Vec<u8>)
        ensures
            out@ == self.bytes(),
            out@.len() == 56,
    {
        let mut out: Vec<u8> = Vec::new();
        push_le32(&mut out, self.micro_sec_per_frame);
        push_le32(&mut out, self.max_bytes_per_sec);
        push_le32(&mut out, self.padding_granularity);
        push_le32(&mut out, self.flags);
        push_le32(&mut out, self.total_frames);
        push_le32(&mut out, self.initial_frames);
        push_le32(&mut out, self.streams);
        push_le32(&mut out, self.suggested_buffer_size);
        push_le32(&mut out, self.width);
        push_le32(&mut out, self.height);
        push_le32(&mut out, self.reserved[0]);
        push_le32(&mut out, self.reserved[1]);
        push_le32(&mut out, self.reserved[2]);
        push_le32(&mut out, self.reserved[3]);
        assert(out@ =~= self.bytes());
        out
    }
}

impl AVIStreamHeader {
    /// The 56 bytes of the header: its fields in order, numbers lowest byte
    /// first, signed ones in two's complement.
    pub open spec fn bytes(self) -> Seq<u8> {
        self.fcc_type@ + self.fcc_handler@ + le32(self.flags as nat) + le16(self.priority as nat)
            + le16(self.language as nat) + le32(self.initial_frames as nat) + le32(
            self.scale as nat,
        ) + le32(self.rate as nat) + le32(self.start as nat) + le32(self.length as nat) + le32(
            self.suggested_buffer_size as nat,
        ) + le32(self.quality as nat) + le32(self.sample_size as nat) + le16(
            twos16(self.frame_left as int),
        ) + le16(twos16(self.frame_top as int)) + le16(twos16(self.frame_right as int)) + le16(
            twos16(self.frame_bottom as int),
        )
    }

    /// Writes the header out.
    pub fn to_bytes(&self) -> (out: Vec<u8>)
        ensures
            out@ == self.bytes(),
            out@.len() == 56,
    {
        let mut out: Vec<u8> = Vec::new();
        push_all(&mut out, &self.fcc_type);
        push_all(&mut out, &self.fcc_handler);
        push_le32(&mut out, self.flags);
        push_le16(&mut out, self.priority);
        push_le16(&mut out, self.language);
        push_le32(&mut out, self.initial_frames);
        push_le32(&mut out, self.scale);
        push_le32(&mut out, self.rate);
        push_le32(&mut out, self.start);
        push_le32(&mut out, self.length);
        push_le32(&mut out, self.suggested_buffer_size);
        push_le32(&mut out, self.quality);
        push_le32(&mut out, self.sample_size);
        push_le16_signed(&mut out, self.frame_left);
        push_le16_signed(&mut out, self.frame_top);
        push_le16_signed(&mut out, self.frame_right);
        push_le16_signed(&mut out, self.frame_bottom);
        assert(out@ =~= self.bytes());
        out
    }
}

impl BitMapInfoHeader {
    /// The 40 bytes of the header: its fields in order, lowest byte first,
    /// signed ones in two's complement.
    pub open spec fn bytes(self) -> Seq<u8> {
        le32(self.size as nat) + le32(twos32(self.width as int)) + le32(
            twos32(self.height as int),
        ) + le16(self.planes as nat) + le16(self.bit_count as nat) + le32(
            self.compression as nat,
        ) + le32(self.size_image as nat) + le32(twos32(self.x_pels_per_meter as int)) + le32(
            twos32(self.y_pels_per_meter as int),
        ) + le32(self.clr_used as nat) + le32(self.clr_important as nat)
    }

    /// Writes the header out.
    pub fn to_bytes(&self) -> (out: Vec<u8>)
        ensures
            out@ == self.bytes(),
            out@.len() == 40,
    {
        let mut out: Vec<u8> = Vec::new();
        push_le32(&mut out, self.size);
        push_le32_signed(&mut out, self.width);
        push_le32_signed(&mut out, self.height);
        push_le16(&mut out, self.planes);
        push_le16(&mut out, self.bit_count);
        push_le32(&mut out, self.compression);
        push_le32(&mut out, self.size_image);
        push_le32_signed(&mut out, self.x_pels_per_meter);
        push_le32_signed(&mut out, self.y_pels_per_meter);
        push_le32(&mut out, self.clr_used);
        push_le32(&mut out, self.clr_important);
        assert(out@ =~= self.bytes());
        out
    }
}

impl AVIOldIndex {
    /// The 16 bytes of the entry: the chunk id, then flags, offset and size
    /// as four bytes each, lowest first.
    pub open spec fn bytes(self) -> Seq<u8> {
        self.chunk_id@ + le32(self.flags as nat) + le32(self.offset as nat) + le32(
            self.size as nat,
        )
    }

    /// Appends the entry to `out`.
    pub fn write(&self, out: &mut Vec<u8>)
        ensures
            final(out)@ == old(out)@ + self.bytes(),
    {
        push_all(out, &self.chunk_id);
        push_le32(out, self.flags);
        push_le32(out, self.offset);
        push_le32(out, self.size);
        assert(out@ =~= old(out)@ + self.bytes());
    }
}

/// A chunk that holds `data` and declares its length.
pub open spec fn leaf(id: Seq<char>, data: Seq<u8>) -> ChunkTree {
    ChunkTree {
        id,
        size: data.len(),
        form_type: Seq::empty(),
        children: Seq::empty(),
        data,
    }
}

/// A list chunk that declares the size of its children.
pub open spec fn list_of(id: Seq<char>, form_type: Seq<char>, children: Seq<ChunkTree>) -> ChunkTree {
    ChunkTree { id, size: list_size(children), form_type, children, data: Seq::empty() }
}

/// What each of the frames holds.
pub open spec fn payloads(frames: Seq<Vec<u8>>) -> Seq<Seq<u8>> {
    Seq::new(frames.len(), |i: int| frames[i]@)
}

/// One `00dc` chunk for each frame.
pub open spec fn frame_chunks(frames: Seq<Seq<u8>>) -> Seq<ChunkTree> {
    Seq::new(frames.len(), |i: int| leaf("00dc"@, frames[i]))
}

/// Where the chunk of frame `i` starts, counted from the form type of the
/// `movi` list: 4, plus the length of each earlier frame and of the 8 bytes
/// of its chunk header.
pub open spec fn frame_offset(frames: Seq<Seq<u8>>, i: nat) -> nat
    decreases i,
{
    if i == 0 {
        4
    } else {
        frame_offset(frames, (i - 1) as nat) + frames[i - 1].len() + 8
    }
}

/// The index entry of frame `i`: the id `00dc`, the key frame flag, the
/// offset of the frame's chunk, and its size with the 8 bytes of its header.
pub open spec fn index_entry(frames: Seq<Seq<u8>>, i: int) -> AVIOldIndex {
    AVIOldIndex {
        chunk_id: [0x30u8, 0x30u8, 0x64u8, 0x63u8],
        flags: AVIIF_KEYFRAME,
        offset: frame_offset(frames, i as nat) as u32,
        size: (frames[i].len() + 8) as u32,
    }
}

/// The index entries of the first `n` frames, one after the other.
pub open spec fn index_bytes(frames: Seq<Seq<u8>>, n: nat) -> Seq<u8>
    decreases n,
{
    if n == 0 {
        Seq::empty()
    } else {
        index_bytes(frames, (n - 1) as nat) + index_entry(frames, n - 1).bytes()
    }
}

/// The `hdrl` list of an AVI file with one stream: the main header, and the
/// `strl` list with the stream's header and format.
pub open spec fn header_tree(avih: Seq<u8>, strh: Seq<u8>, strf: Seq<u8>) -> ChunkTree {
    list_of(
        "LIST"@,
        "hdrl"@,
        seq![
            leaf("avih"@, avih),
            list_of("LIST"@, "strl"@, seq![leaf("strh"@, strh), leaf("strf"@, strf)]),
        ],
    )
}

/// The chunk tree of an AVI file with one video stream: the headers in
/// `hdrl`, with the stream's header and format in `strl`; the frames in
/// `movi`; and the index in `idx1`.
pub open spec fn avi_tree(
    avih: Seq<u8>,
    strh: Seq<u8>,
    strf: Seq<u8>,
    frames: Seq<Seq<u8>>,
) -> ChunkTree {
    list_of(
        "RIFF"@,
        "AVI "@,
        seq![
            header_tree(avih, strh, strf),
            list_of("LIST"@, "movi"@, frame_chunks(frames)),
            leaf("idx1"@, index_bytes(frames, frames.len())),
        ],
    )
}

/// Whether an AVI file can hold the frames: the offset behind the last
/// frame fits in the 32 bits of an index entry, and the size of the whole
/// file fits in `usize`.
pub open spec fn fits(frames: Seq<Seq<u8>>) -> bool {
    &&& frame_offset(frames, frames.len()) <= u32::MAX
    &&& 220 + frame_offset(frames, frames.len()) + 16 * frames.len() <= usize::MAX
}

/// The offsets of the frames grow.
pub proof fn lemma_frame_offset_grows(frames: Seq<Seq<u8>>, i: nat, j: nat)
    requires
        i <= j,
    ensures
        frame_offset(frames, i) + 8 * (j - i) <= frame_offset(frames, j),
    decreases j - i,
{
    if i < j {
        lemma_frame_offset_grows(frames, i, (j - 1) as nat);
    }
}

/// The `movi` list declares the offset behind its last frame.
pub proof fn lemma_movi_size(frames: Seq<Seq<u8>>, n: nat)
    requires
        n <= frames.len(),
    ensures
        list_size(frame_chunks(frames).subrange(0, n as int)) == frame_offset(frames, n),
    decreases n,
{
    let all = frame_chunks(frames);
    if n > 0 {
        lemma_movi_size(frames, (n - 1) as nat);
        assert(all.subrange(0, n as int).drop_last() =~= all.subrange(0, n - 1));
    }
}

/// The size of a list of two chunks.
proof fn lemma_list_size_two(a: ChunkTree, b: ChunkTree)
    ensures
        list_size(seq![a, b]) == 4 + a.size + 8 + b.size + 8,
{
    let s = seq![a, b];
    assert(s.drop_last() =~= seq![a]);
    assert(seq![a].drop_last() =~= Seq::<ChunkTree>::empty());
    assert(list_size(Seq::<ChunkTree>::empty()) == 4);
    assert(list_size(seq![a]) == 4 + a.size + 8);
}

/// The size of a list of three chunks.
proof fn lemma_list_size_three(a: ChunkTree, b: ChunkTree, c: ChunkTree)
    ensures
        list_size(seq![a, b, c]) == 4 + a.size + 8 + b.size + 8 + c.size + 8,
{
    let s = seq![a, b, c];
    assert(s.drop_last() =~= seq![a, b]);
    lemma_list_size_two(a, b);
}

/// A vector of the two chunks `a` and `b`.
fn pair(a: Chunk, b: Chunk) -> (v: Vec<Chunk>)
    ensures
        forest(v@) == seq![a@, b@],
{
    let mut v: Vec<Chunk> = Vec::new();
    proof {
        lemma_forest_push(v@, a);
        lemma_forest_push(v@.push(a), b);
        assert(forest(Seq::<Chunk>::empty()) =~= Seq::<ChunkTree>::empty());
    }
    v.push(a);
    v.push(b);
    assert(forest(v@) =~= seq![a@, b@]);
    v
}

/// One `00dc` chunk for each frame, and the index entries of all frames.
fn frame_list(frames: &Vec<Vec<u8>>) -> (r: (Vec<Chunk>, Vec<u8>))
    requires
        fits(payloads(frames@)),
    ensures
        forest(r.0@) == frame_chunks(payloads(frames@)),
        r.1@ == index_bytes(payloads(frames@), frames@.len()),
{
    let ghost all = payloads(frames@);
    let count: usize = frames.len();
    let mut chunks: Vec<Chunk> = Vec::new();
    let mut index: Vec<u8> = Vec::new();
    let mut offset: u32 = 4;
    let mut i: usize = 0;
    assert(forest(chunks@) =~= frame_chunks(all).subrange(0, 0));
    while i < count
        invariant
            i <= count,
            count == frames@.len(),
            all == payloads(frames@),
            fits(all),
            offset as nat == frame_offset(all, i as nat),
            index@ == index_bytes(all, i as nat),
            forest(chunks@) == frame_chunks(all).subrange(0, i as int),
        decreases count - i,
    {
        proof {
            lemma_frame_offset_grows(all, (i + 1) as nat, count as nat);
        }
        let frame: &Vec<u8> = &frames[i];
        assert(frame@ == all[i as int]);
        let size: u32 = (frame.len() + 8) as u32;
        let entry = AVIOldIndex {
            chunk_id: [0x30, 0x30, 0x64, 0x63],
            flags: AVIIF_KEYFRAME,
            offset,
            size,
        };
        assert(entry == index_entry(all, i as int));
        entry.write(&mut index);
        offset = offset + size;
        let chunk = Chunk::new("00dc", copy_range(frame.as_slice(), 0, frame.len()));
        proof {
            assert(frame@.subrange(0, frame@.len() as int) =~= frame@);
            lemma_forest_push(chunks@, chunk);
            assert(frame_chunks(all).subrange(0, i as int).push(chunk@) =~= frame_chunks(
                all,
            ).subrange(0, i + 1));
        }
        chunks.push(chunk);
        i += 1;
    }
    assert(frame_chunks(all).subrange(0, count as int) =~= frame_chunks(all));
    (chunks, index)
}

/// The `hdrl` list that holds the three headers.
fn header_list(avih: Vec<u8>, strh: Vec<u8>, strf: Vec<u8>) -> (hdrl: Chunk)
    requires
        avih@.len() == 56,
        strh@.len() == 56,
        strf@.len() == 40,
    ensures
        hdrl@ == header_tree(avih@, strh@, strf@),
        hdrl@.size == 192,
{
    let avih_chunk = Chunk::new("avih", avih);
    let strh_chunk = Chunk::new("strh", strh);
    let strf_chunk = Chunk::new("strf", strf);
    proof {
        lemma_list_size_two(strh_chunk@, strf_chunk@);
    }
    let strl = Chunk::list("strl", pair(strh_chunk, strf_chunk));
    proof {
        lemma_list_size_two(avih_chunk@, strl@);
    }
    Chunk::list("hdrl", pair(avih_chunk, strl))
}

/// A vector of the three chunks `a`, `b` and `c`.
fn triple(a: Chunk, b: Chunk, c: Chunk) -> (v: Vec<Chunk>)
    ensures
        forest(v@) == seq![a@, b@, c@],
{
    let mut v: Vec<Chunk> = Vec::new();
    proof {
        assert(forest(Seq::<Chunk>::empty()) =~= Seq::<ChunkTree>::empty());
        lemma_forest_push(v@, a);
        lemma_forest_push(v@.push(a), b);
        lemma_forest_push(v@.push(a).push(b), c);
    }
    v.push(a);
    v.push(b);
    v.push(c);
    assert(forest(v@) =~= seq![a@, b@, c@]);
    v
}

/// The chunk tree of an AVI file that holds `frames` as the frames of one
/// video stream, each in a `00dc` chunk and each a key frame in the index.
/// The three headers are written as they are given.
pub fn build(
    avih: &AVIHeader,
    strh: &AVIStreamHeader,
    strf: &BitMapInfoHeader,
    frames: &Vec<Vec<u8>>,
) -> (avi: Chunk)
    requires
        fits(payloads(frames@)),
    ensures
        avi@ == avi_tree(avih.bytes(), strh.bytes(), strf.bytes(), payloads(frames@)),
{
    let ghost all = payloads(frames@);
    let (chunks, index) = frame_list(frames);
    proof {
        lemma_movi_size(all, all.len());
        assert(frame_chunks(all).subrange(0, all.len() as int) =~= frame_chunks(all));
        lemma_index_length(all, all.len());
    }
    let idx1 = Chunk::new("idx1", index);
    let movi = Chunk::list("movi", chunks);
    let hdrl = header_list(avih.to_bytes(), strh.to_bytes(), strf.to_bytes());
    proof {
        lemma_list_size_three(hdrl@, movi@, idx1@);
    }
    Chunk::list_with_id("RIFF", "AVI ", triple(hdrl, movi, idx1))
}

/// The index has 16 bytes for each frame.
pub proof fn lemma_index_length(frames: Seq<Seq<u8>>, n: nat)
    ensures
        index_bytes(frames, n).len() == 16 * n,
    decreases n,
{
    if n > 0 {
        lemma_index_length(frames, (n - 1) as nat);
    }
}

/// Whether an AVI file can hold the frames.
pub fn frames_fit(frames: &Vec<Vec<u8>>) -> (ok: bool)
    ensures
        ok == fits(payloads(frames@)),
{
    let ghost all = payloads(frames@);
    let count: usize = frames.len();
    let mut offset: u128 = 4;
    let mut i: usize = 0;
    while i < count
        invariant
            i <= count,
            count == frames@.len(),
            all == payloads(frames@),
            offset as nat == frame_offset(all, i as nat),
            offset <= u32::MAX,
        decreases count - i,
    {
        let frame: &Vec<u8> = &frames[i];
        assert(frame@ == all[i as int]);
        offset = offset + frame.len() as u128 + 8;
        i += 1;
        if offset > u32::MAX as u128 {
            proof {
                lemma_frame_offset_grows(all, i as nat, count as nat);
            }
            return false;
        }
    }
    220 + offset + 16 * (count as u128) <= usize::MAX as u128
}

} // verus!
