//! RIFF chunk trees: built in memory, parsed from the bytes of a file,
//! written back to bytes, and drawn as text.

use vstd::prelude::*;
use vstd::string::{StringExecFns, StrSliceExecFns, StringSliceAdditionalSpecFns};
use vstd::utf8::{encode_utf8, decode_utf8, valid_utf8};
use vstd::slice::slice_subrange;
use crate::bytes::{le32, le32_at, push_le32, push_all, read_le32, copy_range};
use crate::error::DecodeError;

verus! {

/// A chunk of a RIFF file. A list (`RIFF` or `LIST`) has a form type and
/// children; any other chunk has data.
#[derive(Debug)]
pub struct Chunk {
    pub id: String,
    pub size: usize,
    pub form_type: String,
    pub children: Vec<Chunk>,
    pub data: Vec<u8>,
}

/// What a chunk is, with its children in turn.
pub struct ChunkTree {
    pub id: Seq<char>,
    pub size: nat,
    pub form_type: Seq<char>,
    pub children: Seq<ChunkTree>,
    pub data: Seq<u8>,
}

/// The tree of a chunk.
pub open spec fn tree_of(c: Chunk) -> ChunkTree
    decreases c, 0nat,
{
    ChunkTree {
        id: c.id@,
        size: c.size as nat,
        form_type: c.form_type@,
        children: trees_of(c.children@, c.children@.len()),
        data: c.data@,
    }
}

/// The trees of the first `n` chunks of `cs`.
pub open spec fn trees_of(cs: Seq<Chunk>, n: nat) -> Seq<ChunkTree>
    decreases cs, n,
{
    if n == 0 || n > cs.len() {
        Seq::empty()
    } else {
        trees_of(cs, (n - 1) as nat).push(tree_of(cs[n - 1]))
    }
}

impl View for Chunk {
    type V = ChunkTree;

    open spec fn view(&self) -> ChunkTree {
        tree_of(*self)
    }
}

/// The trees of all chunks of `cs`.
pub open spec fn forest(cs: Seq<Chunk>) -> Seq<ChunkTree> {
    trees_of(cs, cs.len())
}

/// The forest has one tree for each chunk, in order.
pub proof fn lemma_trees_of(cs: Seq<Chunk>, n: nat)
    requires
        n <= cs.len(),
    ensures
        trees_of(cs, n).len() == n,
        forall|i: int| 0 <= i < n ==> #[trigger] trees_of(cs, n)[i] == tree_of(cs[i]),
    decreases n,
{
    if n > 0 {
        lemma_trees_of(cs, (n - 1) as nat);
    }
}

/// The forest of a sequence with one more chunk is the forest with one more
/// tree.
pub proof fn lemma_forest_push(cs: Seq<Chunk>, c: Chunk)
    ensures
        forest(cs.push(c)) == forest(cs).push(tree_of(c)),
{
    lemma_trees_of(cs, cs.len());
    lemma_trees_of(cs.push(c), cs.len() + 1);
    assert(forest(cs.push(c)) =~= forest(cs).push(tree_of(c)));
}

/// The size that a list with the children `children` declares: 4 for the
/// form type, and for each child its size and the 8 bytes of its header.
pub open spec fn list_size(children: Seq<ChunkTree>) -> nat
    decreases children.len(),
{
    if children.len() == 0 {
        4
    } else {
        list_size(children.drop_last()) + children.last().size + 8
    }
}

/// The id of a top-level list.
pub open spec fn riff_tag() -> Seq<u8> {
    seq![0x52u8, 0x49, 0x46, 0x46]
}

/// The id of a nested list.
pub open spec fn list_tag() -> Seq<u8> {
    seq![0x4cu8, 0x49, 0x53, 0x54]
}

/// Whether the four bytes `tag` are the id of a list.
pub open spec fn is_list_tag(tag: Seq<u8>) -> bool {
    tag == riff_tag() || tag == list_tag()
}

/// Whether a chunk is written as a list, with its form type and its
/// children: it is if it has children, or has the id of a list and no data.
pub open spec fn written_as_list(t: ChunkTree) -> bool {
    t.children.len() > 0 || (is_list_tag(encode_utf8(t.id)) && t.data.len() == 0)
}

/// The bytes of a chunk: id, size in four bytes lowest first, then for a
/// list the form type and the bytes of each child, for any other chunk the
/// data.
pub open spec fn emitted(t: ChunkTree) -> Seq<u8>
    decreases t, 0nat,
{
    encode_utf8(t.id) + le32(t.size % 0x1_0000_0000) + if written_as_list(t) {
        encode_utf8(t.form_type) + emitted_all(t.children, t.children.len())
    } else {
        t.data
    }
}

/// The bytes of the first `n` chunks of `ts`, one after the other.
pub open spec fn emitted_all(ts: Seq<ChunkTree>, n: nat) -> Seq<u8>
    decreases ts, n,
{
    if n == 0 || n > ts.len() {
        Seq::empty()
    } else {
        emitted_all(ts, (n - 1) as nat) + emitted(ts[n - 1])
    }
}

impl Chunk {
    /// A `LIST` chunk with the form type `form_type` and the children
    /// `children`.
    pub fn list(form_type: &str, children: Vec<Chunk>) -> (c: Chunk)
        requires
            list_size(forest(children@)) <= usize::MAX,
        ensures
            c@ == (ChunkTree {
                id: "LIST"@,
                size: list_size(forest(children@)),
                form_type: form_type@,
                children: forest(children@),
                data: Seq::empty(),
            }),
    {
        Self::list_with_id("LIST", form_type, children)
    }

    /// A list chunk with the id `id`, which declares the size of its
    /// children as they are.
    pub fn list_with_id(id: &str, form_type: &str, children: Vec<Chunk>) -> (c: Chunk)
        requires
            list_size(forest(children@)) <= usize::MAX,
        ensures
            c@ == (ChunkTree {
                id: id@,
                size: list_size(forest(children@)),
                form_type: form_type@,
                children: forest(children@),
                data: Seq::empty(),
            }),
    {
        let mut size: usize = 4;
        let mut i: usize = 0;
        proof {
            lemma_trees_of(children@, children@.len());
        }
        while i < children.len()
            invariant
                i <= children@.len(),
                list_size(forest(children@)) <= usize::MAX,
                size as nat == list_size(forest(children@).subrange(0, i as int)),
                forest(children@).len() == children@.len(),
                forall|k: int|
                    0 <= k < children@.len() ==> #[trigger] forest(children@)[k] == tree_of(
                        children@[k],
                    ),
            decreases children@.len() - i,
        {
            proof {
                let ghost all = forest(children@);
                assert(all.subrange(0, i + 1).drop_last() =~= all.subrange(0, i as int));
                lemma_list_size_monotonic(all, (i + 1) as nat);
            }
            size = size + children[i].size + 8;
            i += 1;
        }
        assert(forest(children@).subrange(0, children@.len() as int) =~= forest(children@));
        Chunk {
            id: String::from_str(id),
            size,
            form_type: String::from_str(form_type),
            children,
            data: Vec::new(),
        }
    }

    /// A chunk with the id `id` that holds `data` and declares its length.
    pub fn new(id: &str, data: Vec<u8>) -> (c: Chunk)
        ensures
            c@ == (ChunkTree {
                id: id@,
                size: data@.len(),
                form_type: Seq::empty(),
                children: Seq::empty(),
                data: data@,
            }),
    {
        let size: usize = data.len();
        let c = Chunk {
            id: String::from_str(id),
            size,
            form_type: String::new(),
            children: Vec::new(),
            data,
        };
        assert(c@.children =~= Seq::empty());
        c
    }

    /// Whether this chunk has the id `RIFF` or `LIST`.
    fn has_list_id(&self) -> (r: bool)
        ensures
            r == is_list_tag(encode_utf8(self.id@)),
    {
        let id = self.id.as_str().as_bytes();
        if id.len() != 4 {
            assert(riff_tag().len() == 4 && list_tag().len() == 4);
            return false;
        }
        let riff: [u8; 4] = [0x52, 0x49, 0x46, 0x46];
        let list: [u8; 4] = [0x4c, 0x49, 0x53, 0x54];
        proof {
            assert(id@ == encode_utf8(self.id@));
            assert(id@.subrange(0, 4) =~= id@);
            assert(riff@ =~= riff_tag());
            assert(list@ =~= list_tag());
        }
        has_tag(id, 0, riff) || has_tag(id, 0, list)
    }

    /// Appends the bytes of this chunk to `out`: id, size as four bytes
    /// lowest first, then the form type and each child in turn if the chunk
    /// has children or is an empty list, else the data. No pad byte is
    /// written.
    pub fn write(&self, out: &mut Vec<u8>)
        ensures
            final(out)@ == old(out)@ + emitted(self@),
        decreases self,
    {
        push_all(out, self.id.as_str().as_bytes());
        push_le32(out, (self.size as u64 % 0x1_0000_0000) as u32);
        let as_list: bool = self.children.len() > 0 || (self.has_list_id() && self.data.len() == 0);
        proof {
            lemma_trees_of(self.children@, self.children@.len());
        }
        if !as_list {
            push_all(out, self.data.as_slice());
            proof {
                lemma_trees_of(self.children@, self.children@.len());
                assert(out@ =~= old(out)@ + emitted(self@));
            }
        } else {
            push_all(out, self.form_type.as_str().as_bytes());
            let ghost head = out@;
            let mut i: usize = 0;
            proof {
                lemma_trees_of(self.children@, self.children@.len());
            }
            while i < self.children.len()
                invariant
                    i <= self.children@.len(),
                    self@.children.len() == self.children@.len(),
                    forall|k: int|
                        0 <= k < self.children@.len() ==> #[trigger] self@.children[k] == tree_of(
                            self.children@[k],
                        ),
                    out@ == head + emitted_all(self@.children, i as nat),
                decreases self.children@.len() - i,
            {
                let child = &self.children[i];
                child.write(out);
                i += 1;
                assert(out@ =~= head + emitted_all(self@.children, i as nat));
            }
            assert(out@ =~= old(out)@ + emitted(self@));
        }
    }
}

/// The declared size of a list grows with each child.
pub proof fn lemma_list_size_monotonic(children: Seq<ChunkTree>, n: nat)
    requires
        n <= children.len(),
    ensures
        list_size(children.subrange(0, n as int)) <= list_size(children),
    decreases children.len() - n,
{
    if n < children.len() {
        lemma_list_size_monotonic(children, n + 1);
        assert(children.subrange(0, n as int + 1).drop_last() =~= children.subrange(0, n as int));
    } else {
        assert(children.subrange(0, n as int) =~= children);
    }
}

/// The text that `String::from_utf8_lossy` makes of bytes that are not
/// valid UTF-8.
pub uninterp spec fn lossy_text(bytes: Seq<u8>) -> Seq<char>;

/// The text that bytes stand for: what they encode where they are valid
/// UTF-8, else what the lossy conversion makes of them.
pub open spec fn text(bytes: Seq<u8>) -> Seq<char> {
    if valid_utf8(bytes) {
        decode_utf8(bytes)
    } else {
        lossy_text(bytes)
    }
}

/// `String::from_utf8_lossy`: bytes that are valid UTF-8 become the text
/// that they encode; any other bytes become some text that depends on
/// nothing but the bytes.
#[verifier::external_body]
fn text_of(bytes: &[u8]) -> (s: String)
    ensures
        s@ == text(bytes@),
        !valid_utf8(bytes@) ==> s@ == lossy_text(bytes@),
{
    String::from_utf8_lossy(bytes).into_owned()
}

/// The chunk that starts at byte `off` of `b`: four bytes of id and four of
/// size, lowest first; then, for the ids `RIFF` and `LIST`, four bytes of
/// form type and the children, which fill the rest of the declared size
/// exactly; for any other id, as many bytes of data as the size says.
/// `None` when the chunk does not lie inside `b`, a list declares less than
/// the 4 bytes of its form type, or its children do not end where it ends.
pub open spec fn chunk_at(b: Seq<u8>, off: int) -> Option<ChunkTree>
    decreases b.len() + 1 - off, 0nat,
{
    if off < 0 || off + 8 > b.len() {
        None
    } else {
        let tag = b.subrange(off, off + 4);
        let size = le32_at(b, off + 4);
        if is_list_tag(tag) {
            if off + 12 > b.len() || size < 4 {
                None
            } else {
                match chunks_in(b, off + 12, off + 8 + size, Seq::empty()) {
                    None => None,
                    Some(children) => Some(
                        ChunkTree {
                            id: text(tag),
                            size,
                            form_type: text(b.subrange(off + 8, off + 12)),
                            children,
                            data: Seq::empty(),
                        },
                    ),
                }
            }
        } else if off + 8 + size > b.len() {
            None
        } else {
            Some(
                ChunkTree {
                    id: text(tag),
                    size,
                    form_type: Seq::empty(),
                    children: Seq::empty(),
                    data: b.subrange(off + 8, off + 8 + size),
                },
            )
        }
    }
}

/// `acc` followed by the chunks that stand one after the other from byte
/// `off` of `b` up to byte `end`, where the list must end exactly. After a
/// chunk of odd size one pad byte is skipped.
pub open spec fn chunks_in(b: Seq<u8>, off: int, end: int, acc: Seq<ChunkTree>) -> Option<
    Seq<ChunkTree>,
>
    decreases b.len() + 1 - off, 1nat,
{
    if off >= end {
        if off == end {
            Some(acc)
        } else {
            None
        }
    } else {
        match chunk_at(b, off) {
            None => None,
            Some(c) => {
                if off + 8 + c.size > b.len() {
                    None
                } else {
                    chunks_in(b, off + 8 + c.size + c.size % 2, end, acc.push(c))
                }
            },
        }
    }
}

/// Whether the four bytes at `offset` are those of `tag`.
fn has_tag(file: &[u8], offset: usize, tag: [u8; 4]) -> (r: bool)
    requires
        offset + 4 <= file@.len(),
    ensures
        r == (file@.subrange(offset as int, offset + 4) == tag@),
{
    let r = file[offset] == tag[0] && file[offset + 1] == tag[1] && file[offset + 2] == tag[2]
        && file[offset + 3] == tag[3];
    proof {
        let ghost part = file@.subrange(offset as int, offset + 4);
        if r {
            assert(part =~= tag@);
        } else {
            assert(part[0] == file@[offset as int] && part[1] == file@[offset + 1] && part[2]
                == file@[offset + 2] && part[3] == file@[offset + 3]);
        }
    }
    r
}

/// Parses the chunk that starts at byte `offset` of `file`, with its
/// children. Fails with `Corrupted` when the chunk does not lie inside the
/// file or a list does not end where its children end.
pub fn parse_chunk(file: &[u8], offset: usize) -> (r: Result<Chunk, DecodeError>)
    ensures
        match chunk_at(file@, offset as int) {
            Some(t) => r matches Ok(c) && c@ == t,
            None => r matches Err(e) && e == DecodeError::Corrupted,
        },
    decreases file@.len() + 1 - offset, 0nat,
{
    let n: usize = file.len();
    if offset > n || n - offset < 8 {
        return Err(DecodeError::Corrupted);
    }
    let id = text_of(slice_subrange(file, offset, offset + 4));
    let size: usize = read_le32(file, offset + 4) as usize;
    let container: bool = has_tag(file, offset, [0x52, 0x49, 0x46, 0x46]) || has_tag(
        file,
        offset,
        [0x4c, 0x49, 0x53, 0x54],
    );
    if container {
        if n - offset < 12 || size < 4 {
            return Err(DecodeError::Corrupted);
        }
        let form_type = text_of(slice_subrange(file, offset + 8, offset + 12));
        let children = match parse_chunk_list(file, offset + 12, size - 4) {
            Ok(list) => list,
            Err(_) => {
                return Err(DecodeError::Corrupted);
            },
        };
        Ok(Chunk { id, size, form_type, children, data: Vec::new() })
    } else {
        if n - offset - 8 < size {
            return Err(DecodeError::Corrupted);
        }
        let data = copy_range(file, offset + 8, offset + 8 + size);
        let c = Chunk { id, size, form_type: String::new(), children: Vec::new(), data };
        assert(c@.children =~= Seq::empty());
        Ok(c)
    }
}

/// Parses the chunks that fill the `size` bytes of `file` from byte `offset`
/// on, one after the other, skipping one pad byte after a chunk of odd size.
/// Fails with `Corrupted` when a chunk fails or the last one does not end at
/// `offset + size`.
pub fn parse_chunk_list(file: &[u8], offset: usize, size: usize) -> (r: Result<
    Vec<Chunk>,
    DecodeError,
>)
    requires
        offset <= file@.len(),
    ensures
        match chunks_in(file@, offset as int, offset + size, Seq::empty()) {
            Some(ts) => r matches Ok(cs) && forest(cs@) == ts,
            None => r matches Err(e) && e == DecodeError::Corrupted,
        },
    decreases file@.len() + 1 - offset, 1nat,
{
    let n: usize = file.len();
    let mut chunks: Vec<Chunk> = Vec::new();
    let mut at: usize = offset;
    let ghost end: int = offset + size;
    assert(forest(chunks@) =~= Seq::empty());
    loop
        invariant
            n == file@.len(),
            offset <= at <= n,
            end == offset + size,
            chunks_in(file@, at as int, end, forest(chunks@)) == chunks_in(
                file@,
                offset as int,
                end,
                Seq::empty(),
            ),
        decreases n + 1 - at,
    {
        if at - offset >= size {
            if at - offset == size {
                return Ok(chunks);
            } else {
                return Err(DecodeError::Corrupted);
            }
        }
        let chunk = match parse_chunk(file, at) {
            Ok(c) => c,
            Err(_) => {
                return Err(DecodeError::Corrupted);
            },
        };
        if n - at - 8 < chunk.size {
            return Err(DecodeError::Corrupted);
        }
        proof {
            lemma_forest_push(chunks@, chunk);
        }
        let body_end: usize = at + chunk.size + 8;
        // Odd size chunks are padded with a null byte
        let pad: usize = chunk.size % 2;
        let ghost before = forest(chunks@);
        chunks.push(chunk);
        assert(chunks_in(file@, at as int, end, before) == chunks_in(
            file@,
            body_end + pad,
            end,
            forest(chunks@),
        ));
        if pad == 1 && body_end == n {
            // the pad byte would be the first byte behind the file
            assert(chunk_at(file@, n + 1) is None);
            if size >= 1 && size - 1 == n - offset {
                return Ok(chunks);
            } else {
                return Err(DecodeError::Corrupted);
            }
        }
        at = body_end + pad;
    }
}

/// The decimal digit `d` as text.
pub open spec fn digit_text(d: nat) -> Seq<char> {
    if d == 0 {
        "0"@
    } else if d == 1 {
        "1"@
    } else if d == 2 {
        "2"@
    } else if d == 3 {
        "3"@
    } else if d == 4 {
        "4"@
    } else if d == 5 {
        "5"@
    } else if d == 6 {
        "6"@
    } else if d == 7 {
        "7"@
    } else if d == 8 {
        "8"@
    } else {
        "9"@
    }
}

/// The number `n` in decimal digits, without leading zeros.
pub open spec fn decimal_text(n: nat) -> Seq<char>
    decreases n,
{
    if n < 10 {
        digit_text(n)
    } else {
        decimal_text(n / 10) + digit_text(n % 10)
    }
}

/// `text` between the escape sequences that switch a terminal to colour
/// `color` of its 256 colours and back.
pub open spec fn colored_text(text: Seq<char>, color: nat) -> Seq<char> {
    "\x1b[38;5;"@ + decimal_text(color) + "m"@ + text + "\x1b[m"@
}

/// How a chunk is named in the drawing: its id, and for a chunk with a form
/// type also the form type and the number of children.
pub open spec fn label_text(t: ChunkTree) -> Seq<char> {
    if t.form_type.len() == 0 {
        t.id
    } else {
        t.id + ":"@ + t.form_type + "("@ + decimal_text(t.children.len()) + ")"@
    }
}

/// `n` dots.
pub open spec fn dots_text(n: nat) -> Seq<char>
    decreases n,
{
    if n == 0 {
        Seq::empty()
    } else {
        dots_text((n - 1) as nat) + "."@
    }
}

/// How many dots fill a line up to 50 columns, given the columns that are
/// taken; none when 50 or more are taken.
pub open spec fn fill_width(taken: nat) -> nat {
    if taken >= 50 {
        0
    } else {
        (50 - taken) as nat
    }
}

/// The line of a chunk in the drawing: the indent in grey, the label, a
/// space, dots in grey that push the size to the right edge, the size in
/// cyan, and a line feed.
pub open spec fn line_text(t: ChunkTree, indent: Seq<char>) -> Seq<char> {
    colored_text(indent, 239) + label_text(t) + " "@ + colored_text(
        dots_text(
            fill_width(indent.len() + label_text(t).len() + decimal_text(t.size).len()),
        ),
        239,
    ) + colored_text(decimal_text(t.size), 6) + "\n"@
}

/// What is drawn before the label of a child: a corner for the last child,
/// a branch for any other.
pub open spec fn connector_text(last: bool) -> Seq<char> {
    if last {
        " └──"@
    } else {
        " ├──"@
    }
}

/// What is drawn below a connector, in the lines of the child's own
/// children: nothing below a corner, a bar below a branch.
pub open spec fn continuation_text(last: bool) -> Seq<char> {
    if last {
        "    "@
    } else {
        " │  "@
    }
}

/// The drawing of a chunk: its line with the indent `indent`, then the
/// drawings of its children, whose connectors come behind `below`.
pub open spec fn drawing(t: ChunkTree, indent: Seq<char>, below: Seq<char>) -> Seq<char>
    decreases t, 0nat,
{
    line_text(t, indent) + drawing_all(t.children, t.children.len(), below)
}

/// The drawings of the first `n` chunks of `ts`, as children of one chunk.
pub open spec fn drawing_all(ts: Seq<ChunkTree>, n: nat, below: Seq<char>) -> Seq<char>
    decreases ts, n,
{
    if n == 0 || n > ts.len() {
        Seq::empty()
    } else {
        drawing_all(ts, (n - 1) as nat, below) + drawing(
            ts[n - 1],
            below + connector_text(n == ts.len()),
            below + continuation_text(n == ts.len()),
        )
    }
}

/// The decimal digit `d` as text.
fn digit(d: usize) -> (s: &'static str)
    requires
        d < 10,
    ensures
        s@ == digit_text(d as nat),
{
    if d == 0 {
        "0"
    } else if d == 1 {
        "1"
    } else if d == 2 {
        "2"
    } else if d == 3 {
        "3"
    } else if d == 4 {
        "4"
    } else if d == 5 {
        "5"
    } else if d == 6 {
        "6"
    } else if d == 7 {
        "7"
    } else if d == 8 {
        "8"
    } else {
        "9"
    }
}

/// The number `n` in decimal digits.
pub fn decimal(n: usize) -> (s: String)
    ensures
        s@ == decimal_text(n as nat),
    decreases n,
{
    if n < 10 {
        String::from_str(digit(n))
    } else {
        let mut s = decimal(n / 10);
        s.append(digit(n % 10));
        s
    }
}

/// Wraps `text` in the escape sequences for the colour with the number
/// `code`.
pub fn color(text: &String, code: u8) -> (s: String)
    ensures
        s@ == colored_text(text@, code as nat),
{
    let mut s = String::from_str("\x1b[38;5;");
    s.append(decimal(code as usize).as_str());
    s.append("m");
    s.append(text.as_str());
    s.append("\x1b[m");
    s
}

/// `n` dots.
fn dots(n: usize) -> (s: String)
    ensures
        s@ == dots_text(n as nat),
{
    let mut s = String::new();
    let mut i: usize = 0;
    while i < n
        invariant
            i <= n,
            s@ == dots_text(i as nat),
        decreases n - i,
    {
        s.append(".");
        i += 1;
    }
    s
}

/// How many dots fill a line in which `a`, `b` and `c` columns are taken.
fn fill(a: usize, b: usize, c: usize) -> (n: usize)
    ensures
        n == fill_width((a + b + c) as nat),
{
    let line_length: usize = 50;
    if a >= line_length {
        0
    } else if b >= line_length - a {
        0
    } else if c >= line_length - a - b {
        0
    } else {
        line_length - a - b - c
    }
}

impl Chunk {
    /// Reads the chunk at the start of `file`, with its children.
    pub fn read(file: &[u8]) -> (r: Result<Chunk, DecodeError>)
        ensures
            match chunk_at(file@, 0) {
                Some(t) => r matches Ok(c) && c@ == t,
                None => r matches Err(e) && e == DecodeError::Corrupted,
            },
    {
        parse_chunk(file, 0)
    }

    /// Draws this chunk and its children as a tree, one line for each chunk.
    pub fn print(&self) -> (s: String)
        ensures
            s@ == drawing(self@, Seq::empty(), Seq::empty()),
    {
        let s = self.print_with_indent("", "");
        proof {
            reveal_strlit("");
            assert(""@ =~= Seq::<char>::empty());
        }
        s
    }

    /// How this chunk is named in the drawing.
    fn label(&self) -> (s: String)
        ensures
            s@ == label_text(self@),
    {
        proof {
            lemma_trees_of(self.children@, self.children@.len());
        }
        if self.form_type.as_str().is_empty() {
            self.id.clone()
        } else {
            let mut s = self.id.clone();
            s.append(":");
            s.append(self.form_type.as_str());
            s.append("(");
            s.append(decimal(self.children.len()).as_str());
            s.append(")");
            s
        }
    }

    /// Draws this chunk with the indent `indent`, and its children with
    /// their connectors behind `below`.
    fn print_with_indent(&self, indent: &str, below: &str) -> (s: String)
        ensures
            s@ == drawing(self@, indent@, below@),
        decreases self,
    {
        let id = self.label();
        let size = decimal(self.size);
        let width: usize = fill(
            indent.unicode_len(),
            id.as_str().unicode_len(),
            size.as_str().unicode_len(),
        );
        let mut out = color(&String::from_str(indent), 239);
        out.append(id.as_str());
        out.append(" ");
        out.append(color(&dots(width), 239).as_str());
        out.append(color(&size, 6).as_str());
        out.append("\n");
        assert(out@ =~= line_text(self@, indent@));
        let ghost head = out@;
        let count: usize = self.children.len();
        proof {
            lemma_trees_of(self.children@, self.children@.len());
        }
        let mut i: usize = 0;
        while i < count
            invariant
                i <= count,
                count == self.children@.len(),
                self@.children.len() == count,
                forall|k: int|
                    0 <= k < count ==> #[trigger] self@.children[k] == tree_of(self.children@[k]),
                out@ == head + drawing_all(self@.children, i as nat, below@),
            decreases count - i,
        {
            let child = &self.children[i];
            let last: bool = i == count - 1;
            let new_indent = String::from_str(below).concat(
                if last {
                    " └──"
                } else {
                    " ├──"
                },
            );
            let new_below = String::from_str(below).concat(
                if last {
                    "    "
                } else {
                    " │  "
                },
            );
            let part = child.print_with_indent(new_indent.as_str(), new_below.as_str());
            out.append(part.as_str());
            i += 1;
            assert(out@ =~= head + drawing_all(self@.children, i as nat, below@));
        }
        out
    }
}

} // verus!
