//! PNG images: the chunk stream, the image header, and the reconstruction of
//! pixel data from filtered scanlines.

use vstd::prelude::*;
use crate::bit::addressable;
use crate::bytes::{be32_at, read_be32, copy_range, into_boxed};
use crate::error::DecodeError;
use crate::zlib;

verus! {

/// A decoded image: rows top to bottom, each pixel red, green, blue.
pub struct Png {
    pub width: usize,
    pub height: usize,
    pub data: Box<[u8]>,
}

/// One chunk of a PNG file: the length of its data, its type, its data.
pub struct Chunk {
    pub length: u32,
    pub chunk_type: [u8; 4],
    pub data: Vec<u8>,
}

/// The 13 bytes of data of the image header chunk.
pub struct IHDRChunk {
    pub width: u32,
    pub height: u32,
    pub bit_depth: u8,
    pub color_type: u8,
    pub compression_method: u8,
    pub filter_method: u8,
    pub interlace_method: u8,
}

/// The eight bytes that every PNG file starts with.
pub open spec fn signature() -> Seq<u8> {
    seq![0x89u8, 0x50, 0x4e, 0x47, 0x0d, 0x0a, 0x1a, 0x0a]
}

/// The chunk type `IHDR`.
pub open spec fn ihdr_type() -> Seq<u8> {
    seq![73u8, 72, 68, 82]
}

/// The chunk type `IDAT`.
pub open spec fn idat_type() -> Seq<u8> {
    seq![73u8, 68, 65, 84]
}

/// The chunk type `IEND`.
pub open spec fn iend_type() -> Seq<u8> {
    seq![73u8, 69, 78, 68]
}

/// The chunk that starts at byte `off` of `b`: its type and its data.
/// `None` when length, type and data do not all lie inside `b`.
pub open spec fn chunk_at(b: Seq<u8>, off: int) -> Option<(Seq<u8>, Seq<u8>)> {
    if off < 0 || off + 8 > b.len() || off + 8 + be32_at(b, off) > b.len() {
        None
    } else {
        Some((b.subrange(off + 4, off + 8), b.subrange(off + 8, off + 8 + be32_at(b, off))))
    }
}

/// The data of the `IDAT` chunks from byte `off` of `b` on, up to the `IEND`
/// chunk, appended to `acc` in file order. Each chunk is followed by four
/// bytes of checksum, which are skipped. `None` when a chunk does not lie
/// inside `b` before `IEND` is found.
pub open spec fn image_data(b: Seq<u8>, off: int, acc: Seq<u8>) -> Option<Seq<u8>>
    decreases b.len() + 4 - off,
{
    match chunk_at(b, off) {
        None => None,
        Some((kind, data)) => {
            if kind == iend_type() {
                Some(acc)
            } else if kind == idat_type() {
                image_data(b, off + 12 + data.len(), acc + data)
            } else {
                image_data(b, off + 12 + data.len(), acc)
            }
        },
    }
}

/// The Paeth predictor: of `a`, `b` and `c` the one nearest to `a + b - c`,
/// the earlier one where two are equally near.
pub open spec fn paeth(a: int, b: int, c: int) -> int {
    let p = a + b - c;
    let pa = if p >= a {
        p - a
    } else {
        a - p
    };
    let pb = if p >= b {
        p - b
    } else {
        b - p
    };
    let pc = if p >= c {
        p - c
    } else {
        c - p
    };
    if pa <= pb && pa <= pc {
        a
    } else if pb <= pc {
        b
    } else {
        c
    }
}

/// What the filter of type `filter` predicts for a byte from its neighbours:
/// `a` to the left, `b` above, `c` above and to the left.
pub open spec fn predicted(filter: int, a: int, b: int, c: int) -> int {
    if filter == 1 {
        a
    } else if filter == 2 {
        b
    } else if filter == 3 {
        (a + b) / 2
    } else if filter == 4 {
        paeth(a, b, c)
    } else {
        0
    }
}

/// The byte that the filtered byte `x` stands for: `x` plus the prediction,
/// modulo 256.
pub open spec fn reconstructed(filter: int, x: int, a: int, b: int, c: int) -> u8 {
    ((x + predicted(filter, a, b, c)) % 256) as u8
}

/// The filtered byte that stands for the byte `x`: `x` minus the
/// prediction, modulo 256.
pub open spec fn filtered(filter: int, x: int, a: int, b: int, c: int) -> u8 {
    ((x - predicted(filter, a, b, c)) % 256) as u8
}

/// Byte `p` of an image with rows of `stride` bytes is byte `p % stride` of
/// row `p / stride`.
pub proof fn lemma_row_and_column(stride: int, p: int)
    requires
        stride > 0,
        p >= 0,
    ensures
        0 <= p % stride < stride,
        0 <= p / stride,
        p == (p / stride) * stride + p % stride,
        p % stride <= p,
        p / stride >= 1 ==> p - stride >= p % stride,
{
    vstd::arithmetic::div_mod::lemma_fundamental_div_mod(p, stride);
    vstd::arithmetic::div_mod::lemma_mod_bound(p, stride);
    let y = p / stride;
    let i = p % stride;
    assert(y >= 0) by (nonlinear_arith)
        requires
            p == stride * y + i,
            0 <= i < stride,
            p >= 0,
            stride > 0,
    ;
    assert(y * stride == stride * y) by (nonlinear_arith);
    assert(y >= 1 ==> stride * y >= stride) by (nonlinear_arith)
        requires
            stride > 0,
    ;
}

/// Byte `p` of the image that the scanlines `lines` stand for, where each
/// scanline is one filter type byte and `stride` filtered bytes, and a pixel
/// has `bpp` bytes. The neighbours are the bytes already reconstructed:
/// `bpp` bytes to the left, in the row above, and both; 0 where there is no
/// such byte.
pub open spec fn recon(lines: Seq<u8>, stride: int, bpp: int, p: int) -> u8
    decreases p,
{
    if p < 0 || stride <= 0 || bpp <= 0 {
        0
    } else {
        let y = p / stride;
        let i = p % stride;
        proof {
            lemma_row_and_column(stride, p);
        }
        let a = if i < bpp {
            0
        } else {
            recon(lines, stride, bpp, p - bpp) as int
        };
        let b = if y == 0 {
            0
        } else {
            recon(lines, stride, bpp, p - stride) as int
        };
        let c = if y == 0 || i < bpp {
            0
        } else {
            recon(lines, stride, bpp, p - stride - bpp) as int
        };
        reconstructed(
            lines[y * (stride + 1)] as int,
            lines[y * (stride + 1) + 1 + i] as int,
            a,
            b,
            c,
        )
    }
}

/// The image of `height` rows of `width` pixels of `bpp` bytes that the
/// scanlines `lines` stand for. `Corrupted` when `lines` is not exactly
/// `height` scanlines long or a scanline has a filter type above 4.
pub open spec fn defiltered(lines: Seq<u8>, width: nat, height: nat, bpp: nat) -> Result<
    Seq<u8>,
    DecodeError,
> {
    let stride = width * bpp;
    if lines.len() != height * (1 + stride) {
        Err(DecodeError::Corrupted)
    } else if exists|y: int| 0 <= y < height && #[trigger] lines[y * (stride + 1)] > 4 {
        Err(DecodeError::Corrupted)
    } else {
        Ok(Seq::new(height * stride, |p: int| recon(lines, stride as int, bpp as int, p)))
    }
}

/// The Paeth predictor: of `a`, `b` and `c` the one nearest to `a + b - c`,
/// the earlier one where two are equally near.
pub fn paeth_predictor(a: u16, b: u16, c: u16) -> (r: u16)
    ensures
        r as int == paeth(a as int, b as int, c as int),
{
    let p: i32 = a as i32 + b as i32 - c as i32;
    let pa: i32 = if p >= a as i32 {
        p - a as i32
    } else {
        a as i32 - p
    };
    let pb: i32 = if p >= b as i32 {
        p - b as i32
    } else {
        b as i32 - p
    };
    let pc: i32 = if p >= c as i32 {
        p - c as i32
    } else {
        c as i32 - p
    };
    if pa <= pb && pa <= pc {
        a
    } else if pb <= pc {
        b
    } else {
        c
    }
}

/// Reconstructs one byte from its filtered value and its neighbours.
fn reconstruct(filter: u8, x: u8, a: u8, b: u8, c: u8) -> (r: u8)
    requires
        filter <= 4,
    ensures
        r == reconstructed(filter as int, x as int, a as int, b as int, c as int),
{
    let prediction: u16 = if filter == 0 {
        0
    } else if filter == 1 {
        a as u16
    } else if filter == 2 {
        b as u16
    } else if filter == 3 {
        (a as u16 + b as u16) / 2
    } else {
        paeth_predictor(a as u16, b as u16, c as u16)
    };
    ((x as u16 + prediction) % 256) as u8
}

/// Reverses the scanline filters: `inflated` holds `height` scanlines, each
/// one filter type byte and `width * byte_per_pixel` filtered bytes; the
/// result holds the rows without the filter type bytes, reconstructed.
pub fn defilter(inflated: &[u8], width: usize, height: usize, byte_per_pixel: usize) -> (r: Result<
    Vec<u8>,
    DecodeError,
>)
    requires
        byte_per_pixel >= 1,
    ensures
        match defiltered(inflated@, width as nat, height as nat, byte_per_pixel as nat) {
            Ok(image) => r matches Ok(v) && v@ == image,
            Err(e) => r matches Err(f) && f == e,
        },
{
    let n: usize = inflated.len();
    let ghost int_stride: int = width * byte_per_pixel;
    if height == 0 {
        if n == 0 {
            let v: Vec<u8> = Vec::new();
            assert(0 * (1 + int_stride) == 0) by (nonlinear_arith);
            assert(0 * int_stride == 0) by (nonlinear_arith);
            assert(v@ =~= Seq::new(0, |p: int| recon(inflated@, int_stride, byte_per_pixel as int, p)));
            return Ok(v);
        } else {
            assert(0 * (1 + int_stride) == 0) by (nonlinear_arith);
            return Err(DecodeError::Corrupted);
        }
    }
    // a row that does not fit in memory cannot be in the buffer
    let byte_per_line: usize = match width.checked_mul(byte_per_pixel) {
        Some(v) => v,
        None => {
            proof {
                lemma_too_large(n as int, height as int, int_stride);
            }
            return Err(DecodeError::Corrupted);
        },
    };
    if byte_per_line >= n {
        proof {
            lemma_too_large(n as int, height as int, int_stride);
        }
        return Err(DecodeError::Corrupted);
    }
    let row: usize = byte_per_line + 1;
    if n % row != 0 || n / row != height {
        proof {
            if n == height * row {
                vstd::arithmetic::div_mod::lemma_fundamental_div_mod_converse(
                    n as int,
                    row as int,
                    height as int,
                    0,
                );
            }
        }
        return Err(DecodeError::Corrupted);
    }
    proof {
        vstd::arithmetic::div_mod::lemma_fundamental_div_mod(n as int, row as int);
        assert(row * height == height * row) by (nonlinear_arith);
    }
    assert(n == height * row);
    let mut data: Vec<u8> = Vec::new();
    let mut y: usize = 0;
    let mut line: usize = 0;
    while y < height
        invariant
            y <= height,
            byte_per_pixel >= 1,
            row == byte_per_line + 1,
            int_stride == byte_per_line,
            int_stride == width * byte_per_pixel,
            n == inflated@.len(),
            n == height * row,
            line == y * row,
            data@.len() == y * byte_per_line,
            forall|p: int|
                0 <= p < data@.len() ==> #[trigger] data@[p] == recon(
                    inflated@,
                    byte_per_line as int,
                    byte_per_pixel as int,
                    p,
                ),
            forall|k: int| 0 <= k < y ==> #[trigger] inflated@[k * (byte_per_line + 1)] <= 4,
        decreases height - y,
    {
        proof {
            lemma_line_fits(y as int, height as int, row as int);
        }
        let filter_type: u8 = inflated[line];
        if filter_type > 4 {
            proof {
                let ghost stride: nat = (width as nat) * (byte_per_pixel as nat);
                assert(stride == byte_per_line);
                assert((height as nat) * (1 + stride) == n) by (nonlinear_arith)
                    requires
                        n == height * row,
                        row == stride + 1,
                ;
                assert((y as int) * (stride + 1) == line) by (nonlinear_arith)
                    requires
                        line == y * row,
                        row == stride + 1,
                ;
                assert(0 <= (y as int) < (height as nat) && inflated@[(y as int) * (stride + 1)]
                    > 4);
            }
            return Err(DecodeError::Corrupted);
        }
        let mut i: usize = 0;
        while i < byte_per_line
            invariant
                y < height,
                i <= byte_per_line,
                byte_per_pixel >= 1,
                row == byte_per_line + 1,
                n == inflated@.len(),
                n == height * row,
                line == y * row,
                line + row <= n,
                filter_type == inflated@[line as int],
                filter_type <= 4,
                data@.len() == y * byte_per_line + i,
                forall|p: int|
                    0 <= p < data@.len() ==> #[trigger] data@[p] == recon(
                        inflated@,
                        byte_per_line as int,
                        byte_per_pixel as int,
                        p,
                    ),
            decreases byte_per_line - i,
        {
            let at: usize = data.len();
            proof {
                vstd::arithmetic::div_mod::lemma_fundamental_div_mod_converse(
                    at as int,
                    byte_per_line as int,
                    y as int,
                    i as int,
                );
                assert(y * byte_per_line >= byte_per_line <==> y >= 1) by (nonlinear_arith)
                    requires
                        byte_per_line > 0,
                        y >= 0,
                ;
                assert(y * (byte_per_line + 1) == y * row);
            }
            let filt_x: u8 = inflated[line + 1 + i];
            let recon_a: u8 = if i < byte_per_pixel {
                0u8
            } else {
                data[at - byte_per_pixel]
            };
            let recon_b: u8 = if y == 0 {
                0u8
            } else {
                data[at - byte_per_line]
            };
            let recon_c: u8 = if y == 0 || i < byte_per_pixel {
                0u8
            } else {
                data[at - byte_per_line - byte_per_pixel]
            };
            data.push(reconstruct(filter_type, filt_x, recon_a, recon_b, recon_c));
            i += 1;
        }
        proof {
            assert((y + 1) * byte_per_line == y * byte_per_line + byte_per_line)
                by (nonlinear_arith);
            assert((y + 1) * row == y * row + row) by (nonlinear_arith);
        }
        line = line + row;
        y += 1;
    }
    assert(data@ =~= Seq::new(
        (height * byte_per_line) as nat,
        |p: int| recon(inflated@, byte_per_line as int, byte_per_pixel as int, p),
    ));
    Ok(data)
}

/// A buffer of `n` bytes that is no longer than one row cannot hold
/// `height` scanlines of `stride` bytes and a filter type byte each.
proof fn lemma_too_large(n: int, height: int, stride: int)
    requires
        height >= 1,
        stride >= n >= 0,
    ensures
        n != height * (1 + stride),
{
    assert(height * (1 + stride) >= 1 + stride) by (nonlinear_arith)
        requires
            height >= 1,
            stride >= 0,
    ;
}

/// Scanline `y` of `height` scanlines of `row` bytes lies inside them.
proof fn lemma_line_fits(y: int, height: int, row: int)
    requires
        0 <= y < height,
        row >= 1,
    ensures
        y * row + row <= height * row,
        0 <= y * row,
{
    assert(y * row + row <= height * row) by (nonlinear_arith)
        requires
            0 <= y < height,
            row >= 1,
    ;
    assert(0 <= y * row) by (nonlinear_arith)
        requires
            0 <= y,
            row >= 1,
    ;
}

/// Whether the bytes of `file` from `offset` on start with `expected`.
fn starts_with(file: &[u8], offset: usize, expected: &[u8]) -> (r: bool)
    requires
        offset + expected@.len() <= file@.len(),
    ensures
        r == (file@.subrange(offset as int, offset + expected@.len()) == expected@),
{
    let ghost part = file@.subrange(offset as int, offset + expected@.len());
    let n: usize = file.len();
    let mut i: usize = 0;
    while i < expected.len()
        invariant
            i <= expected@.len(),
            n == file@.len(),
            offset + expected@.len() <= file@.len(),
            part == file@.subrange(offset as int, offset + expected@.len()),
            forall|k: int| 0 <= k < i ==> part[k] == expected@[k],
        decreases expected@.len() - i,
    {
        if file[offset + i] != expected[i] {
            assert(part[i as int] != expected@[i as int]);
            return false;
        }
        i += 1;
    }
    assert(part =~= expected@);
    true
}

impl Chunk {
    /// Reads the chunk that starts at byte `offset` of `file`: four bytes of
    /// length, highest first, four bytes of type, and the data.
    pub fn read(file: &[u8], offset: usize) -> (r: Result<Chunk, DecodeError>)
        ensures
            match chunk_at(file@, offset as int) {
                Some((kind, data)) => r matches Ok(c) && c.chunk_type@ == kind && c.data@ == data
                    && c.length == data.len(),
                None => r matches Err(e) && e == DecodeError::Corrupted,
            },
    {
        let n: usize = file.len();
        if offset > n || n - offset < 8 {
            return Err(DecodeError::Corrupted);
        }
        let length: u32 = read_be32(file, offset);
        if n - offset - 8 < length as usize {
            return Err(DecodeError::Corrupted);
        }
        let chunk_type: [u8; 4] = [
            file[offset + 4],
            file[offset + 5],
            file[offset + 6],
            file[offset + 7],
        ];
        assert(chunk_type@ =~= file@.subrange(offset + 4, offset + 8));
        let data = copy_range(file, offset + 8, offset + 8 + length as usize);
        Ok(Chunk { length, chunk_type, data })
    }
}

/// The image header that 13 bytes of chunk data spell: width and height as
/// four bytes each, highest first, then one byte for each other field.
pub open spec fn header_of(data: Seq<u8>) -> IHDRChunk {
    IHDRChunk {
        width: be32_at(data, 0) as u32,
        height: be32_at(data, 4) as u32,
        bit_depth: data[8],
        color_type: data[9],
        compression_method: data[10],
        filter_method: data[11],
        interlace_method: data[12],
    }
}

impl IHDRChunk {
    /// Reads the image header from the data of the `IHDR` chunk, which must
    /// be 13 bytes long.
    pub fn parse(data: &[u8]) -> (r: Result<IHDRChunk, DecodeError>)
        ensures
            data@.len() == 13 ==> r == Ok::<IHDRChunk, DecodeError>(header_of(data@)),
            data@.len() != 13 ==> r == Err::<IHDRChunk, DecodeError>(DecodeError::Corrupted),
    {
        if data.len() != 13 {
            return Err(DecodeError::Corrupted);
        }
        Ok(
            IHDRChunk {
                width: read_be32(data, 0),
                height: read_be32(data, 4),
                bit_depth: data[8],
                color_type: data[9],
                compression_method: data[10],
                filter_method: data[11],
                interlace_method: data[12],
            },
        )
    }

    /// Whether this crate decodes an image with this header: truecolour
    /// with 8 bits per sample, not interlaced.
    pub open spec fn supported(self) -> bool {
        self.color_type == 2 && self.bit_depth == 8 && self.interlace_method == 0
    }
}

/// The pixels that compressed image data stands for. Only a bit depth of 8
/// is decoded, with three bytes per pixel; then the error is the one of the
/// zlib stream, if it has one, else the one of the scanlines.
pub open spec fn pixels(compressed: Seq<u8>, width: nat, height: nat, bit_depth: nat) -> Result<
    Seq<u8>,
    DecodeError,
> {
    if bit_depth != 8 {
        Err(DecodeError::UnsupportedFeature)
    } else {
        match zlib::unwrapped(compressed) {
            Err(e) => Err(e),
            Ok(lines) => defiltered(lines, width, height, 3),
        }
    }
}

/// The image header of a PNG file. In this order: a file that does not
/// start with the PNG signature has an `InvalidSignature`; one whose first
/// chunk is not an `IHDR` chunk of 13 bytes is `Corrupted`; a header that is
/// not supported is an `UnsupportedFeature`.
pub open spec fn image_header(b: Seq<u8>) -> Result<IHDRChunk, DecodeError> {
    if b.len() < 8 || b.subrange(0, 8) != signature() {
        Err(DecodeError::InvalidSignature)
    } else {
        match chunk_at(b, 8) {
            None => Err(DecodeError::Corrupted),
            Some((kind, data)) => {
                if kind != ihdr_type() || data.len() != 13 {
                    Err(DecodeError::Corrupted)
                } else if !header_of(data).supported() {
                    Err(DecodeError::UnsupportedFeature)
                } else {
                    Ok(header_of(data))
                }
            },
        }
    }
}

/// What a PNG file decodes to: width, height and pixels. The image header
/// comes first, with its errors; a chunk stream that then ends before
/// `IEND` is `Corrupted`; then the data of all `IDAT` chunks is decoded.
pub open spec fn decoded(b: Seq<u8>) -> Result<(nat, nat, Seq<u8>), DecodeError> {
    match image_header(b) {
        Err(e) => Err(e),
        Ok(header) => match image_data(b, 33, Seq::empty()) {
            None => Err(DecodeError::Corrupted),
            Some(compressed) => match pixels(
                compressed,
                header.width as nat,
                header.height as nat,
                8,
            ) {
                Err(e) => Err(e),
                Ok(image) => Ok((header.width as nat, header.height as nat, image)),
            },
        },
    }
}

/// Decompresses image data and reverses its scanline filters.
pub fn decode_image_data(
    zlib_compressed: Vec<u8>,
    width: usize,
    height: usize,
    bit_depth: usize,
) -> (r: Result<Box<[u8]>, DecodeError>)
    requires
        addressable(zlib_compressed@),
    ensures
        match pixels(zlib_compressed@, width as nat, height as nat, bit_depth as nat) {
            Ok(image) => r matches Ok(data) && data@ == image,
            Err(e) => r matches Err(f) && f == e,
        },
{
    if bit_depth != 8 {
        return Err(DecodeError::UnsupportedFeature);
    }
    let inflated = match zlib::inflate(zlib_compressed.as_slice()) {
        Ok(v) => v,
        Err(e) => {
            return Err(e);
        },
    };
    let byte_per_pixel: usize = bit_depth / 8 * 3;
    match defilter(inflated.as_slice(), width, height, byte_per_pixel) {
        Ok(data) => Ok(into_boxed(data)),
        Err(e) => Err(e),
    }
}

/// Collects the data of the `IDAT` chunks from byte `offset` on, up to the
/// `IEND` chunk.
fn collect_image_data(file: &[u8], offset: usize) -> (r: Result<Vec<u8>, DecodeError>)
    requires
        offset <= file@.len(),
    ensures
        match image_data(file@, offset as int, Seq::empty()) {
            Some(data) => r matches Ok(v) && v@ == data && data.len() <= file@.len(),
            None => r matches Err(e) && e == DecodeError::Corrupted,
        },
{
    let n: usize = file.len();
    let mut zlib_compressed: Vec<u8> = Vec::new();
    let mut at: usize = offset;
    loop
        invariant
            n == file@.len(),
            at <= n,
            zlib_compressed@.len() <= at,
            image_data(file@, at as int, zlib_compressed@) == image_data(
                file@,
                offset as int,
                Seq::empty(),
            ),
        decreases n - at,
    {
        let chunk = match Chunk::read(file, at) {
            Ok(c) => c,
            Err(_) => {
                return Err(DecodeError::Corrupted);
            },
        };
        let ghost kind = chunk.chunk_type@;
        let ghost start = zlib_compressed@;
        let t = chunk.chunk_type;
        if t[0] == 73 && t[1] == 69 && t[2] == 78 && t[3] == 68 {
            assert(kind =~= iend_type());
            return Ok(zlib_compressed);
        }
        assert(kind != iend_type()) by {
            if kind == iend_type() {
                assert(kind[0] == 73 && kind[1] == 69 && kind[2] == 78 && kind[3] == 68);
            }
        }
        let is_data: bool = t[0] == 73 && t[1] == 68 && t[2] == 65 && t[3] == 84;
        assert(is_data == (kind == idat_type())) by {
            if is_data {
                assert(kind =~= idat_type());
            } else if kind == idat_type() {
                assert(kind[0] == 73 && kind[1] == 68 && kind[2] == 65 && kind[3] == 84);
            }
        }
        if is_data {
            let mut k: usize = 0;
            let ghost before = zlib_compressed@;
            while k < chunk.data.len()
                invariant
                    k <= chunk.data@.len(),
                    zlib_compressed@ == before + chunk.data@.subrange(0, k as int),
                decreases chunk.data@.len() - k,
            {
                zlib_compressed.push(chunk.data[k]);
                k += 1;
                assert(zlib_compressed@ =~= before + chunk.data@.subrange(0, k as int));
            }
            assert(chunk.data@.subrange(0, chunk.data@.len() as int) =~= chunk.data@);
        }
        let body_end: usize = at + 8 + chunk.length as usize;
        assert(image_data(file@, at as int, start) == image_data(
            file@,
            body_end + 4,
            zlib_compressed@,
        ));
        if n - body_end < 4 {
            // the next chunk would start behind the file
            assert(chunk_at(file@, body_end + 4) is None);
            return Err(DecodeError::Corrupted);
        }
        at = body_end + 4;
    }
}

/// Reads the image header of a PNG file: checks the signature, reads the
/// first chunk, and checks that the image is one that this crate decodes.
pub fn read_image_header(file: &[u8]) -> (r: Result<IHDRChunk, DecodeError>)
    ensures
        r == image_header(file@),
{
    let signature: [u8; 8] = [0x89, 0x50, 0x4e, 0x47, 0x0d, 0x0a, 0x1a, 0x0a];
    assert(signature@ =~= self::signature());
    if file.len() < 8 || !starts_with(file, 0, &signature) {
        return Err(DecodeError::InvalidSignature);
    }
    let image_header_chunk = match Chunk::read(file, 8) {
        Ok(c) => c,
        Err(_) => {
            return Err(DecodeError::Corrupted);
        },
    };
    let t = image_header_chunk.chunk_type;
    let ghost kind = t@;
    let is_header: bool = t[0] == 73 && t[1] == 72 && t[2] == 68 && t[3] == 82;
    assert(is_header == (kind == ihdr_type())) by {
        if is_header {
            assert(kind =~= ihdr_type());
        } else if kind == ihdr_type() {
            assert(kind[0] == 73 && kind[1] == 72 && kind[2] == 68 && kind[3] == 82);
        }
    }
    if !is_header {
        return Err(DecodeError::Corrupted);
    }
    let image_header = match IHDRChunk::parse(image_header_chunk.data.as_slice()) {
        Ok(h) => h,
        Err(_) => {
            return Err(DecodeError::Corrupted);
        },
    };
    if image_header.color_type != 2 || image_header.bit_depth != 8
        || image_header.interlace_method != 0 {
        return Err(DecodeError::UnsupportedFeature);
    }
    Ok(image_header)
}

impl Default for Png {
    /// An image without pixels.
    fn default() -> (png: Png)
        ensures
            png.width == 0,
            png.height == 0,
            png.data@.len() == 0,
    {
        Png { width: 0, height: 0, data: into_boxed(Vec::new()) }
    }
}

impl Png {
    /// Decodes a PNG image from the bytes of its file.
    pub fn read(file: &[u8]) -> (r: Result<Png, DecodeError>)
        requires
            addressable(file@),
        ensures
            match decoded(file@) {
                Ok((width, height, image)) => r matches Ok(png) && png.width == width
                    && png.height == height && png.data@ == image,
                Err(e) => r matches Err(f) && f == e,
            },
    {
        // parse IHDR chunk
        let image_header = match read_image_header(file) {
            Ok(h) => h,
            Err(e) => {
                return Err(e);
            },
        };
        let width: usize = image_header.width as usize;
        let height: usize = image_header.height as usize;
        let bit_depth: usize = image_header.bit_depth as usize;

        // collect all IDAT chunks
        if file.len() < 33 {
            assert(chunk_at(file@, 33) is None);
            return Err(DecodeError::Corrupted);
        }
        let zlib_compressed = match collect_image_data(file, 33) {
            Ok(v) => v,
            Err(_) => {
                return Err(DecodeError::Corrupted);
            },
        };

        // decode image data
        match decode_image_data(zlib_compressed, width, height, bit_depth) {
            Ok(data) => Ok(Png { width, height, data }),
            Err(e) => Err(e),
        }
    }
}

/// The filtered byte that stands for byte `p` of `image`, whose rows have
/// `stride` bytes and whose row `y` is filtered with the type `kinds[y]`.
/// The neighbours are the bytes of `image` itself.
pub open spec fn filtered_at(image: Seq<u8>, kinds: Seq<u8>, stride: int, bpp: int, p: int) -> u8 {
    let y = p / stride;
    let i = p % stride;
    let a = if i < bpp {
        0
    } else {
        image[p - bpp] as int
    };
    let b = if y == 0 {
        0
    } else {
        image[p - stride] as int
    };
    let c = if y == 0 || i < bpp {
        0
    } else {
        image[p - stride - bpp] as int
    };
    filtered(kinds[y] as int, image[p] as int, a, b, c)
}

/// The scanlines that stand for `image`: for each row its filter type,
/// then its filtered bytes.
pub open spec fn filtered_lines(image: Seq<u8>, kinds: Seq<u8>, stride: nat, bpp: nat) -> Seq<u8> {
    Seq::new(
        kinds.len() * (1 + stride),
        |k: int|
            {
                let y = k / (stride + 1) as int;
                let j = k % (stride + 1) as int;
                if j == 0 {
                    kinds[y]
                } else {
                    filtered_at(image, kinds, stride as int, bpp as int, y * stride + j - 1)
                }
            },
    )
}

/// Reconstructing a filtered byte from the same neighbours gives the byte
/// back, for every filter type.
pub proof fn lemma_reconstructed_filtered(filter: int, x: u8, a: int, b: int, c: int)
    ensures
        reconstructed(filter, filtered(filter, x as int, a, b, c) as int, a, b, c) == x,
{
    let d = predicted(filter, a, b, c);
    let f = (x - d) % 256;
    vstd::arithmetic::div_mod::lemma_mod_bound(x - d, 256);
    assert(filtered(filter, x as int, a, b, c) as int == f);
    vstd::arithmetic::div_mod::lemma_add_mod_noop(x - d, d, 256);
    vstd::arithmetic::div_mod::lemma_mod_twice(x - d, 256);
    vstd::arithmetic::div_mod::lemma_add_mod_noop(f, d, 256);
    vstd::arithmetic::div_mod::lemma_small_mod(x as nat, 256);
}

/// Where scanline `y` and its byte `i` stand among scanlines of `stride`
/// bytes and a filter type byte each.
proof fn lemma_line_place(stride: int, height: int, y: int, i: int)
    requires
        stride >= 0,
        0 <= y < height,
        0 <= i <= stride,
    ensures
        0 <= y * (stride + 1) + i < height * (1 + stride),
        (y * (stride + 1) + i) / (stride + 1) == y,
        (y * (stride + 1) + i) % (stride + 1) == i,
{
    vstd::arithmetic::div_mod::lemma_fundamental_div_mod_converse(
        y * (stride + 1) + i,
        stride + 1,
        y,
        i,
    );
    assert(y * (stride + 1) + i < height * (1 + stride)) by (nonlinear_arith)
        requires
            stride >= 0,
            0 <= y < height,
            0 <= i <= stride,
    ;
    assert(0 <= y * (stride + 1)) by (nonlinear_arith)
        requires
            stride >= 0,
            0 <= y,
    ;
}

/// Reconstruction gives every byte of an image back from its filtered
/// scanlines.
proof fn lemma_recon_filtered(image: Seq<u8>, kinds: Seq<u8>, stride: nat, bpp: nat, p: int)
    requires
        bpp >= 1,
        stride >= 1,
        image.len() == kinds.len() * stride,
        0 <= p < image.len(),
    ensures
        recon(filtered_lines(image, kinds, stride, bpp), stride as int, bpp as int, p) == image[p],
    decreases p,
{
    let lines = filtered_lines(image, kinds, stride, bpp);
    let s = stride as int;
    let height = kinds.len() as int;
    lemma_row_and_column(s, p);
    let y = p / s;
    let i = p % s;
    assert(y < height) by (nonlinear_arith)
        requires
            p == y * s + i,
            0 <= i,
            p < height * s,
            s >= 1,
    ;
    lemma_line_place(s, height, y, 0);
    lemma_line_place(s, height, y, i + 1);
    assert(lines[y * (s + 1)] == kinds[y]);
    assert(lines[y * (s + 1) + 1 + i] == filtered_at(image, kinds, s, bpp as int, p));
    if i >= bpp {
        lemma_recon_filtered(image, kinds, stride, bpp, p - bpp);
    }
    if y != 0 {
        lemma_recon_filtered(image, kinds, stride, bpp, p - s);
        if i >= bpp {
            lemma_recon_filtered(image, kinds, stride, bpp, p - s - bpp);
        }
    }
    let a = if i < bpp {
        0
    } else {
        image[p - bpp] as int
    };
    let b = if y == 0 {
        0
    } else {
        image[p - s] as int
    };
    let c = if y == 0 || i < bpp {
        0
    } else {
        image[p - s - bpp] as int
    };
    lemma_reconstructed_filtered(kinds[y] as int, image[p], a, b, c);
}

/// Filtering an image and then reversing the filters gives the image back:
/// for every image of `kinds.len()` rows of `width` pixels of `bpp` bytes,
/// and every choice of a filter type from 0 to 4 for each row. The first
/// row, which has no row above, and the first pixel of a row, which has
/// nothing to its left, are included.
pub proof fn lemma_defilter_inverts_filter(image: Seq<u8>, kinds: Seq<u8>, width: nat, bpp: nat)
    requires
        bpp >= 1,
        image.len() == kinds.len() * (width * bpp),
        forall|y: int| 0 <= y < kinds.len() ==> #[trigger] kinds[y] <= 4,
    ensures
        defiltered(filtered_lines(image, kinds, width * bpp, bpp), width, kinds.len(), bpp) == Ok::<
            Seq<u8>,
            DecodeError,
        >(image),
{
    let stride = width * bpp;
    let height = kinds.len();
    let lines = filtered_lines(image, kinds, stride, bpp);
    assert(lines.len() == height * (1 + stride));
    assert forall|y: int| 0 <= y < height implies #[trigger] lines[y * (stride + 1)] <= 4 by {
        lemma_line_place(stride as int, height as int, y, 0);
        assert(lines[y * (stride + 1)] == kinds[y]);
    }
    let got = Seq::new(height * stride, |p: int| recon(lines, stride as int, bpp as int, p));
    assert forall|p: int| 0 <= p < image.len() implies got[p] == image[p] by {
        if stride >= 1 {
            lemma_recon_filtered(image, kinds, stride, bpp, p);
        }
    }
    assert(got =~= image);
}

} // verus!
