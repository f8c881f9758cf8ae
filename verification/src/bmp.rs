//! Windows bitmap files: the file header, the image header, and the pixel
//! data of 24-bit images, with their normalisation to top-down RGB.

use vstd::prelude::*;
use crate::bytes::{
    byte_or_zero, le16_at, le32_at, get_or_zero, read_le16, read_le32, copy_range, into_boxed,
};
use crate::error::DecodeError;

verus! {

/// Fixed-point values with a 2-bit integer part and a 30-bit fractional part.
pub type FxPt2Dot30 = u32;

/// A colour as three fixed-point coordinates.
pub struct CieXYZ {
    pub cie_xyz_x: FxPt2Dot30,
    pub cie_xyz_y: FxPt2Dot30,
    pub cie_xyz_z: FxPt2Dot30,
}

/// The coordinates of the red, green and blue endpoints of a colour space.
pub struct CieXYZTriple {
    pub cie_xyz_red: CieXYZ,
    pub cie_xyz_green: CieXYZ,
    pub cie_xyz_blue: CieXYZ,
}

/// The 14-byte header at the start of a bitmap file.
pub struct BitmapFileStructure {
    pub file_type: [u8; 2],
    pub size: u32,
    pub reserved1: u16,
    pub reserved2: u16,
    pub byte_offset: u32,
}

/// The 124-byte image header that follows the file header.
pub struct BitmapV5Header {
    pub size: u32,
    pub width: u32,
    pub height: u32,
    pub planes: u16,
    pub bit_count: u16,
    pub compression: u32,
    pub size_image: u32,
    pub xpels_per_meter: u32,
    pub ypels_per_meter: u32,
    pub clr_used: u32,
    pub clr_important: u32,
    pub red_mask: u32,
    pub green_mask: u32,
    pub blue_mask: u32,
    pub alpha_mask: u32,
    pub cs_type: u32,
    pub endpoints: CieXYZTriple,
    pub gamma_red: u32,
    pub gamma_green: u32,
    pub gamma_blue: u32,
    pub intent: u32,
    pub profile_data: u32,
    pub profile_size: u32,
    pub reserved: u32,
}

/// The pixels of a bitmap as the file holds them: rows bottom-up, each pixel
/// blue, green, red.
pub struct Bmp {
    pub data: Box<[u8]>,
    pub width: usize,
    pub height: usize,
}

/// Where the image header starts in a bitmap file.
pub const IMAGE_HEADER_OFFSET: usize = 14;

/// The colour whose three coordinates start at `off`.
pub open spec fn cie_xyz_at(b: Seq<u8>, off: int) -> CieXYZ {
    CieXYZ {
        cie_xyz_x: le32_at(b, off) as u32,
        cie_xyz_y: le32_at(b, off + 4) as u32,
        cie_xyz_z: le32_at(b, off + 8) as u32,
    }
}

/// The file header that the first 14 bytes of `b` spell, all fields little
/// endian, a byte that `b` lacks counting as 0.
pub open spec fn file_header_of(b: Seq<u8>) -> BitmapFileStructure {
    BitmapFileStructure {
        file_type: [byte_or_zero(b, 0) as u8, byte_or_zero(b, 1) as u8],
        size: le32_at(b, 2) as u32,
        reserved1: le16_at(b, 6) as u16,
        reserved2: le16_at(b, 8) as u16,
        byte_offset: le32_at(b, 10) as u32,
    }
}

/// The image header that the 124 bytes of `b` from byte 14 on spell, all
/// fields little endian, a byte that `b` lacks counting as 0.
#[verifier::opaque]
pub open spec fn image_header_of(b: Seq<u8>) -> BitmapV5Header {
    BitmapV5Header {
        size: le32_at(b, 14) as u32,
        width: le32_at(b, 18) as u32,
        height: le32_at(b, 22) as u32,
        planes: le16_at(b, 26) as u16,
        bit_count: le16_at(b, 28) as u16,
        compression: le32_at(b, 30) as u32,
        size_image: le32_at(b, 34) as u32,
        xpels_per_meter: le32_at(b, 38) as u32,
        ypels_per_meter: le32_at(b, 42) as u32,
        clr_used: le32_at(b, 46) as u32,
        clr_important: le32_at(b, 50) as u32,
        red_mask: le32_at(b, 54) as u32,
        green_mask: le32_at(b, 58) as u32,
        blue_mask: le32_at(b, 62) as u32,
        alpha_mask: le32_at(b, 66) as u32,
        cs_type: le32_at(b, 70) as u32,
        endpoints: CieXYZTriple {
            cie_xyz_red: cie_xyz_at(b, 74),
            cie_xyz_green: cie_xyz_at(b, 86),
            cie_xyz_blue: cie_xyz_at(b, 98),
        },
        gamma_red: le32_at(b, 110) as u32,
        gamma_green: le32_at(b, 114) as u32,
        gamma_blue: le32_at(b, 118) as u32,
        intent: le32_at(b, 122) as u32,
        profile_data: le32_at(b, 126) as u32,
        profile_size: le32_at(b, 130) as u32,
        reserved: le32_at(b, 134) as u32,
    }
}

/// How many bytes of pixel data the headers of `b` announce: width times
/// height times the whole bytes of one pixel.
pub open spec fn pixel_bytes(b: Seq<u8>) -> nat {
    le32_at(b, 18) * le32_at(b, 22) * (le16_at(b, 28) / 8)
}

/// What a bitmap file holds: pixel data, width and height. A file that does
/// not start with "BM" has an `InvalidSignature`; one whose pixel data, from
/// the offset that the file header gives, does not lie inside the file is
/// `Corrupted`.
pub open spec fn parsed(b: Seq<u8>) -> Result<(Seq<u8>, nat, nat), DecodeError> {
    if byte_or_zero(b, 0) != 0x42 || byte_or_zero(b, 1) != 0x4d {
        Err(DecodeError::InvalidSignature)
    } else if le32_at(b, 10) + pixel_bytes(b) > b.len() {
        Err(DecodeError::Corrupted)
    } else {
        Ok(
            (
                b.subrange(le32_at(b, 10) as int, (le32_at(b, 10) + pixel_bytes(b)) as int),
                le32_at(b, 18),
                le32_at(b, 22),
            ),
        )
    }
}

/// The pixels of `data`, an image of `width` by `height` pixels of three
/// bytes, with the rows in reverse order and the bytes of each pixel in
/// reverse order: byte `c` of pixel `x` of row `y` is byte `2 - c` of pixel
/// `x` of row `height - 1 - y` of `data`.
pub open spec fn normalized_rgb(data: Seq<u8>, width: nat, height: nat) -> Seq<u8> {
    Seq::new(
        width * height * 3,
        |k: int|
            {
                let pixel = k / 3;
                let y = pixel / width as int;
                let x = pixel % width as int;
                data[((height - 1 - y) * width + x) * 3 + (2 - k % 3)]
            },
    )
}

/// Reads the three coordinates of a colour at `off`.
fn read_cie_xyz(b: &[u8], off: usize) -> (c: CieXYZ)
    requires
        off + 12 <= usize::MAX,
    ensures
        c == cie_xyz_at(b@, off as int),
{
    CieXYZ {
        cie_xyz_x: read_le32(b, off),
        cie_xyz_y: read_le32(b, off + 4),
        cie_xyz_z: read_le32(b, off + 8),
    }
}

/// Reads the file header from the start of a bitmap file.
pub fn read_file_header(file: &[u8]) -> (header: BitmapFileStructure)
    ensures
        header == file_header_of(file@),
{
    BitmapFileStructure {
        file_type: [get_or_zero(file, 0), get_or_zero(file, 1)],
        size: read_le32(file, 2),
        reserved1: read_le16(file, 6),
        reserved2: read_le16(file, 8),
        byte_offset: read_le32(file, 10),
    }
}

/// Reads the image header that follows the file header of a bitmap file.
pub fn read_image_header(file: &[u8]) -> (header: BitmapV5Header)
    ensures
        header == image_header_of(file@),
        header.width as nat == le32_at(file@, 18),
        header.height as nat == le32_at(file@, 22),
        header.bit_count as nat == le16_at(file@, 28),
{
    reveal(image_header_of);
    let at: usize = IMAGE_HEADER_OFFSET;
    BitmapV5Header {
        size: read_le32(file, at),
        width: read_le32(file, at + 4),
        height: read_le32(file, at + 8),
        planes: read_le16(file, at + 12),
        bit_count: read_le16(file, at + 14),
        compression: read_le32(file, at + 16),
        size_image: read_le32(file, at + 20),
        xpels_per_meter: read_le32(file, at + 24),
        ypels_per_meter: read_le32(file, at + 28),
        clr_used: read_le32(file, at + 32),
        clr_important: read_le32(file, at + 36),
        red_mask: read_le32(file, at + 40),
        green_mask: read_le32(file, at + 44),
        blue_mask: read_le32(file, at + 48),
        alpha_mask: read_le32(file, at + 52),
        cs_type: read_le32(file, at + 56),
        endpoints: CieXYZTriple {
            cie_xyz_red: read_cie_xyz(file, at + 60),
            cie_xyz_green: read_cie_xyz(file, at + 72),
            cie_xyz_blue: read_cie_xyz(file, at + 84),
        },
        gamma_red: read_le32(file, at + 96),
        gamma_green: read_le32(file, at + 100),
        gamma_blue: read_le32(file, at + 104),
        intent: read_le32(file, at + 108),
        profile_data: read_le32(file, at + 112),
        profile_size: read_le32(file, at + 116),
        reserved: read_le32(file, at + 120),
    }
}

/// Width times height times the bytes of one pixel.
fn pixel_data_length(width: u32, height: u32, byte_per_pixel: u16) -> (n: u128)
    ensures
        n == width as nat * height as nat * byte_per_pixel as nat,
        n <= 0xffff_ffff * 0xffff_ffff * 0xffff,
{
    assert(width as nat * height as nat <= 0xffff_ffff * 0xffff_ffff) by (nonlinear_arith)
        requires
            width <= 0xffff_ffff,
            height <= 0xffff_ffff,
    ;
    let pixels: u128 = width as u128 * height as u128;
    assert(pixels * byte_per_pixel as nat <= 0xffff_ffff * 0xffff_ffff * 0xffff)
        by (nonlinear_arith)
        requires
            pixels <= 0xffff_ffff * 0xffff_ffff,
            byte_per_pixel <= 0xffff,
    ;
    pixels * byte_per_pixel as u128
}

impl Bmp {
    /// Reads a bitmap from the bytes of its file.
    pub fn read(file: &[u8]) -> (r: Result<Bmp, DecodeError>)
        ensures
            match parsed(file@) {
                Ok((data, width, height)) => r matches Ok(bmp) && bmp.data@ == data && bmp.width
                    == width && bmp.height == height,
                Err(e) => r matches Err(f) && f == e,
            },
    {
        let file_header = read_file_header(file);
        if file_header.file_type[0] != 0x42 || file_header.file_type[1] != 0x4d {
            return Err(DecodeError::InvalidSignature);
        }
        let image_header = read_image_header(file);
        let width: u32 = image_header.width;
        let height: u32 = image_header.height;
        let byte_per_pixel: u16 = image_header.bit_count / 8;
        let start: u32 = file_header.byte_offset;
        assert(width as nat == le32_at(file@, 18));
        assert(height as nat == le32_at(file@, 22));
        assert(byte_per_pixel as nat == le16_at(file@, 28) / 8);
        assert(start as nat == le32_at(file@, 10));
        let length: u128 = pixel_data_length(width, height, byte_per_pixel);
        if start as u128 + length > file.len() as u128 {
            return Err(DecodeError::Corrupted);
        }
        let from: usize = start as usize;
        let count: usize = length as usize;
        let data = copy_range(file, from, from + count);
        Ok(Bmp { data: into_boxed(data), width: width as usize, height: height as usize })
    }

    /// Whether the image holds three bytes for each of its pixels.
    pub fn holds_pixels(&self) -> (ok: bool)
        ensures
            ok == (self.data@.len() >= self.width * self.height * 3),
    {
        let total: usize = self.data.len();
        let pixels: usize = match self.width.checked_mul(self.height) {
            Some(v) => v,
            None => {
                return false;
            },
        };
        match pixels.checked_mul(3) {
            Some(needed) => total >= needed,
            None => false,
        }
    }

    /// Normalize the image data.
    /// - Y-order from bottom-to-top to top-to-bottom
    /// - pixel format from BGR to RGB
    pub fn as_normalized_rgb(&self) -> (rgb: Box<[u8]>)
        requires
            self.data@.len() >= self.width * self.height * 3,
        ensures
            rgb@ == normalized_rgb(self.data@, self.width as nat, self.height as nat),
    {
        let width: usize = self.width;
        let height: usize = self.height;
        let total: usize = self.data.len();
        let ghost want = normalized_rgb(self.data@, width as nat, height as nat);
        let mut rgb_data: Vec<u8> = Vec::new();
        let mut y: usize = 0;
        while y < height
            invariant
                y <= height,
                width == self.width,
                height == self.height,
                total == self.data@.len(),
                self.data@.len() >= width * height * 3,
                want == normalized_rgb(self.data@, width as nat, height as nat),
                rgb_data@.len() == y * width * 3,
                want.len() == width * height * 3,
                forall|k: int| 0 <= k < rgb_data@.len() ==> rgb_data@[k] == want[k],
            decreases height - y,
        {
            let mut x: usize = 0;
            while x < width
                invariant
                    y < height,
                    x <= width,
                    width == self.width,
                    height == self.height,
                    total == self.data@.len(),
                    self.data@.len() >= width * height * 3,
                    want == normalized_rgb(self.data@, width as nat, height as nat),
                    rgb_data@.len() == (y * width + x) * 3,
                    want.len() == width * height * 3,
                    forall|k: int| 0 <= k < rgb_data@.len() ==> rgb_data@[k] == want[k],
                decreases width - x,
            {
                proof {
                    lemma_pixel_index(width as int, height as int, x as int, y as int);
                    assert(0 <= (height - 1 - y) * width) by (nonlinear_arith)
                        requires
                            0 <= height - 1 - y,
                            0 <= width,
                    ;
                }
                let i: usize = (height - 1 - y) * width + x;
                let b: u8 = self.data[i * 3];
                let g: u8 = self.data[i * 3 + 1];
                let r: u8 = self.data[i * 3 + 2];
                let ghost base = (y * width + x) * 3;
                rgb_data.push(r);
                rgb_data.push(g);
                rgb_data.push(b);
                assert(want[base] == r && want[base + 1] == g && want[base + 2] == b) by {
                    assert((base + 0) / 3 == y * width + x && (base + 0) % 3 == 0);
                    assert((base + 1) / 3 == y * width + x && (base + 1) % 3 == 1);
                    assert((base + 2) / 3 == y * width + x && (base + 2) % 3 == 2);
                }
                x += 1;
            }
            proof {
                assert((y * width + width) * 3 == (y + 1) * width * 3) by (nonlinear_arith);
            }
            y += 1;
        }
        assert(height * width * 3 == width * height * 3) by (nonlinear_arith);
        assert(rgb_data@ =~= want);
        into_boxed(rgb_data)
    }
}

/// Pixel `x` of row `y` of an image of `width` by `height` pixels lies
/// inside the image, and so does its mirror in row `height - 1 - y`; its
/// place in the image gives `x` and `y` back.
proof fn lemma_pixel_index(width: int, height: int, x: int, y: int)
    requires
        0 <= x < width,
        0 <= y < height,
    ensures
        0 <= (height - 1 - y) * width + x < width * height,
        0 <= y * width + x < width * height,
        ((height - 1 - y) * width + x) * 3 + 2 < width * height * 3,
        (y * width + x) * 3 + 2 < width * height * 3,
        (y * width + x) / width == y,
        (y * width + x) % width == x,
        forall|c: int| 0 <= c < 3 ==> #[trigger] (((y * width + x) * 3 + c) / 3) == y * width + x,
        forall|c: int| 0 <= c < 3 ==> #[trigger] (((y * width + x) * 3 + c) % 3) == c,
{
    assert(0 <= (height - 1 - y) * width + x < width * height) by (nonlinear_arith)
        requires
            0 <= x < width,
            0 <= y < height,
    ;
    assert(0 <= y * width + x < width * height) by (nonlinear_arith)
        requires
            0 <= x < width,
            0 <= y < height,
    ;
    vstd::arithmetic::div_mod::lemma_fundamental_div_mod_converse(y * width + x, width, y, x);
}

} // verus!
