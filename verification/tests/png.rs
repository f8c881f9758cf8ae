use rawmedia::error::DecodeError;
use rawmedia::png::{decode_image_data, defilter, paeth_predictor, read_image_header, Chunk, IHDRChunk, Png};

const ONE_PIXEL: [u8; 69] = [
    137, 80, 78, 71, 13, 10, 26, 10, 0, 0, 0, 13, 73, 72, 68, 82, 0, 0, 0, 1, 0, 0, 0, 1, 8, 2, 0,
    0, 0, 144, 119, 83, 222, 0, 0, 0, 12, 73, 68, 65, 84, 120, 218, 99, 104, 112, 80, 0, 0, 2, 36,
    0, 225, 149, 164, 177, 139, 0, 0, 0, 0, 73, 69, 78, 68, 174, 66, 96, 130,
];

// 3 by 5 pixels, one row for each filter type, the image data in two IDAT
// chunks with a text chunk between them
const FIVE_FILTERS: [u8; 145] = [
    137, 80, 78, 71, 13, 10, 26, 10, 0, 0, 0, 13, 73, 72, 68, 82, 0, 0, 0, 3, 0, 0, 0, 5, 8, 2, 0,
    0, 0, 15, 19, 193, 245, 0, 0, 0, 5, 73, 68, 65, 84, 120, 218, 1, 50, 0, 32, 117, 149, 124, 0,
    0, 0, 3, 116, 69, 88, 116, 107, 0, 118, 203, 4, 243, 144, 0, 0, 0, 56, 73, 68, 65, 84, 205,
    255, 0, 68, 32, 130, 60, 253, 230, 241, 194, 107, 1, 48, 249, 14, 151, 228, 243, 29, 171, 116,
    2, 4, 169, 1, 68, 48, 3, 223, 230, 99, 3, 244, 32, 217, 241, 56, 62, 150, 254, 39, 4, 134, 154,
    245, 54, 84, 231, 10, 75, 237, 67, 65, 23, 51, 146, 222, 27, 179, 0, 0, 0, 0, 73, 69, 78, 68,
    174, 66, 96, 130,
];

const FIVE_FILTERS_LINES: [u8; 50] = [
    0, 68, 32, 130, 60, 253, 230, 241, 194, 107, 1, 48, 249, 14, 151, 228, 243, 29, 171, 116, 2, 4,
    169, 1, 68, 48, 3, 223, 230, 99, 3, 244, 32, 217, 241, 56, 62, 150, 254, 39, 4, 134, 154, 245,
    54, 84, 231, 10, 75, 237,
];

const FIVE_FILTERS_PIXELS: [u8; 45] = [
    68, 32, 130, 60, 253, 230, 241, 194, 107, 48, 249, 14, 199, 221, 1, 228, 136, 117, 52, 162, 15,
    11, 13, 4, 195, 110, 216, 14, 113, 224, 253, 119, 176, 118, 112, 235, 148, 11, 213, 51, 95,
    151, 61, 170, 216,
];

#[test]
fn one_pixel_image() {
    let png = Png::read(&ONE_PIXEL).ok().unwrap();
    assert_eq!(png.width, 1);
    assert_eq!(png.height, 1);
    assert_eq!(png.data.as_ref(), &[0x80u8, 0x40, 0x20][..]);
}

#[test]
fn all_filter_types_and_split_image_data() {
    let png = Png::read(&FIVE_FILTERS).ok().unwrap();
    assert_eq!(png.width, 3);
    assert_eq!(png.height, 5);
    assert_eq!(png.data.as_ref(), &FIVE_FILTERS_PIXELS[..]);
}

#[test]
fn defilter_inverts_each_filter() {
    assert_eq!(defilter(&FIVE_FILTERS_LINES, 3, 5, 3), Ok(FIVE_FILTERS_PIXELS.to_vec()));
}

fn paeth(a: i32, b: i32, c: i32) -> i32 {
    let p = a + b - c;
    let (pa, pb, pc) = ((p - a).abs(), (p - b).abs(), (p - c).abs());
    if pa <= pb && pa <= pc {
        a
    } else if pb <= pc {
        b
    } else {
        c
    }
}

fn filter_rows(rows: &[Vec<u8>], kind: u8, bpp: usize) -> Vec<u8> {
    let mut lines = Vec::new();
    for y in 0..rows.len() {
        lines.push(kind);
        for i in 0..rows[y].len() {
            let x = rows[y][i] as i32;
            let a = if i >= bpp { rows[y][i - bpp] as i32 } else { 0 };
            let b = if y > 0 { rows[y - 1][i] as i32 } else { 0 };
            let c = if y > 0 && i >= bpp { rows[y - 1][i - bpp] as i32 } else { 0 };
            let predicted = match kind {
                0 => 0,
                1 => a,
                2 => b,
                3 => (a + b) / 2,
                _ => paeth(a, b, c),
            };
            lines.push((x - predicted).rem_euclid(256) as u8);
        }
    }
    lines
}

#[test]
fn filter_then_defilter_gives_the_rows_back() {
    let rows: Vec<Vec<u8>> = (0..4usize)
        .map(|y| (0..12usize).map(|i| ((y * 97 + i * 31 + y * i * 5) % 256) as u8).collect())
        .collect();
    let flat: Vec<u8> = rows.iter().flatten().copied().collect();
    for kind in 0..=4u8 {
        for bpp in [1usize, 3, 4] {
            let lines = filter_rows(&rows, kind, bpp);
            assert_eq!(defilter(&lines, 12 / bpp, 4, bpp), Ok(flat.clone()));
        }
    }
}

#[test]
fn defilter_uses_the_byte_three_to_the_left() {
    // filter type 1 on two pixels: the second pixel adds the first, byte by byte
    assert_eq!(defilter(&[1, 10, 20, 30, 1, 2, 3], 2, 1, 3), Ok(vec![10, 20, 30, 11, 22, 33]));
    // sums wrap at 256
    assert_eq!(defilter(&[1, 200, 0, 0, 100, 0, 0], 2, 1, 3), Ok(vec![200, 0, 0, 44, 0, 0]));
    // filter type 3 halves the sum of left and above, rounding down
    assert_eq!(
        defilter(&[0, 7, 0, 0, 3, 0, 1, 2], 1, 2, 3),
        Ok(vec![7, 0, 0, 3, 1, 2])
    );
}

#[test]
fn defilter_rejects_bad_input() {
    assert_eq!(defilter(&[5, 1, 2, 3], 1, 1, 3), Err(DecodeError::Corrupted));
    assert_eq!(defilter(&[0, 1, 2], 1, 1, 3), Err(DecodeError::Corrupted));
    assert_eq!(defilter(&[0, 1, 2, 3, 4], 1, 1, 3), Err(DecodeError::Corrupted));
    assert_eq!(defilter(&[], 1, 1, 3), Err(DecodeError::Corrupted));
    assert_eq!(defilter(&[], 7, 0, 3), Ok(vec![]));
    assert_eq!(defilter(&[0], 7, 0, 3), Err(DecodeError::Corrupted));
    assert_eq!(defilter(&[0, 0], 0, 2, 3), Ok(vec![]));
    assert_eq!(defilter(&[0, 9], 0, 2, 3), Err(DecodeError::Corrupted));
    assert_eq!(defilter(&[0, 1, 2, 3], usize::MAX, 1, 3), Err(DecodeError::Corrupted));
}

#[test]
fn paeth_picks_the_nearest_neighbour() {
    assert_eq!(paeth_predictor(0, 0, 0), 0);
    assert_eq!(paeth_predictor(10, 20, 30), 10);
    assert_eq!(paeth_predictor(10, 20, 10), 20);
    assert_eq!(paeth_predictor(10, 20, 20), 10);
    assert_eq!(paeth_predictor(255, 255, 0), 255);
    assert_eq!(paeth_predictor(0, 0, 255), 0);
    assert_eq!(paeth_predictor(100, 50, 75), 75);
    // ties go to a, then b
    assert_eq!(paeth_predictor(5, 5, 9), 5);
    assert_eq!(paeth_predictor(4, 4, 0), 4);
    // c is nearest when it lies between a and b
    assert_eq!(paeth_predictor(3, 7, 5), 5);
    for a in (0..256).step_by(17) {
        for b in (0..256).step_by(13) {
            for c in (0..256).step_by(11) {
                assert_eq!(paeth_predictor(a as u16, b as u16, c as u16) as i32, paeth(a, b, c));
            }
        }
    }
}

#[test]
fn chunk_fields_are_big_endian() {
    let chunk = Chunk::read(&ONE_PIXEL, 8).ok().unwrap();
    assert_eq!(chunk.length, 13);
    assert_eq!(&chunk.chunk_type, b"IHDR");
    assert_eq!(chunk.data, vec![0, 0, 0, 1, 0, 0, 0, 1, 8, 2, 0, 0, 0]);
    let header = IHDRChunk::parse(&[0, 0, 1, 2, 0, 3, 0, 4, 8, 2, 0, 0, 1]).ok().unwrap();
    assert_eq!(header.width, 0x102);
    assert_eq!(header.height, 0x30004);
    assert_eq!(header.bit_depth, 8);
    assert_eq!(header.color_type, 2);
    assert_eq!(header.interlace_method, 1);
    assert!(matches!(IHDRChunk::parse(&[0; 12]), Err(DecodeError::Corrupted)));
    assert!(matches!(Chunk::read(&ONE_PIXEL, 62), Err(DecodeError::Corrupted)));
    assert!(matches!(Chunk::read(&ONE_PIXEL[..20], 8), Err(DecodeError::Corrupted)));
}

#[test]
fn a_wrong_signature_is_invalid() {
    let mut file = ONE_PIXEL.to_vec();
    file[1] = b'Q';
    assert!(matches!(Png::read(&file), Err(DecodeError::InvalidSignature)));
    assert!(matches!(Png::read(&file[..4]), Err(DecodeError::InvalidSignature)));
    assert!(matches!(read_image_header(&[]), Err(DecodeError::InvalidSignature)));
}

#[test]
fn other_colour_types_are_unsupported() {
    let mut file = ONE_PIXEL.to_vec();
    file[25] = 6;
    assert!(matches!(Png::read(&file), Err(DecodeError::UnsupportedFeature)));
    let mut file = ONE_PIXEL.to_vec();
    file[24] = 16;
    assert!(matches!(Png::read(&file), Err(DecodeError::UnsupportedFeature)));
    let mut file = ONE_PIXEL.to_vec();
    file[28] = 1;
    assert!(matches!(Png::read(&file), Err(DecodeError::UnsupportedFeature)));
}

#[test]
fn a_broken_chunk_stream_is_corrupted() {
    // first chunk is not IHDR
    let mut file = ONE_PIXEL.to_vec();
    file[12] = b'J';
    assert!(matches!(Png::read(&file), Err(DecodeError::Corrupted)));
    // the file ends before IEND
    assert!(matches!(Png::read(&ONE_PIXEL[..57]), Err(DecodeError::Corrupted)));
    assert!(matches!(Png::read(&ONE_PIXEL[..30]), Err(DecodeError::Corrupted)));
    // no image data at all
    let mut file = ONE_PIXEL[..33].to_vec();
    file.extend_from_slice(&ONE_PIXEL[57..]);
    assert!(matches!(Png::read(&file), Err(DecodeError::Corrupted)));
    // the image is larger than its data
    let mut file = ONE_PIXEL.to_vec();
    file[19] = 2;
    assert!(matches!(Png::read(&file), Err(DecodeError::Corrupted)));
}

#[test]
fn image_data_with_another_method_is_unsupported() {
    let mut file = ONE_PIXEL.to_vec();
    file[41] = 0x79;
    assert!(matches!(Png::read(&file), Err(DecodeError::UnsupportedFeature)));
}

#[test]
fn decode_image_data_needs_eight_bits() {
    let data = ONE_PIXEL[41..53].to_vec();
    assert_eq!(
        decode_image_data(data.clone(), 1, 1, 8).ok().unwrap().as_ref(),
        &[0x80u8, 0x40, 0x20][..]
    );
    assert!(matches!(decode_image_data(data.clone(), 1, 1, 16), Err(DecodeError::UnsupportedFeature)));
    assert!(matches!(decode_image_data(data, 1, 2, 8), Err(DecodeError::Corrupted)));
}

#[test]
fn the_default_image_is_empty() {
    let png = Png::default();
    assert_eq!(png.width, 0);
    assert_eq!(png.height, 0);
    assert!(png.data.is_empty());
}
