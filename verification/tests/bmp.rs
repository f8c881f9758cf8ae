use rawmedia::bmp::{read_file_header, read_image_header, Bmp};
use rawmedia::error::DecodeError;

fn sample_2x2() -> Vec<u8> {
    let pixels = [0x00u8, 0x00, 0xff, 0x00, 0xff, 0x00, 0xff, 0x00, 0x00, 0xff, 0xff, 0xff];
    let mut file = Vec::new();
    file.extend_from_slice(b"BM");
    file.extend_from_slice(&66u32.to_le_bytes());
    file.extend_from_slice(&[0, 0, 0, 0]);
    file.extend_from_slice(&54u32.to_le_bytes());
    file.extend_from_slice(&40u32.to_le_bytes());
    file.extend_from_slice(&2u32.to_le_bytes());
    file.extend_from_slice(&2u32.to_le_bytes());
    file.extend_from_slice(&1u16.to_le_bytes());
    file.extend_from_slice(&24u16.to_le_bytes());
    file.extend_from_slice(&[0u8; 24]);
    assert_eq!(file.len(), 54);
    file.extend_from_slice(&pixels);
    file
}

#[test]
fn parse_reads_the_pixel_data() {
    let bmp = Bmp::read(&sample_2x2()).ok().unwrap();
    assert_eq!(bmp.width, 2);
    assert_eq!(bmp.height, 2);
    assert_eq!(
        bmp.data.as_ref(),
        &[0x00u8, 0x00, 0xff, 0x00, 0xff, 0x00, 0xff, 0x00, 0x00, 0xff, 0xff, 0xff][..]
    );
}

#[test]
fn normalized_rgb_flips_rows_and_swaps_channels() {
    let bmp = Bmp::read(&sample_2x2()).ok().unwrap();
    // file rows bottom-up: (red, green) is the bottom row, (blue, white) the top one
    let rgb = bmp.as_normalized_rgb();
    assert_eq!(
        rgb.as_ref(),
        &[0x00u8, 0x00, 0xff, 0xff, 0xff, 0xff, 0xff, 0x00, 0x00, 0x00, 0xff, 0x00][..]
    );
}

#[test]
fn normalized_rgb_of_one_row() {
    let bmp = Bmp { data: vec![1u8, 2, 3, 4, 5, 6].into_boxed_slice(), width: 2, height: 1 };
    assert_eq!(bmp.as_normalized_rgb().as_ref(), &[3u8, 2, 1, 6, 5, 4][..]);
    let empty = Bmp { data: Vec::new().into_boxed_slice(), width: 0, height: 0 };
    assert_eq!(empty.as_normalized_rgb().len(), 0);
}

#[test]
fn normalizing_twice_gives_the_image_back() {
    let data: Vec<u8> = (0..3 * 4 * 3).map(|i| (i * 7 % 251) as u8).collect();
    let bmp = Bmp { data: data.clone().into_boxed_slice(), width: 3, height: 4 };
    let once = bmp.as_normalized_rgb();
    let again = Bmp { data: once, width: 3, height: 4 }.as_normalized_rgb();
    assert_eq!(again.as_ref(), &data[..]);
}

#[test]
fn a_file_that_is_not_a_bitmap_has_an_invalid_signature() {
    let mut file = sample_2x2();
    file[0] = b'P';
    assert!(matches!(Bmp::read(&file), Err(DecodeError::InvalidSignature)));
    assert!(matches!(Bmp::read(&[]), Err(DecodeError::InvalidSignature)));
    assert!(matches!(Bmp::read(b"B"), Err(DecodeError::InvalidSignature)));
}

#[test]
fn pixel_data_outside_the_file_is_corrupted() {
    let mut file = sample_2x2();
    file.pop();
    assert!(matches!(Bmp::read(&file), Err(DecodeError::Corrupted)));
    let mut file = sample_2x2();
    file[18] = 3;
    assert!(matches!(Bmp::read(&file), Err(DecodeError::Corrupted)));
    let mut file = sample_2x2();
    file[18..22].copy_from_slice(&[0xff, 0xff, 0xff, 0xff]);
    file[22..26].copy_from_slice(&[0xff, 0xff, 0xff, 0xff]);
    assert!(matches!(Bmp::read(&file), Err(DecodeError::Corrupted)));
}

#[test]
fn headers_are_little_endian() {
    let mut file = sample_2x2();
    file[2..6].copy_from_slice(&[0x78, 0x56, 0x34, 0x12]);
    file[6] = 0xcd;
    file[7] = 0xab;
    let header = read_file_header(&file);
    assert_eq!(header.file_type, [b'B', b'M']);
    assert_eq!(header.size, 0x12345678);
    assert_eq!(header.reserved1, 0xabcd);
    assert_eq!(header.reserved2, 0);
    assert_eq!(header.byte_offset, 54);
    let image = read_image_header(&file);
    assert_eq!(image.size, 40);
    assert_eq!(image.width, 2);
    assert_eq!(image.height, 2);
    assert_eq!(image.planes, 1);
    assert_eq!(image.bit_count, 24);
    assert_eq!(image.compression, 0);
    // the file ends inside the header: the pixel bytes are read as fields,
    // and what lies behind the file reads as zero
    assert_eq!(image.red_mask, 0x00ff_0000);
    assert_eq!(image.green_mask, 0x00ff_00ff);
    assert_eq!(image.blue_mask, 0xffff_ff00);
    assert_eq!(image.alpha_mask, 0);
    assert_eq!(image.endpoints.cie_xyz_blue.cie_xyz_z, 0);
    assert_eq!(image.reserved, 0);
}

#[test]
fn holds_pixels_counts_three_bytes_for_each_pixel() {
    let full = Bmp { data: vec![0u8; 12].into_boxed_slice(), width: 2, height: 2 };
    assert!(full.holds_pixels());
    let short = Bmp { data: vec![0u8; 11].into_boxed_slice(), width: 2, height: 2 };
    assert!(!short.holds_pixels());
    let huge = Bmp { data: vec![0u8; 4].into_boxed_slice(), width: usize::MAX, height: 2 };
    assert!(!huge.holds_pixels());
    let none = Bmp { data: Vec::new().into_boxed_slice(), width: usize::MAX, height: 0 };
    assert!(none.holds_pixels());
}
