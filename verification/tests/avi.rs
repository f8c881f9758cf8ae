use rawmedia::avi::{
    build, frames_fit, AVIHeader, AVIOldIndex, AVIStreamHeader, BitMapInfoHeader, AVIIF_KEYFRAME,
};
use rawmedia::bmp::Bmp;
use rawmedia::riff::Chunk;

fn headers(width: u32, height: u32, frames: u32) -> (AVIHeader, AVIStreamHeader, BitMapInfoHeader) {
    let avih = AVIHeader {
        micro_sec_per_frame: 1_000_000,
        max_bytes_per_sec: 1024 * 1024,
        padding_granularity: 0,
        flags: 0,
        total_frames: frames,
        initial_frames: 0,
        streams: 1,
        suggested_buffer_size: 1024 * 1024,
        width,
        height,
        reserved: [0, 0, 0, 0],
    };
    let strh = AVIStreamHeader {
        fcc_type: [b'v', b'i', b'd', b's'],
        fcc_handler: [0, 0, 0, 0],
        flags: 0,
        priority: 0,
        language: 0,
        initial_frames: 0,
        scale: 1,
        rate: 1,
        start: 0,
        length: frames,
        suggested_buffer_size: 1024 * 1024,
        quality: 0,
        sample_size: 0,
        frame_left: 0,
        frame_top: 0,
        frame_right: width as i16,
        frame_bottom: height as i16,
    };
    let strf = BitMapInfoHeader {
        size: 40,
        width: width as i32,
        height: height as i32,
        planes: 1,
        bit_count: 24,
        compression: 0,
        size_image: 0,
        x_pels_per_meter: 0,
        y_pels_per_meter: 0,
        clr_used: 0,
        clr_important: 0,
    };
    (avih, strh, strf)
}

fn sample_bmp() -> Vec<u8> {
    let pixels = [0x00u8, 0x00, 0xff, 0x00, 0xff, 0x00, 0xff, 0x00, 0x00, 0xff, 0xff, 0xff];
    let mut file = Vec::new();
    file.extend_from_slice(b"BM");
    file.extend_from_slice(&66u32.to_le_bytes());
    file.extend_from_slice(&[0, 0, 0, 0]);
    file.extend_from_slice(&54u32.to_le_bytes());
    file.extend_from_slice(&40u32.to_le_bytes());
    file.extend_from_slice(&2u32.to_le_bytes());
    file.extend_from_slice(&2u32.to_le_bytes());
    file.extend_from_slice(&1u16.to_le_bytes());
    file.extend_from_slice(&24u16.to_le_bytes());
    file.extend_from_slice(&[0u8; 24]);
    file.extend_from_slice(&pixels);
    file
}

#[test]
fn one_frame_file_is_byte_exact() {
    let bmp = Bmp::read(&sample_bmp()).ok().unwrap();
    let (avih, strh, strf) = headers(2, 2, 1);
    let avi = build(&avih, &strh, &strf, &vec![bmp.data.to_vec()]);
    let mut out = Vec::new();
    avi.write(&mut out);

    // RIFF, total size, AVI
    let total = (out.len() - 8) as u32;
    assert_eq!(&out[0..4], b"RIFF");
    assert_eq!(&out[4..8], &total.to_le_bytes());
    assert_eq!(&out[8..12], b"AVI ");
    assert_eq!(total, 4 + (192 + 8) + (4 + 20 + 8) + (16 + 8));

    // hdrl
    assert_eq!(&out[12..16], b"LIST");
    assert_eq!(&out[16..20], &192u32.to_le_bytes());
    assert_eq!(&out[20..24], b"hdrl");
    assert_eq!(&out[24..28], b"avih");
    assert_eq!(&out[28..32], &56u32.to_le_bytes());
    assert_eq!(&out[32..36], &1_000_000u32.to_le_bytes());
    assert_eq!(&out[88..92], b"LIST");
    assert_eq!(&out[92..96], &116u32.to_le_bytes());
    assert_eq!(&out[96..100], b"strl");
    assert_eq!(&out[100..104], b"strh");
    assert_eq!(&out[108..112], b"vids");
    assert_eq!(&out[164..168], b"strf");
    assert_eq!(&out[168..172], &40u32.to_le_bytes());

    // movi
    assert_eq!(&out[212..216], b"LIST");
    assert_eq!(&out[216..220], &24u32.to_le_bytes());
    assert_eq!(&out[220..224], b"movi");
    assert_eq!(&out[224..228], b"00dc");
    assert_eq!(&out[228..232], &12u32.to_le_bytes());
    assert_eq!(
        &out[232..244],
        &[0x00u8, 0x00, 0xff, 0x00, 0xff, 0x00, 0xff, 0x00, 0x00, 0xff, 0xff, 0xff]
    );

    // idx1: chunk id, flags, offset, size
    assert_eq!(&out[244..248], b"idx1");
    assert_eq!(&out[248..252], &16u32.to_le_bytes());
    assert_eq!(&out[252..256], b"00dc");
    assert_eq!(&out[256..260], &0x10u32.to_le_bytes());
    assert_eq!(&out[260..264], &4u32.to_le_bytes());
    assert_eq!(&out[264..268], &20u32.to_le_bytes());
    assert_eq!(out.len(), 268);
}

#[test]
fn index_offsets_add_up() {
    let (avih, strh, strf) = headers(1, 1, 3);
    let frames = vec![vec![1u8, 2, 3, 4], vec![5u8, 6], vec![]];
    let avi = build(&avih, &strh, &strf, &frames);
    assert_eq!(avi.children.len(), 3);
    let movi = &avi.children[1];
    assert_eq!(movi.form_type, "movi");
    assert_eq!(movi.children.len(), 3);
    assert_eq!(movi.size, 4 + 12 + 10 + 8);
    let idx = &avi.children[2];
    assert_eq!(idx.id, "idx1");
    assert_eq!(idx.data.len(), 48);
    let field = |entry: usize, at: usize| {
        let b = &idx.data[entry * 16 + at..entry * 16 + at + 4];
        u32::from_le_bytes([b[0], b[1], b[2], b[3]])
    };
    assert_eq!((field(0, 8), field(0, 12)), (4, 12));
    assert_eq!((field(1, 8), field(1, 12)), (16, 10));
    assert_eq!((field(2, 8), field(2, 12)), (26, 8));
    assert_eq!(field(2, 4), AVIIF_KEYFRAME);
}

#[test]
fn a_file_without_frames() {
    let (avih, strh, strf) = headers(1, 1, 0);
    let avi = build(&avih, &strh, &strf, &vec![]);
    assert_eq!(avi.children[1].size, 4);
    assert!(avi.children[2].data.is_empty());
    assert_eq!(avi.size, 4 + 200 + 12 + 8);
    let mut out = Vec::new();
    avi.write(&mut out);
    assert_eq!(out.len(), avi.size + 8);
    let back = Chunk::read(&out).ok().unwrap();
    assert_eq!(back.children[1].form_type, "movi");
    assert!(back.children[1].children.is_empty());
    assert_eq!(back.children[2].id, "idx1");
}

#[test]
fn the_written_file_parses_back() {
    let (avih, strh, strf) = headers(2, 1, 2);
    let frames = vec![vec![1u8, 2, 3, 4, 5, 6], vec![7u8, 8, 9, 10, 11, 12]];
    let avi = build(&avih, &strh, &strf, &frames);
    let mut out = Vec::new();
    avi.write(&mut out);
    let back = Chunk::read(&out).ok().unwrap();
    assert_eq!(back.id, "RIFF");
    assert_eq!(back.form_type, "AVI ");
    assert_eq!(back.size, avi.size);
    assert_eq!(back.children[1].children[1].data, frames[1]);
    let mut again = Vec::new();
    back.write(&mut again);
    assert_eq!(out, again);
}

#[test]
fn headers_have_their_fixed_layouts() {
    let (avih, mut strh, mut strf) = headers(640, 426, 10);
    let bytes = avih.to_bytes();
    assert_eq!(bytes.len(), 56);
    assert_eq!(&bytes[0..4], &1_000_000u32.to_le_bytes());
    assert_eq!(&bytes[16..20], &10u32.to_le_bytes());
    assert_eq!(&bytes[32..36], &640u32.to_le_bytes());
    assert_eq!(&bytes[36..40], &426u32.to_le_bytes());
    assert_eq!(&bytes[40..56], &[0u8; 16]);

    strh.priority = 0x0102;
    strh.frame_left = -2;
    strh.frame_top = i16::MIN;
    let bytes = strh.to_bytes();
    assert_eq!(bytes.len(), 56);
    assert_eq!(&bytes[0..4], b"vids");
    assert_eq!(&bytes[12..14], &[0x02, 0x01]);
    assert_eq!(&bytes[20..24], &1u32.to_le_bytes());
    assert_eq!(&bytes[32..36], &10u32.to_le_bytes());
    assert_eq!(&bytes[48..50], &(-2i16).to_le_bytes());
    assert_eq!(&bytes[50..52], &i16::MIN.to_le_bytes());
    assert_eq!(&bytes[52..54], &640i16.to_le_bytes());
    assert_eq!(&bytes[54..56], &426i16.to_le_bytes());

    strf.height = -426;
    strf.x_pels_per_meter = i32::MIN;
    let bytes = strf.to_bytes();
    assert_eq!(bytes.len(), 40);
    assert_eq!(&bytes[0..4], &40u32.to_le_bytes());
    assert_eq!(&bytes[4..8], &640i32.to_le_bytes());
    assert_eq!(&bytes[8..12], &(-426i32).to_le_bytes());
    assert_eq!(&bytes[12..14], &1u16.to_le_bytes());
    assert_eq!(&bytes[14..16], &24u16.to_le_bytes());
    assert_eq!(&bytes[24..28], &i32::MIN.to_le_bytes());

    let entry = AVIOldIndex { chunk_id: *b"00dc", flags: 0x10, offset: 0x01020304, size: 20 };
    let mut out = vec![7u8];
    entry.write(&mut out);
    assert_eq!(out, vec![7, b'0', b'0', b'd', b'c', 0x10, 0, 0, 0, 4, 3, 2, 1, 20, 0, 0, 0]);
}

#[test]
fn small_frames_fit() {
    assert!(frames_fit(&vec![]));
    assert!(frames_fit(&vec![vec![0u8; 12], vec![0u8; 1000]]));
}
