use rawmedia::deflate::{inflate, inflate_uncompressed_block};
use rawmedia::error::DecodeError;

#[test]
fn stored_block() {
    let stream = [1u8, 5, 0, 250, 255, 104, 101, 108, 108, 111];
    assert_eq!(inflate(&stream), Ok(b"hello".to_vec()));
}

#[test]
fn static_block() {
    let stream = [203u8, 72, 205, 201, 201, 87, 200, 64, 144, 0];
    assert_eq!(inflate(&stream), Ok(b"hello hello hello".to_vec()));
}

#[test]
fn run_length_match_reads_what_it_wrote() {
    // one literal 'a', then a match of distance 1 that is longer than 1
    let stream = [75u8, 76, 36, 14, 0, 0];
    assert_eq!(inflate(&stream), Ok(vec![b'a'; 40]));
}

fn sample_text() -> Vec<u8> {
    let alphabet = b"aaaaaaabbbbcccdde \n";
    (0..400usize).map(|i| alphabet[(i * i * 7 + 3 * i + (i / 5)) % 19]).collect()
}

#[test]
fn dynamic_block() {
    let stream = [
        237u8, 140, 193, 9, 192, 64, 12, 195, 254, 55, 69, 86, 147, 237, 236, 191, 66, 125, 116,
        130, 254, 11, 134, 68, 96, 11, 37, 2, 6, 169, 233, 43, 66, 115, 209, 198, 113, 175, 6,
        206, 197, 76, 180, 39, 29, 249, 54, 188, 209, 1, 87, 224, 233, 200, 214, 190, 184, 175,
        135, 95, 255, 77, 255, 0,
    ];
    assert_eq!(stream[0] & 1, 1);
    assert_eq!((stream[0] >> 1) & 3, 2);
    assert_eq!(inflate(&stream), Ok(sample_text()));
}

#[test]
fn several_blocks() {
    let stream = [74u8, 76, 74, 78, 4, 35, 0, 0, 0, 0, 255, 255, 171, 168, 172, 2, 0];
    assert_eq!(inflate(&stream), Ok(b"abcabcabcxyz".to_vec()));
    let stream = [0u8, 2, 0, 253, 255, 97, 98, 0, 0, 0, 255, 255, 1, 2, 0, 253, 255, 99, 100];
    assert_eq!(inflate(&stream), Ok(b"abcd".to_vec()));
}

#[test]
fn block_type_three_is_corrupted() {
    // BFINAL = 1, BTYPE = 11
    assert_eq!(inflate(&[0b0000_0111]), Err(DecodeError::Corrupted));
    assert_eq!(inflate(&[0b0000_0110, 0, 0, 0]), Err(DecodeError::Corrupted));
}

#[test]
fn empty_input_is_corrupted() {
    assert_eq!(inflate(&[]), Err(DecodeError::Corrupted));
}

#[test]
fn missing_last_block_is_corrupted() {
    // a stored block that is not marked last, and nothing behind it
    let stream = [0u8, 2, 0, 253, 255, 97, 98];
    assert_eq!(inflate(&stream), Err(DecodeError::Corrupted));
}

#[test]
fn stored_block_longer_than_the_buffer_is_corrupted() {
    let stream = [1u8, 5, 0, 250, 255, 104, 101];
    assert_eq!(inflate(&stream), Err(DecodeError::Corrupted));
    let stream = [1u8, 5, 0];
    assert_eq!(inflate(&stream), Err(DecodeError::Corrupted));
}

#[test]
fn match_before_the_start_of_the_output_is_corrupted() {
    // fixed codes: length symbol 257 (0000001), distance symbol 0 (00000),
    // with no byte written yet
    // bits in reading order: 1 (last) 1 0 (type 1) 0000001 00000 ...
    let mut bits: Vec<u8> = vec![1, 1, 0];
    bits.extend_from_slice(&[0, 0, 0, 0, 0, 0, 1]);
    bits.extend_from_slice(&[0, 0, 0, 0, 0]);
    bits.extend_from_slice(&[0, 0, 0, 0, 0, 0, 0]);
    let mut buf = vec![0u8; (bits.len() + 7) / 8];
    for (i, b) in bits.iter().enumerate() {
        buf[i / 8] |= b << (i % 8);
    }
    assert_eq!(inflate(&buf), Err(DecodeError::Corrupted));
}

#[test]
fn truncated_coded_block_is_corrupted() {
    let stream = [203u8, 72, 205, 201, 201, 87];
    assert_eq!(inflate(&stream), Err(DecodeError::Corrupted));
}

#[test]
fn a_failed_block_leaves_the_output_alone() {
    let mut out = vec![1u8, 2, 3];
    let r = inflate_uncompressed_block(&[5, 0, 250, 255, 104], &mut out, 0);
    assert_eq!(r, Err(DecodeError::Corrupted));
    assert_eq!(out, vec![1, 2, 3]);
    let r = inflate_uncompressed_block(&[2, 0, 253, 255, 104, 105], &mut out, 0);
    assert_eq!(r, Ok(48));
    assert_eq!(out, vec![1, 2, 3, 104, 105]);
}

fn stored(data: &[u8]) -> Vec<u8> {
    let mut stream = Vec::new();
    let mut rest = data;
    loop {
        let last = rest.len() <= 0xffff;
        let len = if last { rest.len() } else { 0xffff };
        stream.push(if last { 1 } else { 0 });
        stream.extend_from_slice(&(len as u16).to_le_bytes());
        stream.extend_from_slice(&(!(len as u16)).to_le_bytes());
        stream.extend_from_slice(&rest[..len]);
        rest = &rest[len..];
        if last {
            return stream;
        }
    }
}

#[test]
fn any_bytes_come_back_from_stored_blocks() {
    for len in [0usize, 1, 2, 255, 256, 0xffff, 0x10000, 70000, 140000] {
        let data: Vec<u8> = (0..len).map(|i| (i * 31 + i / 7) as u8).collect();
        assert_eq!(inflate(&stored(&data)), Ok(data));
    }
}

#[test]
fn the_complement_of_the_length_is_not_looked_at() {
    assert_eq!(inflate(&[1, 2, 0, 0, 0, 7, 8]), Ok(vec![7, 8]));
}

#[test]
fn a_stored_block_starts_at_the_next_byte() {
    // the five bits behind the block header are skipped, whatever they hold
    assert_eq!(inflate(&[0b1111_1001, 1, 0, 254, 255, 42]), Ok(vec![42]));
}
