use rawmedia::bit::{is_addressable, read_bits, read_one_bit, try_read_bits};
use rawmedia::error::DecodeError;

#[test]
fn test_read_bit() {
    assert_eq!(read_bits(&[0b00110000], 0, 1), 0b0);
    assert_eq!(read_bits(&[0b00001100], 1, 2), 0b10);
    assert_eq!(read_bits(&[0b01000000, 0b00000010], 6, 6), 0b001001);
}

#[test]
fn read_one_bit_is_lsb_first() {
    let buf = [0b0000_0001u8, 0b1000_0000u8];
    assert_eq!(read_one_bit(&buf, 0), 1);
    assert_eq!(read_one_bit(&buf, 1), 0);
    assert_eq!(read_one_bit(&buf, 7), 0);
    assert_eq!(read_one_bit(&buf, 8), 0);
    assert_eq!(read_one_bit(&buf, 15), 1);
}

#[test]
fn read_bits_is_the_weighted_sum_of_single_bits() {
    let buf = [0xa7u8, 0x3c, 0xf0, 0x19];
    for off in 0..16usize {
        for k in 0..=16u8 {
            let mut sum = 0usize;
            for i in 0..k as usize {
                sum += (read_one_bit(&buf, off + i) as usize) << i;
            }
            assert_eq!(read_bits(&buf, off, k), sum);
        }
    }
}

#[test]
fn read_bits_whole_bytes() {
    assert_eq!(read_bits(&[0x34, 0x12], 0, 16), 0x1234);
    assert_eq!(read_bits(&[0xff], 0, 0), 0);
    assert_eq!(read_bits(&[0xff], 4, 4), 0xf);
}

#[test]
fn try_read_bits_checks_the_range() {
    let buf = [0b1010_0101u8];
    assert_eq!(try_read_bits(&buf, 0, 8), Ok(0b1010_0101));
    assert_eq!(try_read_bits(&buf, 5, 3), Ok(0b101));
    assert_eq!(try_read_bits(&buf, 5, 4), Err(DecodeError::Corrupted));
    assert_eq!(try_read_bits(&buf, 8, 0), Ok(0));
    assert_eq!(try_read_bits(&buf, 9, 0), Err(DecodeError::Corrupted));
    assert_eq!(try_read_bits(&[], 0, 1), Err(DecodeError::Corrupted));
}

#[test]
fn buffers_in_memory_are_addressable() {
    assert!(is_addressable(&[]));
    assert!(is_addressable(&[0u8; 1024]));
}
