use rawmedia::error::DecodeError;
use rawmedia::huffman_table::{codes_of_lengths, lengths_to_codes, HuffmanTable};
use std::collections::HashMap;

#[test]
fn test_code_from_length1() {
    let mut lengths = HashMap::new();
    lengths.insert(0, 2);
    lengths.insert(1, 1);
    lengths.insert(2, 3);
    lengths.insert(3, 3);

    let codes = lengths_to_codes(&lengths);
    assert_eq!(codes[&0], 0b10);
    assert_eq!(codes[&1], 0b0);
    assert_eq!(codes[&2], 0b110);
    assert_eq!(codes[&3], 0b111);
}

#[test]
fn test_code_from_length2() {
    let mut lengths = HashMap::new();
    lengths.insert(0, 3);
    lengths.insert(1, 3);
    lengths.insert(2, 3);
    lengths.insert(3, 3);
    lengths.insert(4, 3);
    lengths.insert(5, 2);
    lengths.insert(6, 4);
    lengths.insert(7, 4);

    let codes = lengths_to_codes(&lengths);
    assert_eq!(codes[&0], 0b010);
    assert_eq!(codes[&1], 0b011);
    assert_eq!(codes[&2], 0b100);
    assert_eq!(codes[&3], 0b101);
    assert_eq!(codes[&4], 0b110);
    assert_eq!(codes[&5], 0b00);
    assert_eq!(codes[&6], 0b1110);
    assert_eq!(codes[&7], 0b1111);
}

#[test]
fn test_huffman_table() {
    let mut lengths = HashMap::new();
    lengths.insert(0, 1);
    lengths.insert(1, 2);
    lengths.insert(2, 3);
    lengths.insert(3, 3);

    // 2=0b10  -> 1
    // 0=0b0   -> 0
    // 6=0b110 -> 2
    // 7=0b111 -> 3
    let huffman = HuffmanTable::from_code_lengths(&lengths);
    let codes = [0b11011010, 0b1];

    assert_eq!(huffman.decode(&codes, 0), Ok((0, 1)));
    assert_eq!(huffman.decode(&codes, 1), Ok((1, 3)));
    assert_eq!(huffman.decode(&codes, 3), Ok((2, 6)));
    assert_eq!(huffman.decode(&codes, 6), Ok((3, 9)));
}

#[test]
fn symbols_of_length_zero_get_no_code() {
    let mut lengths = HashMap::new();
    lengths.insert(4u16, 0u8);
    lengths.insert(9u16, 1u8);
    let codes = lengths_to_codes(&lengths);
    assert_eq!(codes.len(), 1);
    assert_eq!(codes[&9], 0);
    assert!(!codes.contains_key(&4));
}

#[test]
fn dense_lengths_give_the_same_codes() {
    let codes = codes_of_lengths(&[3, 3, 3, 3, 3, 2, 4, 4]);
    assert_eq!(codes, vec![0b010, 0b011, 0b100, 0b101, 0b110, 0b00, 0b1110, 0b1111]);
    let codes = codes_of_lengths(&[2, 0, 1, 3, 3]);
    assert_eq!(codes, vec![0b10, 0, 0b0, 0b110, 0b111]);
}

#[test]
fn decode_reports_a_missing_code() {
    // one code of two bits: 00. Any other pair of bits has no symbol.
    let table = HuffmanTable::from_lengths(&[2]);
    assert_eq!(table.decode(&[0b0000_0000], 0), Ok((0, 2)));
    assert_eq!(table.decode(&[0b0000_0001], 0), Err(DecodeError::Corrupted));
    assert_eq!(table.decode(&[0b0000_0010], 0), Err(DecodeError::Corrupted));
}

#[test]
fn decode_reports_the_end_of_the_buffer() {
    let table = HuffmanTable::from_lengths(&[1, 2, 3, 3]);
    // at offset 7 the only bit left is 1, which starts a longer code
    assert_eq!(table.decode(&[0b1000_0000], 7), Err(DecodeError::Corrupted));
    assert_eq!(table.decode(&[0b0000_0000], 7), Ok((0, 8)));
    assert_eq!(table.decode(&[0b0000_0000], 8), Err(DecodeError::Corrupted));
    assert_eq!(table.decode(&[], 0), Err(DecodeError::Corrupted));
}

#[test]
fn an_empty_table_decodes_nothing() {
    let table = HuffmanTable::new();
    assert_eq!(table.decode(&[0xff, 0xff], 0), Err(DecodeError::Corrupted));
}

#[test]
fn add_then_decode() {
    let mut table = HuffmanTable::new();
    table.add(2, 0b01, 65);
    table.add(3, 0b100, 66);
    // bits in reading order: 0 1 | 1 0 0
    assert_eq!(table.decode(&[0b0000_0110], 0), Ok((65, 2)));
    assert_eq!(table.decode(&[0b0000_0110], 2), Ok((66, 5)));
}

fn push_code(bits: &mut Vec<u8>, code: u16, len: u8) {
    for i in (0..len).rev() {
        bits.push(((code >> i) & 1) as u8);
    }
}

#[test]
fn encode_then_decode_gives_the_symbols_back() {
    let lengths = [3u8, 3, 3, 3, 3, 2, 4, 4];
    let codes = codes_of_lengths(&lengths);
    let table = HuffmanTable::from_lengths(&lengths);
    let symbols = [5u16, 0, 7, 7, 3, 6, 1, 2, 4, 5, 5, 0];
    let mut bits = Vec::new();
    for &s in symbols.iter() {
        push_code(&mut bits, codes[s as usize], lengths[s as usize]);
    }
    let mut buf = vec![0u8; (bits.len() + 7) / 8];
    for (i, b) in bits.iter().enumerate() {
        buf[i / 8] |= b << (i % 8);
    }
    let mut off = 0usize;
    for &s in symbols.iter() {
        let (got, next) = table.decode(&buf, off).unwrap();
        assert_eq!(got, s);
        assert_eq!(next, off + lengths[s as usize] as usize);
        off = next;
    }
    assert_eq!(off, bits.len());
}
