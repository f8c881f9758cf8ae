use rawmedia::error::DecodeError;
use rawmedia::zlib::inflate;

#[test]
fn zlib_stored() {
    let stream = [120u8, 1, 1, 5, 0, 250, 255, 104, 101, 108, 108, 111, 6, 44, 2, 21];
    assert_eq!(inflate(&stream), Ok(b"hello".to_vec()));
}

#[test]
fn zlib_static() {
    let stream = [120u8, 218, 203, 72, 205, 201, 201, 87, 200, 64, 144, 0, 58, 46, 6, 125];
    assert_eq!(inflate(&stream), Ok(b"hello hello hello".to_vec()));
}

#[test]
fn zlib_run_length() {
    let stream = [120u8, 218, 75, 76, 36, 14, 0, 0, 54, 235, 15, 41];
    assert_eq!(inflate(&stream), Ok(vec![b'a'; 40]));
}

#[test]
fn zlib_dynamic() {
    let stream = [
        120u8, 218, 237, 140, 193, 9, 192, 64, 12, 195, 254, 55, 69, 86, 147, 237, 236, 191, 66,
        125, 116, 130, 254, 11, 134, 68, 96, 11, 37, 2, 6, 169, 233, 43, 66, 115, 209, 198, 113,
        175, 6, 206, 197, 76, 180, 39, 29, 249, 54, 188, 209, 1, 87, 224, 233, 200, 214, 190, 184,
        175, 135, 95, 255, 77, 255, 0, 97, 216, 144, 218,
    ];
    let alphabet = b"aaaaaaabbbbcccdde \n";
    let text: Vec<u8> =
        (0..400usize).map(|i| alphabet[(i * i * 7 + 3 * i + (i / 5)) % 19]).collect();
    assert_eq!(inflate(&stream), Ok(text));
}

#[test]
fn method_nine_is_unsupported() {
    let stream = [0x79u8, 1, 1, 5, 0, 250, 255, 104, 101, 108, 108, 111, 6, 44, 2, 21];
    assert_eq!(inflate(&stream), Err(DecodeError::UnsupportedFeature));
    assert_eq!(inflate(&[0x09]), Err(DecodeError::UnsupportedFeature));
}

#[test]
fn short_streams_are_corrupted() {
    assert_eq!(inflate(&[]), Err(DecodeError::Corrupted));
    assert_eq!(inflate(&[0x78]), Err(DecodeError::Corrupted));
    assert_eq!(inflate(&[0x78, 1, 0, 0, 0]), Err(DecodeError::Corrupted));
    // header and checksum with nothing between them
    assert_eq!(inflate(&[0x78, 1, 0, 0, 0, 0]), Err(DecodeError::Corrupted));
}

#[test]
fn block_type_three_inside_zlib_is_corrupted() {
    assert_eq!(inflate(&[0x78, 1, 0b0000_0111, 0, 0, 0, 0]), Err(DecodeError::Corrupted));
}

#[test]
fn the_checksum_is_not_looked_at() {
    let stream = [120u8, 1, 1, 5, 0, 250, 255, 104, 101, 108, 108, 111, 0, 0, 0, 0];
    assert_eq!(inflate(&stream), Ok(b"hello".to_vec()));
}

#[test]
fn a_preset_dictionary_flag_is_not_looked_at() {
    let stream = [120u8, 0x20, 1, 5, 0, 250, 255, 104, 101, 108, 108, 111, 6, 44, 2, 21];
    assert_eq!(inflate(&stream), Ok(b"hello".to_vec()));
}
