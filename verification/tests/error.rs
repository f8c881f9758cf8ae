use rawmedia::error::DecodeError;

#[test]
fn every_error_kind_has_a_message() {
    assert_eq!(DecodeError::InvalidSignature.message(), "invalid signature");
    assert_eq!(DecodeError::UnsupportedFeature.message(), "unsupported feature");
    assert_eq!(DecodeError::Corrupted.message(), "corrupted data");
}

#[test]
fn errors_compare_by_kind() {
    assert_eq!(DecodeError::Corrupted, DecodeError::Corrupted);
    assert_ne!(DecodeError::Corrupted, DecodeError::UnsupportedFeature);
}
