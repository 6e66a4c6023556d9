use bzip2_rs::header::{Header, HeaderError};

#[test]
fn valid_9k() {
    let header = Header::parse(*b"BZh9").unwrap();
    assert_eq!(header.raw_blocksize(), 9);
    assert_eq!(header.max_blocksize(), 900000);
}

#[test]
fn blocksize_zero_rejected() {
    let err = Header::parse(*b"BZh0").unwrap_err();
    assert_eq!(err, HeaderError::InvalidBlockSize);
}

#[test]
fn blocksize_past_nine_rejected() {
    let err = Header::parse(*b"BZh:").unwrap_err();
    assert_eq!(err, HeaderError::InvalidBlockSize);
}

#[test]
fn bad_signature_rejected() {
    let err = Header::parse(*b"ZB h").unwrap_err();
    assert_eq!(err, HeaderError::InvalidSignature);
}

#[test]
fn bad_version_rejected() {
    let err = Header::parse(*b"BZg9").unwrap_err();
    assert_eq!(err, HeaderError::UnsupportedVersion);
}

#[test]
fn emit_parse_roundtrip() {
    // The parse of an emitted header returns the same raw block size,
    // for every legal block size.
    for raw in 1u8..=9 {
        let header = Header::from_raw_blocksize(raw).unwrap();
        let bytes = header.emit();
        let parsed = Header::parse(bytes).unwrap();
        assert_eq!(parsed.raw_blocksize(), raw);
        assert_eq!(parsed.max_blocksize(), 100_000 * (raw as u32));
    }
}

#[test]
fn from_raw_blocksize_bounds() {
    assert!(Header::from_raw_blocksize(0).is_err());
    assert!(Header::from_raw_blocksize(10).is_err());
    assert!(Header::from_raw_blocksize(1).is_ok());
}
