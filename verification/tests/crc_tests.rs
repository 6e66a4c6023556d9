use bzip2_rs::crc::Crc;

#[test]
fn crc() {
    let mut hasher = Crc::new();
    hasher.update(b"123456789");
    assert_eq!(hasher.finalize(), 0xFC891918);
}

#[test]
fn crc_empty_is_zero() {
    let hasher = Crc::new();
    assert_eq!(hasher.finalize(), 0);
}

#[test]
fn crc_incremental_matches_whole() {
    let mut a = Crc::new();
    a.update(b"12345");
    a.update(b"6789");
    let mut b = Crc::new();
    b.update(b"123456789");
    assert_eq!(a.finalize(), b.finalize());
}
