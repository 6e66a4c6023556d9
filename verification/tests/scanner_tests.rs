use bzip2_rs::bitreader::BitReader;
use bzip2_rs::block::BLOCK_MAGIC;
use bzip2_rs::scanner::{find_next_signature, find_signatures, SignatureFinder};

/// A 1024-byte filler, the magic shifted `shift` bits into a 16-byte
/// field, then 1024 more filler bytes.
fn shifted_haystack(fill: u8, shift: u32) -> Vec<u8> {
    let mut haystack = vec![fill; 1024];
    let shifted: u128 = (BLOCK_MAGIC as u128) << shift;
    haystack.extend_from_slice(&u128::to_be_bytes(shifted));
    haystack.resize(haystack.len() + 1024, fill);
    haystack
}

#[test]
fn find_at_any_offset_0() {
    for shift in 0..=80u32 {
        println!("shift: {}", shift);
        let haystack = shifted_haystack(0, shift);

        let pos = find_next_signature(&haystack).unwrap();
        assert_eq!(pos, (1024 * 8) + (128 - 48 - shift as u64));

        let mut reader = BitReader::new(&haystack, 0);
        assert!(reader.advance_by(pos as usize));
        let magic = reader.read_u64(48).unwrap();
        assert_eq!(BLOCK_MAGIC, magic);
    }
}

#[test]
fn find_at_any_offset_255() {
    for shift in 0..=80u32 {
        println!("shift: {}", shift);
        let mut haystack = vec![255u8; 1024];
        let shifted: u128 = (BLOCK_MAGIC as u128) << shift;
        haystack.extend_from_slice(&u128::to_be_bytes(shifted));
        haystack.resize(haystack.len() + 1024, 255);
        println!("shifted: {:?}", u128::to_be_bytes(shifted));

        let pos = find_next_signature(&haystack).unwrap();
        assert_eq!(pos, (1024 * 8) + (128 - 48 - shift as u64));

        let mut reader = BitReader::new(&haystack, 0);
        assert!(reader.advance_by(pos as usize));
        let magic = reader.read_u64(48).unwrap();
        assert_eq!(BLOCK_MAGIC, magic);
    }
}

#[test]
fn iter_find_at_any_offsets() {
    for shift in 0..=80u32 {
        let haystack = shifted_haystack(0, shift);
        let mut repeated_haystack = Vec::new();
        for _ in 0..16 {
            repeated_haystack.extend_from_slice(&haystack);
        }

        let mut finder = SignatureFinder::new(&repeated_haystack);
        for _ in 0..16 {
            let pos = finder.next_signature().unwrap();

            let mut reader = BitReader::new(&repeated_haystack, 0);
            assert!(reader.advance_by(pos as usize));
            let magic = reader.read_u64(48).unwrap();
            assert_eq!(BLOCK_MAGIC, magic);
        }
        assert!(finder.next_signature().is_none());
    }
}

#[test]
fn threaded_find_at_any_offsets() {
    for shift in 0..=80u32 {
        let haystack = shifted_haystack(0, shift);
        let mut repeated_haystack = Vec::new();
        for _ in 0..16 {
            repeated_haystack.extend_from_slice(&haystack);
        }

        let positions = find_signatures(&repeated_haystack);
        assert_eq!(positions.len(), 16);
        for pos in positions {
            let mut reader = BitReader::new(&repeated_haystack, 0);
            assert!(reader.advance_by(pos as usize));
            let magic = reader.read_u64(48).unwrap();
            assert_eq!(BLOCK_MAGIC, magic);
        }
    }
}

#[test]
fn no_magic_no_hit() {
    let haystack = vec![0u8; 256];
    assert!(find_next_signature(&haystack).is_none());
    assert!(find_signatures(&haystack).is_empty());
}
