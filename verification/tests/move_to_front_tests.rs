use bzip2_rs::bitreader::BitReader;
use bzip2_rs::move_to_front::MoveToFrontDecoder;

#[test]
fn move_stuff() {
    let mut decoder = MoveToFrontDecoder::new();

    for i in 0..=255u16 {
        assert_eq!(i as u8, decoder.symbol_at(i as u8));
    }

    let decode = decoder.decode(0);
    assert_eq!(decode, 0);

    for i in 0..=255u16 {
        assert_eq!(i as u8, decoder.symbol_at(i as u8));
    }

    let decode = decoder.decode(5);
    assert_eq!(decode, 5);

    assert_eq!(decoder.symbol_at(0), 5);
    assert_eq!(decoder.symbol_at(1), 0);
    assert_eq!(decoder.symbol_at(2), 1);
    assert_eq!(decoder.symbol_at(3), 2);
    assert_eq!(decoder.symbol_at(4), 3);
    assert_eq!(decoder.symbol_at(5), 4);
    for i in 6..=255u16 {
        assert_eq!(i as u8, decoder.symbol_at(i as u8));
    }
}

#[test]
fn symbol_map_lists_used_symbols() {
    // Range bitmap flags only range 0; inside it, symbols 0 and 1 are
    // present. The decoder lists them first and reports alpha = used + 2.
    let bytes: Vec<u8> = vec![0x80, 0x00, 0xC0, 0x00];
    let mut reader = BitReader::new(&bytes, 0);
    let (decoder, alpha_size) = MoveToFrontDecoder::read_from_block(&mut reader).unwrap();
    assert_eq!(alpha_size, 4);
    assert_eq!(decoder.symbol_at(0), 0);
    assert_eq!(decoder.symbol_at(1), 1);
    assert_eq!(reader.position(), 32);
}

#[test]
fn symbol_map_empty_is_rejected() {
    let bytes: Vec<u8> = vec![0x00, 0x00];
    let mut reader = BitReader::new(&bytes, 0);
    let err = MoveToFrontDecoder::read_from_block(&mut reader).unwrap_err();
    assert_eq!(err.message(), "no symbols in input");
}

#[test]
fn symbol_map_truncated_is_rejected() {
    let bytes: Vec<u8> = vec![0x80];
    let mut reader = BitReader::new(&bytes, 0);
    let err = MoveToFrontDecoder::read_from_block(&mut reader).unwrap_err();
    assert_eq!(err.message(), "symbol range truncated");
}
