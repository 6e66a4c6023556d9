use bzip2_rs::huffman::HuffmanTree;

#[test]
fn too_few_symbols_rejected() {
    let err = HuffmanTree::new(&[1u8]).unwrap_err();
    assert_eq!(err.message(), "too few symbols");
    let err = HuffmanTree::new(&[]).unwrap_err();
    assert_eq!(err.message(), "too few symbols");
}

#[test]
fn two_symbol_code_builds() {
    assert!(HuffmanTree::new(&[1u8, 1u8]).is_ok());
}
