use bzip2_rs::bwt::inverse_bwt;

#[test]
fn inverse_bwt_links_banana() {
    // The BWT of "banana" (origin row 3) is "nnbaaa"; inverting it threads
    // the linked list below and leaves the cursor on row 2.
    let mut tt: Vec<u32> = b"nnbaaa".iter().map(|&b| b as u32).collect();
    let mut c = [0u32; 256];
    for &e in tt.iter() {
        c[e as usize] += 1;
    }
    let t_pos = inverse_bwt(&mut tt, 3, &mut c);
    assert_eq!(tt, vec![878, 1134, 1378, 609, 97, 353]);
    assert_eq!(t_pos, 2);

    // Walking the list replays "banana".
    let mut cursor = t_pos;
    let mut out = Vec::new();
    for _ in 0..tt.len() {
        cursor = tt[cursor as usize];
        out.push((cursor & 0xff) as u8);
        cursor >>= 8;
    }
    assert_eq!(out, b"banana".to_vec());
}

#[test]
fn inverse_bwt_single_byte_runs() {
    let mut tt: Vec<u32> = vec![7, 7, 7];
    let mut c = [0u32; 256];
    c[7] = 3;
    let t_pos = inverse_bwt(&mut tt, 0, &mut c);
    // All three rows share the byte, so the slots follow row order.
    assert_eq!(tt, vec![7, 256 + 7, 512 + 7]);
    assert_eq!(t_pos, 0);
}
