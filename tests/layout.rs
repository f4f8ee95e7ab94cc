use cowblock::layout::{decode_be, encode_be, Layout, OverlayError};

#[test]
fn big_endian_codec() {
    assert_eq!(decode_be(&[1, 2]), 258);
    assert_eq!(encode_be(258, 4), vec![0, 0, 1, 2]);
    assert_eq!(encode_be(0x0102030405060708, 8), vec![1, 2, 3, 4, 5, 6, 7, 8]);
    assert_eq!(decode_be(&[1, 2, 3, 4, 5, 6, 7, 8]), 0x0102030405060708);
}

#[test]
fn layout_geometry() {
    let l = Layout::new(10, 26);
    assert_eq!(l.nblocks, 2);
    assert_eq!(l.nbytes, 4);
    assert_eq!(l.header_len(), 8);
    assert_eq!(l.base_region(), 20);
    assert_eq!(l.entry_offset(1), 4);
    let big = Layout::new(4, 4 * (1u64 << 32));
    assert_eq!(big.nbytes, 8);
}

#[test]
fn index_round_trip() {
    let l = Layout::new(10, 20);
    let entry = l.write_index(28).unwrap();
    assert_eq!(entry, vec![0, 0, 0, 3]);
    assert_eq!(l.read_index(&entry), Ok(Some(28)));
    assert_eq!(l.read_index(&[0, 0, 0, 0]), Ok(None));
    assert_eq!(l.read_index(&[0, 0, 0, 1]), Ok(Some(8)));
}

#[test]
fn index_write_refuses_bad_positions() {
    let l = Layout::new(10, 20);
    assert_eq!(l.write_index(7), Err(OverlayError::CorruptedDiff));
    assert_eq!(l.write_index(9), Err(OverlayError::CorruptedDiff));
}
