use raftstore::endian::{bin_to_id, id_to_bin};

#[test]
fn id_is_written_most_significant_byte_first() {
    assert_eq!(id_to_bin(0x0102_0304_0506_0708), vec![1u8, 2, 3, 4, 5, 6, 7, 8]);
    assert_eq!(id_to_bin(0), vec![0u8; 8]);
}

#[test]
fn id_is_read_back() {
    assert_eq!(bin_to_id(&[0u8, 0, 0, 0, 0, 0, 1, 2]), Some(258));
    assert_eq!(bin_to_id(&[0xffu8; 8]), Some(u64::MAX));
    assert_eq!(bin_to_id(&[1u8, 2, 3]), None);
}
