use gp2uv::jam::jam_xor;

#[test]
fn jam_is_symmetric() {
    let original: Vec<u8> = (0u8..=200).collect();
    let mut buf = original.clone();
    jam_xor(&mut buf);
    assert_ne!(buf, original, "encryption must change the bytes");
    jam_xor(&mut buf);
    assert_eq!(buf, original, "applying twice must be identity");
}

#[test]
fn jam_first_dword_uses_initial_key() {
    let mut buf = vec![0u8; 8];
    jam_xor(&mut buf);
    assert_eq!(&buf[0..4], &0xB082_F165u32.to_le_bytes());
    assert_eq!(&buf[4..8], &0xB082_F165u32.wrapping_mul(5).to_le_bytes());
}

#[test]
fn jam_trailing_bytes_use_next_key_low_bytes() {
    // 4 + 3 bytes: the last three use the low bytes of key * 5.
    let mut buf = vec![0u8; 7];
    jam_xor(&mut buf);
    let k1 = 0xB082_F165u32.wrapping_mul(5).to_le_bytes();
    assert_eq!(&buf[4..7], &k1[0..3]);
}

#[test]
fn jam_empty_buffer_is_untouched() {
    let mut buf: Vec<u8> = Vec::new();
    jam_xor(&mut buf);
    assert!(buf.is_empty());
}
