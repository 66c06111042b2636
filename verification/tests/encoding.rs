use bm::{decode_length, encode_length};

#[test]
fn length_chunks_round_trip() {
    for len in [0usize, 1, 17, 255, 256, 65_535, 1 << 40] {
        let chunk = encode_length(len);
        assert_eq!(chunk.len(), 32);
        assert_eq!(decode_length(&chunk), Some(len));
    }
}

#[test]
fn length_decoding_rejects_wide_values() {
    assert_eq!(decode_length(&vec![0u8; 31]), None);
    assert_eq!(decode_length(&vec![0xffu8; 32]), None);

    let mut chunk = encode_length(17);
    chunk[16] = 1;
    assert_eq!(decode_length(&chunk), None);
}

#[test]
fn length_chunk_is_little_endian() {
    let chunk = encode_length(0x0102_0304);
    assert_eq!(&chunk[0..4], &[0x04, 0x03, 0x02, 0x01]);
    assert!(chunk[4..].iter().all(|b| *b == 0));
}
