use patch_server::encoding::{encode, encode_compressed, fix_header_size, EncodeError};

#[test]
fn encode_short_file_prefix_and_embedded_size() {
    let out = encode(&b"new".to_vec()).unwrap();
    assert_eq!(&out[0..5], &[3, 0, 0, 0, 0]);
    assert_eq!(&out[15..23], &[3, 0, 0, 0, 0, 0, 0, 0]);
}

#[test]
fn encode_uses_lzma_header_with_large_dictionary() {
    let out = encode(&b"new".to_vec()).unwrap();
    // properties byte of preset 6 (lc=3, lp=0, pb=2), then the 32 MiB dictionary
    assert_eq!(out[5], 0x5d);
    assert_eq!(&out[6..10], &[0x00, 0x00, 0x00, 0x02]);
}

#[test]
fn encode_empty_input() {
    let out = encode(&Vec::new()).unwrap();
    assert_eq!(&out[0..5], &[0, 0, 0, 0, 0]);
    assert_eq!(&out[15..23], &[0; 8]);
}

#[test]
fn encode_large_input_records_length() {
    let data: Vec<u8> = (0..70_000u32).map(|i| (i * 31 % 251) as u8).collect();
    let out = encode(&data).unwrap();
    // 70000 = 0x11170
    assert_eq!(&out[0..5], &[0x70, 0x11, 0x01, 0, 0]);
    assert_eq!(&out[15..23], &[0x70, 0x11, 0x01, 0, 0, 0, 0, 0]);
}

#[test]
fn encode_is_deterministic() {
    let data = b"the same bytes twice".to_vec();
    assert_eq!(encode(&data).unwrap(), encode(&data).unwrap());
}

#[test]
fn fix_header_size_exact_layout() {
    let mut stream: Vec<u8> = (100..120u8).collect();
    fix_header_size(0x0102_0304_0506, &mut stream);
    let mut expected = vec![0x06, 0x05, 0x04, 0x03, 0x02];
    expected.extend(100..110u8);
    expected.extend([0x06, 0x05, 0x04, 0x03, 0x02, 0x01, 0x00, 0x00]);
    expected.extend(118..120u8);
    assert_eq!(stream, expected);
}

#[test]
fn length_prefix_keeps_low_forty_bits() {
    let mut stream = vec![0u8; 18];
    fix_header_size(0x12_3456_789a_bcde, &mut stream);
    assert_eq!(&stream[0..5], &[0xde, 0xbc, 0x9a, 0x78, 0x56]);
    assert_eq!(&stream[15..23], &[0xde, 0xbc, 0x9a, 0x78, 0x56, 0x34, 0x12, 0x00]);
}

#[test]
fn encode_compressed_rejects_short_stream() {
    assert_eq!(encode_compressed(3, vec![0u8; 17]), Err(EncodeError::StreamTooShort));
}

#[test]
fn encode_compressed_frames_minimal_stream() {
    let out = encode_compressed(1, vec![0xffu8; 18]).unwrap();
    assert_eq!(out.len(), 23);
    assert_eq!(&out[0..5], &[1, 0, 0, 0, 0]);
    assert_eq!(&out[5..15], &[0xff; 10]);
    assert_eq!(&out[15..23], &[1, 0, 0, 0, 0, 0, 0, 0]);
}
