use lsm_store::codec::{
    check_payload, decode_frame, encode_frame, frame_bounds, frame_extent, frame_with_checksum,
    FrameError,
};

#[test]
fn frame_layout_of_known_payload() {
    let frame = encode_frame(b"abc");
    assert_eq!(&frame[0..4], &0x352441C2u32.to_le_bytes());
    assert_eq!(&frame[4..12], &3u64.to_le_bytes());
    assert_eq!(&frame[12..], b"abc");
}

#[test]
fn frame_of_check_string() {
    let frame = encode_frame(b"123456789");
    assert_eq!(&frame[0..4], &0xCBF43926u32.to_le_bytes());
}

#[test]
fn empty_payload_frame() {
    let frame = encode_frame(&[]);
    assert_eq!(frame, vec![0u8; 12]);
    assert_eq!(decode_frame(&frame, 0), Ok((vec![], 12)));
}

#[test]
fn frame_round_trip_at_offset() {
    let mut buf = vec![0xAAu8, 0xBB];
    buf.extend_from_slice(&encode_frame(b"hello"));
    buf.extend_from_slice(b"trailing");
    assert_eq!(decode_frame(&buf, 2), Ok((b"hello".to_vec(), 2 + 12 + 5)));
}

#[test]
fn short_header_is_truncated() {
    let frame = encode_frame(b"hello");
    assert_eq!(decode_frame(&frame[..11], 0), Err(FrameError::Truncated));
    assert_eq!(decode_frame(&frame, frame.len()), Err(FrameError::Truncated));
}

#[test]
fn short_payload_is_truncated() {
    let frame = encode_frame(b"hello");
    assert_eq!(decode_frame(&frame[..16], 0), Err(FrameError::Truncated));
}

#[test]
fn flipped_payload_bit_is_a_mismatch() {
    let mut frame = encode_frame(b"hello");
    frame[14] ^= 1;
    assert_eq!(decode_frame(&frame, 0), Err(FrameError::ChecksumMismatch));
}

#[test]
fn huge_length_field_is_truncated() {
    let mut frame = encode_frame(b"x");
    frame[4..12].copy_from_slice(&u64::MAX.to_le_bytes());
    assert_eq!(decode_frame(&frame, 0), Err(FrameError::Truncated));
}

#[test]
fn frame_with_given_checksum() {
    let frame = frame_with_checksum(b"xy", 0x01020304);
    assert_eq!(frame, vec![4, 3, 2, 1, 2, 0, 0, 0, 0, 0, 0, 0, b'x', b'y']);
}

#[test]
fn payload_checked_against_stored_checksum() {
    assert_eq!(check_payload(b"xy", 7, 7), Ok(b"xy".to_vec()));
    assert_eq!(check_payload(b"xy", 7, 8), Err(FrameError::ChecksumMismatch));
}

#[test]
fn bounds_of_frame() {
    let mut buf = vec![9u8];
    buf.extend_from_slice(&frame_with_checksum(b"abcd", 42));
    assert_eq!(frame_bounds(&buf, 1), Ok((42, 13, 17)));
    assert_eq!(frame_bounds(&buf[..16], 1), Err(FrameError::Truncated));
    // the stored checksum is wrong for this payload
    assert_eq!(decode_frame(&buf, 1), Err(FrameError::ChecksumMismatch));
}

#[test]
fn extent_of_frame_from_its_header() {
    let frame = encode_frame(b"hello");
    assert_eq!(frame_extent(&frame[..12], 17), Some(17));
    assert_eq!(frame_extent(&frame[..12], 100), Some(17));
    assert_eq!(frame_extent(&frame[..12], 16), None);
    assert_eq!(frame_extent(&frame[..11], 100), None);
    let mut huge = frame.clone();
    huge[4..12].copy_from_slice(&u64::MAX.to_le_bytes());
    assert_eq!(frame_extent(&huge[..12], u64::MAX), None);
}
