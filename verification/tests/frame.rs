//! Checksums and journal frames.

use ticktape::crc32c::{crc32c, crc32c_sw};
use ticktape::frame::{Frame, FrameError, FrameKind, FRAME_HEADER_LEN};
use ticktape::seq::{SeqNo, Timestamp};

#[test]
fn known_vectors() {
    // RFC 3720 / common test vector.
    assert_eq!(crc32c(b"123456789"), 0xE306_9283);
    assert_eq!(crc32c(b""), 0);
    // 32 bytes of zeros, from the iSCSI examples.
    assert_eq!(crc32c(&[0u8; 32]), 0x8A91_36AA);
    // 32 bytes of 0xFF.
    assert_eq!(crc32c(&[0xFFu8; 32]), 0x62A8_AB43);
}

#[test]
fn hardware_matches_software_over_all_lengths() {
    // Every length 0..300 crosses the 8/4/2/1 tail boundaries many times.
    let mut data = Vec::new();
    for n in 0..300usize {
        data.clear();
        for i in 0..n {
            data.push((i as u8).wrapping_mul(31).wrapping_add(7));
        }
        assert_eq!(crc32c(&data), crc32c_sw(&data), "CRC mismatch at len {n}");
    }
}

fn sample() -> Frame {
    Frame::new(
        SeqNo(42),
        Timestamp(1_700_000_000_000_000_000),
        7,
        FrameKind::Input,
        b"hello frame".to_vec(),
    )
}

#[test]
fn roundtrip() {
    let frame = sample();
    let bytes = frame.to_bytes();
    assert_eq!(bytes.len(), frame.encoded_len());
    let mut cursor = bytes.as_slice();
    let back = Frame::read_from(&mut cursor).unwrap();
    assert!(cursor.is_empty());
    assert_eq!(back, frame);
}

#[test]
fn empty_payload_roundtrip() {
    let frame = Frame::new(SeqNo(1), Timestamp(5), 0, FrameKind::Tick, Vec::new());
    let mut cursor = frame.to_bytes();
    let mut slice = cursor.as_mut_slice() as &[u8];
    assert_eq!(Frame::read_from(&mut slice).unwrap(), frame);
}

#[test]
fn detects_header_corruption() {
    let mut bytes = sample().to_bytes();
    bytes[3] ^= 0xFF; // flip a bit inside seq
    let mut cursor = bytes.as_slice();
    assert_eq!(Frame::read_from(&mut cursor).unwrap_err(), FrameError::HeaderCrc);
}

#[test]
fn detects_payload_corruption() {
    let mut bytes = sample().to_bytes();
    let idx = FRAME_HEADER_LEN + 2;
    bytes[idx] ^= 0xFF;
    let mut cursor = bytes.as_slice();
    assert_eq!(Frame::read_from(&mut cursor).unwrap_err(), FrameError::PayloadCrc);
}

#[test]
fn header_layout_matches_wire_spec() {
    // Pins the exact byte offsets of the frame header.
    let f = Frame::new(
        SeqNo(0x0102_0304_0506_0708),
        Timestamp(0x1112_1314_1516_1718),
        0x2122,
        FrameKind::Input,
        b"xy".to_vec(),
    );
    let b = f.to_bytes();
    assert_eq!(b.len(), 28 + 2 + 4);
    assert_eq!(&b[0..8], &0x0102_0304_0506_0708u64.to_le_bytes(), "seq @0");
    assert_eq!(&b[8..16], &0x1112_1314_1516_1718u64.to_le_bytes(), "timestamp @8");
    assert_eq!(&b[16..18], &0x2122u16.to_le_bytes(), "stream_id @16");
    assert_eq!(&b[18..20], &0x0001u16.to_le_bytes(), "kind @18 (Input)");
    assert_eq!(&b[20..24], &2u32.to_le_bytes(), "payload_len @20");
    assert_eq!(&b[24..28], &crc32c(&b[0..24]).to_le_bytes(), "header_crc @24 over [0,24)");
    assert_eq!(&b[28..30], b"xy", "payload @28");
    assert_eq!(&b[30..34], &crc32c(b"xy").to_le_bytes(), "payload_crc");
}

#[test]
fn detects_truncation() {
    let bytes = sample().to_bytes();
    let mut cursor = &bytes[..bytes.len() - 1];
    assert_eq!(Frame::read_from(&mut cursor).unwrap_err(), FrameError::Truncated);
    let mut cursor = &bytes[..10];
    assert_eq!(Frame::read_from(&mut cursor).unwrap_err(), FrameError::Truncated);
}

#[test]
fn two_frames_back_to_back() {
    let a = sample();
    let b = Frame::new(SeqNo(43), Timestamp(9), 7, FrameKind::Output, b"out".to_vec());
    let mut bytes = a.to_bytes();
    b.write_to(&mut bytes);
    let mut cursor = bytes.as_slice();
    assert_eq!(Frame::read_from(&mut cursor).unwrap(), a);
    assert_eq!(Frame::read_from(&mut cursor).unwrap(), b);
    assert!(cursor.is_empty());
}

#[test]
fn unknown_kind_and_oversized_payload_are_refused() {
    let mut bytes = sample().to_bytes();
    bytes[18] = 0x63;
    let crc = crc32c(&bytes[0..24]).to_le_bytes();
    bytes[24..28].copy_from_slice(&crc);
    assert_eq!(Frame::read_from(&mut bytes.as_slice()).unwrap_err(), FrameError::UnknownKind(0x63));

    let mut bytes = sample().to_bytes();
    bytes[20..24].copy_from_slice(&u32::MAX.to_le_bytes());
    let crc = crc32c(&bytes[0..24]).to_le_bytes();
    bytes[24..28].copy_from_slice(&crc);
    assert_eq!(
        Frame::read_from(&mut bytes.as_slice()).unwrap_err(),
        FrameError::PayloadTooLarge(u32::MAX)
    );
}
