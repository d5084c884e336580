use lsb_steg::{PixelBuffer, StegError};

fn filled(width: usize, height: usize, channels: usize, fill: u8) -> PixelBuffer {
    PixelBuffer::from_raw(width, height, channels, vec![fill; width * height * channels]).unwrap()
}

#[test]
fn round_trip_mode1() {
    let mut buf = filled(4, 4, 3, 0xAB);
    let payload = vec![0x48u8, 0x69, 0x21];
    assert_eq!(buf.encode(&payload, 1), Ok(()));
    assert_eq!(buf.decode(3, 1), Ok(payload));
}

#[test]
fn round_trip_mode2() {
    let mut buf = filled(4, 4, 4, 0x5C);
    let payload = vec![0x00u8, 0xFF, 0xD8, 0x01];
    assert_eq!(buf.encode(&payload, 2), Ok(()));
    assert_eq!(buf.decode(4, 2), Ok(payload));
}

#[test]
fn round_trip_empty_payload() {
    let mut buf = filled(2, 2, 3, 0x7E);
    let before = buf.clone();
    assert_eq!(buf.encode(&[], 1), Ok(()));
    assert_eq!(buf.data, before.data);
    assert_eq!(buf.decode(0, 1), Ok(vec![]));
}

#[test]
fn high_bits_unchanged_mode1() {
    let mut buf = filled(3, 3, 3, 0b1010_1010);
    let before = buf.clone();
    assert_eq!(buf.encode(&[0xFF, 0x00, 0x3C], 1), Ok(()));
    for (new, old) in buf.data.iter().zip(before.data.iter()) {
        assert_eq!(new & !1, old & !1);
    }
}

#[test]
fn high_bits_unchanged_mode2() {
    let mut buf = filled(3, 3, 4, 0b0101_0111);
    let before = buf.clone();
    assert_eq!(buf.encode(&[0xFF, 0x00, 0x3C], 2), Ok(()));
    for (new, old) in buf.data.iter().zip(before.data.iter()) {
        assert_eq!(new & !3, old & !3);
    }
}

#[test]
fn exact_capacity_succeeds_mode1() {
    // 2x1 pixels x 4 channels = 8 channels: exactly one byte at 1 bit each.
    let mut buf = filled(2, 1, 4, 0x10);
    assert_eq!(buf.encode(&[0xC5], 1), Ok(()));
    assert_eq!(buf.decode(1, 1), Ok(vec![0xC5]));
}

#[test]
fn beyond_capacity_fails_mode1() {
    let mut buf = filled(2, 1, 4, 0x10);
    assert_eq!(buf.encode(&[0xC5, 0x01], 1), Err(StegError::InsufficientCapacity));
}

#[test]
fn exact_capacity_succeeds_mode2() {
    // 8 channels at 2 bits each hold exactly two bytes.
    let mut buf = filled(2, 1, 4, 0x10);
    assert_eq!(buf.encode(&[0xC5, 0x2A], 2), Ok(()));
    assert_eq!(buf.decode(2, 2), Ok(vec![0xC5, 0x2A]));
}

#[test]
fn beyond_capacity_fails_mode2() {
    let mut buf = filled(2, 1, 4, 0x10);
    assert_eq!(buf.encode(&[0xC5, 0x2A, 0x00], 2), Err(StegError::InsufficientCapacity));
}

#[test]
fn invalid_mode_zero_mutates_nothing() {
    let mut buf = filled(2, 2, 3, 0x99);
    let before = buf.clone();
    assert_eq!(buf.encode(&[0x01], 0), Err(StegError::InvalidParameter));
    assert_eq!(buf.data, before.data);
}

#[test]
fn invalid_mode_three_mutates_nothing() {
    let mut buf = filled(2, 2, 3, 0x99);
    let before = buf.clone();
    assert_eq!(buf.encode(&[0x01], 3), Err(StegError::InvalidParameter));
    assert_eq!(buf.data, before.data);
}

#[test]
fn decode_rejects_invalid_mode() {
    let buf = filled(2, 2, 3, 0x99);
    assert_eq!(buf.decode(1, 0), Err(StegError::InvalidParameter));
    assert_eq!(buf.decode(1, 3), Err(StegError::InvalidParameter));
}

#[test]
fn decode_rejects_excess_length() {
    // 12 channels give 12 bits in mode 1: two bytes need 16.
    let buf = filled(2, 2, 3, 0x99);
    assert_eq!(buf.decode(2, 1), Err(StegError::InsufficientCapacity));
    // The same twelve channels carry 24 bits in mode 2: three bytes fit, four do not.
    assert!(buf.decode(3, 2).is_ok());
    assert_eq!(buf.decode(4, 2), Err(StegError::InsufficientCapacity));
}

#[test]
fn alpha_channel_carries_payload_bits() {
    // The same one-byte payload covers three pixels of a 3-channel buffer
    // but only two pixels of a 4-channel one: the alpha samples carry bits.
    let mut rgb = filled(2, 2, 3, 0xFF);
    let mut rgba = filled(2, 2, 4, 0xFF);
    assert_eq!(rgb.encode(&[0x00], 1), Ok(()));
    assert_eq!(rgba.encode(&[0x00], 1), Ok(()));
    // 3 channels per pixel: bits land in channels 0..8, reaching pixel 2.
    assert_eq!(rgb.data[6], 0xFE);
    assert_eq!(rgb.data[7], 0xFE);
    // 4 channels per pixel: pixels 0 and 1 absorb all 8 bits; the rest stay.
    assert!(rgba.data[..8].iter().all(|&s| s == 0xFE));
    assert!(rgba.data[8..].iter().all(|&s| s == 0xFF));
}

#[test]
fn one_byte_sets_first_eight_low_bits() {
    // 2x2 pixels x 3 channels = 12 channels in mode 1: payload 0xFF sets the
    // low bit of the first 8 channels and leaves the last 4 untouched.
    let mut buf = filled(2, 2, 3, 0x00);
    assert_eq!(buf.encode(&[0xFF], 1), Ok(()));
    assert_eq!(buf.data, vec![1, 1, 1, 1, 1, 1, 1, 1, 0, 0, 0, 0]);
}

#[test]
fn two_bytes_exceed_twelve_channels() {
    // The same 12-channel buffer offers 12 bits in mode 1; 16 are needed.
    let mut buf = filled(2, 2, 3, 0x00);
    assert_eq!(buf.encode(&[0xAA, 0xBB], 1), Err(StegError::InsufficientCapacity));
}

#[test]
fn mode2_chunks_are_msb_first() {
    // 0xD8 = 0b11_01_10_00 split into 2-bit chunks, MSB-first.
    let mut buf = filled(1, 2, 3, 0x00);
    assert_eq!(buf.encode(&[0xD8], 2), Ok(()));
    assert_eq!(buf.data, vec![3, 1, 2, 0, 0, 0]);
    assert_eq!(buf.decode(1, 2), Ok(vec![0xD8]));
}

#[test]
fn decode_reads_low_bits_msb_first() {
    let buf = PixelBuffer::from_raw(2, 2, 3, vec![1, 0, 1, 0, 1, 0, 1, 0, 0, 0, 0, 0]).unwrap();
    assert_eq!(buf.decode(1, 1), Ok(vec![0xAA]));
}

#[test]
fn from_raw_checks_shape() {
    assert!(PixelBuffer::from_raw(2, 2, 3, vec![0; 12]).is_some());
    assert!(PixelBuffer::from_raw(2, 2, 4, vec![0; 16]).is_some());
    // Channel counts other than 3 and 4 are refused.
    assert!(PixelBuffer::from_raw(2, 2, 2, vec![0; 8]).is_none());
    assert!(PixelBuffer::from_raw(2, 2, 5, vec![0; 20]).is_none());
    // So is sample data that is not a whole grid.
    assert!(PixelBuffer::from_raw(2, 2, 3, vec![0; 11]).is_none());
    assert!(PixelBuffer::from_raw(2, 2, 3, vec![0; 13]).is_none());
}
