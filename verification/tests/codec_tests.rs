use tiff_core::codec::Compression;
use tiff_core::error::TiffError;

#[test]
fn test_unpackbits() {
    let input: Vec<u8> = vec![
        0xFE, 0xAA, 0x02, 0x80, 0x00, 0x2A, 0xFD, 0xAA, 0x03, 0x80, 0x00, 0x2A, 0x22, 0xF7, 0xAA,
    ];

    let expected_output: Vec<u8> = vec![
        0xAA, 0xAA, 0xAA, 0x80, 0x00, 0x2A, 0xAA, 0xAA, 0xAA, 0xAA, 0x80, 0x00, 0x2A, 0x22, 0xAA,
        0xAA, 0xAA, 0xAA, 0xAA, 0xAA, 0xAA, 0xAA, 0xAA, 0xAA,
    ];

    let mut output_buff = vec![0; 24];

    Compression::unpackbits(&input, &mut output_buff).unwrap();

    assert_eq!(output_buff, expected_output);
}

#[test]
fn unpackbits_literal_round_trip() {
    // a literal pack of [1, 2, 3]: control byte 2, then the three bytes
    let packed: Vec<u8> = vec![0x02, 1, 2, 3];
    let mut out = vec![0u8; 3];
    Compression::unpackbits(&packed, &mut out).unwrap();
    assert_eq!(out, vec![1, 2, 3]);
}

#[test]
fn unpackbits_noop_control_byte() {
    // 128 is a no-op; the run after it still decodes
    let packed: Vec<u8> = vec![0x80, 0xFF, 0x55];
    let mut out = vec![0u8; 2];
    Compression::unpackbits(&packed, &mut out).unwrap();
    assert_eq!(out, vec![0x55, 0x55]);
}

#[test]
fn unpackbits_overrun_fails() {
    // a run of three bytes into a two-byte buffer is a fatal overrun
    let packed: Vec<u8> = vec![0xFE, 0xAA];
    let mut out = vec![0u8; 2];
    assert_eq!(
        Compression::unpackbits(&packed, &mut out),
        Err(TiffError::UnexpectedEof)
    );
}

#[test]
fn unpackbits_stops_when_output_full() {
    // output fills after the first run; later garbage is never read
    let packed: Vec<u8> = vec![0xFF, 0x11, 0xFE, 0x22];
    let mut out = vec![0u8; 2];
    Compression::unpackbits(&packed, &mut out).unwrap();
    assert_eq!(out, vec![0x11, 0x11]);
}

#[test]
fn unpackbits_keeps_prior_tail_on_short_input() {
    // input exhausted early: the rest of the buffer keeps its contents
    let packed: Vec<u8> = vec![0xFF, 0x33];
    let mut out = vec![9u8; 4];
    Compression::unpackbits(&packed, &mut out).unwrap();
    assert_eq!(out, vec![0x33, 0x33, 9, 9]);
}

#[test]
fn compression_from_short_values() {
    assert!(matches!(
        Compression::from_short(1),
        Some(Compression::Uncompressed)
    ));
    assert!(matches!(Compression::from_short(2), Some(Compression::CCITT)));
    assert!(matches!(
        Compression::from_short(32773),
        Some(Compression::PackBits)
    ));
    assert!(Compression::from_short(5).is_none());
}
