use tiff_core::error::TiffError;
use tiff_core::stream::ByteStream;

#[test]
fn typed_reads_consume_exact_widths() {
    let mut s = ByteStream::new(vec![1, 2, 3, 4, 5, 6, 7, 8, 9, 10, 11, 12, 13, 14]);
    assert!(s.is_little_endian());
    assert_eq!(s.read_byte().unwrap(), 1);
    assert_eq!(s.tell(), 1);
    assert_eq!(s.read_u16().unwrap(), 0x0302);
    assert_eq!(s.tell(), 3);
    assert_eq!(s.read_u32().unwrap(), 0x07060504);
    assert_eq!(s.tell(), 7);
    assert_eq!(s.available(), 7);
}

#[test]
fn same_field_under_both_orders_differs_by_byte_reverse() {
    // reading the same 4-byte field little-endian, then big-endian
    let field = vec![0xDE, 0xAD, 0xBE, 0xEF];
    let reversed: Vec<u8> = field.iter().rev().cloned().collect();

    let mut le = ByteStream::new(field);
    le.set_order(true);
    let a = le.read_u32().unwrap();

    let mut be = ByteStream::new(reversed);
    be.set_order(false);
    let b = be.read_u32().unwrap();

    assert_eq!(a, b);
    assert_eq!(a, 0xEFBEADDE);
}

#[test]
fn read_char_is_byte_as_char() {
    let mut s = ByteStream::new(vec![0x49, 0x4D]);
    assert_eq!(s.read_char().unwrap(), 'I');
    assert_eq!(s.read_char().unwrap(), 'M');
    assert_eq!(s.read_char(), Err(TiffError::UnexpectedEof));
}

#[test]
fn seek_past_end_allowed_read_fails() {
    let mut s = ByteStream::new(vec![1, 2, 3]);
    s.seek(100);
    assert_eq!(s.tell(), 100);
    assert_eq!(s.available(), 0);
    assert_eq!(s.read_byte(), Err(TiffError::UnexpectedEof));
    assert_eq!(s.read_u64(), Err(TiffError::UnexpectedEof));
}

#[test]
fn bulk_read_positions_past_region() {
    let mut s = ByteStream::new(vec![10, 11, 12, 13, 14, 15]);
    let mut buf = vec![0u8; 3];
    s.read(&mut buf, 2).unwrap();
    assert_eq!(buf, vec![12, 13, 14]);
    assert_eq!(s.tell(), 5);
    let mut too_long = vec![0u8; 4];
    assert_eq!(s.read(&mut too_long, 4), Err(TiffError::UnexpectedEof));
}

#[test]
fn skip_advances_the_pointer() {
    let mut s = ByteStream::new(vec![1, 2, 3, 4]);
    s.skip(2);
    assert_eq!(s.read_byte().unwrap(), 3);
}

#[test]
fn big_endian_u64() {
    let mut s = ByteStream::new(vec![0, 0, 0, 0, 0, 0, 1, 2]);
    s.set_order(false);
    assert_eq!(s.read_u64().unwrap(), 258);
}
