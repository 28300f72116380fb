use tiff_core::error::TiffError;
use tiff_core::format::ByteOrder;
use tiff_core::ifd::Datum;
use tiff_core::ifd::Tag;
use tiff_core::ifd::Type;
use tiff_core::ifd::IFD;
use tiff_core::parser::TiffParser;

fn classic_le_header(first_ifd: u32) -> Vec<u8> {
    let mut v = vec![0x49, 0x49, 42, 0];
    v.extend(first_ifd.to_le_bytes());
    v
}

fn classic_le_ifd(entries: &[(u16, u16, u32, [u8; 4])], next: u32) -> Vec<u8> {
    let mut v = Vec::new();
    v.extend((entries.len() as u16).to_le_bytes());
    for (tag, kind, count, value) in entries {
        v.extend(tag.to_le_bytes());
        v.extend(kind.to_le_bytes());
        v.extend(count.to_le_bytes());
        v.extend(value.iter());
    }
    v.extend(next.to_le_bytes());
    v
}

fn short_value(v: u16) -> [u8; 4] {
    let b = v.to_le_bytes();
    [b[0], b[1], 0, 0]
}

#[test]
fn header_classic_little_endian() {
    // header II 2A 00 08 00 00 00: little-endian, classic, first IFD at 8
    let mut data = classic_le_header(8);
    data.extend(classic_le_ifd(&[(256, 3, 1, short_value(5))], 0));
    let mut p = TiffParser::new(data).unwrap();
    assert!(!*p.is_big_tiff());
    assert_eq!(p.byte_order(), ByteOrder::LE);
    assert_eq!(p.n_ifds().unwrap(), 1);
    let ifd = p.nth_ifd(0).unwrap();
    assert_eq!(p.image_width(&ifd).unwrap(), 5);
}

#[test]
fn header_bigtiff_big_endian() {
    // header MM 00 2B 00 08 00 00 00 00 00 10 00 00 00 00 00: big-endian,
    // BigTIFF, first IFD at 16
    let mut data = vec![
        0x4D, 0x4D, 0x00, 0x2B, 0x00, 0x08, 0x00, 0x00, 0x00, 0x00, 0x00, 0x00, 0x00, 0x00, 0x00,
        0x10,
    ];
    // one BigTIFF entry: ImageWidth (SHORT, count 1, value 7), next = 0
    data.extend(1u64.to_be_bytes());
    data.extend(256u16.to_be_bytes());
    data.extend(3u16.to_be_bytes());
    data.extend(1u64.to_be_bytes());
    data.extend(7u16.to_be_bytes());
    data.extend([0u8; 6]);
    data.extend(0u64.to_be_bytes());
    let mut p = TiffParser::new(data).unwrap();
    assert!(*p.is_big_tiff());
    assert_eq!(p.byte_order(), ByteOrder::BE);
    assert_eq!(p.n_ifds().unwrap(), 1);
    let ifd = p.nth_ifd(0).unwrap();
    assert_eq!(p.image_width(&ifd).unwrap(), 7);
}

#[test]
fn header_invalid_magic() {
    assert_eq!(
        TiffParser::new(vec![0x4A, 0x4A, 42, 0, 8, 0, 0, 0]).err(),
        Some(TiffError::InvalidMagic)
    );
    assert_eq!(
        TiffParser::new(vec![0x49, 0x49, 41, 0, 8, 0, 0, 0]).err(),
        Some(TiffError::InvalidMagic)
    );
}

#[test]
fn header_truncated() {
    assert_eq!(TiffParser::new(vec![0x49]).err(), Some(TiffError::UnexpectedEof));
    assert_eq!(
        TiffParser::new(vec![0x49, 0x49, 42, 0, 8, 0]).err(),
        Some(TiffError::UnexpectedEof)
    );
}

#[test]
fn unknown_entry_type_is_fatal() {
    let mut data = classic_le_header(8);
    data.extend(classic_le_ifd(&[(256, 99, 1, short_value(5))], 0));
    let mut p = TiffParser::new(data).unwrap();
    assert_eq!(p.nth_ifd(0).err(), Some(TiffError::UnknownType));
}

#[test]
fn unknown_tag_code_maps_to_other() {
    let mut data = classic_le_header(8);
    data.extend(classic_le_ifd(&[(60000, 3, 1, short_value(5))], 0));
    let mut p = TiffParser::new(data).unwrap();
    let ifd = p.nth_ifd(0).unwrap();
    assert!(ifd.get_entry(Tag::Other).is_some());
    assert!(ifd.get_entry(Tag::ImageWidth).is_none());
}

#[test]
fn ifd_chain_cycle_detected() {
    // two directories pointing at each other: the walk must not loop
    let mut data = classic_le_header(8);
    // IFD at 8, next = 26; each IFD is 2 + 12 + 4 = 18 bytes
    data.extend(classic_le_ifd(&[(256, 3, 1, short_value(5))], 26));
    // IFD at 26, next = 8: a cycle
    data.extend(classic_le_ifd(&[(257, 3, 1, short_value(5))], 8));
    let mut p = TiffParser::new(data).unwrap();
    assert_eq!(p.n_ifds().err(), Some(TiffError::MalformedIfdChain));
}

#[test]
fn nth_ifd_past_chain_end() {
    let mut data = classic_le_header(8);
    data.extend(classic_le_ifd(&[(256, 3, 1, short_value(5))], 0));
    let mut p = TiffParser::new(data).unwrap();
    assert_eq!(p.nth_ifd(1).err(), Some(TiffError::IfdOutOfBounds));
}

#[test]
fn inline_ascii_datum() {
    // an ASCII entry of two characters is inline in a classic value field
    let mut data = classic_le_header(8);
    data.extend(classic_le_ifd(&[(270, 2, 2, [0x41, 0x42, 0, 0])], 0));
    let mut p = TiffParser::new(data).unwrap();
    let ifd = p.nth_ifd(0).unwrap();
    match p.read_entry(&ifd, Tag::Other).unwrap() {
        Datum::STR(s) => assert_eq!(s, "AB"),
        _ => panic!("expected an ASCII datum"),
    }
}

#[test]
fn malformed_ascii_fails() {
    let mut data = classic_le_header(8);
    data.extend(classic_le_ifd(&[(270, 2, 2, [0xC3, 0x28, 0, 0])], 0));
    let mut p = TiffParser::new(data).unwrap();
    assert_eq!(p.nth_ifd(0).err(), Some(TiffError::MalformedAscii));
}

#[test]
fn offset_payload_followed() {
    // a SHORT array of four elements does not fit 4 bytes: it lives at an
    // absolute offset
    let mut data = classic_le_header(8);
    let payload_off: u32 = 8 + 18;
    data.extend(classic_le_ifd(
        &[(258, 3, 4, payload_off.to_le_bytes())],
        0,
    ));
    for v in [8u16, 16, 8, 16] {
        data.extend(v.to_le_bytes());
    }
    let mut p = TiffParser::new(data).unwrap();
    let ifd = p.nth_ifd(0).unwrap();
    assert_eq!(p.bits_per_sample(&ifd).unwrap(), vec![8, 16, 8, 16]);
}

#[test]
fn missing_tag_fails() {
    let mut data = classic_le_header(8);
    data.extend(classic_le_ifd(&[(256, 3, 1, short_value(5))], 0));
    let mut p = TiffParser::new(data).unwrap();
    let ifd = p.nth_ifd(0).unwrap();
    assert_eq!(p.image_length(&ifd).err(), Some(TiffError::UnknownTag));
}

#[test]
fn unknown_compression_value_fails() {
    let mut data = classic_le_header(8);
    data.extend(classic_le_ifd(&[(259, 3, 1, short_value(5))], 0));
    let mut p = TiffParser::new(data).unwrap();
    let ifd = p.nth_ifd(0).unwrap();
    assert_eq!(p.compression(&ifd).err(), Some(TiffError::UnknownCompression));
}

#[test]
fn rational_and_endianness() {
    // the same RATIONAL bytes read under BE: numerator then denominator,
    // each big-endian
    let mut data = vec![0x4D, 0x4D, 0, 42];
    data.extend(8u32.to_be_bytes());
    data.extend(1u16.to_be_bytes());
    data.extend(282u16.to_be_bytes());
    data.extend(5u16.to_be_bytes());
    data.extend(1u32.to_be_bytes());
    let payload_off: u32 = 8 + 18;
    data.extend(payload_off.to_be_bytes());
    data.extend(0u32.to_be_bytes());
    data.extend(300u32.to_be_bytes());
    data.extend(7u32.to_be_bytes());
    let mut p = TiffParser::new(data).unwrap();
    let ifd = p.nth_ifd(0).unwrap();
    match p.read_entry(&ifd, Tag::XResolution).unwrap() {
        Datum::RAT(v) => assert_eq!(v, vec![(300, 7)]),
        _ => panic!("expected a rational datum"),
    }
}

#[test]
fn ifd_insert_and_lookup() {
    let mut data = classic_le_header(8);
    data.extend(classic_le_ifd(&[(256, 3, 1, short_value(5))], 0));
    let mut p = TiffParser::new(data).unwrap();
    let ifd = p.nth_ifd(0).unwrap();
    assert_eq!(ifd.n_entries(), 1);
    assert_eq!(*ifd.next_ifd_offset(), 0);
    let empty = IFD::new(Vec::new(), 0);
    assert_eq!(empty.n_entries(), 0);
    assert!(empty.get_entry(Tag::ImageWidth).is_none());
}

#[test]
fn tag_and_type_names() {
    assert_eq!(Tag::from_short(256), Some(Tag::ImageWidth));
    assert_eq!(Tag::from_short(279), Some(Tag::StripByteCounts));
    assert_eq!(Tag::from_short(1), Some(Tag::Other));
    assert_eq!(Tag::ImageWidth.to_str(), "ImageWidth");
    assert_eq!(Tag::PlanarConfiguration.to_str(), "PlanarConfiguration");
    assert_eq!(Type::from_short(3), Some(Type::SHORT));
    assert_eq!(Type::from_short(16), Some(Type::DOUBLE));
    assert_eq!(Type::from_short(6), None);
    assert_eq!(Type::SHORT.to_str(), "SHORT");
    assert_eq!(Type::RATIONAL.elem_size(), 8);
    assert_eq!(IFD::size_of(Type::LONG, 3), 12);
    assert_eq!(IFD::size_of(Type::ASCII, 5), 5);
}

#[test]
fn read_strip_decodes_one_strip() {
    // a 4 by 4 grayscale image in two uncompressed strips of two rows
    let strip_at: u32 = 8 + 2 + 9 * 12 + 4;
    let mut entries: Vec<(u16, u16, u32, [u8; 4])> = Vec::new();
    entries.push((256, 3, 1, short_value(4)));
    entries.push((257, 3, 1, short_value(4)));
    entries.push((258, 3, 1, short_value(8)));
    entries.push((259, 3, 1, short_value(1)));
    entries.push((273, 4, 2, (strip_at + 16).to_le_bytes()));
    entries.push((277, 3, 1, short_value(1)));
    entries.push((278, 3, 1, short_value(2)));
    entries.push((279, 4, 2, (strip_at + 24).to_le_bytes()));
    entries.push((284, 3, 1, short_value(1)));
    let mut data = classic_le_header(8);
    data.extend(classic_le_ifd(&entries, 0));
    // two strips of eight bytes each
    let strips: Vec<u8> = (0..16u8).collect();
    data.extend(strips.iter());
    // offsets table, then counts table
    data.extend(strip_at.to_le_bytes());
    data.extend((strip_at + 8).to_le_bytes());
    data.extend(8u32.to_le_bytes());
    data.extend(8u32.to_le_bytes());
    let mut p = TiffParser::new(data).unwrap();
    let ifd = p.nth_ifd(0).unwrap();
    assert_eq!(p.strip_offsets(&ifd).unwrap(), vec![strip_at, strip_at + 8]);
    assert_eq!(p.strip_byte_counts(&ifd).unwrap(), vec![8, 8]);
    assert_eq!(p.rows_per_strip(&ifd).unwrap(), 2);
    let s1 = p.read_strip(&ifd, 1, 1).unwrap();
    assert_eq!(s1, (8..16u8).collect::<Vec<u8>>());
    assert_eq!(p.read_strip(&ifd, 2, 1).err(), Some(TiffError::StripIndexOutOfRange));
}

#[test]
fn datum_widening_accessors() {
    let d = Datum::U8(vec![1, 2, 3]);
    assert_eq!(d.to_vec_u64(), Some(vec![1, 2, 3]));
    assert_eq!(d.to_vec_u32(), Some(vec![1, 2, 3]));
    assert_eq!(d.to_vec_u16(), Some(vec![1, 2, 3]));
    assert_eq!(d.to_vec_u8(), Some(vec![1, 2, 3]));
    assert_eq!(d.to_u64(), Some(1));
    assert_eq!(d.to_u16(), Some(1));
    assert_eq!(d.to_u8(), Some(1));

    let d16 = Datum::U16(vec![300]);
    assert_eq!(d16.to_vec_u64(), Some(vec![300]));
    assert_eq!(d16.to_vec_u32(), Some(vec![300]));
    assert_eq!(d16.to_vec_u16(), Some(vec![300]));
    assert_eq!(d16.to_vec_u8(), None);
    assert_eq!(d16.to_u8(), None);

    let d32 = Datum::U32(vec![70000]);
    assert_eq!(d32.to_vec_u64(), Some(vec![70000]));
    assert_eq!(d32.to_vec_u32(), Some(vec![70000]));
    assert_eq!(d32.to_vec_u16(), None);
    assert_eq!(d32.to_u16(), None);
    assert_eq!(d32.to_u64(), Some(70000));

    let empty = Datum::U16(Vec::new());
    assert_eq!(empty.to_u16(), None);
    assert_eq!(empty.to_u64(), None);

    let rat = Datum::RAT(vec![(1, 2)]);
    assert_eq!(rat.to_vec_u64(), None);
    assert_eq!(rat.to_u64(), None);
}
