use tiff_core::error::TiffError;
use tiff_core::format::Loc;
use tiff_core::reader::TiffReader;

fn le_entry(tag: u16, kind: u16, count: u32, value: [u8; 4]) -> Vec<u8> {
    let mut v = Vec::new();
    v.extend(tag.to_le_bytes());
    v.extend(kind.to_le_bytes());
    v.extend(count.to_le_bytes());
    v.extend(value.iter());
    v
}

fn le_short(v: u16) -> [u8; 4] {
    let b = v.to_le_bytes();
    [b[0], b[1], 0, 0]
}

fn le_long(v: u32) -> [u8; 4] {
    v.to_le_bytes()
}

fn le_file_at_8(entries: Vec<Vec<u8>>, next: u32, tail: &[u8]) -> Vec<u8> {
    let mut v = vec![0x49, 0x49, 42, 0];
    v.extend(8u32.to_le_bytes());
    v.extend((entries.len() as u16).to_le_bytes());
    for e in &entries {
        v.extend(e.iter());
    }
    v.extend(next.to_le_bytes());
    v.extend(tail.iter());
    v
}

/// A 4 by 4 8-bit grayscale file whose single strip covers the whole image
/// because rows-per-strip exceeds the image length.
fn single_strip_file(rps: u16, compression: u16) -> (Vec<u8>, Vec<u8>) {
    let strip_at: u32 = 8 + 2 + 9 * 12 + 4;
    let strip: Vec<u8> = (0..16u8).collect();
    let entries = vec![
        le_entry(256, 3, 1, le_short(4)),
        le_entry(257, 3, 1, le_short(4)),
        le_entry(258, 3, 1, le_short(8)),
        le_entry(259, 3, 1, le_short(compression)),
        le_entry(273, 4, 1, le_long(strip_at)),
        le_entry(277, 3, 1, le_short(1)),
        le_entry(278, 3, 1, le_short(rps)),
        le_entry(279, 4, 1, le_long(strip.len() as u32)),
        le_entry(284, 3, 1, le_short(1)),
    ];
    (le_file_at_8(entries, 0, &strip), strip)
}

#[test]
fn single_strip_covers_short_image() {
    // rows-per-strip larger than the image length: the one strip is short
    let (file, strip) = single_strip_file(8, 1);
    let mut tr = TiffReader::new(file).unwrap();
    let out = tr.open_bytes(Loc::new(0, 0, 0, 0, 0, 0), 4, 4).unwrap();
    assert_eq!(out, strip);
}

#[test]
fn ccitt_compression_not_implemented() {
    let (file, _) = single_strip_file(8, 2);
    let mut tr = TiffReader::new(file).unwrap();
    assert_eq!(
        tr.open_bytes(Loc::new(0, 0, 0, 0, 0, 0), 4, 4).err(),
        Some(TiffError::NotImplemented)
    );
}

#[test]
fn odd_bit_depth_unsupported() {
    let strip_at: u32 = 8 + 2 + 9 * 12 + 4;
    let entries = vec![
        le_entry(256, 3, 1, le_short(4)),
        le_entry(257, 3, 1, le_short(4)),
        le_entry(258, 3, 1, le_short(12)),
        le_entry(259, 3, 1, le_short(1)),
        le_entry(273, 4, 1, le_long(strip_at)),
        le_entry(277, 3, 1, le_short(1)),
        le_entry(278, 3, 1, le_short(4)),
        le_entry(279, 4, 1, le_long(24)),
        le_entry(284, 3, 1, le_short(1)),
    ];
    let file = le_file_at_8(entries, 0, &[0u8; 24]);
    let mut tr = TiffReader::new(file).unwrap();
    assert_eq!(
        tr.open_bytes(Loc::new(0, 0, 0, 0, 0, 0), 4, 4).err(),
        Some(TiffError::UnsupportedBitDepth)
    );
}

#[test]
fn wide_samples_have_no_pixel_type() {
    // 32-bit samples read fine as bytes but have no typed pixel form
    let strip_at: u32 = 8 + 2 + 9 * 12 + 4;
    let strip = [1u8, 2, 3, 4];
    let entries = vec![
        le_entry(256, 3, 1, le_short(1)),
        le_entry(257, 3, 1, le_short(1)),
        le_entry(258, 3, 1, le_short(32)),
        le_entry(259, 3, 1, le_short(1)),
        le_entry(273, 4, 1, le_long(strip_at)),
        le_entry(277, 3, 1, le_short(1)),
        le_entry(278, 3, 1, le_short(1)),
        le_entry(279, 4, 1, le_long(4)),
        le_entry(284, 3, 1, le_short(1)),
    ];
    let file = le_file_at_8(entries, 0, &strip);
    let mut tr = TiffReader::new(file).unwrap();
    assert_eq!(
        tr.open_bytes(Loc::new(0, 0, 0, 0, 0, 0), 1, 1).unwrap(),
        strip.to_vec()
    );
    assert_eq!(
        tr.open_pixels(Loc::new(0, 0, 0, 0, 0, 0), 1, 1).err(),
        Some(TiffError::UnsupportedPixelFormat)
    );
}

#[test]
fn missing_strip_entry_out_of_range() {
    // the image claims 32 rows in 16-row strips, yet lists one strip: a
    // window in the second strip runs off the table
    let strip_at: u32 = 8 + 2 + 9 * 12 + 4;
    let entries = vec![
        le_entry(256, 3, 1, le_short(4)),
        le_entry(257, 3, 1, le_short(32)),
        le_entry(258, 3, 1, le_short(8)),
        le_entry(259, 3, 1, le_short(1)),
        le_entry(273, 4, 1, le_long(strip_at)),
        le_entry(277, 3, 1, le_short(1)),
        le_entry(278, 3, 1, le_short(16)),
        le_entry(279, 4, 1, le_long(64)),
        le_entry(284, 3, 1, le_short(1)),
    ];
    let file = le_file_at_8(entries, 0, &[7u8; 64]);
    let mut tr = TiffReader::new(file).unwrap();
    assert_eq!(
        tr.open_bytes(Loc::new(0, 16, 0, 0, 0, 0), 8, 4).err(),
        Some(TiffError::StripIndexOutOfRange)
    );
}

#[test]
fn truncated_strip_data_fails() {
    // the strip byte count reaches past the end of the file
    let strip_at: u32 = 8 + 2 + 9 * 12 + 4;
    let entries = vec![
        le_entry(256, 3, 1, le_short(4)),
        le_entry(257, 3, 1, le_short(4)),
        le_entry(258, 3, 1, le_short(8)),
        le_entry(259, 3, 1, le_short(1)),
        le_entry(273, 4, 1, le_long(strip_at)),
        le_entry(277, 3, 1, le_short(1)),
        le_entry(278, 3, 1, le_short(4)),
        le_entry(279, 4, 1, le_long(16)),
        le_entry(284, 3, 1, le_short(1)),
    ];
    let file = le_file_at_8(entries, 0, &[5u8; 8]);
    let mut tr = TiffReader::new(file).unwrap();
    assert_eq!(
        tr.open_bytes(Loc::new(0, 0, 0, 0, 0, 0), 4, 4).err(),
        Some(TiffError::UnexpectedEof)
    );
}

/// Planar and chunky files with the same 4 by 2 RGB 8-bit pixel content.
fn planar_and_chunky() -> (Vec<u8>, Vec<u8>) {
    // sample value: channel * 100 + row * 10 + column
    let sample = |ch: u8, yy: u8, xx: u8| ch * 100 + yy * 10 + xx;
    // planar: three single-strip planes, 8 bytes each
    let planes_at: u32 = 8 + 2 + 9 * 12 + 4;
    let mut offsets = Vec::new();
    let mut counts = Vec::new();
    let mut planes = Vec::new();
    for ch in 0..3u8 {
        offsets.extend((planes_at + 30 + 8 * ch as u32).to_le_bytes());
        counts.extend(8u32.to_le_bytes());
        for yy in 0..2u8 {
            for xx in 0..4u8 {
                planes.push(sample(ch, yy, xx));
            }
        }
    }
    let planar_entries = vec![
        le_entry(256, 3, 1, le_short(4)),
        le_entry(257, 3, 1, le_short(2)),
        le_entry(258, 3, 3, le_long(planes_at + 24)),
        le_entry(259, 3, 1, le_short(1)),
        le_entry(273, 4, 3, le_long(planes_at)),
        le_entry(277, 3, 1, le_short(3)),
        le_entry(278, 3, 1, le_short(2)),
        le_entry(279, 4, 3, le_long(planes_at + 12)),
        le_entry(284, 3, 1, le_short(2)),
    ];
    let mut planar_tail = Vec::new();
    planar_tail.extend(offsets);
    planar_tail.extend(counts);
    for b in [8u16, 8, 8] {
        planar_tail.extend(b.to_le_bytes());
    }
    planar_tail.extend(planes.iter());
    let planar = le_file_at_8(planar_entries, 0, &planar_tail);

    // chunky: one interleaved strip of 24 bytes
    let strip_at: u32 = 8 + 2 + 9 * 12 + 4 + 6;
    let mut strip = Vec::new();
    for yy in 0..2u8 {
        for xx in 0..4u8 {
            for ch in 0..3u8 {
                strip.push(sample(ch, yy, xx));
            }
        }
    }
    let chunky_entries = vec![
        le_entry(256, 3, 1, le_short(4)),
        le_entry(257, 3, 1, le_short(2)),
        le_entry(258, 3, 3, le_long(strip_at - 6)),
        le_entry(259, 3, 1, le_short(1)),
        le_entry(273, 4, 1, le_long(strip_at)),
        le_entry(277, 3, 1, le_short(3)),
        le_entry(278, 3, 1, le_short(2)),
        le_entry(279, 4, 1, le_long(24)),
        le_entry(284, 3, 1, le_short(1)),
    ];
    let mut chunky_tail = Vec::new();
    for b in [8u16, 8, 8] {
        chunky_tail.extend(b.to_le_bytes());
    }
    chunky_tail.extend(strip.iter());
    let chunky = le_file_at_8(chunky_entries, 0, &chunky_tail);
    (planar, chunky)
}

#[test]
fn planar_matches_chunky() {
    let (planar, chunky) = planar_and_chunky();
    let mut tp = TiffReader::new(planar).unwrap();
    let mut tc = TiffReader::new(chunky).unwrap();
    for ch in 0..3u64 {
        let a = tp.open_bytes(Loc::new(1, 0, 0, ch, 0, 0), 2, 2).unwrap();
        let b = tc.open_bytes(Loc::new(1, 0, 0, ch, 0, 0), 2, 2).unwrap();
        assert_eq!(a, b);
        let v = (ch * 100) as u8;
        assert_eq!(a, vec![v + 1, v + 2, v + 11, v + 12]);
    }
}

#[test]
fn ifd_chain_of_three_then_out_of_bounds() {
    // three chained directories; series 3 does not exist
    let one_ifd = |next: u32| -> Vec<u8> {
        let mut v = Vec::new();
        v.extend(1u16.to_le_bytes());
        v.extend(le_entry(256, 3, 1, le_short(4)));
        v.extend(next.to_le_bytes());
        v
    };
    let mut file = vec![0x49, 0x49, 42, 0];
    file.extend(8u32.to_le_bytes());
    file.extend(one_ifd(26));
    file.extend(one_ifd(44));
    file.extend(one_ifd(0));
    let mut tr = TiffReader::new(file).unwrap();
    assert_eq!(
        tr.open_pixels(Loc::new(0, 0, 0, 0, 0, 3), 1, 1).err(),
        Some(TiffError::IfdOutOfBounds)
    );
}
