use tiff_core::error::TiffError;
use tiff_core::format::ByteOrder;
use tiff_core::format::FormatReader;
use tiff_core::format::Loc;
use tiff_core::format::PixelSlice;
use tiff_core::reader::TiffReader;

fn entry_le(tag: u16, kind: u16, count: u32, value: [u8; 4]) -> Vec<u8> {
    let mut v = Vec::new();
    v.extend(tag.to_le_bytes());
    v.extend(kind.to_le_bytes());
    v.extend(count.to_le_bytes());
    v.extend(value.iter());
    v
}

fn long_value(v: u32) -> [u8; 4] {
    v.to_le_bytes()
}

fn short_value(v: u16) -> [u8; 4] {
    let b = v.to_le_bytes();
    [b[0], b[1], 0, 0]
}

/// A classic little-endian file: header, one IFD at 8, then `tail` bytes
/// starting right after the IFD.
fn classic_file(entries: Vec<Vec<u8>>, tail: &[u8]) -> Vec<u8> {
    let mut v = vec![0x49, 0x49, 42, 0];
    v.extend(8u32.to_le_bytes());
    v.extend((entries.len() as u16).to_le_bytes());
    for e in &entries {
        v.extend(e.iter());
    }
    v.extend(0u32.to_le_bytes());
    v.extend(tail.iter());
    v
}

/// A 64 by 64 8-bit grayscale file, 16 rows a strip, PackBits: each row is
/// one run of its row index.  Returns the file and the decoded strips.
fn gray_packbits_file() -> (Vec<u8>, Vec<Vec<u8>>) {
    // nine entries: the IFD spans 2 + 9 * 12 + 4 = 114 bytes at offset 8
    let arrays_at: u32 = 8 + 114;
    let strips_at: u32 = arrays_at + 32;
    let mut strip_offsets = Vec::new();
    let mut strip_counts = Vec::new();
    let mut strips = Vec::new();
    let mut decoded = Vec::new();
    for k in 0..4u32 {
        strip_offsets.extend((strips_at + 32 * k).to_le_bytes());
        strip_counts.extend(32u32.to_le_bytes());
        let mut packed = Vec::new();
        let mut plain = Vec::new();
        for r in 0..16u32 {
            packed.push(0xC1);
            packed.push((16 * k + r) as u8);
            plain.extend(vec![(16 * k + r) as u8; 64]);
        }
        strips.push(packed);
        decoded.push(plain);
    }
    let entries = vec![
        entry_le(256, 3, 1, short_value(64)),
        entry_le(257, 3, 1, short_value(64)),
        entry_le(258, 3, 1, short_value(8)),
        entry_le(259, 3, 1, short_value(32773)),
        entry_le(273, 4, 4, long_value(arrays_at)),
        entry_le(277, 3, 1, short_value(1)),
        entry_le(278, 3, 1, short_value(16)),
        entry_le(279, 4, 4, long_value(arrays_at + 16)),
        entry_le(284, 3, 1, short_value(1)),
    ];
    let mut tail = Vec::new();
    tail.extend(strip_offsets);
    tail.extend(strip_counts);
    for s in &strips {
        tail.extend(s.iter());
    }
    (classic_file(entries, &tail), decoded)
}

/// An 8 by 8 chunky RGB file with 16-bit samples, one uncompressed strip.
/// Returns the file and the raw strip bytes.
fn rgb16_chunky_file() -> (Vec<u8>, Vec<u8>) {
    let arrays_at: u32 = 8 + 114;
    let strip_at: u32 = arrays_at + 6;
    let mut strip = Vec::new();
    for yy in 0..8u16 {
        for xx in 0..8u16 {
            for ch in 0..3u16 {
                strip.extend((ch * 1000 + yy * 10 + xx).to_le_bytes());
            }
        }
    }
    let entries = vec![
        entry_le(256, 3, 1, short_value(8)),
        entry_le(257, 3, 1, short_value(8)),
        entry_le(258, 3, 3, long_value(arrays_at)),
        entry_le(259, 3, 1, short_value(1)),
        entry_le(273, 4, 1, long_value(strip_at)),
        entry_le(277, 3, 1, short_value(3)),
        entry_le(278, 3, 1, short_value(8)),
        entry_le(279, 4, 1, long_value(strip.len() as u32)),
        entry_le(284, 3, 1, short_value(1)),
    ];
    let mut tail = Vec::new();
    for b in [16u16, 16, 16] {
        tail.extend(b.to_le_bytes());
    }
    tail.extend(strip.iter());
    (classic_file(entries, &tail), strip)
}

#[test]
fn gray_window_over_two_strips() {
    // open_bytes((0,0,0,0,0,0), 32, 64) returns 2048 bytes equal to the
    // first two strips, decoded and concatenated
    let (file, decoded) = gray_packbits_file();
    let mut tr = TiffReader::new(file).unwrap();
    let out = tr.open_bytes(Loc::new(0, 0, 0, 0, 0, 0), 32, 64).unwrap();
    assert_eq!(out.len(), 2048);
    let mut expected = decoded[0].clone();
    expected.extend(decoded[1].iter());
    assert_eq!(out, expected);
}

#[test]
fn gray_window_at_strip_boundary() {
    // a window starting exactly at a strip boundary reads that strip alone
    let (file, decoded) = gray_packbits_file();
    let mut tr = TiffReader::new(file).unwrap();
    let out = tr.open_bytes(Loc::new(0, 16, 0, 0, 0, 0), 16, 64).unwrap();
    assert_eq!(out, decoded[1]);
}

#[test]
fn gray_window_interior() {
    // a 2 by 3 window inside one strip picks the right rows and columns
    let (file, _) = gray_packbits_file();
    let mut tr = TiffReader::new(file).unwrap();
    let out = tr.open_bytes(Loc::new(10, 5, 0, 0, 0, 0), 2, 3).unwrap();
    assert_eq!(out, vec![5, 5, 5, 6, 6, 6]);
}

#[test]
fn gray_window_touching_far_corner() {
    let (file, _) = gray_packbits_file();
    let mut tr = TiffReader::new(file).unwrap();
    let out = tr.open_bytes(Loc::new(63, 63, 0, 0, 0, 0), 1, 1).unwrap();
    assert_eq!(out, vec![63]);
}

#[test]
fn gray_pixels_are_u8() {
    let (file, decoded) = gray_packbits_file();
    let mut tr = TiffReader::new(file).unwrap();
    match tr.open_pixels(Loc::new(0, 0, 0, 0, 0, 0), 16, 64).unwrap() {
        PixelSlice::U8(v) => assert_eq!(v, decoded[0]),
        _ => panic!("expected 8-bit pixels"),
    }
}

#[test]
fn zero_extent_window_fails() {
    let (file, _) = gray_packbits_file();
    let mut tr = TiffReader::new(file).unwrap();
    assert_eq!(
        tr.open_bytes(Loc::new(0, 0, 0, 0, 0, 0), 0, 4).err(),
        Some(TiffError::InvalidWindow)
    );
    assert_eq!(
        tr.open_bytes(Loc::new(0, 0, 0, 0, 0, 0), 4, 0).err(),
        Some(TiffError::InvalidWindow)
    );
}

#[test]
fn window_leaving_image_fails() {
    let (file, _) = gray_packbits_file();
    let mut tr = TiffReader::new(file).unwrap();
    assert_eq!(
        tr.open_bytes(Loc::new(63, 0, 0, 0, 0, 0), 1, 2).err(),
        Some(TiffError::InvalidWindow)
    );
    assert_eq!(
        tr.open_bytes(Loc::new(0, 63, 0, 0, 0, 0), 2, 1).err(),
        Some(TiffError::InvalidWindow)
    );
    assert_eq!(
        tr.open_bytes(Loc::new(0, 0, 0, 1, 0, 0), 1, 1).err(),
        Some(TiffError::InvalidWindow)
    );
}

#[test]
fn rgb16_green_window() {
    // request (x=4, y=4, c=1, s=0), h=2, w=2: eight bytes, the green
    // samples of the four pixels, in file byte order
    let (file, strip) = rgb16_chunky_file();
    let mut tr = TiffReader::new(file).unwrap();
    let out = tr.open_bytes(Loc::new(4, 4, 0, 1, 0, 0), 2, 2).unwrap();
    assert_eq!(out.len(), 8);
    let mut expected = Vec::new();
    for yy in 4..6usize {
        for xx in 4..6usize {
            let px = (yy * 8 + xx) * 6;
            expected.extend(strip[px + 2..px + 4].iter());
        }
    }
    assert_eq!(out, expected);
}

#[test]
fn rgb16_pixels_are_u16() {
    let (file, _) = rgb16_chunky_file();
    let mut tr = TiffReader::new(file).unwrap();
    match tr.open_pixels(Loc::new(4, 4, 0, 1, 0, 0), 2, 2).unwrap() {
        PixelSlice::U16(v) => assert_eq!(v, vec![1044, 1045, 1054, 1055]),
        _ => panic!("expected 16-bit pixels"),
    }
}

#[test]
fn metadata_reports_series() {
    let (file, _) = rgb16_chunky_file();
    let mut tr = TiffReader::new(file).unwrap();
    let md = tr.metadata().unwrap();
    assert_eq!(md.dimensions.len(), 1);
    assert_eq!(md.dimensions[0].w, 8);
    assert_eq!(md.dimensions[0].h, 8);
    assert_eq!(md.dimensions[0].c, 3);
    assert_eq!(md.dimensions[0].d, 1);
    assert_eq!(md.bits_per_pixel((1, 0)), Some(16));
    assert_eq!(md.bits_per_pixel((3, 0)), None);
    assert_eq!(*md.byte_order(), ByteOrder::LE);
}

#[test]
fn loc_and_dim_accessors() {
    let l = Loc::new(1, 2, 3, 4, 5, 6);
    assert_eq!(l.channel_series(), (4, 6));
    let d = tiff_core::format::Dim::from_whc(10, 20, 3);
    assert_eq!((d.w, d.h, d.d, d.t, d.c), (10, 20, 3, 1, 1));
}

#[test]
fn reader_through_trait() {
    let (file, decoded) = gray_packbits_file();
    let mut tr = TiffReader::new(file).unwrap();
    let reader: &mut dyn FormatReader = &mut tr;
    let out = reader.open_bytes(Loc::new(0, 0, 0, 0, 0, 0), 1, 64).unwrap();
    assert_eq!(out, decoded[0][0..64].to_vec());
    let md = reader.metadata().unwrap();
    assert_eq!(md.dimensions.len(), 1);
}
