//! The reader-facing data model: locations, dimensions, byte order,
//! per-series metadata, typed pixel slices, and the format-reader contract.

use crate::error::TiffError;
use vstd::prelude::*;

verus! {

/// A location inside a multi-dimensional image: plane coordinates `x`, `y`,
/// layer `z`, channel `c`, time point `t`, and series `s`.  The TIFF core
/// consumes `x`, `y`, `c` and `s`; `z` and `t` are carried through
/// unchanged.
#[derive(Clone, Copy, Debug, Default)]
pub struct Loc {
    pub x: u64,
    pub y: u64,
    pub z: u64,
    pub c: u64,
    pub t: u64,
    pub s: u64,
}

impl Loc {
    pub fn new(x: u64, y: u64, z: u64, c: u64, t: u64, s: u64) -> (r: Self)
        ensures
            r.x == x && r.y == y && r.z == z && r.c == c && r.t == t && r.s == s,
    {
        Loc { x, y, z, c, t, s }
    }

    /// The channel and series the location addresses.
    pub fn channel_series(&self) -> (r: (u64, u64))
        ensures
            r.0 == self.c,
            r.1 == self.s,
    {
        (self.c, self.s)
    }
}

/// The extent of one series: width, height, depth, time points, channels.
#[derive(Clone, Copy, Debug)]
pub struct Dim {
    pub w: u64,
    pub h: u64,
    pub d: u64,
    pub t: u64,
    pub c: u64,
}

impl Dim {
    /// A dimension with the given width, height and depth; one time point
    /// and one channel.
    pub fn from_whc(w: u64, h: u64, d: u64) -> (r: Self)
        ensures
            r.w == w && r.h == h && r.d == d && r.t == 1 && r.c == 1,
    {
        Dim { w, h, d, t: 1, c: 1 }
    }
}

/// The byte order of a file, fixed at header parse.
#[derive(Clone, Copy, Debug, PartialEq, Eq, Structural)]
pub enum ByteOrder {
    BE,
    LE,
}

/// What a file declares about its series: each series' extent, the bit
/// depth of each channel of each series, and the file's byte order.
pub struct Metadata {
    pub dimensions: Vec<Dim>,
    pub bits: Vec<Vec<u16>>,
    pub byte_order: ByteOrder,
}

impl Metadata {
    /// The bit depth of channel `c` of series `s`, addressed as `(c, s)`.
    /// The depth may vary between channels and series.
    pub fn bits_per_pixel(&self, cs: (u64, u64)) -> (r: Option<u16>)
        ensures
            r == if cs.1 < self.bits@.len() && cs.0 < self.bits@[cs.1 as int]@.len() {
                Some(self.bits@[cs.1 as int]@[cs.0 as int])
            } else {
                Option::<u16>::None
            },
    {
        let (c, s) = cs;
        if s < self.bits.len() as u64 {
            let row = &self.bits[s as usize];
            if c < row.len() as u64 {
                Some(row[c as usize])
            } else {
                None
            }
        } else {
            None
        }
    }

    /// The file's byte order.
    pub fn byte_order(&self) -> (r: &ByteOrder)
        ensures
            *r == self.byte_order,
    {
        &self.byte_order
    }
}

/// The mathematical value of a window of pixels.
pub enum PixelSliceV {
    U8(Seq<u8>),
    U16(Seq<u16>),
}

/// A window of pixels, packed per the channel's bit depth.
#[derive(Debug)]
pub enum PixelSlice {
    U8(Vec<u8>),
    U16(Vec<u16>),
}

impl View for PixelSlice {
    type V = PixelSliceV;

    open spec fn view(&self) -> PixelSliceV {
        match self {
            PixelSlice::U8(v) => PixelSliceV::U8(v@),
            PixelSlice::U16(v) => PixelSliceV::U16(v@),
        }
    }
}

/// What a format reader owes its callers: the file's metadata, and
/// rectangular pixel windows as packed bytes or typed pixels.
pub trait FormatReader {
    fn metadata(&mut self) -> Result<Metadata, TiffError>;

    fn open_bytes(&mut self, origin: Loc, h: u64, w: u64) -> Result<Vec<u8>, TiffError>;

    fn open_pixels(&mut self, origin: Loc, h: u64, w: u64) -> Result<PixelSlice, TiffError>;
}

} // verus!
