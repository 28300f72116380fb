use vstd::prelude::*;

verus! {

/// Every failure of the reader is one of these kinds.
///
/// `UnexpectedEof` also covers compressed strip data that does not fit the
/// strip's expected size, since both amount to malformed data at the byte
/// level.
#[derive(Clone, Copy, Debug, PartialEq, Eq, Structural)]
pub enum TiffError {
    UnexpectedEof,
    InvalidMagic,
    MalformedIfdChain,
    UnknownTag,
    UnknownType,
    UnknownCompression,
    MalformedAscii,
    InvalidWindow,
    UnsupportedBitDepth,
    UnsupportedPixelFormat,
    StripIndexOutOfRange,
    IfdOutOfBounds,
    NotImplemented,
}

} // verus!
