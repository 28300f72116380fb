//! A verified reader core for classic TIFF and BigTIFF files.
//!
//! The crate parses a file held in memory: the header, the chain of image
//! file directories (IFDs), and the tag entries inside each directory, and
//! extracts rectangular pixel windows from strip-organised image data,
//! decompressing PackBits strips on the way.  File access itself is left to
//! the caller, who hands the file's bytes in.

pub mod codec;
pub mod error;
pub mod format;
pub mod ifd;
pub mod parser;
pub mod reader;
pub mod stream;
