//! The TIFF parser: header recognition, the IFD chain walk, entry and datum
//! decoding, and typed tag accessors, for classic TIFF and BigTIFF alike.

use crate::codec::packbits_decode;
use crate::codec::Compression;
use crate::error::TiffError;
use crate::format::ByteOrder;
use crate::ifd::datum_of;
use crate::ifd::spec_tag_of;
use crate::ifd::spec_to_u16;
use crate::ifd::spec_to_vec_u16;
use crate::ifd::spec_to_vec_u32;
use crate::ifd::spec_type_of;
use crate::ifd::type_size;
use crate::ifd::Datum;
use crate::ifd::DatumV;
use crate::ifd::Entry;
use crate::ifd::Payload;
use crate::ifd::Tag;
use crate::ifd::Type;
use crate::ifd::IFD;
use crate::stream::word16;
use crate::stream::word32;
use crate::stream::word64;
use crate::stream::ByteStream;
use vstd::prelude::*;

verus! {

/// The size of the entry-count field that opens a directory.
pub open spec fn count_field_size(big: bool) -> int {
    if big {
        8
    } else {
        2
    }
}

/// The size of one directory entry.
pub open spec fn entry_field_size(big: bool) -> int {
    if big {
        20
    } else {
        12
    }
}

/// The width of an offset field, which is also the room an inline payload
/// has.
pub open spec fn offset_field_width(big: bool) -> int {
    if big {
        8
    } else {
        4
    }
}

/// What parsing the file header yields: the byte order (`true` for
/// little-endian), the variant (`true` for BigTIFF), and the offset of the
/// first directory.
pub open spec fn header_spec(data: Seq<u8>) -> Result<(bool, bool, u64), TiffError> {
    if data.len() < 2 {
        Err(TiffError::UnexpectedEof)
    } else if !(data[0] == 0x49 && data[1] == 0x49) && !(data[0] == 0x4d && data[1] == 0x4d) {
        Err(TiffError::InvalidMagic)
    } else {
        let le = data[0] == 0x49;
        if data.len() < 4 {
            Err(TiffError::UnexpectedEof)
        } else {
            let magic = word16(data.subrange(2, 4), le);
            if magic == 42 {
                if data.len() < 8 {
                    Err(TiffError::UnexpectedEof)
                } else {
                    Ok((le, false, word32(data.subrange(4, 8), le) as u64))
                }
            } else if magic == 43 {
                if data.len() < 16 {
                    Err(TiffError::UnexpectedEof)
                } else {
                    Ok((le, true, word64(data.subrange(8, 16), le) as u64))
                }
            } else {
                Err(TiffError::InvalidMagic)
            }
        }
    }
}

/// Every byte is plain ASCII.
pub open spec fn ascii_ok(s: Seq<u8>) -> bool {
    forall|i: int| 0 <= i < s.len() ==> s[i] < 0x80
}

/// The `size` bytes at `pos`, or the empty sequence where the range leaves
/// the data.
pub open spec fn datum_bytes(data: Seq<u8>, pos: int, size: int) -> Seq<u8> {
    if 0 <= pos && 0 <= size && pos + size <= data.len() {
        data.subrange(pos, pos + size)
    } else {
        Seq::empty()
    }
}

/// Why reading a datum of `count` elements of type `kind` at `pos` fails,
/// or `None` when it succeeds.
pub open spec fn datum_read_err(
    kind: Type,
    count: nat,
    le: bool,
    data: Seq<u8>,
    pos: int,
) -> Option<TiffError> {
    let size = count * type_size(kind);
    if size > 0 && pos + size > data.len() {
        Some(TiffError::UnexpectedEof)
    } else if kind == Type::ASCII && !ascii_ok(datum_bytes(data, pos, count as int)) {
        Some(TiffError::MalformedAscii)
    } else {
        Option::None
    }
}

/// The raw 16-bit tag code of the entry at `pos`.
pub open spec fn entry_tag_code(data: Seq<u8>, le: bool, pos: int) -> int {
    word16(data.subrange(pos, pos + 2), le)
}

/// The raw 16-bit type code of the entry at `pos`.
pub open spec fn entry_kind_code(data: Seq<u8>, le: bool, pos: int) -> int {
    word16(data.subrange(pos + 2, pos + 4), le)
}

/// The element count of the entry at `pos`.
pub open spec fn entry_count_of(data: Seq<u8>, le: bool, big: bool, pos: int) -> int {
    if big {
        word64(data.subrange(pos + 4, pos + 12), le)
    } else {
        word32(data.subrange(pos + 4, pos + 8), le)
    }
}

/// Where the value field of the entry at `pos` starts.
pub open spec fn entry_value_pos(big: bool, pos: int) -> int {
    if big {
        pos + 12
    } else {
        pos + 8
    }
}

/// Whether a payload of `count` elements of `kind` is stored inline: it is
/// exactly when its size fits the offset field.
pub open spec fn inline_fits(kind: Type, count: int, big: bool) -> bool {
    count * type_size(kind) <= offset_field_width(big)
}

/// Why reading the value field of an entry at `vpos` fails, or `None` when
/// it succeeds: the inline datum where it fits, the offset word otherwise.
pub open spec fn payload_parse_err(
    kind: Type,
    count: int,
    data: Seq<u8>,
    le: bool,
    big: bool,
    vpos: int,
) -> Option<TiffError> {
    if vpos + offset_field_width(big) > data.len() {
        Some(TiffError::UnexpectedEof)
    } else if inline_fits(kind, count, big) {
        datum_read_err(kind, count as nat, le, data, vpos)
    } else {
        Option::None
    }
}

/// The parsed payload `p` is what the value field at `vpos` describes.
pub open spec fn payload_matches(
    p: Payload,
    kind: Type,
    count: int,
    data: Seq<u8>,
    le: bool,
    big: bool,
    vpos: int,
) -> bool {
    match p {
        Payload::Inline(d) => inline_fits(kind, count, big) && d@ == datum_of(
            kind,
            count as nat,
            le,
            datum_bytes(data, vpos, count * type_size(kind)),
        ),
        Payload::Offset(o) => !inline_fits(kind, count, big) && o == (if big {
            word64(data.subrange(vpos, vpos + 8), le)
        } else {
            word32(data.subrange(vpos, vpos + 4), le)
        }),
    }
}

/// Why parsing the entry at `pos` fails, or `None` when it succeeds.  The
/// checks follow the reads: tag, type, count, then the inline payload or
/// the payload offset.
pub open spec fn entry_parse_err(data: Seq<u8>, le: bool, big: bool, pos: int) -> Option<
    TiffError,
> {
    if pos + 4 > data.len() {
        Some(TiffError::UnexpectedEof)
    } else if spec_type_of(entry_kind_code(data, le, pos) as u16) is None {
        Some(TiffError::UnknownType)
    } else {
        let kind = spec_type_of(entry_kind_code(data, le, pos) as u16).unwrap();
        let vpos = entry_value_pos(big, pos);
        if vpos > data.len() {
            Some(TiffError::UnexpectedEof)
        } else {
            payload_parse_err(kind, entry_count_of(data, le, big, pos), data, le, big, vpos)
        }
    }
}

/// The parsed entry `e` is what the bytes at `pos` describe: the raw codes
/// map to its tag and type, the count is the count field, and the payload
/// is inline exactly when its size fits the offset field, holding the
/// decoded value; otherwise it is the offset field's value.
pub open spec fn entry_matches(e: Entry, data: Seq<u8>, le: bool, big: bool, pos: int) -> bool {
    let vpos = entry_value_pos(big, pos);
    &&& e.tag == spec_tag_of(entry_tag_code(data, le, pos) as u16)
    &&& Some(e.kind) == spec_type_of(entry_kind_code(data, le, pos) as u16)
    &&& e.count == entry_count_of(data, le, big, pos)
    &&& payload_matches(e.payload, e.kind, e.count as int, data, le, big, vpos)
}

/// Every parsed entry stores its payload inline exactly when the payload's
/// byte size fits the offset field: four bytes for classic TIFF, eight for
/// BigTIFF.
pub proof fn lemma_entry_inline_iff(e: Entry, data: Seq<u8>, le: bool, big: bool, pos: int)
    requires
        entry_matches(e, data, le, big, pos),
    ensures
        (e.payload is Inline) <==> type_size(e.kind) * e.count <= offset_field_width(big),
{
    assert(type_size(e.kind) * e.count == e.count * type_size(e.kind)) by (nonlinear_arith);
}

/// The entry count field of the directory at `off`.
pub open spec fn ifd_n_entries(data: Seq<u8>, le: bool, big: bool, off: int) -> int {
    if big {
        word64(data.subrange(off, off + 8), le)
    } else {
        word16(data.subrange(off, off + 2), le)
    }
}

/// Where entry `i` of the directory at `off` starts.
pub open spec fn entry_pos(big: bool, off: int, i: int) -> int {
    off + count_field_size(big) + i * entry_field_size(big)
}

/// Why one of the first `n` entries of the directory at `off` fails to
/// parse — the first failure in reading order — or `None` when all parse.
pub open spec fn entries_err(data: Seq<u8>, le: bool, big: bool, off: int, n: int) -> Option<
    TiffError,
>
    decreases n,
{
    if n <= 0 {
        Option::None
    } else {
        match entries_err(data, le, big, off, n - 1) {
            Some(e) => Some(e),
            Option::None => entry_parse_err(data, le, big, entry_pos(big, off, n - 1)),
        }
    }
}

/// Why parsing the whole directory at `off` fails, or `None` when it
/// succeeds: the count field, every entry, then the next-directory offset.
pub open spec fn ifd_parse_err(data: Seq<u8>, le: bool, big: bool, off: int) -> Option<
    TiffError,
> {
    if off + count_field_size(big) > data.len() {
        Some(TiffError::UnexpectedEof)
    } else {
        let n = ifd_n_entries(data, le, big, off);
        match entries_err(data, le, big, off, n) {
            Some(e) => Some(e),
            Option::None => {
                let npos = entry_pos(big, off, n);
                if npos + offset_field_width(big) > data.len() {
                    Some(TiffError::UnexpectedEof)
                } else {
                    Option::None
                }
            },
        }
    }
}

/// The next-directory offset of the directory at `off`, read after its
/// entries.
pub open spec fn ifd_next_of(data: Seq<u8>, le: bool, big: bool, off: int) -> int {
    let npos = entry_pos(big, off, ifd_n_entries(data, le, big, off));
    if big {
        word64(data.subrange(npos, npos + 8), le)
    } else {
        word32(data.subrange(npos, npos + 4), le)
    }
}

/// The parsed directory `ifd` is what the bytes at `off` describe.
pub open spec fn ifd_matches(ifd: IFD, data: Seq<u8>, le: bool, big: bool, off: int) -> bool {
    &&& ifd_parse_err(data, le, big, off) is None
    &&& ifd.entries_seq().len() == ifd_n_entries(data, le, big, off)
    &&& forall|i: int|
        0 <= i < ifd.entries_seq().len() ==> entry_matches(
            #[trigger] ifd.entries_seq()[i],
            data,
            le,
            big,
            entry_pos(big, off, i),
        )
    &&& ifd.spec_next() == ifd_next_of(data, le, big, off)
}

/// An error among the first `m` entries stays the error among any `n >= m`
/// entries.
proof fn lemma_entries_err_extend(data: Seq<u8>, le: bool, big: bool, off: int, m: int, n: int)
    requires
        0 <= m <= n,
        entries_err(data, le, big, off, m) is Some,
    ensures
        entries_err(data, le, big, off, n) == entries_err(data, le, big, off, m),
    decreases n,
{
    if n > m {
        lemma_entries_err_extend(data, le, big, off, m, n - 1);
    }
}

/// Relies on String::from_utf8: bytes below 0x80 are valid UTF-8 and
/// decode to one char per byte, each equal to the byte's value.
#[verifier::external_body]
fn ascii_string(bytes: Vec<u8>) -> (r: String)
    requires
        forall|i: int| 0 <= i < bytes@.len() ==> bytes@[i] < 0x80,
    ensures
        r@ == bytes@.map_values(|b: u8| b as char),
{
    match String::from_utf8(bytes) {
        Ok(s) => s,
        Err(_) => String::new(),
    }
}

/// Why resolving an entry's datum fails: an inline payload is at hand, an
/// offset payload is read from the file.
pub open spec fn entry_resolve_err(e: Entry, data: Seq<u8>, le: bool) -> Option<TiffError> {
    match e.payload {
        Payload::Inline(_) => Option::None,
        Payload::Offset(o) => datum_read_err(e.kind, e.count as nat, le, data, o as int),
    }
}

/// The datum an entry resolves to: the inline value, or the value decoded
/// at the payload offset.
pub open spec fn resolved_datum(e: Entry, data: Seq<u8>, le: bool) -> DatumV {
    match e.payload {
        Payload::Inline(d) => d@,
        Payload::Offset(o) => datum_of(
            e.kind,
            e.count as nat,
            le,
            datum_bytes(data, o as int, e.count * type_size(e.kind)),
        ),
    }
}

/// What reading a tag's datum from a directory yields: the resolved value,
/// `UnknownTag` when the directory lacks the tag, or the resolution error.
pub open spec fn read_entry_spec(ifd: IFD, data: Seq<u8>, le: bool, t: Tag) -> Result<
    DatumV,
    TiffError,
> {
    match ifd.spec_get(t) {
        Option::None => Err(TiffError::UnknownTag),
        Some(e) => match entry_resolve_err(e, data, le) {
            Some(er) => Err(er),
            Option::None => Ok(resolved_datum(e, data, le)),
        },
    }
}

/// A tag's datum coerced to one 16-bit value; a value that does not fit
/// fails with `UnknownTag`.
pub open spec fn tag_u16_spec(ifd: IFD, data: Seq<u8>, le: bool, t: Tag) -> Result<
    u16,
    TiffError,
> {
    match read_entry_spec(ifd, data, le, t) {
        Err(e) => Err(e),
        Ok(dv) => match spec_to_u16(dv) {
            Some(v) => Ok(v),
            Option::None => Err(TiffError::UnknownTag),
        },
    }
}

/// A tag's datum coerced to 16-bit values.
pub open spec fn tag_vec_u16_spec(ifd: IFD, data: Seq<u8>, le: bool, t: Tag) -> Result<
    Seq<u16>,
    TiffError,
> {
    match read_entry_spec(ifd, data, le, t) {
        Err(e) => Err(e),
        Ok(dv) => match spec_to_vec_u16(dv) {
            Some(v) => Ok(v),
            Option::None => Err(TiffError::UnknownTag),
        },
    }
}

/// A tag's datum coerced to 32-bit values.
pub open spec fn tag_vec_u32_spec(ifd: IFD, data: Seq<u8>, le: bool, t: Tag) -> Result<
    Seq<u32>,
    TiffError,
> {
    match read_entry_spec(ifd, data, le, t) {
        Err(e) => Err(e),
        Ok(dv) => match spec_to_vec_u32(dv) {
            Some(v) => Ok(v),
            Option::None => Err(TiffError::UnknownTag),
        },
    }
}

/// The compression scheme a directory declares; a value naming no scheme
/// fails with `UnknownCompression`.
pub open spec fn compression_spec(ifd: IFD, data: Seq<u8>, le: bool) -> Result<
    Compression,
    TiffError,
> {
    match tag_u16_spec(ifd, data, le, Tag::Compression) {
        Err(e) => Err(e),
        Ok(v) => if v == 1 {
            Ok(Compression::Uncompressed)
        } else if v == 2 {
            Ok(Compression::CCITT)
        } else if v == 32773 {
            Ok(Compression::PackBits)
        } else {
            Err(TiffError::UnknownCompression)
        },
    }
}

/// A sequence of `n` zero bytes.
pub open spec fn zero_seq(n: nat) -> Seq<u8> {
    Seq::new(n, |j: int| 0u8)
}

/// How many rows strip `idx` covers: the full rows-per-strip, except that
/// the last strip covers what remains of the image length.
pub open spec fn strip_rows(il: int, rps: int, idx: int) -> int {
    if idx * rps >= il {
        0
    } else if il - idx * rps < rps {
        il - idx * rps
    } else {
        rps
    }
}

/// The decompressed content of strip `idx`, `bpp` bytes a pixel, or why
/// reading it fails.  An uncompressed strip must hold its expected size and
/// is returned to exactly that size; a PackBits strip is decoded into a
/// zero-filled buffer of the expected size.
pub open spec fn read_strip_spec(ifd: IFD, data: Seq<u8>, le: bool, idx: int, bpp: int) -> Result<
    Seq<u8>,
    TiffError,
> {
    match tag_vec_u32_spec(ifd, data, le, Tag::StripOffsets) {
        Err(e) => Err(e),
        Ok(offsets) => match tag_vec_u32_spec(ifd, data, le, Tag::StripByteCounts) {
            Err(e) => Err(e),
            Ok(counts) => if idx >= offsets.len() || idx >= counts.len() {
                Err(TiffError::StripIndexOutOfRange)
            } else {
                match tag_u16_spec(ifd, data, le, Tag::RowsPerStrip) {
                    Err(e) => Err(e),
                    Ok(rps) => match tag_u16_spec(ifd, data, le, Tag::ImageLength) {
                        Err(e) => Err(e),
                        Ok(il) => match tag_u16_spec(ifd, data, le, Tag::ImageWidth) {
                            Err(e) => Err(e),
                            Ok(iw) => {
                                let expected = strip_rows(il as int, rps as int, idx) * iw * bpp;
                                if expected > usize::MAX {
                                    Err(TiffError::UnexpectedEof)
                                } else {
                                    match compression_spec(ifd, data, le) {
                                        Err(e) => Err(e),
                                        Ok(co) => read_strip_data_spec(
                                            data,
                                            co,
                                            offsets[idx] as int,
                                            counts[idx] as int,
                                            expected,
                                        ),
                                    }
                                }
                            },
                        },
                    },
                }
            },
        },
    }
}

/// The content of one strip stored at `off` with `cnt` bytes, decompressed
/// to `expected` bytes under scheme `co`.
pub open spec fn read_strip_data_spec(
    data: Seq<u8>,
    co: Compression,
    off: int,
    cnt: int,
    expected: int,
) -> Result<Seq<u8>, TiffError> {
    match co {
        Compression::CCITT => Err(TiffError::NotImplemented),
        Compression::Uncompressed => {
            if cnt < expected {
                Err(TiffError::UnexpectedEof)
            } else if off + expected > data.len() {
                Err(TiffError::UnexpectedEof)
            } else {
                Ok(data.subrange(off, off + expected))
            }
        },
        Compression::PackBits => {
            if off + cnt > data.len() {
                Err(TiffError::UnexpectedEof)
            } else {
                match packbits_decode(data.subrange(off, off + cnt), expected as nat) {
                    Some(d) => Ok(d + zero_seq((expected - d.len()) as nat)),
                    Option::None => Err(TiffError::UnexpectedEof),
                }
            }
        },
    }
}

/// A chain of directory offsets: each parses, each links to the next by a
/// nonzero offset, and the last links to zero.
pub open spec fn is_ifd_chain(data: Seq<u8>, le: bool, big: bool, s: Seq<int>) -> bool {
    &&& s.len() >= 1
    &&& forall|i: int| 0 <= i < s.len() ==> ifd_parse_err(data, le, big, #[trigger] s[i]) is None
    &&& forall|i: int|
        0 <= i < s.len() - 1 ==> ifd_next_of(data, le, big, #[trigger] s[i]) == s[i + 1] && s[i
            + 1] != 0
    &&& ifd_next_of(data, le, big, s[s.len() - 1]) == 0
}

/// `s` is the chain that a walk from `off` visits: `n` offsets, no two
/// alike.
pub open spec fn distinct_chain_from(
    data: Seq<u8>,
    le: bool,
    big: bool,
    s: Seq<int>,
    off: int,
    n: nat,
) -> bool {
    &&& is_ifd_chain(data, le, big, s)
    &&& s[0] == off
    &&& s.len() == n
    &&& forall|p: int, q: int| 0 <= p < q < s.len() ==> s[p] != s[q]
}

/// Every walk that counts its chain visits that many offsets without
/// revisiting one: a terminating chain holds no offset twice, since the
/// next-directory link is a function of the offset, and a revisit would
/// loop forever.
#[verifier::rlimit(100)]
pub proof fn lemma_ifd_chain_distinct(data: Seq<u8>, le: bool, big: bool, off: int, fuel: nat)
    requires
        TiffParser::chain_count_spec(data, le, big, off, fuel) is Ok,
    ensures
        exists|s: Seq<int>|
            #[trigger] distinct_chain_from(
                data,
                le,
                big,
                s,
                off,
                TiffParser::chain_count_spec(data, le, big, off, fuel).unwrap(),
            ),
    decreases fuel,
{
    let n = TiffParser::chain_count_spec(data, le, big, off, fuel).unwrap();
    let nxt = ifd_next_of(data, le, big, off);
    if nxt == 0 {
        let s = seq![off];
        assert(s[0] == off && s.len() == 1);
        assert(distinct_chain_from(data, le, big, s, off, n));
    } else {
        lemma_ifd_chain_distinct(data, le, big, nxt, (fuel - 1) as nat);
        let n1 = TiffParser::chain_count_spec(data, le, big, nxt, (fuel - 1) as nat).unwrap();
        let s1 = choose|s: Seq<int>| #[trigger] distinct_chain_from(data, le, big, s, nxt, n1);
        let s = seq![off] + s1;
        assert(s[0] == off);
        assert(s.len() == s1.len() + 1);
        assert(forall|i: int| 0 <= i < s1.len() ==> s[i + 1] == s1[i]);
        assert forall|j: int| 0 <= j < s1.len() implies s1[j] != off by {
            if s1[j] == off {
                if j == s1.len() - 1 {
                    assert(ifd_next_of(data, le, big, s1[j]) == 0);
                    assert(false);
                } else {
                    assert(ifd_next_of(data, le, big, s1[j]) == s1[j + 1]);
                    assert(s1[j + 1] == nxt);
                    assert(s1[0] == nxt);
                    assert(s1[j + 1] != s1[0]);
                    assert(false);
                }
            }
        }
        assert(is_ifd_chain(data, le, big, s)) by {
            assert(s[s.len() - 1] == s1[s1.len() - 1]);
            assert forall|i: int|
                0 <= i < s.len() implies ifd_parse_err(data, le, big, #[trigger] s[i])
                is None by {
                if i > 0 {
                    assert(s[i] == s1[i - 1]);
                }
            }
            assert forall|i: int|
                0 <= i < s.len() - 1 implies ifd_next_of(data, le, big, #[trigger] s[i]) == s[i
                + 1] && s[i + 1] != 0 by {
                if i == 0 {
                    assert(s[1] == s1[0]);
                    assert(s1[0] == nxt);
                } else {
                    assert(s[i] == s1[i - 1]);
                    assert(s[i + 1] == s1[i]);
                }
            }
        }
        assert forall|p: int, q: int| 0 <= p < q < s.len() implies s[p] != s[q] by {
            if p == 0 {
                assert(s[q] == s1[q - 1]);
                assert(s1[q - 1] != off);
            } else {
                assert(s[p] == s1[p - 1]);
                assert(s[q] == s1[q - 1]);
            }
        }
        assert(n == n1 + 1);
        assert(distinct_chain_from(data, le, big, s, off, n));
    }
}

/// A parser over an in-memory file: the stream, the variant, and the first
/// directory's offset, all fixed by the header.
pub struct TiffParser {
    stream: ByteStream,
    is_big_tiff: bool,
    bytes_per_entry: u64,
    first_ifd_offset: u64,
}

impl TiffParser {
    /// The file's bytes.
    pub closed spec fn data(&self) -> Seq<u8> {
        self.stream.bytes()
    }

    /// Whether the file is little-endian.
    pub closed spec fn le(&self) -> bool {
        self.stream.le()
    }

    /// Whether the file is BigTIFF.
    pub closed spec fn big(&self) -> bool {
        self.is_big_tiff
    }

    /// The offset of the first directory.
    pub closed spec fn first_ifd(&self) -> u64 {
        self.first_ifd_offset
    }

    /// The stream position.
    pub closed spec fn position(&self) -> u64 {
        self.stream.position()
    }

    /// The parser agrees with what its file's header says.
    pub closed spec fn wf(&self) -> bool {
        &&& header_spec(self.data()) == Ok::<(bool, bool, u64), TiffError>(
            (self.le(), self.big(), self.first_ifd()),
        )
        &&& self.bytes_per_entry == entry_field_size(self.big())
    }

    /// Parses the header of the file held in `data` and positions the
    /// parser on it.
    pub fn new(data: Vec<u8>) -> (r: Result<TiffParser, TiffError>)
        ensures
            match r {
                Ok(p) => p.wf() && p.data() == data@ && header_spec(data@) == Ok::<
                    (bool, bool, u64),
                    TiffError,
                >((p.le(), p.big(), p.first_ifd())),
                Err(e) => header_spec(data@) == Err::<(bool, bool, u64), TiffError>(e),
            },
    {
        let mut stream = ByteStream::new(data);
        let b0 = match stream.read_byte() {
            Ok(b) => b,
            Err(e) => {
                return Err(e);
            },
        };
        let b1 = match stream.read_byte() {
            Ok(b) => b,
            Err(e) => {
                return Err(e);
            },
        };
        let is_le = if b0 == 0x49 && b1 == 0x49 {
            true
        } else if b0 == 0x4d && b1 == 0x4d {
            false
        } else {
            return Err(TiffError::InvalidMagic);
        };
        stream.set_order(is_le);
        let magic = match stream.read_u16() {
            Ok(v) => v,
            Err(e) => {
                return Err(e);
            },
        };
        let is_big = if magic == 42 {
            false
        } else if magic == 43 {
            true
        } else {
            return Err(TiffError::InvalidMagic);
        };
        let first_offset: u64;
        if is_big {
            match stream.read_u16() {
                Ok(_) => (),
                Err(e) => {
                    return Err(e);
                },
            };
            match stream.read_u16() {
                Ok(_) => (),
                Err(e) => {
                    return Err(e);
                },
            };
            first_offset = match stream.read_u64() {
                Ok(v) => v,
                Err(e) => {
                    return Err(e);
                },
            };
        } else {
            first_offset = match stream.read_u32() {
                Ok(v) => v as u64,
                Err(e) => {
                    return Err(e);
                },
            };
        }
        let bytes_per_entry: u64 = if is_big {
            20
        } else {
            12
        };
        Ok(
            TiffParser {
                stream,
                is_big_tiff: is_big,
                bytes_per_entry,
                first_ifd_offset: first_offset,
            },
        )
    }

    /// The parser reads the same file, in the same variant, as `other`.
    pub open spec fn same_file_as(&self, other: &TiffParser) -> bool {
        &&& self.data() == other.data()
        &&& self.le() == other.le()
        &&& self.big() == other.big()
        &&& self.first_ifd() == other.first_ifd()
        &&& self.wf() == other.wf()
    }

    /// Reads `count` bytes at the current position.
    fn read_byte_array(&mut self, count: u64) -> (v: Vec<u8>)
        requires
            old(self).position() + count <= old(self).data().len(),
        ensures
            final(self).same_file_as(old(self)),
            final(self).position() == old(self).position() + count,
            v@ == old(self).data().subrange(
                old(self).position() as int,
                old(self).position() + count,
            ),
    {
        let file_len = self.stream.size();
        assert(count <= file_len);
        let mut buf: Vec<u8> = vec![0u8; count as usize];
        let p = self.stream.tell();
        match self.stream.read(&mut buf, p) {
            Ok(_) => buf,
            Err(_) => {
                // unreachable: the caller guarantees the range is in bounds
                assert(false);
                buf
            },
        }
    }

    /// Reads `count` 16-bit words at the current position.
    fn read_u16_array(&mut self, count: u64) -> (v: Vec<u16>)
        requires
            old(self).position() + 2 * count <= old(self).data().len(),
        ensures
            final(self).same_file_as(old(self)),
            final(self).position() == old(self).position() + 2 * count,
            v@.len() == count,
            forall|j: int|
                0 <= j < count ==> v@[j] == word16(
                    old(self).data().subrange(
                        old(self).position() + 2 * j,
                        old(self).position() + 2 * j + 2,
                    ),
                    old(self).le(),
                ) as u16,
    {
        let ghost pos0 = old(self).position() as int;
        let mut v: Vec<u16> = Vec::new();
        let mut i: u64 = 0;
        while i < count
            invariant
                i <= count,
                self.same_file_as(old(self)),
                pos0 == old(self).position(),
                pos0 + 2 * count <= self.data().len(),
                self.position() == pos0 + 2 * i,
                v@.len() == i,
                forall|j: int|
                    0 <= j < i ==> v@[j] == word16(
                        self.data().subrange(pos0 + 2 * j, pos0 + 2 * j + 2),
                        self.le(),
                    ) as u16,
            decreases count - i,
        {
            let x = match self.stream.read_u16() {
                Ok(x) => x,
                Err(_) => {
                    assert(false);
                    0
                },
            };
            v.push(x);
            i = i + 1;
        }
        v
    }

    /// Reads `count` 32-bit words at the current position.
    fn read_u32_array(&mut self, count: u64) -> (v: Vec<u32>)
        requires
            old(self).position() + 4 * count <= old(self).data().len(),
        ensures
            final(self).same_file_as(old(self)),
            final(self).position() == old(self).position() + 4 * count,
            v@.len() == count,
            forall|j: int|
                0 <= j < count ==> v@[j] == word32(
                    old(self).data().subrange(
                        old(self).position() + 4 * j,
                        old(self).position() + 4 * j + 4,
                    ),
                    old(self).le(),
                ) as u32,
    {
        let ghost pos0 = old(self).position() as int;
        let mut v: Vec<u32> = Vec::new();
        let mut i: u64 = 0;
        while i < count
            invariant
                i <= count,
                self.same_file_as(old(self)),
                pos0 == old(self).position(),
                pos0 + 4 * count <= self.data().len(),
                self.position() == pos0 + 4 * i,
                v@.len() == i,
                forall|j: int|
                    0 <= j < i ==> v@[j] == word32(
                        self.data().subrange(pos0 + 4 * j, pos0 + 4 * j + 4),
                        self.le(),
                    ) as u32,
            decreases count - i,
        {
            let x = match self.stream.read_u32() {
                Ok(x) => x,
                Err(_) => {
                    assert(false);
                    0
                },
            };
            v.push(x);
            i = i + 1;
        }
        v
    }

    /// Reads `count` 64-bit words at the current position.
    fn read_u64_array(&mut self, count: u64) -> (v: Vec<u64>)
        requires
            old(self).position() + 8 * count <= old(self).data().len(),
        ensures
            final(self).same_file_as(old(self)),
            final(self).position() == old(self).position() + 8 * count,
            v@.len() == count,
            forall|j: int|
                0 <= j < count ==> v@[j] == word64(
                    old(self).data().subrange(
                        old(self).position() + 8 * j,
                        old(self).position() + 8 * j + 8,
                    ),
                    old(self).le(),
                ) as u64,
    {
        let ghost pos0 = old(self).position() as int;
        let mut v: Vec<u64> = Vec::new();
        let mut i: u64 = 0;
        while i < count
            invariant
                i <= count,
                self.same_file_as(old(self)),
                pos0 == old(self).position(),
                pos0 + 8 * count <= self.data().len(),
                self.position() == pos0 + 8 * i,
                v@.len() == i,
                forall|j: int|
                    0 <= j < i ==> v@[j] == word64(
                        self.data().subrange(pos0 + 8 * j, pos0 + 8 * j + 8),
                        self.le(),
                    ) as u64,
            decreases count - i,
        {
            let x = match self.stream.read_u64() {
                Ok(x) => x,
                Err(_) => {
                    assert(false);
                    0
                },
            };
            v.push(x);
            i = i + 1;
        }
        v
    }

    /// Reads `count` rational pairs at the current position.
    fn read_rat_array(&mut self, count: u64) -> (v: Vec<(u32, u32)>)
        requires
            old(self).position() + 8 * count <= old(self).data().len(),
        ensures
            final(self).same_file_as(old(self)),
            final(self).position() == old(self).position() + 8 * count,
            v@.len() == count,
            forall|j: int|
                0 <= j < count ==> v@[j] == (
                    word32(
                        old(self).data().subrange(
                            old(self).position() + 8 * j,
                            old(self).position() + 8 * j + 4,
                        ),
                        old(self).le(),
                    ) as u32,
                    word32(
                        old(self).data().subrange(
                            old(self).position() + 8 * j + 4,
                            old(self).position() + 8 * j + 8,
                        ),
                        old(self).le(),
                    ) as u32,
                ),
    {
        let ghost pos0 = old(self).position() as int;
        let mut v: Vec<(u32, u32)> = Vec::new();
        let mut i: u64 = 0;
        while i < count
            invariant
                i <= count,
                self.same_file_as(old(self)),
                pos0 == old(self).position(),
                pos0 + 8 * count <= self.data().len(),
                self.position() == pos0 + 8 * i,
                v@.len() == i,
                forall|j: int|
                    0 <= j < i ==> v@[j] == (
                        word32(
                            self.data().subrange(pos0 + 8 * j, pos0 + 8 * j + 4),
                            self.le(),
                        ) as u32,
                        word32(
                            self.data().subrange(pos0 + 8 * j + 4, pos0 + 8 * j + 8),
                            self.le(),
                        ) as u32,
                    ),
            decreases count - i,
        {
            let a = match self.stream.read_u32() {
                Ok(x) => x,
                Err(_) => {
                    assert(false);
                    0
                },
            };
            let b = match self.stream.read_u32() {
                Ok(x) => x,
                Err(_) => {
                    assert(false);
                    0
                },
            };
            v.push((a, b));
            i = i + 1;
        }
        v
    }

    /// Reads the datum of `count` elements of type `kind` at the current
    /// position, consuming exactly its byte size.
    fn read_datum(&mut self, kind: Type, count: u64) -> (r: Result<Datum, TiffError>)
        ensures
            final(self).same_file_as(old(self)),
            match r {
                Ok(d) => datum_read_err(
                    kind,
                    count as nat,
                    old(self).le(),
                    old(self).data(),
                    old(self).position() as int,
                ) is None && d@ == datum_of(
                    kind,
                    count as nat,
                    old(self).le(),
                    datum_bytes(
                        old(self).data(),
                        old(self).position() as int,
                        count * type_size(kind),
                    ),
                ) && final(self).position() == old(self).position() + count * type_size(kind),
                Err(e) => datum_read_err(
                    kind,
                    count as nat,
                    old(self).le(),
                    old(self).data(),
                    old(self).position() as int,
                ) == Some(e),
            },
    {
        let ghost pos0 = old(self).position() as int;
        let ghost le = old(self).le();
        let ghost s = datum_bytes(old(self).data(), pos0, count * type_size(kind));
        if count == 0 {
            let d = match kind {
                Type::BYTE => Datum::U8(Vec::new()),
                Type::UNDEFINED => Datum::U8(Vec::new()),
                Type::ASCII => Datum::STR(String::new()),
                Type::SHORT => Datum::U16(Vec::new()),
                Type::LONG => Datum::U32(Vec::new()),
                Type::DOUBLE => Datum::U64(Vec::new()),
                Type::RATIONAL => Datum::RAT(Vec::new()),
            };
            proof {
                assert(s.len() == 0);
                assert(s =~= Seq::<u8>::empty());
                assert(ascii_ok(datum_bytes(old(self).data(), pos0, count as int))) by {
                    assert(datum_bytes(old(self).data(), pos0, count as int).len() == 0);
                }
                match kind {
                    Type::SHORT => assert(d@ == datum_of(kind, 0, le, s)) by {
                        assert(Seq::new(0, |j: int| word16(s.subrange(2 * j, 2 * j + 2), le) as u16)
                            =~= Seq::<u16>::empty());
                    },
                    Type::LONG => assert(d@ == datum_of(kind, 0, le, s)) by {
                        assert(Seq::new(0, |j: int| word32(s.subrange(4 * j, 4 * j + 4), le) as u32)
                            =~= Seq::<u32>::empty());
                    },
                    Type::DOUBLE => assert(d@ == datum_of(kind, 0, le, s)) by {
                        assert(Seq::new(0, |j: int| word64(s.subrange(8 * j, 8 * j + 8), le) as u64)
                            =~= Seq::<u64>::empty());
                    },
                    Type::RATIONAL => assert(d@ == datum_of(kind, 0, le, s)) by {
                        assert(Seq::new(
                            0,
                            |j: int|
                                (
                                    word32(s.subrange(8 * j, 8 * j + 4), le) as u32,
                                    word32(s.subrange(8 * j + 4, 8 * j + 8), le) as u32,
                                ),
                        ) =~= Seq::<(u32, u32)>::empty());
                    },
                    Type::ASCII => assert(d@ == datum_of(kind, 0, le, s)) by {
                        assert(s.map_values(|b: u8| b as char) =~= Seq::<char>::empty());
                    },
                    _ => assert(d@ == datum_of(kind, 0, le, s)),
                }
            }
            return Ok(d);
        }
        let file_len = self.stream.size();
        let size = match IFD::size_of_checked(kind, count) {
            Some(sz) => sz,
            Option::None => {
                proof {
                    assert(count * type_size(kind) > u64::MAX);
                    assert(old(self).data().len() == file_len);
                }
                return Err(TiffError::UnexpectedEof);
            },
        };
        let avail = self.stream.available();
        if avail < size {
            proof {
                assert(count * type_size(kind) > 0);
                assert(pos0 + count * type_size(kind) > old(self).data().len());
            }
            return Err(TiffError::UnexpectedEof);
        }
        proof {
            assert(s == old(self).data().subrange(pos0, pos0 + count * type_size(kind)));
        }
        match kind {
            Type::BYTE => {
                let v = self.read_byte_array(count);
                Ok(Datum::U8(v))
            },
            Type::UNDEFINED => {
                let v = self.read_byte_array(count);
                Ok(Datum::U8(v))
            },
            Type::ASCII => {
                let v = self.read_byte_array(count);
                let n = v.len();
                let mut i: usize = 0;
                while i < n
                    invariant
                        i <= n,
                        n == v@.len(),
                        kind == Type::ASCII,
                        count > 0,
                        pos0 == old(self).position(),
                        pos0 + count <= old(self).data().len(),
                        self.same_file_as(old(self)),
                        v@ == old(self).data().subrange(pos0, pos0 + count),
                        forall|j: int| 0 <= j < i ==> v@[j] < 0x80,
                    decreases n - i,
                {
                    if v[i] >= 0x80 {
                        proof {
                            assert(old(self).data().subrange(pos0, pos0 + count)[i as int]
                                >= 0x80);
                        }
                        return Err(TiffError::MalformedAscii);
                    }
                    i = i + 1;
                }
                let st = ascii_string(v);
                proof {
                    assert(ascii_ok(old(self).data().subrange(pos0, pos0 + count)));
                }
                Ok(Datum::STR(st))
            },
            Type::SHORT => {
                let v = self.read_u16_array(count);
                proof {
                    assert(v@ =~= Seq::new(
                        count as nat,
                        |j: int| word16(s.subrange(2 * j, 2 * j + 2), le) as u16,
                    )) by {
                        assert forall|j: int| 0 <= j < count implies v@[j] == word16(
                            s.subrange(2 * j, 2 * j + 2),
                            le,
                        ) as u16 by {
                            assert(s.subrange(2 * j, 2 * j + 2) =~= old(self).data().subrange(
                                pos0 + 2 * j,
                                pos0 + 2 * j + 2,
                            ));
                        }
                    }
                }
                Ok(Datum::U16(v))
            },
            Type::LONG => {
                let v = self.read_u32_array(count);
                proof {
                    assert(v@ =~= Seq::new(
                        count as nat,
                        |j: int| word32(s.subrange(4 * j, 4 * j + 4), le) as u32,
                    )) by {
                        assert forall|j: int| 0 <= j < count implies v@[j] == word32(
                            s.subrange(4 * j, 4 * j + 4),
                            le,
                        ) as u32 by {
                            assert(s.subrange(4 * j, 4 * j + 4) =~= old(self).data().subrange(
                                pos0 + 4 * j,
                                pos0 + 4 * j + 4,
                            ));
                        }
                    }
                }
                Ok(Datum::U32(v))
            },
            Type::DOUBLE => {
                let v = self.read_u64_array(count);
                proof {
                    assert(v@ =~= Seq::new(
                        count as nat,
                        |j: int| word64(s.subrange(8 * j, 8 * j + 8), le) as u64,
                    )) by {
                        assert forall|j: int| 0 <= j < count implies v@[j] == word64(
                            s.subrange(8 * j, 8 * j + 8),
                            le,
                        ) as u64 by {
                            assert(s.subrange(8 * j, 8 * j + 8) =~= old(self).data().subrange(
                                pos0 + 8 * j,
                                pos0 + 8 * j + 8,
                            ));
                        }
                    }
                }
                Ok(Datum::U64(v))
            },
            Type::RATIONAL => {
                let v = self.read_rat_array(count);
                proof {
                    assert(v@ =~= Seq::new(
                        count as nat,
                        |j: int|
                            (
                                word32(s.subrange(8 * j, 8 * j + 4), le) as u32,
                                word32(s.subrange(8 * j + 4, 8 * j + 8), le) as u32,
                            ),
                    )) by {
                        assert forall|j: int| 0 <= j < count implies v@[j] == (
                            word32(s.subrange(8 * j, 8 * j + 4), le) as u32,
                            word32(s.subrange(8 * j + 4, 8 * j + 8), le) as u32,
                        ) by {
                            assert(s.subrange(8 * j, 8 * j + 4) =~= old(self).data().subrange(
                                pos0 + 8 * j,
                                pos0 + 8 * j + 4,
                            ));
                            assert(s.subrange(8 * j + 4, 8 * j + 8) =~= old(self).data().subrange(
                                pos0 + 8 * j + 4,
                                pos0 + 8 * j + 8,
                            ));
                        }
                    }
                }
                Ok(Datum::RAT(v))
            },
        }
    }

    /// Reads the value field of an entry at the current position: the
    /// inline datum where it fits the offset field, padded to the field's
    /// width, or the payload offset otherwise.
    fn parse_payload(&mut self, kind: Type, count: u64) -> (r: Result<Payload, TiffError>)
        requires
            old(self).position() <= old(self).data().len(),
        ensures
            final(self).same_file_as(old(self)),
            match r {
                Ok(p) => payload_parse_err(
                    kind,
                    count as int,
                    old(self).data(),
                    old(self).le(),
                    old(self).big(),
                    old(self).position() as int,
                ) is None && payload_matches(
                    p,
                    kind,
                    count as int,
                    old(self).data(),
                    old(self).le(),
                    old(self).big(),
                    old(self).position() as int,
                ) && final(self).position() == old(self).position() + offset_field_width(
                    old(self).big(),
                ),
                Err(e) => payload_parse_err(
                    kind,
                    count as int,
                    old(self).data(),
                    old(self).le(),
                    old(self).big(),
                    old(self).position() as int,
                ) == Some(e),
            },
    {
        let ghost data = old(self).data();
        let ghost vpos = old(self).position() as int;
        let big = self.is_big_tiff;
        let file_len = self.stream.size();
        let ow: u64 = if big {
            8
        } else {
            4
        };
        let avail = self.stream.available();
        if avail < ow {
            return Err(TiffError::UnexpectedEof);
        }
        let sz_opt = IFD::size_of_checked(kind, count);
        let inline = match sz_opt {
            Some(sz) => sz <= ow,
            Option::None => false,
        };
        proof {
            assert(inline == inline_fits(kind, count as int, old(self).big()));
        }
        if inline {
            let sz = match sz_opt {
                Some(s) => s,
                Option::None => {
                    assert(false);
                    0
                },
            };
            let d = match self.read_datum(kind, count) {
                Ok(d) => d,
                Err(e) => {
                    return Err(e);
                },
            };
            proof {
                assert(data.len() == file_len);
                assert(self.position() + (ow - sz) == vpos + ow);
            }
            self.stream.skip(ow - sz);
            Ok(Payload::Inline(d))
        } else {
            let o: u64;
            if big {
                o = match self.stream.read_u64() {
                    Ok(v) => v,
                    Err(e) => {
                        return Err(e);
                    },
                };
            } else {
                o = match self.stream.read_u32() {
                    Ok(v) => v as u64,
                    Err(e) => {
                        return Err(e);
                    },
                };
            }
            Ok(Payload::Offset(o))
        }
    }

    /// Parses one directory entry at the current position, consuming
    /// exactly one entry field.
    fn parse_entry(&mut self) -> (r: Result<Entry, TiffError>)
        ensures
            final(self).same_file_as(old(self)),
            match r {
                Ok(e) => entry_parse_err(
                    old(self).data(),
                    old(self).le(),
                    old(self).big(),
                    old(self).position() as int,
                ) is None && entry_matches(
                    e,
                    old(self).data(),
                    old(self).le(),
                    old(self).big(),
                    old(self).position() as int,
                ) && final(self).position() == old(self).position() + entry_field_size(
                    old(self).big(),
                ),
                Err(er) => entry_parse_err(
                    old(self).data(),
                    old(self).le(),
                    old(self).big(),
                    old(self).position() as int,
                ) == Some(er),
            },
    {
        let ghost data = old(self).data();
        let ghost le = old(self).le();
        let ghost big_g = old(self).big();
        let ghost pos_i = old(self).position() as int;
        let big = self.is_big_tiff;
        let tag_code = match self.stream.read_u16() {
            Ok(v) => v,
            Err(e) => {
                return Err(e);
            },
        };
        let kind_code = match self.stream.read_u16() {
            Ok(v) => v,
            Err(e) => {
                return Err(e);
            },
        };
        let tag = Tag::from_short(tag_code).unwrap();
        let kind = match Type::from_short(kind_code) {
            Some(k) => k,
            Option::None => {
                return Err(TiffError::UnknownType);
            },
        };
        let count: u64;
        if big {
            count = match self.stream.read_u64() {
                Ok(v) => v,
                Err(e) => {
                    return Err(e);
                },
            };
        } else {
            count = match self.stream.read_u32() {
                Ok(v) => v as u64,
                Err(e) => {
                    return Err(e);
                },
            };
        }
        let payload = match self.parse_payload(kind, count) {
            Ok(p) => p,
            Err(e) => {
                return Err(e);
            },
        };
        Ok(Entry::new(tag, kind, count, payload))
    }

    /// Reads the directory at the current position: the entry count, each
    /// entry with its inline value or payload offset, and the offset of the
    /// next directory.
    fn read_ifd(&mut self) -> (r: Result<IFD, TiffError>)
        ensures
            final(self).same_file_as(old(self)),
            match r {
                Ok(ifd) => ifd_matches(
                    ifd,
                    old(self).data(),
                    old(self).le(),
                    old(self).big(),
                    old(self).position() as int,
                ),
                Err(e) => ifd_parse_err(
                    old(self).data(),
                    old(self).le(),
                    old(self).big(),
                    old(self).position() as int,
                ) == Some(e),
            },
    {
        let ghost data = old(self).data();
        let ghost le = old(self).le();
        let ghost big_g = old(self).big();
        let ghost off = old(self).position() as int;
        let big = self.is_big_tiff;
        let n: u64;
        if big {
            n = match self.stream.read_u64() {
                Ok(v) => v,
                Err(e) => {
                    return Err(e);
                },
            };
        } else {
            n = match self.stream.read_u16() {
                Ok(v) => v as u64,
                Err(e) => {
                    return Err(e);
                },
            };
        }
        let mut entries: Vec<Entry> = Vec::new();
        let mut i: u64 = 0;
        while i < n
            invariant
                i <= n,
                self.same_file_as(old(self)),
                data == old(self).data(),
                le == old(self).le(),
                big_g == old(self).big(),
                big == big_g,
                off == old(self).position(),
                off + count_field_size(big_g) <= data.len(),
                n == ifd_n_entries(data, le, big_g, off),
                self.position() == entry_pos(big_g, off, i as int),
                entries@.len() == i,
                forall|j: int|
                    0 <= j < i ==> entry_matches(
                        #[trigger] entries@[j],
                        data,
                        le,
                        big_g,
                        entry_pos(big_g, off, j),
                    ),
                entries_err(data, le, big_g, off, i as int) is None,
            decreases n - i,
        {
            let ghost pos_i = entry_pos(big_g, off, i as int);
            let e = match self.parse_entry() {
                Ok(e) => e,
                Err(er) => {
                    proof {
                        assert(entries_err(data, le, big_g, off, i + 1) == Some(er));
                        lemma_entries_err_extend(data, le, big_g, off, i + 1, n as int);
                    }
                    return Err(er);
                },
            };
            entries.push(e);
            proof {
                assert(entries_err(data, le, big_g, off, i + 1) is None);
                assert(self.position() == pos_i + entry_field_size(big_g));
                assert((i + 1) * entry_field_size(big_g) == i * entry_field_size(big_g)
                    + entry_field_size(big_g)) by (nonlinear_arith);
                assert(entry_pos(big_g, off, i + 1) == pos_i + entry_field_size(big_g));
            }
            i = i + 1;
        }
        let next: u64;
        if big {
            next = match self.stream.read_u64() {
                Ok(v) => v,
                Err(e) => {
                    return Err(e);
                },
            };
        } else {
            next = match self.stream.read_u32() {
                Ok(v) => v as u64,
                Err(e) => {
                    return Err(e);
                },
            };
        }
        let ifd = IFD::new(entries, next);
        Ok(ifd)
    }

    /// The directory reached from `off` after following `steps` links, or
    /// why the walk fails: a directory that does not parse surfaces its
    /// error, and a chain that ends early fails with `IfdOutOfBounds`.
    pub open spec fn walk_spec(
        data: Seq<u8>,
        le: bool,
        big: bool,
        off: int,
        steps: nat,
    ) -> Result<int, TiffError>
        decreases steps,
    {
        match ifd_parse_err(data, le, big, off) {
            Some(e) => Err(e),
            Option::None => {
                if steps == 0 {
                    Ok(off)
                } else {
                    let nxt = ifd_next_of(data, le, big, off);
                    if nxt == 0 {
                        Err(TiffError::IfdOutOfBounds)
                    } else {
                        Self::walk_spec(data, le, big, nxt, (steps - 1) as nat)
                    }
                }
            },
        }
    }

    /// The walk bound used when counting the chain: the file's size, which
    /// no chain of distinct offsets can outgrow, capped at what a 64-bit
    /// counter can follow.
    pub open spec fn chain_fuel(data: Seq<u8>) -> nat {
        if data.len() < 0xffff_ffff_ffff_ffff {
            data.len()
        } else {
            0xffff_ffff_ffff_fffe as nat
        }
    }

    /// How many directories the chain from `off` holds, or why counting
    /// them fails.  The fuel bounds the walk; a chain longer than the file
    /// has bytes must revisit an offset, and fails with
    /// `MalformedIfdChain`.
    pub open spec fn chain_count_spec(
        data: Seq<u8>,
        le: bool,
        big: bool,
        off: int,
        fuel: nat,
    ) -> Result<nat, TiffError>
        decreases fuel,
    {
        match ifd_parse_err(data, le, big, off) {
            Some(e) => Err(e),
            Option::None => {
                let nxt = ifd_next_of(data, le, big, off);
                if nxt == 0 {
                    Ok(1)
                } else if fuel == 0 {
                    Err(TiffError::MalformedIfdChain)
                } else {
                    match Self::chain_count_spec(data, le, big, nxt, (fuel - 1) as nat) {
                        Ok(k) => Ok((k + 1) as nat),
                        Err(e) => Err(e),
                    }
                }
            },
        }
    }

    /// Counts the directories on the chain, detecting a chain that cycles.
    pub fn n_ifds(&mut self) -> (r: Result<u64, TiffError>)
        ensures
            final(self).same_file_as(old(self)),
            match r {
                Ok(n) => TiffParser::chain_count_spec(
                    old(self).data(),
                    old(self).le(),
                    old(self).big(),
                    old(self).first_ifd() as int,
                    TiffParser::chain_fuel(old(self).data()),
                ) == Ok::<nat, TiffError>(n as nat),
                Err(e) => TiffParser::chain_count_spec(
                    old(self).data(),
                    old(self).le(),
                    old(self).big(),
                    old(self).first_ifd() as int,
                    TiffParser::chain_fuel(old(self).data()),
                ) == Err::<nat, TiffError>(e),
            },
    {
        let ghost data = old(self).data();
        let ghost le = old(self).le();
        let ghost big_g = old(self).big();
        let first = self.first_ifd_offset;
        let file_len = self.stream.size();
        let ghost fuel0 = TiffParser::chain_fuel(old(self).data());
        let fl = file_len as u64;
        let mut fuel: u64 = if fl < 0xffff_ffff_ffff_ffff {
            fl
        } else {
            0xffff_ffff_ffff_fffe
        };
        let mut off: u64 = first;
        let mut count: u64 = 1;
        loop
            invariant
                self.same_file_as(old(self)),
                data == old(self).data(),
                le == old(self).le(),
                big_g == old(self).big(),
                first == old(self).first_ifd(),
                fuel0 == TiffParser::chain_fuel(data),
                fuel0 == fuel + count - 1,
                fuel0 <= 0xffff_ffff_ffff_fffe,
                count >= 1,
                (match TiffParser::chain_count_spec(data, le, big_g, off as int, fuel as nat) {
                    Ok(k) => TiffParser::chain_count_spec(data, le, big_g, first as int, fuel0)
                        == Ok::<nat, TiffError>((k + count - 1) as nat),
                    Err(e) => TiffParser::chain_count_spec(data, le, big_g, first as int, fuel0)
                        == Err::<nat, TiffError>(e),
                }),
            decreases fuel,
        {
            self.stream.seek(off);
            let ifd = match self.read_ifd() {
                Ok(f) => f,
                Err(e) => {
                    return Err(e);
                },
            };
            let next = *ifd.next_ifd_offset();
            if next == 0 {
                return Ok(count);
            }
            if fuel == 0 {
                return Err(TiffError::MalformedIfdChain);
            }
            fuel = fuel - 1;
            count = count + 1;
            off = next;
        }
    }

    /// Walks `i` links from the first directory and returns the directory
    /// there; a chain that ends first fails with `IfdOutOfBounds`.
    pub fn nth_ifd(&mut self, i: u64) -> (r: Result<IFD, TiffError>)
        ensures
            final(self).same_file_as(old(self)),
            match r {
                Ok(ifd) => TiffParser::walk_spec(
                    old(self).data(),
                    old(self).le(),
                    old(self).big(),
                    old(self).first_ifd() as int,
                    i as nat,
                ) is Ok && ifd_matches(
                    ifd,
                    old(self).data(),
                    old(self).le(),
                    old(self).big(),
                    TiffParser::walk_spec(
                        old(self).data(),
                        old(self).le(),
                        old(self).big(),
                        old(self).first_ifd() as int,
                        i as nat,
                    ).unwrap(),
                ),
                Err(e) => TiffParser::walk_spec(
                    old(self).data(),
                    old(self).le(),
                    old(self).big(),
                    old(self).first_ifd() as int,
                    i as nat,
                ) == Err::<int, TiffError>(e),
            },
    {
        let ghost data = old(self).data();
        let ghost le = old(self).le();
        let ghost big_g = old(self).big();
        let first = self.first_ifd_offset;
        let mut off: u64 = first;
        let mut j: u64 = 0;
        loop
            invariant
                j <= i,
                self.same_file_as(old(self)),
                data == old(self).data(),
                le == old(self).le(),
                big_g == old(self).big(),
                first == old(self).first_ifd(),
                TiffParser::walk_spec(data, le, big_g, first as int, i as nat)
                    == TiffParser::walk_spec(data, le, big_g, off as int, (i - j) as nat),
            decreases i - j,
        {
            self.stream.seek(off);
            let ifd = match self.read_ifd() {
                Ok(f) => f,
                Err(e) => {
                    return Err(e);
                },
            };
            if j == i {
                return Ok(ifd);
            }
            let next = *ifd.next_ifd_offset();
            if next == 0 {
                return Err(TiffError::IfdOutOfBounds);
            }
            off = next;
            j = j + 1;
        }
    }

    /// Reads a tag's datum from a directory, following the payload offset
    /// where the value is not inline.
    pub fn read_entry(&mut self, ifd: &IFD, tag: Tag) -> (r: Result<Datum, TiffError>)
        ensures
            final(self).same_file_as(old(self)),
            match r {
                Ok(d) => read_entry_spec(*ifd, old(self).data(), old(self).le(), tag) == Ok::<
                    DatumV,
                    TiffError,
                >(d@),
                Err(e) => read_entry_spec(*ifd, old(self).data(), old(self).le(), tag) == Err::<
                    DatumV,
                    TiffError,
                >(e),
            },
    {
        let e = match ifd.get_entry(tag) {
            Some(e) => e,
            Option::None => {
                return Err(TiffError::UnknownTag);
            },
        };
        match &e.payload {
            Payload::Offset(o) => {
                self.stream.seek(*o);
                self.read_datum(e.kind, e.count)
            },
            Payload::Inline(d) => Ok(d.clone()),
        }
    }

    /// The image width the directory declares.
    pub fn image_width(&mut self, ifd: &IFD) -> (r: Result<u16, TiffError>)
        ensures
            final(self).same_file_as(old(self)),
            r == tag_u16_spec(*ifd, old(self).data(), old(self).le(), Tag::ImageWidth),
    {
        let d = match self.read_entry(ifd, Tag::ImageWidth) {
            Ok(d) => d,
            Err(e) => {
                return Err(e);
            },
        };
        match d.to_u16() {
            Some(v) => Ok(v),
            Option::None => Err(TiffError::UnknownTag),
        }
    }

    /// The image length (height) the directory declares.
    pub fn image_length(&mut self, ifd: &IFD) -> (r: Result<u16, TiffError>)
        ensures
            final(self).same_file_as(old(self)),
            r == tag_u16_spec(*ifd, old(self).data(), old(self).le(), Tag::ImageLength),
    {
        let d = match self.read_entry(ifd, Tag::ImageLength) {
            Ok(d) => d,
            Err(e) => {
                return Err(e);
            },
        };
        match d.to_u16() {
            Some(v) => Ok(v),
            Option::None => Err(TiffError::UnknownTag),
        }
    }

    /// The rows-per-strip the directory declares.
    pub fn rows_per_strip(&mut self, ifd: &IFD) -> (r: Result<u16, TiffError>)
        ensures
            final(self).same_file_as(old(self)),
            r == tag_u16_spec(*ifd, old(self).data(), old(self).le(), Tag::RowsPerStrip),
    {
        let d = match self.read_entry(ifd, Tag::RowsPerStrip) {
            Ok(d) => d,
            Err(e) => {
                return Err(e);
            },
        };
        match d.to_u16() {
            Some(v) => Ok(v),
            Option::None => Err(TiffError::UnknownTag),
        }
    }

    /// The samples-per-pixel the directory declares.
    pub fn samples_per_pixel(&mut self, ifd: &IFD) -> (r: Result<u16, TiffError>)
        ensures
            final(self).same_file_as(old(self)),
            r == tag_u16_spec(*ifd, old(self).data(), old(self).le(), Tag::SamplesPerPixel),
    {
        let d = match self.read_entry(ifd, Tag::SamplesPerPixel) {
            Ok(d) => d,
            Err(e) => {
                return Err(e);
            },
        };
        match d.to_u16() {
            Some(v) => Ok(v),
            Option::None => Err(TiffError::UnknownTag),
        }
    }

    /// The planar configuration the directory declares: 1 for chunky, 2 for
    /// planar.
    pub fn planar_configuration(&mut self, ifd: &IFD) -> (r: Result<u16, TiffError>)
        ensures
            final(self).same_file_as(old(self)),
            r == tag_u16_spec(*ifd, old(self).data(), old(self).le(), Tag::PlanarConfiguration),
    {
        let d = match self.read_entry(ifd, Tag::PlanarConfiguration) {
            Ok(d) => d,
            Err(e) => {
                return Err(e);
            },
        };
        match d.to_u16() {
            Some(v) => Ok(v),
            Option::None => Err(TiffError::UnknownTag),
        }
    }

    /// The fill order the directory declares.
    pub fn fill_order(&mut self, ifd: &IFD) -> (r: Result<u16, TiffError>)
        ensures
            final(self).same_file_as(old(self)),
            r == tag_u16_spec(*ifd, old(self).data(), old(self).le(), Tag::FillOrder),
    {
        let d = match self.read_entry(ifd, Tag::FillOrder) {
            Ok(d) => d,
            Err(e) => {
                return Err(e);
            },
        };
        match d.to_u16() {
            Some(v) => Ok(v),
            Option::None => Err(TiffError::UnknownTag),
        }
    }

    /// The orientation the directory declares.
    pub fn orientation(&mut self, ifd: &IFD) -> (r: Result<u16, TiffError>)
        ensures
            final(self).same_file_as(old(self)),
            r == tag_u16_spec(*ifd, old(self).data(), old(self).le(), Tag::Orientation),
    {
        let d = match self.read_entry(ifd, Tag::Orientation) {
            Ok(d) => d,
            Err(e) => {
                return Err(e);
            },
        };
        match d.to_u16() {
            Some(v) => Ok(v),
            Option::None => Err(TiffError::UnknownTag),
        }
    }

    /// The strip offsets the directory declares.
    pub fn strip_offsets(&mut self, ifd: &IFD) -> (r: Result<Vec<u32>, TiffError>)
        ensures
            final(self).same_file_as(old(self)),
            match r {
                Ok(v) => tag_vec_u32_spec(*ifd, old(self).data(), old(self).le(), Tag::StripOffsets)
                    == Ok::<Seq<u32>, TiffError>(v@),
                Err(e) => tag_vec_u32_spec(
                    *ifd,
                    old(self).data(),
                    old(self).le(),
                    Tag::StripOffsets,
                ) == Err::<Seq<u32>, TiffError>(e),
            },
    {
        let d = match self.read_entry(ifd, Tag::StripOffsets) {
            Ok(d) => d,
            Err(e) => {
                return Err(e);
            },
        };
        match d.to_vec_u32() {
            Some(v) => Ok(v),
            Option::None => Err(TiffError::UnknownTag),
        }
    }

    /// The strip byte counts the directory declares.
    pub fn strip_byte_counts(&mut self, ifd: &IFD) -> (r: Result<Vec<u32>, TiffError>)
        ensures
            final(self).same_file_as(old(self)),
            match r {
                Ok(v) => tag_vec_u32_spec(
                    *ifd,
                    old(self).data(),
                    old(self).le(),
                    Tag::StripByteCounts,
                ) == Ok::<Seq<u32>, TiffError>(v@),
                Err(e) => tag_vec_u32_spec(
                    *ifd,
                    old(self).data(),
                    old(self).le(),
                    Tag::StripByteCounts,
                ) == Err::<Seq<u32>, TiffError>(e),
            },
    {
        let d = match self.read_entry(ifd, Tag::StripByteCounts) {
            Ok(d) => d,
            Err(e) => {
                return Err(e);
            },
        };
        match d.to_vec_u32() {
            Some(v) => Ok(v),
            Option::None => Err(TiffError::UnknownTag),
        }
    }

    /// The per-channel bit depths the directory declares.
    pub fn bits_per_sample(&mut self, ifd: &IFD) -> (r: Result<Vec<u16>, TiffError>)
        ensures
            final(self).same_file_as(old(self)),
            match r {
                Ok(v) => tag_vec_u16_spec(
                    *ifd,
                    old(self).data(),
                    old(self).le(),
                    Tag::BitsPerSample,
                ) == Ok::<Seq<u16>, TiffError>(v@),
                Err(e) => tag_vec_u16_spec(
                    *ifd,
                    old(self).data(),
                    old(self).le(),
                    Tag::BitsPerSample,
                ) == Err::<Seq<u16>, TiffError>(e),
            },
    {
        let d = match self.read_entry(ifd, Tag::BitsPerSample) {
            Ok(d) => d,
            Err(e) => {
                return Err(e);
            },
        };
        match d.to_vec_u16() {
            Some(v) => Ok(v),
            Option::None => Err(TiffError::UnknownTag),
        }
    }

    /// The compression scheme the directory declares.
    pub fn compression(&mut self, ifd: &IFD) -> (r: Result<Compression, TiffError>)
        ensures
            final(self).same_file_as(old(self)),
            r == compression_spec(*ifd, old(self).data(), old(self).le()),
    {
        let v = match self.read_entry(ifd, Tag::Compression) {
            Ok(d) => match d.to_u16() {
                Some(v) => v,
                Option::None => {
                    return Err(TiffError::UnknownTag);
                },
            },
            Err(e) => {
                return Err(e);
            },
        };
        match Compression::from_short(v) {
            Some(c) => Ok(c),
            Option::None => Err(TiffError::UnknownCompression),
        }
    }

    /// Reads strip `strip_idx` and decompresses it to its expected size:
    /// `bytes_per_pixel` bytes for each pixel of each row the strip covers.
    #[verifier::rlimit(100)]
    pub fn read_strip(&mut self, ifd: &IFD, strip_idx: u64, bytes_per_pixel: u64) -> (r: Result<
        Vec<u8>,
        TiffError,
    >)
        ensures
            final(self).same_file_as(old(self)),
            match r {
                Ok(v) => read_strip_spec(
                    *ifd,
                    old(self).data(),
                    old(self).le(),
                    strip_idx as int,
                    bytes_per_pixel as int,
                ) == Ok::<Seq<u8>, TiffError>(v@),
                Err(e) => read_strip_spec(
                    *ifd,
                    old(self).data(),
                    old(self).le(),
                    strip_idx as int,
                    bytes_per_pixel as int,
                ) == Err::<Seq<u8>, TiffError>(e),
            },
    {
        let ghost data = old(self).data();
        let ghost le = old(self).le();
        let offsets = match self.strip_offsets(ifd) {
            Ok(v) => v,
            Err(e) => {
                return Err(e);
            },
        };
        let counts = match self.strip_byte_counts(ifd) {
            Ok(v) => v,
            Err(e) => {
                return Err(e);
            },
        };
        if strip_idx >= offsets.len() as u64 || strip_idx >= counts.len() as u64 {
            return Err(TiffError::StripIndexOutOfRange);
        }
        let rps = match self.rows_per_strip(ifd) {
            Ok(v) => v,
            Err(e) => {
                return Err(e);
            },
        };
        let il = match self.image_length(ifd) {
            Ok(v) => v,
            Err(e) => {
                return Err(e);
            },
        };
        let iw = match self.image_width(ifd) {
            Ok(v) => v,
            Err(e) => {
                return Err(e);
            },
        };
        let idx = strip_idx as usize;
        let rows: u64 = match strip_idx.checked_mul(rps as u64) {
            Some(p) => {
                if p >= il as u64 {
                    0
                } else if (il as u64) - p < rps as u64 {
                    (il as u64) - p
                } else {
                    rps as u64
                }
            },
            Option::None => 0,
        };
        proof {
            assert(rows == strip_rows(il as int, rps as int, strip_idx as int));
            assert(rows <= 0xffff);
            assert(rows * (iw as u64) <= 0xffff * 0xffff) by (nonlinear_arith)
                requires
                    rows <= 0xffff,
                    iw <= 0xffff,
            ;
        }
        let expected_opt = (rows * (iw as u64)).checked_mul(bytes_per_pixel);
        let expected: u64 = match expected_opt {
            Some(v) => v,
            Option::None => {
                proof {
                    assert(strip_rows(il as int, rps as int, strip_idx as int) * (iw as int) * (
                    bytes_per_pixel as int) > u64::MAX);
                }
                return Err(TiffError::UnexpectedEof);
            },
        };
        if expected > usize::MAX as u64 {
            return Err(TiffError::UnexpectedEof);
        }
        let co = match self.compression(ifd) {
            Ok(c) => c,
            Err(e) => {
                return Err(e);
            },
        };
        let off = offsets[idx] as u64;
        let cnt = counts[idx] as u64;
        match co {
            Compression::CCITT => Err(TiffError::NotImplemented),
            Compression::Uncompressed => {
                if cnt < expected {
                    return Err(TiffError::UnexpectedEof);
                }
                let mut v: Vec<u8> = vec![0u8; expected as usize];
                proof {
                    assert(v@ =~= zero_seq(expected as nat));
                }
                match self.stream.read(&mut v, off) {
                    Ok(_) => Ok(v),
                    Err(e) => Err(e),
                }
            },
            Compression::PackBits => {
                let mut raw: Vec<u8> = vec![0u8; cnt as usize];
                proof {
                    assert(raw@ =~= zero_seq(cnt as nat));
                }
                match self.stream.read(&mut raw, off) {
                    Ok(_) => (),
                    Err(e) => {
                        return Err(e);
                    },
                };
                let mut out: Vec<u8> = vec![0u8; expected as usize];
                proof {
                    assert(out@ =~= zero_seq(expected as nat));
                }
                match Compression::unpackbits(&raw, &mut out) {
                    Ok(_) => {
                        proof {
                            let inp = data.subrange(off as int, off + cnt);
                            let d = packbits_decode(inp, expected as nat).unwrap();
                            assert(zero_seq(expected as nat).skip(d.len() as int) =~= zero_seq(
                                (expected - d.len()) as nat,
                            ));
                        }
                        Ok(out)
                    },
                    Err(_) => Err(TiffError::UnexpectedEof),
                }
            },
        }
    }

    /// Reads the `cnt` bytes of one strip at offset `off` and decompresses
    /// them to `expected` bytes under scheme `co`.
    pub fn fetch_strip_data(&mut self, co: Compression, off: u64, cnt: u64, expected: usize) -> (r:
        Result<Vec<u8>, TiffError>)
        ensures
            final(self).same_file_as(old(self)),
            match r {
                Ok(v) => read_strip_data_spec(
                    old(self).data(),
                    co,
                    off as int,
                    cnt as int,
                    expected as int,
                ) == Ok::<Seq<u8>, TiffError>(v@),
                Err(e) => read_strip_data_spec(
                    old(self).data(),
                    co,
                    off as int,
                    cnt as int,
                    expected as int,
                ) == Err::<Seq<u8>, TiffError>(e),
            },
    {
        let ghost data = old(self).data();
        match co {
            Compression::CCITT => Err(TiffError::NotImplemented),
            Compression::Uncompressed => {
                if cnt < expected as u64 {
                    return Err(TiffError::UnexpectedEof);
                }
                let mut v: Vec<u8> = vec![0u8; expected];
                match self.stream.read(&mut v, off) {
                    Ok(_) => Ok(v),
                    Err(e) => Err(e),
                }
            },
            Compression::PackBits => {
                let file_len = self.stream.size();
                if cnt > usize::MAX as u64 {
                    proof {
                        assert(data.len() == file_len);
                    }
                    return Err(TiffError::UnexpectedEof);
                }
                let mut raw: Vec<u8> = vec![0u8; cnt as usize];
                match self.stream.read(&mut raw, off) {
                    Ok(_) => (),
                    Err(e) => {
                        return Err(e);
                    },
                };
                let mut out: Vec<u8> = vec![0u8; expected];
                proof {
                    assert(out@ =~= zero_seq(expected as nat));
                }
                match Compression::unpackbits(&raw, &mut out) {
                    Ok(_) => {
                        proof {
                            let inp = data.subrange(off as int, off + cnt);
                            let d = packbits_decode(inp, expected as nat).unwrap();
                            assert(zero_seq(expected as nat).skip(d.len() as int) =~= zero_seq(
                                (expected - d.len()) as nat,
                            ));
                        }
                        Ok(out)
                    },
                    Err(_) => Err(TiffError::UnexpectedEof),
                }
            },
        }
    }

    /// The file's byte order.
    pub fn byte_order(&mut self) -> (r: ByteOrder)
        ensures
            *final(self) == *old(self),
            r == if old(self).le() {
                ByteOrder::LE
            } else {
                ByteOrder::BE
            },
    {
        if self.stream.is_little_endian() {
            ByteOrder::LE
        } else {
            ByteOrder::BE
        }
    }

    /// Whether the file is BigTIFF.
    pub fn is_big_tiff(&self) -> (r: &bool)
        ensures
            *r == self.big(),
    {
        &self.is_big_tiff
    }
}

} // verus!
