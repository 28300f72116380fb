//! Image file directories: recognized tags, entry value types, decoded
//! values, and the directory record itself.

use crate::stream::word16;
use crate::stream::word32;
use crate::stream::word64;
use vstd::prelude::*;

verus! {

/// The tags the reader recognizes.  Unknown tag codes map to `Other` and are
/// preserved but not interpreted.
#[derive(Clone, Copy, Debug, PartialEq, Eq, Hash, Structural)]
pub enum Tag {
    ImageWidth,
    ImageLength,
    BitsPerSample,
    Compression,
    PhotometricInterpretation,
    FillOrder,
    StripOffsets,
    Orientation,
    SamplesPerPixel,
    RowsPerStrip,
    StripByteCounts,
    XResolution,
    YResolution,
    PlanarConfiguration,
    ResolutionUnit,
    ExtraSamples,
    SampleFormat,
    Other,
}

/// The tag a 16-bit tag code names.
pub open spec fn spec_tag_of(val: u16) -> Tag {
    if val == 256 {
        Tag::ImageWidth
    } else if val == 257 {
        Tag::ImageLength
    } else if val == 258 {
        Tag::BitsPerSample
    } else if val == 259 {
        Tag::Compression
    } else if val == 262 {
        Tag::PhotometricInterpretation
    } else if val == 266 {
        Tag::FillOrder
    } else if val == 273 {
        Tag::StripOffsets
    } else if val == 274 {
        Tag::Orientation
    } else if val == 277 {
        Tag::SamplesPerPixel
    } else if val == 278 {
        Tag::RowsPerStrip
    } else if val == 279 {
        Tag::StripByteCounts
    } else if val == 282 {
        Tag::XResolution
    } else if val == 283 {
        Tag::YResolution
    } else if val == 284 {
        Tag::PlanarConfiguration
    } else if val == 296 {
        Tag::ResolutionUnit
    } else if val == 338 {
        Tag::ExtraSamples
    } else if val == 339 {
        Tag::SampleFormat
    } else {
        Tag::Other
    }
}

/// The printed name of a tag.
pub open spec fn spec_tag_name(t: Tag) -> Seq<char> {
    match t {
        Tag::ImageWidth => "ImageWidth"@,
        Tag::ImageLength => "ImageLength"@,
        Tag::BitsPerSample => "BitsPerSample"@,
        Tag::Compression => "Compression"@,
        Tag::PhotometricInterpretation => "PhotometricInterpretation"@,
        Tag::FillOrder => "FillOrder"@,
        Tag::StripOffsets => "StripOffsets"@,
        Tag::Orientation => "Orientation"@,
        Tag::SamplesPerPixel => "SamplesPerPixel"@,
        Tag::RowsPerStrip => "RowsPerStrip"@,
        Tag::StripByteCounts => "StripByteCounts"@,
        Tag::XResolution => "XResolution"@,
        Tag::YResolution => "YResolution"@,
        Tag::PlanarConfiguration => "PlanarConfiguration"@,
        Tag::ResolutionUnit => "ResolutionUnit"@,
        Tag::ExtraSamples => "ExtraSamples"@,
        Tag::SampleFormat => "SampleFormat"@,
        Tag::Other => "Other"@,
    }
}

impl Tag {
    /// Maps a 16-bit tag code to the recognized tag, `Other` when unknown.
    pub fn from_short(val: u16) -> (r: Option<Tag>)
        ensures
            r == Some(spec_tag_of(val)),
    {
        match val {
            256u16 => Some(Tag::ImageWidth),
            257u16 => Some(Tag::ImageLength),
            258u16 => Some(Tag::BitsPerSample),
            259u16 => Some(Tag::Compression),
            262u16 => Some(Tag::PhotometricInterpretation),
            266u16 => Some(Tag::FillOrder),
            273u16 => Some(Tag::StripOffsets),
            274u16 => Some(Tag::Orientation),
            277u16 => Some(Tag::SamplesPerPixel),
            278u16 => Some(Tag::RowsPerStrip),
            279u16 => Some(Tag::StripByteCounts),
            282u16 => Some(Tag::XResolution),
            283u16 => Some(Tag::YResolution),
            284u16 => Some(Tag::PlanarConfiguration),
            296u16 => Some(Tag::ResolutionUnit),
            338u16 => Some(Tag::ExtraSamples),
            339u16 => Some(Tag::SampleFormat),
            _ => Some(Tag::Other),
        }
    }

    /// The tag's printed name.
    pub fn to_str(&self) -> (r: String)
        ensures
            r@ == spec_tag_name(*self),
    {
        match self {
            Tag::ImageWidth => "ImageWidth".to_owned(),
            Tag::ImageLength => "ImageLength".to_owned(),
            Tag::BitsPerSample => "BitsPerSample".to_owned(),
            Tag::Compression => "Compression".to_owned(),
            Tag::PhotometricInterpretation => "PhotometricInterpretation".to_owned(),
            Tag::FillOrder => "FillOrder".to_owned(),
            Tag::StripOffsets => "StripOffsets".to_owned(),
            Tag::Orientation => "Orientation".to_owned(),
            Tag::SamplesPerPixel => "SamplesPerPixel".to_owned(),
            Tag::RowsPerStrip => "RowsPerStrip".to_owned(),
            Tag::StripByteCounts => "StripByteCounts".to_owned(),
            Tag::XResolution => "XResolution".to_owned(),
            Tag::YResolution => "YResolution".to_owned(),
            Tag::PlanarConfiguration => "PlanarConfiguration".to_owned(),
            Tag::ResolutionUnit => "ResolutionUnit".to_owned(),
            Tag::ExtraSamples => "ExtraSamples".to_owned(),
            Tag::SampleFormat => "SampleFormat".to_owned(),
            Tag::Other => "Other".to_owned(),
        }
    }
}

/// The value types an entry may declare.
#[derive(Clone, Copy, Debug, PartialEq, Eq, Structural)]
pub enum Type {
    BYTE,
    ASCII,
    SHORT,
    LONG,
    RATIONAL,
    UNDEFINED,
    DOUBLE,
}

/// The value type a 16-bit type code names, `None` when unknown.
pub open spec fn spec_type_of(val: u16) -> Option<Type> {
    if val == 1 {
        Some(Type::BYTE)
    } else if val == 2 {
        Some(Type::ASCII)
    } else if val == 3 {
        Some(Type::SHORT)
    } else if val == 4 {
        Some(Type::LONG)
    } else if val == 5 {
        Some(Type::RATIONAL)
    } else if val == 7 {
        Some(Type::UNDEFINED)
    } else if val == 16 {
        Some(Type::DOUBLE)
    } else {
        Option::None
    }
}

/// The size in bytes of one element of the given type.
pub open spec fn type_size(t: Type) -> nat {
    match t {
        Type::BYTE => 1,
        Type::ASCII => 1,
        Type::SHORT => 2,
        Type::LONG => 4,
        Type::RATIONAL => 8,
        Type::UNDEFINED => 1,
        Type::DOUBLE => 8,
    }
}

/// The printed name of a value type.
pub open spec fn spec_type_name(t: Type) -> Seq<char> {
    match t {
        Type::BYTE => "BYTE"@,
        Type::ASCII => "ASCII"@,
        Type::SHORT => "SHORT"@,
        Type::LONG => "LONG"@,
        Type::RATIONAL => "RATIONAL"@,
        Type::UNDEFINED => "UNDEFINED"@,
        Type::DOUBLE => "DOUBLE"@,
    }
}

impl Type {
    /// Maps a 16-bit type code to the value type it names.
    pub fn from_short(val: u16) -> (r: Option<Type>)
        ensures
            r == spec_type_of(val),
    {
        match val {
            1u16 => Some(Type::BYTE),
            2u16 => Some(Type::ASCII),
            3u16 => Some(Type::SHORT),
            4u16 => Some(Type::LONG),
            5u16 => Some(Type::RATIONAL),
            7u16 => Some(Type::UNDEFINED),
            16u16 => Some(Type::DOUBLE),
            _ => None,
        }
    }

    /// The size in bytes of one element of this type.
    pub fn elem_size(&self) -> (r: u64)
        ensures
            r == type_size(*self),
    {
        match self {
            Type::BYTE => 1,
            Type::ASCII => 1,
            Type::SHORT => 2,
            Type::LONG => 4,
            Type::RATIONAL => 8,
            Type::UNDEFINED => 1,
            Type::DOUBLE => 8,
        }
    }

    /// The type's printed name.
    pub fn to_str(&self) -> (r: String)
        ensures
            r@ == spec_type_name(*self),
    {
        match self {
            Type::BYTE => "BYTE".to_owned(),
            Type::ASCII => "ASCII".to_owned(),
            Type::SHORT => "SHORT".to_owned(),
            Type::LONG => "LONG".to_owned(),
            Type::RATIONAL => "RATIONAL".to_owned(),
            Type::UNDEFINED => "UNDEFINED".to_owned(),
            Type::DOUBLE => "DOUBLE".to_owned(),
        }
    }
}

/// The mathematical value of a decoded entry payload.
pub enum DatumV {
    U8(Seq<u8>),
    STR(Seq<char>),
    U16(Seq<u16>),
    U32(Seq<u32>),
    U64(Seq<u64>),
    RAT(Seq<(u32, u32)>),
}

/// The value that raw payload bytes `s` describe, decoded as `count`
/// elements of type `kind` under byte order `le`: bytes and ASCII text are
/// taken as they stand, wider integers and rational pairs are read in 2-,
/// 4- or 8-byte groups under the byte order.
pub open spec fn datum_of(kind: Type, count: nat, le: bool, s: Seq<u8>) -> DatumV {
    match kind {
        Type::BYTE => DatumV::U8(s),
        Type::UNDEFINED => DatumV::U8(s),
        Type::ASCII => DatumV::STR(s.map_values(|b: u8| b as char)),
        Type::SHORT => DatumV::U16(
            Seq::new(count, |j: int| word16(s.subrange(2 * j, 2 * j + 2), le) as u16),
        ),
        Type::LONG => DatumV::U32(
            Seq::new(count, |j: int| word32(s.subrange(4 * j, 4 * j + 4), le) as u32),
        ),
        Type::DOUBLE => DatumV::U64(
            Seq::new(count, |j: int| word64(s.subrange(8 * j, 8 * j + 8), le) as u64),
        ),
        Type::RATIONAL => DatumV::RAT(
            Seq::new(
                count,
                |j: int|
                    (
                        word32(s.subrange(8 * j, 8 * j + 4), le) as u32,
                        word32(s.subrange(8 * j + 4, 8 * j + 8), le) as u32,
                    ),
            ),
        ),
    }
}

/// A decoded entry payload.  Every value is an array; scalars are arrays of
/// one element.
#[derive(Debug)]
pub enum Datum {
    U8(Vec<u8>),
    STR(String),
    U16(Vec<u16>),
    U32(Vec<u32>),
    U64(Vec<u64>),
    RAT(Vec<(u32, u32)>),
}

impl View for Datum {
    type V = DatumV;

    open spec fn view(&self) -> DatumV {
        match self {
            Datum::U8(v) => DatumV::U8(v@),
            Datum::STR(s) => DatumV::STR(s@),
            Datum::U16(v) => DatumV::U16(v@),
            Datum::U32(v) => DatumV::U32(v@),
            Datum::U64(v) => DatumV::U64(v@),
            Datum::RAT(v) => DatumV::RAT(v@),
        }
    }
}

/// Widening view of a datum as 64-bit values; `None` when the source is
/// wider than the target or not numeric.
pub open spec fn spec_to_vec_u64(d: DatumV) -> Option<Seq<u64>> {
    match d {
        DatumV::U8(v) => Some(v.map_values(|a: u8| a as u64)),
        DatumV::U16(v) => Some(v.map_values(|a: u16| a as u64)),
        DatumV::U32(v) => Some(v.map_values(|a: u32| a as u64)),
        DatumV::U64(v) => Some(v),
        _ => Option::None,
    }
}

/// Widening view of a datum as 32-bit values.
pub open spec fn spec_to_vec_u32(d: DatumV) -> Option<Seq<u32>> {
    match d {
        DatumV::U8(v) => Some(v.map_values(|a: u8| a as u32)),
        DatumV::U16(v) => Some(v.map_values(|a: u16| a as u32)),
        DatumV::U32(v) => Some(v),
        _ => Option::None,
    }
}

/// Widening view of a datum as 16-bit values.
pub open spec fn spec_to_vec_u16(d: DatumV) -> Option<Seq<u16>> {
    match d {
        DatumV::U8(v) => Some(v.map_values(|a: u8| a as u16)),
        DatumV::U16(v) => Some(v),
        _ => Option::None,
    }
}

/// View of a datum as raw bytes.
pub open spec fn spec_to_vec_u8(d: DatumV) -> Option<Seq<u8>> {
    match d {
        DatumV::U8(v) => Some(v),
        _ => Option::None,
    }
}

/// The first element of a datum widened to 64 bits.
pub open spec fn spec_to_u64(d: DatumV) -> Option<u64> {
    match spec_to_vec_u64(d) {
        Some(v) => if v.len() > 0 {
            Some(v[0])
        } else {
            Option::None
        },
        Option::None => Option::None,
    }
}

/// The first element of a datum widened to 16 bits.
pub open spec fn spec_to_u16(d: DatumV) -> Option<u16> {
    match spec_to_vec_u16(d) {
        Some(v) => if v.len() > 0 {
            Some(v[0])
        } else {
            Option::None
        },
        Option::None => Option::None,
    }
}

/// The first element of a byte datum.
pub open spec fn spec_to_u8(d: DatumV) -> Option<u8> {
    match spec_to_vec_u8(d) {
        Some(v) => if v.len() > 0 {
            Some(v[0])
        } else {
            Option::None
        },
        Option::None => Option::None,
    }
}

/// Copies a vector of plain values element by element.
fn copy_vec<T: Copy>(v: &Vec<T>) -> (r: Vec<T>)
    ensures
        r@ == v@,
{
    let mut r: Vec<T> = Vec::new();
    let n = v.len();
    let mut i: usize = 0;
    while i < n
        invariant
            i <= n,
            n == v@.len(),
            r@ == v@.take(i as int),
        decreases n - i,
    {
        r.push(v[i]);
        proof {
            assert(r@ =~= v@.take(i + 1));
        }
        i = i + 1;
    }
    proof {
        assert(v@.take(n as int) =~= v@);
    }
    r
}

/// Copies a vector of 8-bit values, widening each to 16 bits.
fn widen_u8_u16(v: &Vec<u8>) -> (r: Vec<u16>)
    ensures
        r@ == v@.map_values(|a: u8| a as u16),
{
    let ghost target = v@.map_values(|a: u8| a as u16);
    let mut r: Vec<u16> = Vec::new();
    let n = v.len();
    let mut i: usize = 0;
    while i < n
        invariant
            i <= n,
            n == v@.len(),
            target == v@.map_values(|a: u8| a as u16),
            r@ == target.take(i as int),
        decreases n - i,
    {
        r.push(v[i] as u16);
        proof {
            assert(r@ =~= target.take(i + 1));
        }
        i = i + 1;
    }
    proof {
        assert(target.take(n as int) =~= target);
    }
    r
}

/// Copies a vector of 8- or 16-bit values, widening each to 32 bits.
fn widen_u8_u32(v: &Vec<u8>) -> (r: Vec<u32>)
    ensures
        r@ == v@.map_values(|a: u8| a as u32),
{
    let ghost target = v@.map_values(|a: u8| a as u32);
    let mut r: Vec<u32> = Vec::new();
    let n = v.len();
    let mut i: usize = 0;
    while i < n
        invariant
            i <= n,
            n == v@.len(),
            target == v@.map_values(|a: u8| a as u32),
            r@ == target.take(i as int),
        decreases n - i,
    {
        r.push(v[i] as u32);
        proof {
            assert(r@ =~= target.take(i + 1));
        }
        i = i + 1;
    }
    proof {
        assert(target.take(n as int) =~= target);
    }
    r
}

/// Widens 16-bit values to 32 bits.
fn widen_u16_u32(v: &Vec<u16>) -> (r: Vec<u32>)
    ensures
        r@ == v@.map_values(|a: u16| a as u32),
{
    let ghost target = v@.map_values(|a: u16| a as u32);
    let mut r: Vec<u32> = Vec::new();
    let n = v.len();
    let mut i: usize = 0;
    while i < n
        invariant
            i <= n,
            n == v@.len(),
            target == v@.map_values(|a: u16| a as u32),
            r@ == target.take(i as int),
        decreases n - i,
    {
        r.push(v[i] as u32);
        proof {
            assert(r@ =~= target.take(i + 1));
        }
        i = i + 1;
    }
    proof {
        assert(target.take(n as int) =~= target);
    }
    r
}

/// Widens 8-bit values to 64 bits.
fn widen_u8_u64(v: &Vec<u8>) -> (r: Vec<u64>)
    ensures
        r@ == v@.map_values(|a: u8| a as u64),
{
    let ghost target = v@.map_values(|a: u8| a as u64);
    let mut r: Vec<u64> = Vec::new();
    let n = v.len();
    let mut i: usize = 0;
    while i < n
        invariant
            i <= n,
            n == v@.len(),
            target == v@.map_values(|a: u8| a as u64),
            r@ == target.take(i as int),
        decreases n - i,
    {
        r.push(v[i] as u64);
        proof {
            assert(r@ =~= target.take(i + 1));
        }
        i = i + 1;
    }
    proof {
        assert(target.take(n as int) =~= target);
    }
    r
}

/// Widens 16-bit values to 64 bits.
fn widen_u16_u64(v: &Vec<u16>) -> (r: Vec<u64>)
    ensures
        r@ == v@.map_values(|a: u16| a as u64),
{
    let ghost target = v@.map_values(|a: u16| a as u64);
    let mut r: Vec<u64> = Vec::new();
    let n = v.len();
    let mut i: usize = 0;
    while i < n
        invariant
            i <= n,
            n == v@.len(),
            target == v@.map_values(|a: u16| a as u64),
            r@ == target.take(i as int),
        decreases n - i,
    {
        r.push(v[i] as u64);
        proof {
            assert(r@ =~= target.take(i + 1));
        }
        i = i + 1;
    }
    proof {
        assert(target.take(n as int) =~= target);
    }
    r
}

/// Widens 32-bit values to 64 bits.
fn widen_u32_u64(v: &Vec<u32>) -> (r: Vec<u64>)
    ensures
        r@ == v@.map_values(|a: u32| a as u64),
{
    let ghost target = v@.map_values(|a: u32| a as u64);
    let mut r: Vec<u64> = Vec::new();
    let n = v.len();
    let mut i: usize = 0;
    while i < n
        invariant
            i <= n,
            n == v@.len(),
            target == v@.map_values(|a: u32| a as u64),
            r@ == target.take(i as int),
        decreases n - i,
    {
        r.push(v[i] as u64);
        proof {
            assert(r@ =~= target.take(i + 1));
        }
        i = i + 1;
    }
    proof {
        assert(target.take(n as int) =~= target);
    }
    r
}

impl Clone for Datum {
    fn clone(&self) -> (r: Datum)
        ensures
            r@ == self@,
    {
        match self {
            Datum::U8(v) => Datum::U8(copy_vec(v)),
            Datum::STR(s) => Datum::STR(s.clone()),
            Datum::U16(v) => Datum::U16(copy_vec(v)),
            Datum::U32(v) => Datum::U32(copy_vec(v)),
            Datum::U64(v) => Datum::U64(copy_vec(v)),
            Datum::RAT(v) => Datum::RAT(copy_vec(v)),
        }
    }
}

impl Datum {
    /// The values widened to 64 bits, when the source width permits.
    pub fn to_vec_u64(&self) -> (r: Option<Vec<u64>>)
        ensures
            r is Some <==> spec_to_vec_u64(self@) is Some,
            r is Some ==> r.unwrap()@ == spec_to_vec_u64(self@).unwrap(),
    {
        match self {
            Datum::U8(v) => Some(widen_u8_u64(v)),
            Datum::U16(v) => Some(widen_u16_u64(v)),
            Datum::U32(v) => Some(widen_u32_u64(v)),
            Datum::U64(v) => Some(copy_vec(v)),
            _ => None,
        }
    }

    /// The values widened to 32 bits, when the source width permits.
    pub fn to_vec_u32(&self) -> (r: Option<Vec<u32>>)
        ensures
            r is Some <==> spec_to_vec_u32(self@) is Some,
            r is Some ==> r.unwrap()@ == spec_to_vec_u32(self@).unwrap(),
    {
        match self {
            Datum::U8(v) => Some(widen_u8_u32(v)),
            Datum::U16(v) => Some(widen_u16_u32(v)),
            Datum::U32(v) => Some(copy_vec(v)),
            _ => None,
        }
    }

    /// The values widened to 16 bits, when the source width permits.
    pub fn to_vec_u16(&self) -> (r: Option<Vec<u16>>)
        ensures
            r is Some <==> spec_to_vec_u16(self@) is Some,
            r is Some ==> r.unwrap()@ == spec_to_vec_u16(self@).unwrap(),
    {
        match self {
            Datum::U8(v) => Some(widen_u8_u16(v)),
            Datum::U16(v) => Some(copy_vec(v)),
            _ => None,
        }
    }

    /// The raw bytes of a byte datum.
    pub fn to_vec_u8(&self) -> (r: Option<Vec<u8>>)
        ensures
            r is Some <==> spec_to_vec_u8(self@) is Some,
            r is Some ==> r.unwrap()@ == spec_to_vec_u8(self@).unwrap(),
    {
        match self {
            Datum::U8(v) => Some(copy_vec(v)),
            _ => None,
        }
    }

    /// The first value widened to 64 bits.
    pub fn to_u64(&self) -> (r: Option<u64>)
        ensures
            r == spec_to_u64(self@),
    {
        match self {
            Datum::U8(v) => if v.len() > 0 {
                Some(v[0] as u64)
            } else {
                None
            },
            Datum::U16(v) => if v.len() > 0 {
                Some(v[0] as u64)
            } else {
                None
            },
            Datum::U32(v) => if v.len() > 0 {
                Some(v[0] as u64)
            } else {
                None
            },
            Datum::U64(v) => if v.len() > 0 {
                Some(v[0])
            } else {
                None
            },
            _ => None,
        }
    }

    /// The first value widened to 16 bits.
    pub fn to_u16(&self) -> (r: Option<u16>)
        ensures
            r == spec_to_u16(self@),
    {
        match self {
            Datum::U8(v) => if v.len() > 0 {
                Some(v[0] as u16)
            } else {
                None
            },
            Datum::U16(v) => if v.len() > 0 {
                Some(v[0])
            } else {
                None
            },
            _ => None,
        }
    }

    /// The first value of a byte datum.
    pub fn to_u8(&self) -> (r: Option<u8>)
        ensures
            r == spec_to_u8(self@),
    {
        match self {
            Datum::U8(v) => if v.len() > 0 {
                Some(v[0])
            } else {
                None
            },
            _ => None,
        }
    }
}

/// An entry's payload: an absolute file offset, or the decoded value when it
/// fits the offset field.
pub enum Payload {
    Offset(u64),
    Inline(Datum),
}

/// One directory entry: a tag, a value type, an element count, and the
/// payload.
pub struct Entry {
    pub tag: Tag,
    pub kind: Type,
    pub count: u64,
    pub payload: Payload,
}

impl Entry {
    pub fn new(tag: Tag, kind: Type, count: u64, payload: Payload) -> (r: Entry)
        ensures
            r.tag == tag,
            r.kind == kind,
            r.count == count,
            r.payload == payload,
    {
        Entry { tag, kind, count, payload }
    }
}

/// The entry holding the given tag that was inserted last, if any.
pub open spec fn seq_find_entry(s: Seq<Entry>, t: Tag) -> Option<Entry>
    decreases s.len(),
{
    if s.len() == 0 {
        Option::None
    } else if s.last().tag == t {
        Some(s.last())
    } else {
        seq_find_entry(s.drop_last(), t)
    }
}

/// One image file directory: its entries and the offset of the next
/// directory (zero at the end of the chain).  Later entries shadow earlier
/// ones with the same tag.
pub struct IFD {
    next_ifd_offset: u64,
    entries: Vec<Entry>,
}

impl IFD {
    /// The offset of the next directory.
    pub closed spec fn spec_next(&self) -> u64 {
        self.next_ifd_offset
    }

    /// The entries in insertion order.
    pub closed spec fn entries_seq(&self) -> Seq<Entry> {
        self.entries@
    }

    /// The entry for a tag, with later insertions winning.
    pub open spec fn spec_get(&self, t: Tag) -> Option<Entry> {
        seq_find_entry(self.entries_seq(), t)
    }

    pub fn new(entry_vec: Vec<Entry>, next_ifd_offset: u64) -> (r: IFD)
        ensures
            r.entries_seq() == entry_vec@,
            r.spec_next() == next_ifd_offset,
    {
        IFD { next_ifd_offset, entries: entry_vec }
    }

    pub fn next_ifd_offset(&self) -> (r: &u64)
        ensures
            *r == self.spec_next(),
    {
        &self.next_ifd_offset
    }

    pub fn n_entries(&self) -> (r: usize)
        ensures
            r == self.entries_seq().len(),
    {
        self.entries.len()
    }

    /// Adds an entry; it shadows any earlier entry with the same tag.
    pub fn insert_entry(&mut self, entry: Entry)
        ensures
            final(self).entries_seq() == old(self).entries_seq().push(entry),
            final(self).spec_next() == old(self).spec_next(),
            forall|t: Tag| #[trigger]
                final(self).spec_get(t) == if entry.tag == t {
                    Some(entry)
                } else {
                    old(self).spec_get(t)
                },
    {
        let ghost before = self.entries@;
        self.entries.push(entry);
        proof {
            assert forall|t: Tag| #[trigger]
                seq_find_entry(before.push(entry), t) == if entry.tag == t {
                    Some(entry)
                } else {
                    seq_find_entry(before, t)
                } by {
                assert(before.push(entry).last() == entry);
                assert(before.push(entry).drop_last() =~= before);
            }
        }
    }

    /// Looks an entry up by tag.
    pub fn get_entry(&self, tag: Tag) -> (r: Option<&Entry>)
        ensures
            match r {
                Some(e) => self.spec_get(tag) == Some(*e),
                Option::None => self.spec_get(tag) is None,
            },
    {
        let n = self.entries.len();
        proof {
            assert(self.entries@.take(n as int) =~= self.entries@);
        }
        let mut i: usize = n;
        while i > 0
            invariant
                i <= n,
                n == self.entries@.len(),
                seq_find_entry(self.entries@, tag) == seq_find_entry(
                    self.entries@.take(i as int),
                    tag,
                ),
            decreases i,
        {
            let e = &self.entries[i - 1];
            proof {
                assert(self.entries@.take(i as int).last() == self.entries@[i - 1]);
                assert(self.entries@.take(i as int).drop_last() =~= self.entries@.take(i - 1));
            }
            if e.tag == tag {
                return Some(e);
            }
            i = i - 1;
        }
        proof {
            assert(self.entries@.take(0) =~= Seq::<Entry>::empty());
        }
        None
    }

    /// The byte size of `count` elements of the given type.
    pub fn size_of(kind: Type, count: u64) -> (r: u64)
        requires
            count * type_size(kind) <= u64::MAX,
        ensures
            r == count * type_size(kind),
    {
        match kind {
            Type::BYTE => count,
            Type::ASCII => count,
            Type::UNDEFINED => count,
            Type::SHORT => 2 * count,
            Type::LONG => 4 * count,
            Type::RATIONAL => 8 * count,
            Type::DOUBLE => 8 * count,
        }
    }

    /// The byte size of `count` elements, `None` when it exceeds `u64`.
    pub fn size_of_checked(kind: Type, count: u64) -> (r: Option<u64>)
        ensures
            r == if count * type_size(kind) <= u64::MAX {
                Some((count * type_size(kind)) as u64)
            } else {
                Option::<u64>::None
            },
    {
        let sz = kind.elem_size();
        count.checked_mul(sz)
    }
}

} // verus!
