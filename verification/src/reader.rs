//! The window extractor: a reader that resolves a series' directory,
//! validates a rectangular window request, reads the strips the window
//! touches, and assembles a tightly packed buffer honoring the planar
//! configuration and the requested channel.

use crate::codec::Compression;
use crate::error::TiffError;
use crate::format::ByteOrder;
use crate::format::Dim;
use crate::format::FormatReader;
use crate::format::Loc;
use crate::format::Metadata;
use crate::format::PixelSlice;
use crate::format::PixelSliceV;
use crate::ifd::Tag;
use crate::ifd::IFD;
use crate::parser::compression_spec;
use crate::parser::ifd_matches;
use crate::parser::read_strip_data_spec;
use crate::parser::strip_rows;
use crate::parser::tag_u16_spec;
use crate::parser::tag_vec_u16_spec;
use crate::parser::tag_vec_u32_spec;
use crate::parser::TiffParser;
use vstd::arithmetic::div_mod::lemma_fundamental_div_mod;
use vstd::arithmetic::div_mod::lemma_mod_bound;
use vstd::prelude::*;

verus! {

/// The sum of the declared bit depths.
pub open spec fn bits_sum(bps: Seq<u16>) -> int
    decreases bps.len(),
{
    if bps.len() <= 0 {
        0
    } else {
        bits_sum(bps.drop_last()) + bps.last()
    }
}

/// A sum of bit depths is never negative.
proof fn lemma_bits_sum_nonneg(bps: Seq<u16>)
    ensures
        bits_sum(bps) >= 0,
    decreases bps.len(),
{
    if bps.len() > 0 {
        lemma_bits_sum_nonneg(bps.drop_last());
    }
}

/// A value at least eight times `m` divides down to at least `m`.
proof fn lemma_div_scaled_le(m: int, total: int)
    requires
        8 * m <= total,
        m >= 0,
    ensures
        m <= total / 8,
{
    lemma_fundamental_div_mod(total, 8);
    lemma_mod_bound(total, 8);
    assert(8 * m <= 8 * (total / 8) + total % 8);
    assert(m <= total / 8) by (nonlinear_arith)
        requires
            8 * m <= 8 * (total / 8) + total % 8,
            total % 8 < 8,
            m >= 0,
    ;
}

/// A shorter prefix never sums to more.
proof fn lemma_bits_sum_mono(bps: Seq<u16>, a: int, b: int)
    requires
        0 <= a <= b <= bps.len(),
    ensures
        bits_sum(bps.take(a)) <= bits_sum(bps.take(b)),
    decreases b,
{
    if a < b {
        lemma_bits_sum_mono(bps, a, b - 1);
        assert(bps.take(b).drop_last() =~= bps.take(b - 1));
        assert(bits_sum(bps.take(b)) == bits_sum(bps.take(b - 1)) + bps[b - 1]);
    }
}

/// The geometry a window request works under, fixed once the directory's
/// tags are read: the compression, the strip tables, the image and strip
/// extents, the channel arrangement, and the derived byte strides.
pub struct WindowGeom {
    pub co: Compression,
    pub offsets: Seq<u32>,
    pub counts: Seq<u32>,
    pub il: int,
    pub rps: int,
    pub chunky: bool,
    pub c: int,
    pub planes_stride: int,
    pub x: int,
    pub y: int,
    pub h: int,
    pub w: int,
    pub bpp: int,
    pub so: int,
    pub bs: int,
    pub bpr: int,
    pub start: int,
}

/// The bytes of the requested channel's sample of pixel `p` of row `r` of a
/// decompressed strip.
pub open spec fn sample_piece(strip: Seq<u8>, g: WindowGeom, r: int, p: int) -> Seq<u8> {
    strip.subrange(
        r * g.bpr + (g.x + p) * g.bpp + g.so,
        r * g.bpr + (g.x + p) * g.bpp + g.so + g.bs,
    )
}

/// The channel's samples of the first `p` requested pixels of row `r`.
pub open spec fn pixels_piece(strip: Seq<u8>, g: WindowGeom, r: int, p: int) -> Seq<u8>
    decreases p,
{
    if p <= 0 {
        Seq::empty()
    } else {
        pixels_piece(strip, g, r, p - 1) + sample_piece(strip, g, r, p - 1)
    }
}

/// What row `r` of a decompressed strip contributes to the window: under
/// chunky arrangement the requested channel's sample of each requested
/// pixel, under planar arrangement the requested columns verbatim.
pub open spec fn row_piece(strip: Seq<u8>, g: WindowGeom, r: int) -> Seq<u8> {
    if g.chunky {
        pixels_piece(strip, g, r, g.w)
    } else {
        strip.subrange(r * g.bpr + g.x * g.bpp, r * g.bpr + (g.x + g.w) * g.bpp)
    }
}

/// What rows `lo .. lo + k` of a decompressed strip contribute.
pub open spec fn rows_piece(strip: Seq<u8>, g: WindowGeom, lo: int, k: int) -> Seq<u8>
    decreases k,
{
    if k <= 0 {
        Seq::empty()
    } else {
        rows_piece(strip, g, lo, k - 1) + row_piece(strip, g, lo + k - 1)
    }
}

/// The first strip row the window touches in strip `si`.
pub open spec fn strip_lo(g: WindowGeom, si: int) -> int {
    if g.y > si * g.rps {
        g.y - si * g.rps
    } else {
        0
    }
}

/// One past the last strip row the window touches in strip `si`.
pub open spec fn strip_hi(g: WindowGeom, si: int) -> int {
    (if g.y + g.h < (si + 1) * g.rps {
        g.y + g.h
    } else {
        (si + 1) * g.rps
    }) - si * g.rps
}

/// What the first `k` strips the window touches contribute, concatenated,
/// or why reading one of them fails.  Under planar arrangement the strips
/// of plane `c` start `c` plane-strides into the strip tables.
pub open spec fn window_strips(data: Seq<u8>, g: WindowGeom, k: int) -> Result<Seq<u8>, TiffError>
    decreases k,
{
    if k <= 0 {
        Ok(Seq::empty())
    } else {
        match window_strips(data, g, k - 1) {
            Err(e) => Err(e),
            Ok(prefix) => {
                let si = g.start + k - 1;
                let fi = if g.chunky {
                    si
                } else {
                    g.c * g.planes_stride + si
                };
                if fi >= g.offsets.len() || fi >= g.counts.len() {
                    Err(TiffError::StripIndexOutOfRange)
                } else {
                    let expected = strip_rows(g.il, g.rps, si) * g.bpr;
                    match read_strip_data_spec(
                        data,
                        g.co,
                        g.offsets[fi] as int,
                        g.counts[fi] as int,
                        expected,
                    ) {
                        Err(e) => Err(e),
                        Ok(strip) => Ok(
                            prefix + rows_piece(
                                strip,
                                g,
                                strip_lo(g, si),
                                strip_hi(g, si) - strip_lo(g, si),
                            ),
                        ),
                    }
                }
            },
        }
    }
}

/// An error among the first `m` strips stays the error among any `k >= m`.
proof fn lemma_window_strips_err_extend(data: Seq<u8>, g: WindowGeom, m: int, k: int)
    requires
        0 <= m <= k,
        window_strips(data, g, m) is Err,
    ensures
        window_strips(data, g, k) == window_strips(data, g, m),
    decreases k,
{
    if k > m {
        lemma_window_strips_err_extend(data, g, m, k - 1);
    }
}

/// A strip that reads successfully holds exactly its expected size.
proof fn lemma_strip_data_len(data: Seq<u8>, co: Compression, off: int, cnt: int, expected: int)
    requires
        read_strip_data_spec(data, co, off, cnt, expected) is Ok,
        expected >= 0,
        off >= 0,
        cnt >= 0,
    ensures
        read_strip_data_spec(data, co, off, cnt, expected).unwrap().len() == expected,
{
    match co {
        Compression::CCITT => {
        },
        Compression::Uncompressed => {
        },
        Compression::PackBits => {
            let inp = data.subrange(off, off + cnt);
            crate::codec::lemma_packbits_decode_len(inp, expected as nat);
        },
    }
}

/// The strides of a geometry are consistent: every sample the window asks
/// for lies inside its pixel, every pixel inside its row.
spec fn geom_ok(g: WindowGeom) -> bool {
    &&& 0 <= g.x
    &&& 0 <= g.w
    &&& 0 <= g.bs
    &&& 0 <= g.so
    &&& 0 <= g.bpp
    &&& 0 <= g.bpr
    &&& (g.x + g.w) * g.bpp <= g.bpr
    &&& if g.chunky {
        g.so + g.bs <= g.bpp
    } else {
        g.so == 0 && g.bs == g.bpp
    }
}

/// Each pixel contributes its sample's bytes: `p` pixels contribute
/// `p * bs` bytes.
proof fn lemma_pixels_piece_len(strip: Seq<u8>, g: WindowGeom, r: int, p: int)
    requires
        geom_ok(g),
        g.chunky,
        0 <= p,
        0 <= r,
        g.x + p <= g.x + g.w,
        (r + 1) * g.bpr <= strip.len(),
    ensures
        pixels_piece(strip, g, r, p).len() == p * g.bs,
    decreases p,
{
    if p > 0 {
        lemma_pixels_piece_len(strip, g, r, p - 1);
        let a = r * g.bpr + (g.x + p - 1) * g.bpp + g.so;
        assert(0 <= r * g.bpr) by (nonlinear_arith)
            requires
                0 <= r,
                0 <= g.bpr,
        ;
        assert(0 <= (g.x + p - 1) * g.bpp) by (nonlinear_arith)
            requires
                0 <= g.x + p - 1,
                0 <= g.bpp,
        ;
        assert((g.x + p - 1) * g.bpp + g.bpp == (g.x + p) * g.bpp) by (nonlinear_arith);
        assert((g.x + p) * g.bpp <= (g.x + g.w) * g.bpp) by (nonlinear_arith)
            requires
                g.x + p <= g.x + g.w,
                0 <= g.bpp,
        ;
        assert(r * g.bpr + g.bpr == (r + 1) * g.bpr) by (nonlinear_arith);
        assert(a + g.bs <= strip.len());
        assert(sample_piece(strip, g, r, p - 1).len() == g.bs);
        assert(p * g.bs == (p - 1) * g.bs + g.bs) by (nonlinear_arith);
    } else {
        assert(p * g.bs == 0) by (nonlinear_arith)
            requires
                p <= 0,
                0 <= p,
        ;
    }
}

/// Each row the window touches contributes `w * bs` bytes.
proof fn lemma_row_piece_len(strip: Seq<u8>, g: WindowGeom, r: int)
    requires
        geom_ok(g),
        0 <= r,
        (r + 1) * g.bpr <= strip.len(),
    ensures
        row_piece(strip, g, r).len() == g.w * g.bs,
{
    if g.chunky {
        lemma_pixels_piece_len(strip, g, r, g.w);
    } else {
        assert(0 <= r * g.bpr) by (nonlinear_arith)
            requires
                0 <= r,
                0 <= g.bpr,
        ;
        assert(0 <= g.x * g.bpp) by (nonlinear_arith)
            requires
                0 <= g.x,
                0 <= g.bpp,
        ;
        assert(g.x * g.bpp <= (g.x + g.w) * g.bpp) by (nonlinear_arith)
            requires
                g.x <= g.x + g.w,
                0 <= g.bpp,
        ;
        assert(r * g.bpr + g.bpr == (r + 1) * g.bpr) by (nonlinear_arith);
        assert((g.x + g.w) * g.bpp - g.x * g.bpp == g.w * g.bpp) by (nonlinear_arith);
    }
}

/// `k` rows contribute `k * w * bs` bytes.
proof fn lemma_rows_piece_len(strip: Seq<u8>, g: WindowGeom, lo: int, k: int)
    requires
        geom_ok(g),
        0 <= lo,
        0 <= k,
        (lo + k) * g.bpr <= strip.len(),
    ensures
        rows_piece(strip, g, lo, k).len() == k * (g.w * g.bs),
    decreases k,
{
    if k > 0 {
        assert((lo + k - 1) * g.bpr <= (lo + k) * g.bpr) by (nonlinear_arith)
            requires
                lo + k - 1 <= lo + k,
                0 <= g.bpr,
        ;
        lemma_rows_piece_len(strip, g, lo, k - 1);
        lemma_row_piece_len(strip, g, lo + k - 1);
        assert(k * (g.w * g.bs) == (k - 1) * (g.w * g.bs) + g.w * g.bs) by (nonlinear_arith);
    } else {
        assert(k * (g.w * g.bs) == 0) by (nonlinear_arith)
            requires
                0 <= k,
                k <= 0,
        ;
    }
}

/// How many image rows the first `k` strips of the window cover.
spec fn rows_covered(g: WindowGeom, k: int) -> int {
    if k <= 0 {
        0
    } else {
        (if (g.start + k) * g.rps < g.y + g.h {
            (g.start + k) * g.rps
        } else {
            g.y + g.h
        }) - g.y
    }
}

/// The first `k` strips of the window contribute the rows they cover, each
/// at `w * bs` bytes.
proof fn lemma_window_strips_len(data: Seq<u8>, g: WindowGeom, k: int)
    requires
        geom_ok(g),
        window_strips(data, g, k) is Ok,
        0 <= k,
        1 <= g.rps,
        0 <= g.y,
        1 <= g.h,
        g.start == g.y / g.rps,
        g.y + g.h <= g.il,
        g.start + k <= (g.y + g.h - 1) / g.rps + 1,
    ensures
        window_strips(data, g, k).unwrap().len() == rows_covered(g, k) * (g.w * g.bs),
    decreases k,
{
    if k > 0 {
        lemma_window_strips_len(data, g, k - 1);
        let si = g.start + k - 1;
        let last = (g.y + g.h - 1) / g.rps;
        lemma_fundamental_div_mod(g.y, g.rps);
        lemma_mod_bound(g.y, g.rps);
        lemma_fundamental_div_mod(g.y + g.h - 1, g.rps);
        lemma_mod_bound(g.y + g.h - 1, g.rps);
        assert(g.rps * g.start <= g.y);
        assert(g.y < g.rps * g.start + g.rps);
        assert(g.rps * last <= g.y + g.h - 1);
        assert(g.y + g.h - 1 < g.rps * last + g.rps);
        assert(si <= last);
        assert(si * g.rps <= last * g.rps) by (nonlinear_arith)
            requires
                si <= last,
                0 <= g.rps,
        ;
        assert(last * g.rps == g.rps * last) by (nonlinear_arith);
        assert(si * g.rps == g.rps * si) by (nonlinear_arith);
        assert((si + 1) * g.rps == si * g.rps + g.rps) by (nonlinear_arith);
        assert(g.start * g.rps == g.rps * g.start) by (nonlinear_arith);
        assert(si * g.rps <= g.y + g.h - 1);
        // this strip parses, so it holds exactly its expected bytes
        let fi = if g.chunky {
            si
        } else {
            g.c * g.planes_stride + si
        };
        let expected = strip_rows(g.il, g.rps, si) * g.bpr;
        let strip = read_strip_data_spec(
            data,
            g.co,
            g.offsets[fi] as int,
            g.counts[fi] as int,
            expected,
        ).unwrap();
        let rows = strip_rows(g.il, g.rps, si);
        assert(0 <= rows * g.bpr) by (nonlinear_arith)
            requires
                0 <= rows,
                0 <= g.bpr,
        ;
        lemma_strip_data_len(
            data,
            g.co,
            g.offsets[fi] as int,
            g.counts[fi] as int,
            expected,
        );
        let lo = strip_lo(g, si);
        let hi = strip_hi(g, si);
        // the rows the window touches lie within the strip
        assert(si >= g.start);
        assert(g.start * g.rps <= si * g.rps) by (nonlinear_arith)
            requires
                g.start <= si,
                0 <= g.rps,
        ;
        assert(g.y < si * g.rps + g.rps);
        assert(lo <= hi);
        assert(hi <= rows);
        assert(hi * g.bpr <= rows * g.bpr) by (nonlinear_arith)
            requires
                hi <= rows,
                0 <= g.bpr,
        ;
        assert((lo + (hi - lo)) * g.bpr <= strip.len());
        lemma_rows_piece_len(strip, g, lo, hi - lo);
        // the covered rows grow by exactly what this strip contributes
        assert((g.start + k) * g.rps == (si + 1) * g.rps) by (nonlinear_arith)
            requires
                g.start + k == si + 1,
        ;
        if k == 1 {
            assert(rows_covered(g, k - 1) == 0);
        } else {
            assert((g.start + 1) * g.rps == g.start * g.rps + g.rps) by (nonlinear_arith);
            assert((g.start + 1) * g.rps <= si * g.rps) by (nonlinear_arith)
                requires
                    g.start + 1 <= si,
                    0 <= g.rps,
            ;
            assert(g.y <= si * g.rps);
            assert(lo == 0);
            assert((g.start + k - 1) * g.rps == si * g.rps) by (nonlinear_arith)
                requires
                    g.start + k - 1 == si,
            ;
        }
        assert(rows_covered(g, k) == rows_covered(g, k - 1) + (hi - lo));
        assert(rows_covered(g, k) * (g.w * g.bs) == rows_covered(g, k - 1) * (g.w * g.bs) + (hi
            - lo) * (g.w * g.bs)) by (nonlinear_arith)
            requires
                rows_covered(g, k) == rows_covered(g, k - 1) + (hi - lo),
        ;
    }
}

/// Every successful window read returns exactly `h * w` samples of
/// `bits_per_sample[c] / 8` bytes each, whatever the file's strip layout,
/// compression and channel arrangement.
pub proof fn lemma_open_bytes_len(
    ifd: IFD,
    data: Seq<u8>,
    le: bool,
    x: int,
    y: int,
    c: int,
    h: int,
    w: int,
)
    requires
        0 <= x,
        0 <= y,
        0 <= c,
        open_bytes_ifd_spec(ifd, data, le, x, y, c, h, w) is Ok,
    ensures
        open_bytes_ifd_spec(ifd, data, le, x, y, c, h, w).unwrap().len() == h * w * (
        tag_vec_u16_spec(ifd, data, le, Tag::BitsPerSample).unwrap()[c] as int / 8),
{
    let iw = tag_u16_spec(ifd, data, le, Tag::ImageWidth).unwrap();
    let il = tag_u16_spec(ifd, data, le, Tag::ImageLength).unwrap();
    let bps = tag_vec_u16_spec(ifd, data, le, Tag::BitsPerSample).unwrap();
    let pc = tag_u16_spec(ifd, data, le, Tag::PlanarConfiguration).unwrap();
    let rps = tag_u16_spec(ifd, data, le, Tag::RowsPerStrip).unwrap();
    let offsets = tag_vec_u32_spec(ifd, data, le, Tag::StripOffsets).unwrap();
    let counts = tag_vec_u32_spec(ifd, data, le, Tag::StripByteCounts).unwrap();
    let co = compression_spec(ifd, data, le).unwrap();
    let g = window_geom(
        iw as int,
        il as int,
        bps,
        pc as int,
        rps as int,
        offsets,
        counts,
        co,
        x,
        y,
        c,
        h,
        w,
    );
    let last = (y + h - 1) / (rps as int);
    assert(open_bytes_ifd_spec(ifd, data, le, x, y, c, h, w) == window_strips(
        data,
        g,
        last - g.start + 1,
    ));
    // the geometry is consistent
    lemma_bits_sum_nonneg(bps);
    lemma_bits_sum_nonneg(bps.take(c));
    assert(g.bs >= 0);
    assert(g.so >= 0);
    assert(g.bpp >= 0);
    assert(g.bpr >= 0) by (nonlinear_arith)
        requires
            g.bpr == g.bpp * (iw as int),
            g.bpp >= 0,
            iw as int >= 0,
    ;
    if g.chunky {
        lemma_chunky_strides(bps, c);
    }
    assert((g.x + g.w) * g.bpp <= (iw as int) * g.bpp) by (nonlinear_arith)
        requires
            g.x + g.w <= iw as int,
            g.bpp >= 0,
    ;
    assert((iw as int) * g.bpp == g.bpp * (iw as int)) by (nonlinear_arith);
    assert(geom_ok(g));
    // the strip range is well formed
    lemma_fundamental_div_mod(y, rps as int);
    lemma_mod_bound(y, rps as int);
    lemma_fundamental_div_mod(y + h - 1, rps as int);
    lemma_mod_bound(y + h - 1, rps as int);
    assert(g.start <= last) by (nonlinear_arith)
        requires
            (rps as int) * g.start <= y,
            y <= y + h - 1,
            y + h - 1 < (rps as int) * last + (rps as int),
            rps as int >= 1,
            g.start >= 0,
            last >= 0,
    ;
    let k = last - g.start + 1;
    lemma_window_strips_len(data, g, k);
    // every requested row is covered at the end of the walk
    assert((g.start + k) * g.rps == (last + 1) * (rps as int)) by (nonlinear_arith)
        requires
            g.start + k == last + 1,
            g.rps == rps as int,
    ;
    assert((last + 1) * (rps as int) == (rps as int) * last + (rps as int)) by (nonlinear_arith);
    assert(y + h <= (g.start + k) * g.rps);
    assert(rows_covered(g, k) == h);
    assert(h * (g.w * g.bs) == h * w * g.bs) by (nonlinear_arith)
        requires
            g.w == w,
    ;
}

/// Under chunky arrangement, the byte offset of channel `c`'s sample plus
/// its width stays within one pixel's stride.
proof fn lemma_chunky_strides(bps: Seq<u16>, c: int)
    requires
        0 <= c < bps.len(),
        bps[c] % 8 == 0,
    ensures
        bits_sum(bps.take(c)) / 8 + bps[c] as int / 8 <= bits_sum(bps) / 8,
{
    lemma_bits_sum_mono(bps, c + 1, bps.len() as int);
    assert(bps.take(c + 1).drop_last() =~= bps.take(c));
    assert(bits_sum(bps.take(c + 1)) == bits_sum(bps.take(c)) + bps[c]);
    assert(bps.take(bps.len() as int) =~= bps);
    let a = bits_sum(bps.take(c));
    let b = bps[c] as int;
    let total = bits_sum(bps);
    lemma_bits_sum_nonneg(bps.take(c));
    lemma_fundamental_div_mod(a, 8);
    lemma_mod_bound(a, 8);
    lemma_fundamental_div_mod(b, 8);
    assert(b == 8 * (b / 8));
    assert(8 * (a / 8 + b / 8) <= total) by (nonlinear_arith)
        requires
            a == 8 * (a / 8) + a % 8,
            a % 8 >= 0,
            b == 8 * (b / 8),
            a + b <= total,
    ;
    lemma_div_scaled_le(a / 8 + b / 8, total);
    assert(a / 8 + b / 8 >= 0) by (nonlinear_arith)
        requires
            a >= 0,
            b >= 0,
            a == 8 * (a / 8) + a % 8,
            a % 8 < 8,
            b == 8 * (b / 8),
    ;
}

/// The geometry that the tag values fix for one window request.
pub open spec fn window_geom(
    iw: int,
    il: int,
    bps: Seq<u16>,
    pc: int,
    rps: int,
    offsets: Seq<u32>,
    counts: Seq<u32>,
    co: Compression,
    x: int,
    y: int,
    c: int,
    h: int,
    w: int,
) -> WindowGeom {
    let chunky = pc == 1;
    let bs = bps[c] as int / 8;
    let bpp = if chunky {
        bits_sum(bps) / 8
    } else {
        bs
    };
    WindowGeom {
        co,
        offsets,
        counts,
        il,
        rps,
        chunky,
        c,
        planes_stride: (il + rps - 1) / rps,
        x,
        y,
        h,
        w,
        bpp,
        so: if chunky {
            bits_sum(bps.take(c)) / 8
        } else {
            0
        },
        bs,
        bpr: bpp * iw,
        start: y / rps,
    }
}

/// What a window request on the directory `ifd` yields: the packed bytes of
/// the requested channel over the requested rectangle, or the first error
/// of the request.  A window that leaves the image, names no channel, or
/// asks for nothing fails with `InvalidWindow`; a channel whose depth is no
/// whole number of bytes fails with `UnsupportedBitDepth`.
pub open spec fn open_bytes_ifd_spec(
    ifd: IFD,
    data: Seq<u8>,
    le: bool,
    x: int,
    y: int,
    c: int,
    h: int,
    w: int,
) -> Result<Seq<u8>, TiffError> {
    match tag_u16_spec(ifd, data, le, Tag::ImageWidth) {
        Err(e) => Err(e),
        Ok(iw) => match tag_u16_spec(ifd, data, le, Tag::ImageLength) {
            Err(e) => Err(e),
            Ok(il) => match tag_vec_u16_spec(ifd, data, le, Tag::BitsPerSample) {
                Err(e) => Err(e),
                Ok(bps) => match tag_u16_spec(ifd, data, le, Tag::PlanarConfiguration) {
                    Err(e) => Err(e),
                    Ok(pc) => match tag_u16_spec(ifd, data, le, Tag::RowsPerStrip) {
                        Err(e) => Err(e),
                        Ok(rps) => match tag_vec_u32_spec(ifd, data, le, Tag::StripOffsets) {
                            Err(e) => Err(e),
                            Ok(offsets) => match tag_vec_u32_spec(
                                ifd,
                                data,
                                le,
                                Tag::StripByteCounts,
                            ) {
                                Err(e) => Err(e),
                                Ok(counts) => match compression_spec(ifd, data, le) {
                                    Err(e) => Err(e),
                                    Ok(co) => {
                                        if h <= 0 || w <= 0 || x + w > iw || y + h > il || c
                                            >= bps.len() || rps == 0 {
                                            Err(TiffError::InvalidWindow)
                                        } else if bps[c] % 8 != 0 {
                                            Err(TiffError::UnsupportedBitDepth)
                                        } else if bits_sum(bps) > u64::MAX {
                                            Err(TiffError::UnsupportedBitDepth)
                                        } else {
                                            let g = window_geom(
                                                iw as int,
                                                il as int,
                                                bps,
                                                pc as int,
                                                rps as int,
                                                offsets,
                                                counts,
                                                co,
                                                x,
                                                y,
                                                c,
                                                h,
                                                w,
                                            );
                                            if g.rps * g.bpr > usize::MAX {
                                                Err(TiffError::InvalidWindow)
                                            } else {
                                                let last = (y + h - 1) / (rps as int);
                                                window_strips(data, g, last - g.start + 1)
                                            }
                                        }
                                    },
                                },
                            },
                        },
                    },
                },
            },
        },
    }
}

/// What a window request on the file yields: the request walks to the
/// `s`-th directory and extracts the window there.  The directory the walk
/// reaches is named by what the bytes at its offset describe.
pub open spec fn reader_window_result(
    data: Seq<u8>,
    le: bool,
    big: bool,
    first: int,
    x: int,
    y: int,
    c: int,
    s: int,
    h: int,
    w: int,
    r: Result<Seq<u8>, TiffError>,
) -> bool {
    match TiffParser::walk_spec(data, le, big, first, s as nat) {
        Err(e0) => r == Err::<Seq<u8>, TiffError>(e0),
        Ok(off) => exists|ifd: IFD|
            #[trigger] ifd_matches(ifd, data, le, big, off) && open_bytes_ifd_spec(
                ifd,
                data,
                le,
                x,
                y,
                c,
                h,
                w,
            ) == r,
    }
}

/// Exhibits the directory the walk reaches as the witness for a window
/// result.
proof fn lemma_window_result_witness(
    ifd: IFD,
    data: Seq<u8>,
    le: bool,
    big: bool,
    first: int,
    x: int,
    y: int,
    c: int,
    s: int,
    h: int,
    w: int,
    r: Result<Seq<u8>, TiffError>,
)
    requires
        s >= 0,
        TiffParser::walk_spec(data, le, big, first, s as nat) is Ok,
        ifd_matches(
            ifd,
            data,
            le,
            big,
            TiffParser::walk_spec(data, le, big, first, s as nat).unwrap(),
        ),
        open_bytes_ifd_spec(ifd, data, le, x, y, c, h, w) == r,
    ensures
        reader_window_result(data, le, big, first, x, y, c, s, h, w, r),
{
    let off = TiffParser::walk_spec(data, le, big, first, s as nat).unwrap();
    assert(ifd_matches(ifd, data, le, big, off) && open_bytes_ifd_spec(ifd, data, le, x, y, c, h, w)
        == r);
}

/// The 16-bit words that pairing a byte buffer under the given order
/// yields; a trailing odd byte is dropped.
pub open spec fn pixel_words(bytes: Seq<u8>, le: bool) -> Seq<u16> {
    Seq::new(
        (bytes.len() / 2) as nat,
        |i: int| crate::stream::word16(bytes.subrange(2 * i, 2 * i + 2), le) as u16,
    )
}

/// Reinterpreting a packed byte window at the channel's depth: 8-bit
/// channels pass through, 16-bit channels pair bytes under the byte order,
/// any other depth fails.
pub open spec fn pixel_slice_result(
    bytes: Seq<u8>,
    bits: u16,
    le: bool,
    r: Result<PixelSliceV, TiffError>,
) -> bool {
    if bits == 8 {
        r == Ok::<PixelSliceV, TiffError>(PixelSliceV::U8(bytes))
    } else if bits == 16 {
        r == Ok::<PixelSliceV, TiffError>(PixelSliceV::U16(pixel_words(bytes, le)))
    } else {
        r == Err::<PixelSliceV, TiffError>(TiffError::UnsupportedPixelFormat)
    }
}

/// What a typed window request on the file yields: the packed bytes of the
/// window, reinterpreted at the requested channel's depth.
pub open spec fn reader_pixels_result(
    data: Seq<u8>,
    le: bool,
    big: bool,
    first: int,
    x: int,
    y: int,
    c: int,
    s: int,
    h: int,
    w: int,
    r: Result<PixelSliceV, TiffError>,
) -> bool {
    match TiffParser::walk_spec(data, le, big, first, s as nat) {
        Err(e0) => r == Err::<PixelSliceV, TiffError>(e0),
        Ok(off) => exists|ifd: IFD|
            #[trigger] ifd_matches(ifd, data, le, big, off) && (match open_bytes_ifd_spec(
                ifd,
                data,
                le,
                x,
                y,
                c,
                h,
                w,
            ) {
                Err(e) => r == Err::<PixelSliceV, TiffError>(e),
                Ok(bytes) => pixel_slice_result(
                    bytes,
                    tag_vec_u16_spec(ifd, data, le, Tag::BitsPerSample).unwrap()[c],
                    le,
                    r,
                ),
            }),
    }
}

/// Exhibits the directory the walk reaches as the witness for a typed
/// window result.
proof fn lemma_pixels_result_witness(
    ifd: IFD,
    data: Seq<u8>,
    le: bool,
    big: bool,
    first: int,
    x: int,
    y: int,
    c: int,
    s: int,
    h: int,
    w: int,
    r: Result<PixelSliceV, TiffError>,
)
    requires
        s >= 0,
        TiffParser::walk_spec(data, le, big, first, s as nat) is Ok,
        ifd_matches(
            ifd,
            data,
            le,
            big,
            TiffParser::walk_spec(data, le, big, first, s as nat).unwrap(),
        ),
        match open_bytes_ifd_spec(ifd, data, le, x, y, c, h, w) {
            Err(e) => r == Err::<PixelSliceV, TiffError>(e),
            Ok(bytes) => pixel_slice_result(
                bytes,
                tag_vec_u16_spec(ifd, data, le, Tag::BitsPerSample).unwrap()[c],
                le,
                r,
            ),
        },
    ensures
        reader_pixels_result(data, le, big, first, x, y, c, s, h, w, r),
{
    let off = TiffParser::walk_spec(data, le, big, first, s as nat).unwrap();
    assert(ifd_matches(ifd, data, le, big, off) && (match open_bytes_ifd_spec(
        ifd,
        data,
        le,
        x,
        y,
        c,
        h,
        w,
    ) {
        Err(e) => r == Err::<PixelSliceV, TiffError>(e),
        Ok(bytes) => pixel_slice_result(
            bytes,
            tag_vec_u16_spec(ifd, data, le, Tag::BitsPerSample).unwrap()[c],
            le,
            r,
        ),
    }));
}

/// What one series declares: its width, length, samples per pixel, and
/// per-channel bit depths, read in that order.
pub open spec fn series_spec(ifd: IFD, data: Seq<u8>, le: bool) -> Result<
    (u16, u16, u16, Seq<u16>),
    TiffError,
> {
    match tag_u16_spec(ifd, data, le, Tag::ImageWidth) {
        Err(e) => Err(e),
        Ok(w) => match tag_u16_spec(ifd, data, le, Tag::ImageLength) {
            Err(e) => Err(e),
            Ok(h) => match tag_u16_spec(ifd, data, le, Tag::SamplesPerPixel) {
                Err(e) => Err(e),
                Ok(spp) => match tag_vec_u16_spec(ifd, data, le, Tag::BitsPerSample) {
                    Err(e) => Err(e),
                    Ok(bps) => Ok((w, h, spp, bps)),
                },
            },
        },
    }
}

/// Reading series `i` fails with `e`: the walk to it fails so, or its
/// directory's tag reads do.
pub open spec fn series_err(
    data: Seq<u8>,
    le: bool,
    big: bool,
    first: int,
    i: int,
    e: TiffError,
) -> bool {
    ||| TiffParser::walk_spec(data, le, big, first, i as nat) == Err::<int, TiffError>(e)
    ||| (TiffParser::walk_spec(data, le, big, first, i as nat) is Ok && exists|ifd: IFD|
        #[trigger] ifd_matches(
            ifd,
            data,
            le,
            big,
            TiffParser::walk_spec(data, le, big, first, i as nat).unwrap(),
        ) && series_spec(ifd, data, le) == Err::<(u16, u16, u16, Seq<u16>), TiffError>(e))
}

/// Series `i` reads successfully and declares `v`.
pub open spec fn series_ok(
    data: Seq<u8>,
    le: bool,
    big: bool,
    first: int,
    i: int,
    v: (u16, u16, u16, Seq<u16>),
) -> bool {
    &&& TiffParser::walk_spec(data, le, big, first, i as nat) is Ok
    &&& exists|ifd: IFD|
        #[trigger] ifd_matches(
            ifd,
            data,
            le,
            big,
            TiffParser::walk_spec(data, le, big, first, i as nat).unwrap(),
        ) && series_spec(ifd, data, le) == Ok::<(u16, u16, u16, Seq<u16>), TiffError>(v)
}

/// The dimension record and depth table stored for series `i` are what the
/// series declares, with depth and time extents of one.
pub open spec fn series_desc(
    data: Seq<u8>,
    le: bool,
    big: bool,
    first: int,
    i: int,
    d: Dim,
    bits: Seq<u16>,
) -> bool {
    exists|v: (u16, u16, u16, Seq<u16>)|
        #[trigger] series_ok(data, le, big, first, i, v) && d.w == v.0 && d.h == v.1 && d.d == 1
            && d.t == 1 && d.c == v.2 && bits == v.3
}

/// What successful metadata holds: one dimension record and one depth
/// table for each directory on the chain, and the file's byte order.
pub open spec fn metadata_matches(
    data: Seq<u8>,
    le: bool,
    big: bool,
    first: int,
    md: Metadata,
) -> bool {
    &&& TiffParser::chain_count_spec(data, le, big, first, TiffParser::chain_fuel(data))
        == Ok::<nat, TiffError>(md.dimensions@.len() as nat)
    &&& md.bits@.len() == md.dimensions@.len()
    &&& forall|i: int|
        0 <= i < md.dimensions@.len() ==> series_desc(
            data,
            le,
            big,
            first,
            i,
            #[trigger] md.dimensions@[i],
            md.bits@[i]@,
        )
    &&& md.byte_order == (if le {
        ByteOrder::LE
    } else {
        ByteOrder::BE
    })
}

/// Metadata fails with `e` only when counting the chain fails so, or some
/// series on the chain fails so.
pub open spec fn metadata_err(data: Seq<u8>, le: bool, big: bool, first: int, e: TiffError) -> bool {
    ||| TiffParser::chain_count_spec(data, le, big, first, TiffParser::chain_fuel(data))
        == Err::<nat, TiffError>(e)
    ||| (TiffParser::chain_count_spec(data, le, big, first, TiffParser::chain_fuel(data)) is Ok
        && exists|i: int|
        0 <= i < TiffParser::chain_count_spec(
            data,
            le,
            big,
            first,
            TiffParser::chain_fuel(data),
        ).unwrap() && #[trigger] series_err(data, le, big, first, i, e))
}

/// Pairs bytes into 16-bit words under the given order.
fn pair_u16(bytes: &Vec<u8>, le: bool) -> (v: Vec<u16>)
    ensures
        v@ == pixel_words(bytes@, le),
{
    let blen = bytes.len();
    let n = blen / 2;
    let mut v: Vec<u16> = Vec::new();
    let mut i: usize = 0;
    while i < n
        invariant
            i <= n,
            blen == bytes@.len(),
            n == bytes@.len() / 2,
            v@.len() == i,
            forall|j: int|
                0 <= j < i ==> v@[j] == crate::stream::word16(
                    bytes@.subrange(2 * j, 2 * j + 2),
                    le,
                ) as u16,
        decreases n - i,
    {
        proof {
            lemma_fundamental_div_mod(bytes@.len() as int, 2);
            lemma_mod_bound(bytes@.len() as int, 2);
            assert(2 * i + 1 < bytes@.len());
        }
        let b0 = bytes[2 * i] as u16;
        let b1 = bytes[2 * i + 1] as u16;
        let x: u16 = if le {
            b0 + b1 * 0x100
        } else {
            b1 + b0 * 0x100
        };
        v.push(x);
        i = i + 1;
    }
    proof {
        assert(v@ =~= pixel_words(bytes@, le));
    }
    v
}

/// Appends `src[from .. to]` to `out`.
fn append_range(out: &mut Vec<u8>, src: &Vec<u8>, from: usize, to: usize)
    requires
        from <= to <= src@.len(),
    ensures
        final(out)@ == old(out)@ + src@.subrange(from as int, to as int),
{
    let mut i: usize = from;
    while i < to
        invariant
            from <= i <= to,
            to <= src@.len(),
            out@ == old(out)@ + src@.subrange(from as int, i as int),
        decreases to - i,
    {
        let b = src[i];
        out.push(b);
        proof {
            assert(old(out)@ + src@.subrange(from as int, i + 1) =~= (old(out)@ + src@.subrange(
                from as int,
                i as int,
            )).push(b));
        }
        i = i + 1;
    }
    proof {
        if from == to {
            assert(out@ =~= old(out)@ + src@.subrange(from as int, to as int));
        }
    }
}

/// Sums the first `k` declared bit depths; `None` when the sum leaves
/// `u64`.
fn sum_bits_prefix(bps: &Vec<u16>, k: usize) -> (r: Option<u64>)
    requires
        k <= bps@.len(),
    ensures
        r == if bits_sum(bps@.take(k as int)) <= u64::MAX {
            Some(bits_sum(bps@.take(k as int)) as u64)
        } else {
            Option::<u64>::None
        },
{
    let mut acc: u64 = 0;
    let mut i: usize = 0;
    proof {
        assert(bps@.take(0) =~= Seq::<u16>::empty());
    }
    while i < k
        invariant
            i <= k,
            k <= bps@.len(),
            acc == bits_sum(bps@.take(i as int)),
        decreases k - i,
    {
        let b = bps[i];
        proof {
            assert(bps@.take(i + 1).drop_last() =~= bps@.take(i as int));
            assert(bits_sum(bps@.take(i + 1)) == bits_sum(bps@.take(i as int)) + bps@[i as int]);
        }
        acc = match acc.checked_add(b as u64) {
            Some(v) => v,
            Option::None => {
                proof {
                    lemma_bits_sum_mono(bps@, i + 1, k as int);
                }
                return None;
            },
        };
        i = i + 1;
    }
    Some(acc)
}

/// Appends rows `lo .. hi` of one decompressed strip, sliced to the
/// window's columns and, under chunky arrangement, to the requested
/// channel's sample of each pixel.
#[verifier::rlimit(100)]
fn append_strip_window(
    out: &mut Vec<u8>,
    strip: &Vec<u8>,
    Ghost(g): Ghost<WindowGeom>,
    lo: u64,
    hi: u64,
    x: u64,
    w: u64,
    bpp: u64,
    so: u64,
    bs: u64,
    bpr: u64,
    chunky: bool,
)
    requires
        g.x == x,
        g.w == w,
        g.bpp == bpp,
        g.so == so,
        g.bs == bs,
        g.bpr == bpr,
        g.chunky == chunky,
        lo <= hi,
        hi * bpr <= strip@.len(),
        x + w <= 0x1_0000,
        (x + w) * bpp <= bpr,
        so + bs <= bpp || (!chunky && so == 0 && bs == bpp),
    ensures
        final(out)@ == old(out)@ + rows_piece(strip@, g, lo as int, hi - lo),
{
    let strip_len = strip.len();
    proof {
        assert(hi * bpr <= strip_len);
    }
    let mut r: u64 = lo;
    while r < hi
        invariant
            lo <= r <= hi,
            g.x == x,
            g.w == w,
            g.bpp == bpp,
            g.so == so,
            g.bs == bs,
            g.bpr == bpr,
            g.chunky == chunky,
            hi * bpr <= strip@.len(),
            strip@.len() <= usize::MAX,
            x + w <= 0x1_0000,
            (x + w) * bpp <= bpr,
            so + bs <= bpp || (!chunky && so == 0 && bs == bpp),
            out@ == old(out)@ + rows_piece(strip@, g, lo as int, r - lo),
        decreases hi - r,
    {
        proof {
            assert((r + 1) * bpr <= hi * bpr) by (nonlinear_arith)
                requires
                    r + 1 <= hi,
                    bpr >= 0,
            ;
            assert(r * bpr + bpr == (r + 1) * bpr) by (nonlinear_arith);
        }
        let row_base = r * bpr;
        let ghost row_start = out@;
        if chunky {
            let mut p: u64 = 0;
            while p < w
                invariant
                    p <= w,
                    g.x == x,
                    g.w == w,
                    g.bpp == bpp,
                    g.so == so,
                    g.bs == bs,
                    g.bpr == bpr,
                    g.chunky == chunky,
                    lo <= r < hi,
                    hi * bpr <= strip@.len(),
                    strip@.len() <= usize::MAX,
                    x + w <= 0x1_0000,
                    (x + w) * bpp <= bpr,
                    so + bs <= bpp,
                    row_base == r * bpr,
                    row_base + bpr <= strip@.len(),
                    out@ == row_start + pixels_piece(strip@, g, r as int, p as int),
                decreases w - p,
            {
                proof {
                    assert((x + p) * bpp + bpp == (x + p + 1) * bpp) by (nonlinear_arith);
                    assert((x + p + 1) * bpp <= (x + w) * bpp) by (nonlinear_arith)
                        requires
                            x + p + 1 <= x + w,
                            bpp >= 0,
                    ;
                }
                let a = row_base + (x + p) * bpp + so;
                let b = a + bs;
                let ghost before = out@;
                append_range(out, strip, a as usize, b as usize);
                proof {
                    assert(sample_piece(strip@, g, r as int, p as int) == strip@.subrange(
                        a as int,
                        b as int,
                    ));
                    assert(pixels_piece(strip@, g, r as int, p + 1) == pixels_piece(
                        strip@,
                        g,
                        r as int,
                        p as int,
                    ) + sample_piece(strip@, g, r as int, p as int));
                    assert(row_start + pixels_piece(strip@, g, r as int, p + 1) =~= before
                        + strip@.subrange(a as int, b as int));
                }
                p = p + 1;
            }
            proof {
                assert(row_piece(strip@, g, r as int) == pixels_piece(strip@, g, r as int, w as int));
                assert(rows_piece(strip@, g, lo as int, r + 1 - lo) == rows_piece(
                    strip@,
                    g,
                    lo as int,
                    r - lo,
                ) + row_piece(strip@, g, r as int));
                assert(out@ =~= old(out)@ + rows_piece(strip@, g, lo as int, r + 1 - lo));
            }
        } else {
            proof {
                assert(x * bpp <= (x + w) * bpp) by (nonlinear_arith)
                    requires
                        x <= x + w,
                        bpp >= 0,
                ;
            }
            let a = row_base + x * bpp;
            let b = row_base + (x + w) * bpp;
            let ghost before = out@;
            append_range(out, strip, a as usize, b as usize);
            proof {
                assert(row_piece(strip@, g, r as int) == strip@.subrange(a as int, b as int));
                assert(rows_piece(strip@, g, lo as int, r + 1 - lo) == rows_piece(
                    strip@,
                    g,
                    lo as int,
                    r - lo,
                ) + row_piece(strip@, g, r as int));
                assert(out@ =~= old(out)@ + rows_piece(strip@, g, lo as int, r + 1 - lo));
            }
        }
        r = r + 1;
    }
}

/// A reader over a TIFF file held in memory.
pub struct TiffReader {
    parser: TiffParser,
}

impl TiffReader {
    /// The file's bytes.
    pub closed spec fn data(&self) -> Seq<u8> {
        self.parser.data()
    }

    /// Whether the file is little-endian.
    pub closed spec fn le(&self) -> bool {
        self.parser.le()
    }

    /// Whether the file is BigTIFF.
    pub closed spec fn big(&self) -> bool {
        self.parser.big()
    }

    /// The offset of the first directory.
    pub closed spec fn first_ifd(&self) -> u64 {
        self.parser.first_ifd()
    }

    /// The reader agrees with what its file's header says.
    pub closed spec fn wf(&self) -> bool {
        self.parser.wf()
    }

    /// The reader reads the same file, in the same variant, as `other`.
    pub open spec fn same_file_as(&self, other: &TiffReader) -> bool {
        &&& self.data() == other.data()
        &&& self.le() == other.le()
        &&& self.big() == other.big()
        &&& self.first_ifd() == other.first_ifd()
        &&& self.wf() == other.wf()
    }

    /// Parses the header of the file held in `data` and readies the reader.
    pub fn new(data: Vec<u8>) -> (r: Result<TiffReader, TiffError>)
        ensures
            match r {
                Ok(rd) => rd.wf() && rd.data() == data@ && crate::parser::header_spec(data@)
                    == Ok::<(bool, bool, u64), TiffError>((rd.le(), rd.big(), rd.first_ifd())),
                Err(e) => crate::parser::header_spec(data@) == Err::<(bool, bool, u64), TiffError>(
                    e,
                ),
            },
    {
        let parser = match TiffParser::new(data) {
            Ok(p) => p,
            Err(e) => {
                return Err(e);
            },
        };
        Ok(TiffReader { parser })
    }

    /// Extracts the window `(x, y, c)` by `h` rows and `w` columns from the
    /// directory `ifd`: the window is validated against the directory's
    /// geometry, and the strips it touches are read, decompressed, and
    /// sliced to the window's rows, columns and channel.
    #[verifier::rlimit(100)]
    fn open_bytes_at(&mut self, ifd: &IFD, x: u64, y: u64, c: u64, h: u64, w: u64) -> (r: Result<
        Vec<u8>,
        TiffError,
    >)
        ensures
            final(self).same_file_as(old(self)),
            match r {
                Ok(v) => open_bytes_ifd_spec(
                    *ifd,
                    old(self).data(),
                    old(self).le(),
                    x as int,
                    y as int,
                    c as int,
                    h as int,
                    w as int,
                ) == Ok::<Seq<u8>, TiffError>(v@),
                Err(e) => open_bytes_ifd_spec(
                    *ifd,
                    old(self).data(),
                    old(self).le(),
                    x as int,
                    y as int,
                    c as int,
                    h as int,
                    w as int,
                ) == Err::<Seq<u8>, TiffError>(e),
            },
    {
        let ghost data = old(self).data();
        let ghost le = old(self).le();
        let iw = match self.parser.image_width(&ifd) {
            Ok(v) => v,
            Err(e) => {
                proof {
                    assert(open_bytes_ifd_spec(*ifd, data, le, x as int, y as int, c as int,
                        h as int, w as int) == Err::<Seq<u8>, TiffError>(e));
                }
                return Err(e);
            },
        };
        let il = match self.parser.image_length(&ifd) {
            Ok(v) => v,
            Err(e) => {
                proof {
                    assert(open_bytes_ifd_spec(*ifd, data, le, x as int, y as int, c as int,
                        h as int, w as int) == Err::<Seq<u8>, TiffError>(e));
                }
                return Err(e);
            },
        };
        let bps = match self.parser.bits_per_sample(&ifd) {
            Ok(v) => v,
            Err(e) => {
                proof {
                    assert(open_bytes_ifd_spec(*ifd, data, le, x as int, y as int, c as int,
                        h as int, w as int) == Err::<Seq<u8>, TiffError>(e));
                }
                return Err(e);
            },
        };
        let pc = match self.parser.planar_configuration(&ifd) {
            Ok(v) => v,
            Err(e) => {
                proof {
                    assert(open_bytes_ifd_spec(*ifd, data, le, x as int, y as int, c as int,
                        h as int, w as int) == Err::<Seq<u8>, TiffError>(e));
                }
                return Err(e);
            },
        };
        let rps = match self.parser.rows_per_strip(&ifd) {
            Ok(v) => v,
            Err(e) => {
                proof {
                    assert(open_bytes_ifd_spec(*ifd, data, le, x as int, y as int, c as int,
                        h as int, w as int) == Err::<Seq<u8>, TiffError>(e));
                }
                return Err(e);
            },
        };
        let offsets = match self.parser.strip_offsets(&ifd) {
            Ok(v) => v,
            Err(e) => {
                proof {
                    assert(open_bytes_ifd_spec(*ifd, data, le, x as int, y as int, c as int,
                        h as int, w as int) == Err::<Seq<u8>, TiffError>(e));
                }
                return Err(e);
            },
        };
        let counts = match self.parser.strip_byte_counts(&ifd) {
            Ok(v) => v,
            Err(e) => {
                proof {
                    assert(open_bytes_ifd_spec(*ifd, data, le, x as int, y as int, c as int,
                        h as int, w as int) == Err::<Seq<u8>, TiffError>(e));
                }
                return Err(e);
            },
        };
        let co = match self.parser.compression(&ifd) {
            Ok(v) => v,
            Err(e) => {
                proof {
                    assert(open_bytes_ifd_spec(*ifd, data, le, x as int, y as int, c as int,
                        h as int, w as int) == Err::<Seq<u8>, TiffError>(e));
                }
                return Err(e);
            },
        };
        // window validation
        let bad = h == 0 || w == 0 || rps == 0 || c >= bps.len() as u64;
        let xw: u64 = match x.checked_add(w) {
            Some(v) => v,
            Option::None => {
                proof {
                    assert(x as int + w as int > u64::MAX >= iw as int);
                }
                return Err(TiffError::InvalidWindow);
            },
        };
        let yh: u64 = match y.checked_add(h) {
            Some(v) => v,
            Option::None => {
                proof {
                    assert(y as int + h as int > u64::MAX >= il as int);
                }
                return Err(TiffError::InvalidWindow);
            },
        };
        if bad || xw > iw as u64 || yh > il as u64 {
            proof {
            }
            return Err(TiffError::InvalidWindow);
        }
        let bits = bps[c as usize];
        if bits % 8 != 0 {
            proof {
            }
            return Err(TiffError::UnsupportedBitDepth);
        }
        let bs: u64 = (bits / 8) as u64;
        let n_bps = bps.len();
        let sum_all: u64 = match sum_bits_prefix(&bps, n_bps) {
            Some(v) => v,
            Option::None => {
                proof {
                    assert(bps@.take(n_bps as int) =~= bps@);
                    lemma_bits_sum_nonneg(bps@);
                }
                return Err(TiffError::UnsupportedBitDepth);
            },
        };
        proof {
            assert(bps@.take(n_bps as int) =~= bps@);
        }
        let chunky = pc == 1;
        let bpp: u64 = if chunky {
            sum_all / 8
        } else {
            bs
        };
        proof {
            lemma_bits_sum_nonneg(bps@);
            assert(bits_sum(bps@) == sum_all);
        }
        let so: u64 = if chunky {
            match sum_bits_prefix(&bps, c as usize) {
                Some(v) => v / 8,
                Option::None => {
                    proof {
                        lemma_bits_sum_mono(bps@, c as int, n_bps as int);
                    }
                    assert(false);
                    0
                },
            }
        } else {
            0
        };
        let ghost g = window_geom(
            iw as int,
            il as int,
            bps@,
            pc as int,
            rps as int,
            offsets@,
            counts@,
            co,
            x as int,
            y as int,
            c as int,
            h as int,
            w as int,
        );
        proof {
            lemma_bits_sum_nonneg(bps@.take(c as int));
            assert(g.bpp == bpp);
            assert(g.bs == bs);
            assert(g.so == so);
            assert(g.chunky == chunky);
        }
        let bpr: u64 = match bpp.checked_mul(iw as u64) {
            Some(v) => v,
            Option::None => {
                proof {
                    assert(g.bpr == bpp * iw > u64::MAX);
                    assert(g.rps * g.bpr >= g.bpr) by (nonlinear_arith)
                        requires
                            g.rps >= 1,
                            g.bpr >= 0,
                    ;
                }
                return Err(TiffError::InvalidWindow);
            },
        };
        proof {
            assert(g.bpr == bpr);
        }
        let rps_bpr: u64 = match (rps as u64).checked_mul(bpr) {
            Some(v) => v,
            Option::None => {
                proof {
                    assert(g.rps * g.bpr > u64::MAX >= usize::MAX);
                }
                return Err(TiffError::InvalidWindow);
            },
        };
        if rps_bpr > usize::MAX as u64 {
            proof {
            }
            return Err(TiffError::InvalidWindow);
        }
        let rps64 = rps as u64;
        let il64 = il as u64;
        let strip_start: u64 = y / rps64;
        let strip_end: u64 = (yh - 1) / rps64;
        let planes_stride: u64 = (il64 + rps64 - 1) / rps64;
        proof {
            assert(g.start == strip_start);
            assert(g.planes_stride == planes_stride);
            lemma_fundamental_div_mod(y as int, rps64 as int);
            lemma_mod_bound(y as int, rps64 as int);
            lemma_fundamental_div_mod(yh as int - 1, rps64 as int);
            lemma_mod_bound(yh as int - 1, rps64 as int);
            assert((strip_start + 1) * rps64 == strip_start * rps64 + rps64) by (nonlinear_arith);
            assert((strip_end + 1) * rps64 == strip_end * rps64 + rps64) by (nonlinear_arith);
            assert(strip_start * rps64 == rps64 * strip_start) by (nonlinear_arith);
            assert(strip_end * rps64 == rps64 * strip_end) by (nonlinear_arith);
            assert(strip_start * rps64 <= y);
            assert(y < (strip_start + 1) * rps64);
            assert(strip_end * rps64 <= yh - 1);
            assert(yh - 1 < (strip_end + 1) * rps64);
            assert(strip_start <= strip_end) by (nonlinear_arith)
                requires
                    strip_start * rps64 <= y,
                    y <= yh - 1,
                    yh - 1 < (strip_end + 1) * rps64,
                    rps64 >= 1,
                    strip_start >= 0,
                    strip_end >= 0,
            ;
            assert(strip_end <= yh - 1);
        }
        let k_total: u64 = strip_end - strip_start + 1;
        let ghost ob_spec = open_bytes_ifd_spec(
            *ifd,
            data,
            le,
            x as int,
            y as int,
            c as int,
            h as int,
            w as int,
        );
        proof {
            assert(ob_spec == window_strips(data, g, k_total as int));
        }
        let mut out: Vec<u8> = Vec::new();
        let mut k: u64 = 0;
        proof {
            assert(window_strips(data, g, 0) == Ok::<Seq<u8>, TiffError>(out@));
        }
        while k < k_total
            invariant
                k <= k_total,
                self.same_file_as(old(self)),
                data == old(self).data(),
                le == old(self).le(),
                ob_spec == open_bytes_ifd_spec(
                    *ifd,
                    data,
                    le,
                    x as int,
                    y as int,
                    c as int,
                    h as int,
                    w as int,
                ),
                ob_spec == window_strips(data, g, k_total as int),
                g == window_geom(
                    iw as int,
                    il as int,
                    bps@,
                    pc as int,
                    rps as int,
                    offsets@,
                    counts@,
                    co,
                    x as int,
                    y as int,
                    c as int,
                    h as int,
                    w as int,
                ),
                g.bpp == bpp,
                g.bs == bs,
                g.so == so,
                g.bpr == bpr,
                g.start == strip_start,
                g.planes_stride == planes_stride,
                g.chunky == chunky,
                g.co == co,
                g.offsets == offsets@,
                g.counts == counts@,
                g.il == il,
                g.rps == rps,
                g.x == x,
                g.y == y,
                g.h == h,
                g.w == w,
                g.c == c,
                rps64 == rps,
                il64 == il,
                rps64 >= 1,
                k_total == strip_end - strip_start + 1,
                strip_start <= strip_end,
                strip_start * rps64 <= y,
                y < (strip_start + 1) * rps64,
                strip_end * rps64 <= yh - 1,
                yh - 1 < (strip_end + 1) * rps64,
                xw == x + w,
                yh == y + h,
                h >= 1,
                w >= 1,
                xw <= iw,
                yh <= il,
                il <= 0xffff,
                iw <= 0xffff,
                c < bps@.len(),
                n_bps == bps@.len(),
                bits == bps@[c as int],
                bits % 8 == 0,
                bs == bits / 8,
                sum_all == bits_sum(bps@),
                rps_bpr == rps64 * bpr,
                rps_bpr <= usize::MAX,
                window_strips(data, g, k as int) == Ok::<Seq<u8>, TiffError>(out@),
            decreases k_total - k,
        {
            let si: u64 = strip_start + k;
            proof {
                assert(si <= strip_end);
                assert(si * rps64 <= strip_end * rps64) by (nonlinear_arith)
                    requires
                        si <= strip_end,
                        rps64 >= 0,
                ;
            }
            let p: u64 = si * rps64;
            let fi: u64;
            if chunky {
                fi = si;
            } else {
                let prod = match c.checked_mul(planes_stride) {
                    Some(v) => v,
                    Option::None => {
                        proof {
                            let sfi = g.c * g.planes_stride + (g.start + k);
                            assert(sfi > u64::MAX >= g.offsets.len());
                            assert(window_strips(data, g, k + 1) == Err::<Seq<u8>, TiffError>(
                                TiffError::StripIndexOutOfRange,
                            ));
                            lemma_window_strips_err_extend(data, g, k + 1, k_total as int);
                        }
                        return Err(TiffError::StripIndexOutOfRange);
                    },
                };
                fi = match prod.checked_add(si) {
                    Some(v) => v,
                    Option::None => {
                        proof {
                            let sfi = g.c * g.planes_stride + (g.start + k);
                            assert(sfi > u64::MAX >= g.offsets.len());
                            assert(window_strips(data, g, k + 1) == Err::<Seq<u8>, TiffError>(
                                TiffError::StripIndexOutOfRange,
                            ));
                            lemma_window_strips_err_extend(data, g, k + 1, k_total as int);
                        }
                        return Err(TiffError::StripIndexOutOfRange);
                    },
                };
            }
            if fi >= offsets.len() as u64 || fi >= counts.len() as u64 {
                proof {
                    assert(window_strips(data, g, k + 1) == Err::<Seq<u8>, TiffError>(
                        TiffError::StripIndexOutOfRange,
                    ));
                    lemma_window_strips_err_extend(data, g, k + 1, k_total as int);
                }
                return Err(TiffError::StripIndexOutOfRange);
            }
            let rows: u64 = if p >= il64 {
                0
            } else if il64 - p < rps64 {
                il64 - p
            } else {
                rps64
            };
            proof {
                assert(rows == strip_rows(g.il, g.rps, si as int));
                assert(rows <= rps64);
                assert(rows * bpr <= rps64 * bpr) by (nonlinear_arith)
                    requires
                        rows <= rps64,
                        bpr >= 0,
                ;
            }
            let expected: u64 = rows * bpr;
            let off_v = offsets[fi as usize];
            let cnt_v = counts[fi as usize];
            let strip = match self.parser.fetch_strip_data(co, off_v as u64, cnt_v as u64, expected
                as usize) {
                Ok(v) => v,
                Err(e) => {
                    proof {
                        assert(window_strips(data, g, k + 1) == Err::<Seq<u8>, TiffError>(e));
                        lemma_window_strips_err_extend(data, g, k + 1, k_total as int);
                    }
                    return Err(e);
                },
            };
            proof {
                lemma_strip_data_len(
                    data,
                    co,
                    off_v as int,
                    cnt_v as int,
                    expected as int,
                );
                assert(strip@.len() == expected);
            }
            let lo: u64 = if y > p {
                y - p
            } else {
                0
            };
            let hi: u64 = (if yh < p + rps64 {
                yh
            } else {
                p + rps64
            }) - p;
            proof {
                assert((si + 1) * rps64 == si * rps64 + rps64) by (nonlinear_arith);
                assert(lo == strip_lo(g, si as int));
                assert(hi == strip_hi(g, si as int));
                // the window touches this strip: its rows overlap [y, y+h)
                assert(p <= yh - 1);
                assert(y < p + rps64) by (nonlinear_arith)
                    requires
                        p == si * rps64,
                        si >= strip_start,
                        y < (strip_start + 1) * rps64,
                        rps64 >= 1,
                        strip_start >= 0,
                        si >= 0,
                ;
                assert(lo <= hi);
                // the touched rows lie within the strip's rows
                assert(hi <= rows);
                assert(hi * bpr <= rows * bpr) by (nonlinear_arith)
                    requires
                        hi <= rows,
                        bpr >= 0,
                ;
                // chunky strides stay within one pixel row
                if chunky {
                    lemma_bits_sum_mono(bps@, c as int + 1, n_bps as int);
                    assert(bps@.take(c as int + 1).drop_last() =~= bps@.take(c as int));
                    assert(bits_sum(bps@.take(c as int + 1)) == bits_sum(bps@.take(c as int))
                        + bits);
                    assert(bps@.take(n_bps as int) =~= bps@);
                    let a = bits_sum(bps@.take(c as int));
                    let total = bits_sum(bps@);
                    assert(a >= 0) by {
                        lemma_bits_sum_nonneg(bps@.take(c as int));
                    }
                    assert(a + bits <= total);
                    lemma_fundamental_div_mod(a, 8);
                    lemma_mod_bound(a, 8);
                    lemma_fundamental_div_mod(bits as int, 8);
                    assert(bits == 8 * bs);
                    assert(8 * (a / 8 + bs) <= total) by (nonlinear_arith)
                        requires
                            a == 8 * (a / 8) + a % 8,
                            a % 8 >= 0,
                            bits == 8 * bs,
                            a + bits <= total,
                    ;
                    lemma_div_scaled_le(a / 8 + bs as int, total);
                    assert(so + bs <= bpp);
                } else {
                    assert(g.so == 0 && g.bs == g.bpp);
                }
                assert((x + w) * bpp <= iw * bpp) by (nonlinear_arith)
                    requires
                        x + w <= iw,
                        bpp >= 0,
                ;
                assert(iw * bpp == bpp * iw) by (nonlinear_arith);
                assert(g.bpr == bpp * iw);
                assert((x as int + w) * bpp <= bpr);
            }
            let ghost out_before = out@;
            append_strip_window(
                &mut out,
                &strip,
                Ghost(g),
                lo,
                hi,
                x,
                w,
                bpp,
                so,
                bs,
                bpr,
                chunky,
            );
            proof {
                assert(window_strips(data, g, k + 1) == Ok::<Seq<u8>, TiffError>(
                    out_before + rows_piece(
                        strip@,
                        g,
                        strip_lo(g, si as int),
                        strip_hi(g, si as int) - strip_lo(g, si as int),
                    ),
                ));
                assert(out@ == out_before + rows_piece(strip@, g, lo as int, hi - lo));
            }
            k = k + 1;
        }
        proof {
            assert(open_bytes_ifd_spec(*ifd, data, le, x as int, y as int, c as int, h as int,
                w as int) == Ok::<Seq<u8>, TiffError>(out@));
        }
        Ok(out)
    }

    /// Reads the rectangular window `(origin, h, w)` of the file as packed
    /// bytes of the requested channel.  A successful read returns exactly
    /// `h * w` samples of `bits_per_sample[c] / 8` bytes each.
    pub fn open_bytes(&mut self, origin: Loc, h: u64, w: u64) -> (r: Result<Vec<u8>, TiffError>)
        ensures
            final(self).same_file_as(old(self)),
            reader_window_result(
                old(self).data(),
                old(self).le(),
                old(self).big(),
                old(self).first_ifd() as int,
                origin.x as int,
                origin.y as int,
                origin.c as int,
                origin.s as int,
                h as int,
                w as int,
                match r {
                    Ok(v) => Ok(v@),
                    Err(e) => Err(e),
                },
            ),
    {
        let ghost data = old(self).data();
        let ghost le = old(self).le();
        let ghost big_g = old(self).big();
        let ghost first = old(self).first_ifd() as int;
        let ifd = match self.parser.nth_ifd(origin.s) {
            Ok(f) => f,
            Err(e) => {
                return Err(e);
            },
        };
        match self.open_bytes_at(&ifd, origin.x, origin.y, origin.c, h, w) {
            Ok(v) => {
                proof {
                    lemma_window_result_witness(ifd, data, le, big_g, first, origin.x as int,
                        origin.y as int, origin.c as int, origin.s as int, h as int, w as int,
                        Ok(v@));
                }
                Ok(v)
            },
            Err(e) => {
                proof {
                    lemma_window_result_witness(ifd, data, le, big_g, first, origin.x as int,
                        origin.y as int, origin.c as int, origin.s as int, h as int, w as int,
                        Err(e));
                }
                Err(e)
            },
        }
    }

    /// Reads a window as typed pixels: 8-bit channels pass through, 16-bit
    /// channels pair bytes under the file's byte order, and any other depth
    /// fails with `UnsupportedPixelFormat`.
    #[verifier::rlimit(100)]
    pub fn open_pixels(&mut self, origin: Loc, h: u64, w: u64) -> (r: Result<
        PixelSlice,
        TiffError,
    >)
        ensures
            final(self).same_file_as(old(self)),
            reader_pixels_result(
                old(self).data(),
                old(self).le(),
                old(self).big(),
                old(self).first_ifd() as int,
                origin.x as int,
                origin.y as int,
                origin.c as int,
                origin.s as int,
                h as int,
                w as int,
                match r {
                    Ok(p) => Ok(p@),
                    Err(e) => Err(e),
                },
            ),
    {
        let ghost data = old(self).data();
        let ghost le = old(self).le();
        let ghost big_g = old(self).big();
        let ghost first = old(self).first_ifd() as int;
        let x = origin.x;
        let y = origin.y;
        let c = origin.c;
        let s = origin.s;
        let ifd = match self.parser.nth_ifd(s) {
            Ok(f) => f,
            Err(e) => {
                return Err(e);
            },
        };
        let bytes = match self.open_bytes_at(&ifd, x, y, c, h, w) {
            Ok(b) => b,
            Err(e) => {
                proof {
                    lemma_pixels_result_witness(ifd, data, le, big_g, first, x as int, y as int,
                        c as int, s as int, h as int, w as int, Err(e));
                }
                return Err(e);
            },
        };
        let bps = match self.parser.bits_per_sample(&ifd) {
            Ok(v) => v,
            Err(_) => {
                // unreachable: a successful window read implies the depth
                // table reads
                proof {
                    assert(false);
                }
                return Err(TiffError::UnknownTag);
            },
        };
        let bl = bps.len();
        proof {
            assert(c < bps@.len());
            assert(c < bl as u64);
            assert(c as usize == c);
        }
        let bits = bps[c as usize];
        let order = self.parser.byte_order();
        let le_flag = match order {
            ByteOrder::LE => true,
            ByteOrder::BE => false,
        };
        proof {
            assert(le_flag == le);
            assert(c < bps@.len());
            assert(bps@[c as int] == bits);
            assert(tag_vec_u16_spec(ifd, data, le, Tag::BitsPerSample).unwrap() == bps@);
            assert(tag_vec_u16_spec(ifd, data, le, Tag::BitsPerSample).unwrap()[c as int]
                == bits);
        }
        if bits == 8 {
            let p = PixelSlice::U8(bytes);
            proof {
                assert(p@ == PixelSliceV::U8(bytes@));
                assert(pixel_slice_result(bytes@, bits, le, Ok(p@)));
                lemma_pixels_result_witness(ifd, data, le, big_g, first, x as int, y as int,
                    c as int, s as int, h as int, w as int, Ok(p@));
            }
            Ok(p)
        } else if bits == 16 {
            let v = pair_u16(&bytes, le_flag);
            let p = PixelSlice::U16(v);
            proof {
                assert(p@ == PixelSliceV::U16(pixel_words(bytes@, le)));
                assert(pixel_slice_result(bytes@, bits, le, Ok(p@)));
                lemma_pixels_result_witness(ifd, data, le, big_g, first, x as int, y as int,
                    c as int, s as int, h as int, w as int, Ok(p@));
            }
            Ok(p)
        } else {
            proof {
                lemma_pixels_result_witness(ifd, data, le, big_g, first, x as int, y as int,
                    c as int, s as int, h as int, w as int,
                    Err(TiffError::UnsupportedPixelFormat));
            }
            Err(TiffError::UnsupportedPixelFormat)
        }
    }

    /// Reads what the file declares about every series: each series'
    /// extent, the per-channel bit depths, and the byte order.
    pub fn metadata(&mut self) -> (r: Result<Metadata, TiffError>)
        ensures
            final(self).same_file_as(old(self)),
            match r {
                Ok(md) => metadata_matches(
                    old(self).data(),
                    old(self).le(),
                    old(self).big(),
                    old(self).first_ifd() as int,
                    md,
                ),
                Err(e) => metadata_err(
                    old(self).data(),
                    old(self).le(),
                    old(self).big(),
                    old(self).first_ifd() as int,
                    e,
                ),
            },
    {
        let ghost data = old(self).data();
        let ghost le = old(self).le();
        let ghost big_g = old(self).big();
        let ghost first = old(self).first_ifd() as int;
        let n = match self.parser.n_ifds() {
            Ok(v) => v,
            Err(e) => {
                return Err(e);
            },
        };
        let mut dims: Vec<Dim> = Vec::new();
        let mut bits: Vec<Vec<u16>> = Vec::new();
        let mut i: u64 = 0;
        while i < n
            invariant
                i <= n,
                self.same_file_as(old(self)),
                data == old(self).data(),
                le == old(self).le(),
                big_g == old(self).big(),
                first == old(self).first_ifd() as int,
                TiffParser::chain_count_spec(
                    data,
                    le,
                    big_g,
                    first,
                    TiffParser::chain_fuel(data),
                ) == Ok::<nat, TiffError>(n as nat),
                dims@.len() == i,
                bits@.len() == i,
                forall|j: int|
                    0 <= j < i ==> series_desc(
                        data,
                        le,
                        big_g,
                        first,
                        j,
                        #[trigger] dims@[j],
                        bits@[j]@,
                    ),
            decreases n - i,
        {
            let ifd = match self.parser.nth_ifd(i) {
                Ok(f) => f,
                Err(e) => {
                    proof {
                        assert(series_err(data, le, big_g, first, i as int, e));
                    }
                    return Err(e);
                },
            };
            let ghost woff = TiffParser::walk_spec(data, le, big_g, first, i as nat).unwrap();
            let wv = match self.parser.image_width(&ifd) {
                Ok(v) => v,
                Err(e) => {
                    proof {
                        assert(ifd_matches(ifd, data, le, big_g, woff) && series_spec(
                            ifd,
                            data,
                            le,
                        ) == Err::<(u16, u16, u16, Seq<u16>), TiffError>(e));
                        assert(series_err(data, le, big_g, first, i as int, e));
                    }
                    return Err(e);
                },
            };
            let hv = match self.parser.image_length(&ifd) {
                Ok(v) => v,
                Err(e) => {
                    proof {
                        assert(ifd_matches(ifd, data, le, big_g, woff) && series_spec(
                            ifd,
                            data,
                            le,
                        ) == Err::<(u16, u16, u16, Seq<u16>), TiffError>(e));
                        assert(series_err(data, le, big_g, first, i as int, e));
                    }
                    return Err(e);
                },
            };
            let spp = match self.parser.samples_per_pixel(&ifd) {
                Ok(v) => v,
                Err(e) => {
                    proof {
                        assert(ifd_matches(ifd, data, le, big_g, woff) && series_spec(
                            ifd,
                            data,
                            le,
                        ) == Err::<(u16, u16, u16, Seq<u16>), TiffError>(e));
                        assert(series_err(data, le, big_g, first, i as int, e));
                    }
                    return Err(e);
                },
            };
            let bpsv = match self.parser.bits_per_sample(&ifd) {
                Ok(v) => v,
                Err(e) => {
                    proof {
                        assert(ifd_matches(ifd, data, le, big_g, woff) && series_spec(
                            ifd,
                            data,
                            le,
                        ) == Err::<(u16, u16, u16, Seq<u16>), TiffError>(e));
                        assert(series_err(data, le, big_g, first, i as int, e));
                    }
                    return Err(e);
                },
            };
            let d = Dim { w: wv as u64, h: hv as u64, d: 1, t: 1, c: spp as u64 };
            proof {
                assert(ifd_matches(ifd, data, le, big_g, woff) && series_spec(ifd, data, le)
                    == Ok::<(u16, u16, u16, Seq<u16>), TiffError>((wv, hv, spp, bpsv@)));
                assert(series_ok(data, le, big_g, first, i as int, (wv, hv, spp, bpsv@)));
                assert(series_desc(data, le, big_g, first, i as int, d, bpsv@));
            }
            dims.push(d);
            bits.push(bpsv);
            i = i + 1;
        }
        let bo = self.parser.byte_order();
        Ok(Metadata { dimensions: dims, bits, byte_order: bo })
    }
}

impl FormatReader for TiffReader {
    fn metadata(&mut self) -> Result<Metadata, TiffError> {
        TiffReader::metadata(self)
    }

    fn open_bytes(&mut self, origin: Loc, h: u64, w: u64) -> Result<Vec<u8>, TiffError> {
        TiffReader::open_bytes(self, origin, h, w)
    }

    fn open_pixels(&mut self, origin: Loc, h: u64, w: u64) -> Result<PixelSlice, TiffError> {
        TiffReader::open_pixels(self, origin, h, w)
    }
}

} // verus!
