//! Neighborhood kernels over a 3x3 window: the grayscale sampler, the
//! Sobel gradient operator, edge detection, the sharpening convolution,
//! and the edge-enhancement stage of the stylization pipeline.  Every
//! pass reads from a snapshot taken at pass start and writes only
//! interior pixels; the outermost one-pixel border and all alpha bytes
//! are left unchanged.

use vstd::prelude::*;
use crate::buffer::{off, interior, scan_lt, lemma_off_in_bounds, lemma_decode, lemma_pix_range,
    snapshot};
use crate::arith::{isqrt, rsqrt, isqrt64};
use vstd::arithmetic::div_mod::{lemma_div_is_ordered, lemma_div_pos_is_pos};

verus! {

/// Luma of one pixel: `⌊0.299 R + 0.587 G + 0.114 B⌋`.
pub open spec fn gray_of(r: u8, g: u8, b: u8) -> int {
    (299 * (r as int) + 587 * (g as int) + 114 * (b as int)) / 1000
}

/// Luma of the pixel at `(x, y)`.
pub open spec fn gray_at(s: Seq<u8>, w: int, x: int, y: int) -> int {
    gray_of(s[off(w, x, y, 0)], s[off(w, x, y, 1)], s[off(w, x, y, 2)])
}

/// Horizontal Sobel response at `(x, y)`: the kernel
/// `[-1, 0, 1, -2, 0, 2, -1, 0, 1]` over the 3x3 luma neighborhood.
#[verifier::opaque]
pub open spec fn sobel_gx(s: Seq<u8>, w: int, x: int, y: int) -> int {
    -gray_at(s, w, x - 1, y - 1) + gray_at(s, w, x + 1, y - 1) - 2 * gray_at(s, w, x - 1, y) + 2
        * gray_at(s, w, x + 1, y) - gray_at(s, w, x - 1, y + 1) + gray_at(s, w, x + 1, y + 1)
}

/// Vertical Sobel response at `(x, y)`: the kernel
/// `[-1, -2, -1, 0, 0, 0, 1, 2, 1]` over the 3x3 luma neighborhood.
#[verifier::opaque]
pub open spec fn sobel_gy(s: Seq<u8>, w: int, x: int, y: int) -> int {
    -gray_at(s, w, x - 1, y - 1) - 2 * gray_at(s, w, x, y - 1) - gray_at(s, w, x + 1, y - 1)
        + gray_at(s, w, x - 1, y + 1) + 2 * gray_at(s, w, x, y + 1) + gray_at(s, w, x + 1, y + 1)
}

/// Squared gradient magnitude at `(x, y)`.
#[verifier::opaque]
pub open spec fn mag2(s: Seq<u8>, w: int, x: int, y: int) -> int {
    sobel_gx(s, w, x, y) * sobel_gx(s, w, x, y) + sobel_gy(s, w, x, y) * sobel_gy(s, w, x, y)
}

/// Edge intensity: the gradient magnitude `√(Gx² + Gy²)` rounded to the
/// nearest integer and capped at 255.
pub open spec fn edge_mag(m2: int) -> u8 {
    let m = rsqrt(m2);
    if m > 255 {
        255u8
    } else {
        m as u8
    }
}

/// Edge detection over a whole buffer: every interior R, G, B byte
/// becomes the edge intensity of its pixel; border pixels and all alpha
/// bytes are kept.
pub open spec fn edge_spec(s: Seq<u8>, w: int, h: int) -> Seq<u8> {
    Seq::new(
        s.len(),
        |i: int|
            {
                let c = i % 4;
                let p = i / 4;
                let x = p % w;
                let y = p / w;
                if c < 3 && interior(w, h, x, y) {
                    edge_mag(mag2(s, w, x, y))
                } else {
                    s[i]
                }
            },
    )
}

/// One channel of the sharpening kernel `[0, -1, 0, -1, 5, -1, 0, -1, 0]`
/// (coefficients sum to 1), clamped to a byte.
pub open spec fn sharp_chan(m: u8, l: u8, r: u8, u: u8, d: u8) -> u8 {
    let v = 5 * (m as int) - (l as int) - (r as int) - (u as int) - (d as int);
    if v < 0 {
        0u8
    } else if v > 255 {
        255u8
    } else {
        v as u8
    }
}

/// Sharpening over a whole buffer: the kernel is applied per channel to
/// every interior pixel; border pixels and all alpha bytes are kept.
pub open spec fn sharpen_spec(s: Seq<u8>, w: int, h: int) -> Seq<u8> {
    Seq::new(
        s.len(),
        |i: int|
            {
                let c = i % 4;
                let p = i / 4;
                let x = p % w;
                let y = p / w;
                if c < 3 && interior(w, h, x, y) {
                    sharp_chan(
                        s[off(w, x, y, c)],
                        s[off(w, x - 1, y, c)],
                        s[off(w, x + 1, y, c)],
                        s[off(w, x, y - 1, c)],
                        s[off(w, x, y + 1, c)],
                    )
                } else {
                    s[i]
                }
            },
    )
}

/// One channel of edge enhancement: the snapshot value scaled by
/// `1 + √(Gx² + Gy²)/510` (that is, by one plus half the normalized edge
/// strength), floored, capped at 255.
pub open spec fn enh_chan(v: u8, m2: int) -> u8 {
    let q = (510 * (v as int) + isqrt((v as int) * (v as int) * m2)) / 510;
    if q > 255 {
        255u8
    } else {
        q as u8
    }
}

/// Edge enhancement over a whole buffer: every interior R, G, B byte is
/// scaled by its pixel's edge strength; border pixels and all alpha
/// bytes are kept.
pub open spec fn enhance_spec(s: Seq<u8>, w: int, h: int) -> Seq<u8> {
    Seq::new(
        s.len(),
        |i: int|
            {
                let c = i % 4;
                let p = i / 4;
                let x = p % w;
                let y = p / w;
                if c < 3 && interior(w, h, x, y) {
                    enh_chan(s[i], mag2(s, w, x, y))
                } else {
                    s[i]
                }
            },
    )
}

/// The luma of any pixel is itself a byte value.
pub proof fn lemma_gray_of_bounds(r: u8, g: u8, b: u8)
    ensures
        0 <= gray_of(r, g, b) <= 255,
{
    let sum = 299 * (r as int) + 587 * (g as int) + 114 * (b as int);
    lemma_div_pos_is_pos(sum, 1000);
    lemma_div_is_ordered(sum, 255000, 1000);
}

/// Offsets are monotone in the pixel coordinates.
proof fn lemma_off_le(w: int, x1: int, y1: int, x2: int, y2: int)
    requires
        0 <= x1 <= x2,
        0 <= y1 <= y2,
        w >= 0,
    ensures
        0 <= off(w, x1, y1, 0),
        off(w, x1, y1, 2) <= off(w, x2, y2, 2),
    decreases 0int,
{
    assert(0 <= (y1 * w + x1) * 4 && (y1 * w + x1) * 4 + 2 <= (y2 * w + x2) * 4 + 2)
        by (nonlinear_arith)
        requires
            0 <= x1 <= x2,
            0 <= y1 <= y2,
            w >= 0,
    ;
}

/// Grayscale sample of the pixel at `(x, y)`.
pub fn gray_value(data: &Vec<u8>, x: usize, y: usize, width: usize) -> (g: u8)
    requires
        off(width as int, x as int, y as int, 2) < data@.len(),
    ensures
        g as int == gray_at(data@, width as int, x as int, y as int),
{
    let total = data.len();
    proof {
        assert(0 <= (y as int) * (width as int)) by (nonlinear_arith);
    }
    let idx: usize = (y * width + x) * 4;
    let r = data[idx];
    let g = data[idx + 1];
    let b = data[idx + 2];
    let v: u32 = (299 * (r as u32) + 587 * (g as u32) + 114 * (b as u32)) / 1000;
    proof {
        lemma_gray_of_bounds(r, g, b);
    }
    v as u8
}

/// Horizontal Sobel response of the snapshot at an interior coordinate.
pub fn sobel_x(data: &Vec<u8>, x: usize, y: usize, width: usize) -> (gx: i32)
    requires
        1 <= x,
        1 <= y,
        x + 1 < width,
        off(width as int, x as int + 1, y as int + 1, 2) < data@.len(),
    ensures
        gx as int == sobel_gx(data@, width as int, x as int, y as int),
        -1020 <= gx <= 1020,
{
    proof {
        reveal(sobel_gx);
    }
    let total = data.len();
    proof {
        assert((y as int + 1) <= (y as int + 1) * (width as int)) by (nonlinear_arith)
            requires
                width >= 1,
                y >= 0,
        ;
        lemma_off_le(width as int, x as int - 1, y as int - 1, x as int + 1, y as int + 1);
        lemma_off_le(width as int, x as int + 1, y as int - 1, x as int + 1, y as int + 1);
        lemma_off_le(width as int, x as int - 1, y as int, x as int + 1, y as int + 1);
        lemma_off_le(width as int, x as int + 1, y as int, x as int + 1, y as int + 1);
        lemma_off_le(width as int, x as int - 1, y as int + 1, x as int + 1, y as int + 1);
    }
    let a = gray_value(data, x - 1, y - 1, width);
    let c = gray_value(data, x + 1, y - 1, width);
    let d = gray_value(data, x - 1, y, width);
    let e = gray_value(data, x + 1, y, width);
    let f = gray_value(data, x - 1, y + 1, width);
    let h = gray_value(data, x + 1, y + 1, width);
    -(a as i32) + (c as i32) - 2 * (d as i32) + 2 * (e as i32) - (f as i32) + (h as i32)
}

/// Vertical Sobel response of the snapshot at an interior coordinate.
pub fn sobel_y(data: &Vec<u8>, x: usize, y: usize, width: usize) -> (gy: i32)
    requires
        1 <= x,
        1 <= y,
        x + 1 < width,
        off(width as int, x as int + 1, y as int + 1, 2) < data@.len(),
    ensures
        gy as int == sobel_gy(data@, width as int, x as int, y as int),
        -1020 <= gy <= 1020,
{
    proof {
        reveal(sobel_gy);
    }
    let total = data.len();
    proof {
        assert((y as int + 1) <= (y as int + 1) * (width as int)) by (nonlinear_arith)
            requires
                width >= 1,
                y >= 0,
        ;
        lemma_off_le(width as int, x as int - 1, y as int - 1, x as int + 1, y as int + 1);
        lemma_off_le(width as int, x as int, y as int - 1, x as int + 1, y as int + 1);
        lemma_off_le(width as int, x as int + 1, y as int - 1, x as int + 1, y as int + 1);
        lemma_off_le(width as int, x as int - 1, y as int + 1, x as int + 1, y as int + 1);
        lemma_off_le(width as int, x as int, y as int + 1, x as int + 1, y as int + 1);
    }
    let a = gray_value(data, x - 1, y - 1, width);
    let b = gray_value(data, x, y - 1, width);
    let c = gray_value(data, x + 1, y - 1, width);
    let f = gray_value(data, x - 1, y + 1, width);
    let g = gray_value(data, x, y + 1, width);
    let h = gray_value(data, x + 1, y + 1, width);
    -(a as i32) - 2 * (b as i32) - (c as i32) + (f as i32) + 2 * (g as i32) + (h as i32)
}

/// Squared gradient magnitude of the snapshot at an interior coordinate.
fn grad_m2(data: &Vec<u8>, x: usize, y: usize, width: usize) -> (m2: u64)
    requires
        1 <= x,
        1 <= y,
        x + 1 < width,
        off(width as int, x as int + 1, y as int + 1, 2) < data@.len(),
    ensures
        m2 as int == mag2(data@, width as int, x as int, y as int),
        m2 <= 2080800,
{
    let gx = sobel_x(data, x, y, width);
    let gy = sobel_y(data, x, y, width);
    proof {
        reveal(mag2);
        assert(0 <= (gx as int) * (gx as int) <= 1040400 && 0 <= (gy as int) * (gy as int)
            <= 1040400) by (nonlinear_arith)
            requires
                -1020 <= gx <= 1020,
                -1020 <= gy <= 1020,
        ;
    }
    let q: i64 = (gx as i64) * (gx as i64) + (gy as i64) * (gy as i64);
    q as u64
}

/// Rounded, capped gradient magnitude from its square.
fn edge_mag_exec(m2: u64) -> (v: u8)
    requires
        m2 <= 2080800,
    ensures
        v == edge_mag(m2 as int),
{
    let m = isqrt64(m2);
    proof {
        assert(m <= 1442) by (nonlinear_arith)
            requires
                (m as int) * (m as int) <= 2080800,
                m >= 0,
        ;
    }
    let d = m2 - m * m;
    let r = if d > m {
        m + 1
    } else {
        m
    };
    if r > 255 {
        255
    } else {
        r as u8
    }
}

/// One clamped channel of the sharpening kernel.
fn sharp_value(m: u8, l: u8, r: u8, u: u8, d: u8) -> (v: u8)
    ensures
        v == sharp_chan(m, l, r, u, d),
{
    let s: i32 = 5 * (m as i32) - (l as i32) - (r as i32) - (u as i32) - (d as i32);
    if s < 0 {
        0
    } else if s > 255 {
        255
    } else {
        s as u8
    }
}

/// One clamped channel of edge enhancement.
fn enh_value(s0: u8, m2: u64) -> (v: u8)
    requires
        m2 <= 2080800,
    ensures
        v == enh_chan(s0, m2 as int),
{
    proof {
        assert(0 <= (s0 as int) * (s0 as int) <= 65025) by (nonlinear_arith)
            requires
                s0 <= 255,
        ;
        assert(0 <= (s0 as int) * (s0 as int) * (m2 as int) <= 65025 * 2080800)
            by (nonlinear_arith)
            requires
                0 <= (s0 as int) * (s0 as int) <= 65025,
                0 <= m2 <= 2080800,
        ;
    }
    let prod: u64 = (s0 as u64) * (s0 as u64) * m2;
    let isq = isqrt64(prod);
    proof {
        assert(isq <= 368000) by (nonlinear_arith)
            requires
                (isq as int) * (isq as int) <= 65025 * 2080800,
                isq >= 0,
        ;
    }
    let num: u64 = 510 * (s0 as u64) + isq;
    let q: u64 = num / 510;
    proof {
        lemma_div_pos_is_pos(num as int, 510);
    }
    if q > 255 {
        255
    } else {
        q as u8
    }
}

/// In-place edge-detection pass.
#[verifier::loop_isolation(false)]
#[verifier::rlimit(100)]
pub fn edge_pass(data: &mut Vec<u8>, width: usize, height: usize)
    requires
        old(data)@.len() == width as int * height as int * 4,
    ensures
        final(data)@ == edge_spec(old(data)@, width as int, height as int),
{
    let ghost o = old(data)@;
    let ghost wi = width as int;
    let ghost hti = height as int;
    if width < 3 || height < 3 {
        proof {
            assert forall|j: int| 0 <= j < o.len() implies edge_spec(o, wi, hti)[j] == o[j] by {
                assert(wi >= 1 && hti >= 1) by (nonlinear_arith)
                    requires
                        o.len() == wi * hti * 4,
                        o.len() > 0,
                        wi >= 0,
                        hti >= 0,
                ;
                lemma_pix_range(wi, hti, j);
            }
            assert(data@ =~= edge_spec(o, wi, hti));
        }
        return ;
    }
    let snap = snapshot(data);
    let n = data.len();
    proof {
        assert(n as int == o.len());
    }
    let mut y: usize = 1;
    while y < height - 1
        invariant
            1 <= y <= height - 1,
            data@.len() == o.len(),
            forall|j: int|
                0 <= j < o.len() && scan_lt(wi, j, 1, y as int) ==> data@[j] == edge_spec(
                    o,
                    wi,
                    hti,
                )[j],
            forall|j: int| 0 <= j < o.len() && !scan_lt(wi, j, 1, y as int) ==> data@[j] == o[j],
        decreases height - y,
    {
        let mut x: usize = 1;
        while x < width - 1
            invariant
                1 <= x <= width - 1,
                data@.len() == o.len(),
                forall|j: int|
                    0 <= j < o.len() && scan_lt(wi, j, x as int, y as int) ==> data@[j]
                        == edge_spec(o, wi, hti)[j],
                forall|j: int|
                    0 <= j < o.len() && !scan_lt(wi, j, x as int, y as int) ==> data@[j] == o[j],
            decreases width - x,
        {
            proof {
                lemma_off_in_bounds(wi, hti, x as int + 1, y as int + 1, 2);
                lemma_off_in_bounds(wi, hti, x as int, y as int, 0);
            }
            let m2 = grad_m2(&snap, x, y, width);
            let v = edge_mag_exec(m2);
            let idx0: usize = (y * width + x) * 4;
            data.set(idx0, v);
            data.set(idx0 + 1, v);
            data.set(idx0 + 2, v);
            proof {
                lemma_decode(wi, x as int, y as int, 0);
                assert forall|j: int|
                    0 <= j < o.len() && scan_lt(wi, j, x as int + 1, y as int) implies data@[j]
                    == edge_spec(o, wi, hti)[j] by {
                    lemma_pix_range(wi, hti, j);
                }
                assert forall|j: int|
                    0 <= j < o.len() && !scan_lt(wi, j, x as int + 1, y as int) implies data@[j]
                    == o[j] by {
                    lemma_pix_range(wi, hti, j);
                }
            }
            x = x + 1;
        }
        proof {
            assert forall|j: int|
                0 <= j < o.len() && scan_lt(wi, j, 1, y as int + 1) implies data@[j] == edge_spec(
                o,
                wi,
                hti,
            )[j] by {
                lemma_pix_range(wi, hti, j);
            }
            assert forall|j: int|
                0 <= j < o.len() && !scan_lt(wi, j, 1, y as int + 1) implies data@[j] == o[j] by {
                lemma_pix_range(wi, hti, j);
            }
        }
        y = y + 1;
    }
    proof {
        assert forall|j: int| 0 <= j < o.len() implies data@[j] == edge_spec(o, wi, hti)[j] by {
            lemma_pix_range(wi, hti, j);
        }
        assert(data@ =~= edge_spec(o, wi, hti));
    }
}

/// One pixel of the sharpening pass: advances the scan frontier from
/// column `x` to column `x + 1` of row `y`.
#[verifier::loop_isolation(false)]
#[verifier::rlimit(100)]
fn sharpen_pixel(
    data: &mut Vec<u8>,
    snap: &Vec<u8>,
    width: usize,
    height: usize,
    x: usize,
    y: usize,
)
    requires
        3 <= width,
        3 <= height,
        1 <= x < width - 1,
        1 <= y < height - 1,
        snap@.len() == width as int * height as int * 4,
        old(data)@.len() == snap@.len(),
        forall|j: int|
            0 <= j < snap@.len() && scan_lt(width as int, j, x as int, y as int) ==> old(data)@[j]
                == sharpen_spec(snap@, width as int, height as int)[j],
        forall|j: int|
            0 <= j < snap@.len() && !scan_lt(width as int, j, x as int, y as int) ==> old(data)@[j] == snap@[j],
    ensures
        final(data)@.len() == snap@.len(),
        forall|j: int|
            0 <= j < snap@.len() && scan_lt(width as int, j, x as int + 1, y as int) ==> final(data)@[j] == sharpen_spec(snap@, width as int, height as int)[j],
        forall|j: int|
            0 <= j < snap@.len() && !scan_lt(width as int, j, x as int + 1, y as int) ==> final(data)@[j] == snap@[j],
{
    let ghost o = snap@;
    let ghost wi = width as int;
    let ghost hti = height as int;
    let total = data.len();
    proof {
        lemma_off_in_bounds(wi, hti, x as int, y as int, 0);
        lemma_off_in_bounds(wi, hti, x as int - 1, y as int, 0);
        lemma_off_in_bounds(wi, hti, x as int + 1, y as int, 0);
        lemma_off_in_bounds(wi, hti, x as int, y as int - 1, 0);
        lemma_off_in_bounds(wi, hti, x as int, y as int + 1, 0);
    }
    let idx0: usize = (y * width + x) * 4;
    let idxu: usize = ((y - 1) * width + x) * 4;
    let idxd: usize = ((y + 1) * width + x) * 4;
    let mut c: usize = 0;
    while c < 3
        invariant
            c <= 3,
            data@.len() == o.len(),
            forall|j: int|
                0 <= j < o.len() && scan_lt(wi, j, x as int, y as int) ==> data@[j]
                    == sharpen_spec(o, wi, hti)[j],
            forall|j: int|
                0 <= j < o.len() && !scan_lt(wi, j, x as int, y as int) && !(idx0 <= j < idx0 + c)
                    ==> data@[j] == o[j],
            forall|j: int|
                idx0 <= j < idx0 + c ==> data@[j] == sharp_chan(
                    o[off(wi, x as int, y as int, j - idx0)],
                    o[off(wi, x as int - 1, y as int, j - idx0)],
                    o[off(wi, x as int + 1, y as int, j - idx0)],
                    o[off(wi, x as int, y as int - 1, j - idx0)],
                    o[off(wi, x as int, y as int + 1, j - idx0)],
                ),
        decreases 3 - c,
    {
        proof {
            assert(!scan_lt(wi, idx0 + c, x as int, y as int)) by {
                lemma_decode(wi, x as int, y as int, c as int);
            }
        }
        let m = snap[idx0 + c];
        let l = snap[idx0 - 4 + c];
        let r = snap[idx0 + 4 + c];
        let u = snap[idxu + c];
        let d = snap[idxd + c];
        let nv = sharp_value(m, l, r, u, d);
        data.set(idx0 + c, nv);
        c = c + 1;
    }
    proof {
        lemma_decode(wi, x as int, y as int, 0);
        assert forall|j: int|
            0 <= j < o.len() && scan_lt(wi, j, x as int + 1, y as int) implies data@[j]
            == sharpen_spec(o, wi, hti)[j] by {
            lemma_pix_range(wi, hti, j);
        }
        assert forall|j: int|
            0 <= j < o.len() && !scan_lt(wi, j, x as int + 1, y as int) implies data@[j]
            == o[j] by {
            lemma_pix_range(wi, hti, j);
        }
    }
}

/// One row of the sharpening pass: advances the scan frontier from the
/// start of row `y` to the start of row `y + 1`.
#[verifier::loop_isolation(false)]
#[verifier::rlimit(100)]
fn sharpen_row(data: &mut Vec<u8>, snap: &Vec<u8>, width: usize, height: usize, y: usize)
    requires
        3 <= width,
        3 <= height,
        1 <= y < height - 1,
        snap@.len() == width as int * height as int * 4,
        old(data)@.len() == snap@.len(),
        forall|j: int|
            0 <= j < snap@.len() && scan_lt(width as int, j, 1, y as int) ==> old(data)@[j]
                == sharpen_spec(snap@, width as int, height as int)[j],
        forall|j: int|
            0 <= j < snap@.len() && !scan_lt(width as int, j, 1, y as int) ==> old(data)@[j]
                == snap@[j],
    ensures
        final(data)@.len() == snap@.len(),
        forall|j: int|
            0 <= j < snap@.len() && scan_lt(width as int, j, 1, y as int + 1) ==> final(data)@[j]
                == sharpen_spec(snap@, width as int, height as int)[j],
        forall|j: int|
            0 <= j < snap@.len() && !scan_lt(width as int, j, 1, y as int + 1) ==> final(data)@[j]
                == snap@[j],
{
    let ghost o = snap@;
    let ghost wi = width as int;
    let ghost hti = height as int;
    let mut x: usize = 1;
    while x < width - 1
        invariant
            1 <= x <= width - 1,
            data@.len() == o.len(),
            forall|j: int|
                0 <= j < o.len() && scan_lt(wi, j, x as int, y as int) ==> data@[j]
                    == sharpen_spec(o, wi, hti)[j],
            forall|j: int|
                0 <= j < o.len() && !scan_lt(wi, j, x as int, y as int) ==> data@[j] == o[j],
        decreases width - x,
    {
        sharpen_pixel(data, snap, width, height, x, y);
        x = x + 1;
    }
    proof {
        assert forall|j: int|
            0 <= j < o.len() && scan_lt(wi, j, 1, y as int + 1) implies data@[j] == sharpen_spec(
            o,
            wi,
            hti,
        )[j] by {
            lemma_pix_range(wi, hti, j);
        }
        assert forall|j: int|
            0 <= j < o.len() && !scan_lt(wi, j, 1, y as int + 1) implies data@[j] == o[j] by {
            lemma_pix_range(wi, hti, j);
        }
    }
}

/// In-place sharpening pass.
#[verifier::loop_isolation(false)]
#[verifier::rlimit(100)]
pub fn sharpen_pass(data: &mut Vec<u8>, width: usize, height: usize)
    requires
        old(data)@.len() == width as int * height as int * 4,
    ensures
        final(data)@ == sharpen_spec(old(data)@, width as int, height as int),
{
    let ghost o = old(data)@;
    let ghost wi = width as int;
    let ghost hti = height as int;
    if width < 3 || height < 3 {
        proof {
            assert forall|j: int| 0 <= j < o.len() implies sharpen_spec(o, wi, hti)[j] == o[j] by {
                assert(wi >= 1 && hti >= 1) by (nonlinear_arith)
                    requires
                        o.len() == wi * hti * 4,
                        o.len() > 0,
                        wi >= 0,
                        hti >= 0,
                ;
                lemma_pix_range(wi, hti, j);
            }
            assert(data@ =~= sharpen_spec(o, wi, hti));
        }
        return ;
    }
    let snap = snapshot(data);
    let mut y: usize = 1;
    while y < height - 1
        invariant
            1 <= y <= height - 1,
            data@.len() == o.len(),
            forall|j: int|
                0 <= j < o.len() && scan_lt(wi, j, 1, y as int) ==> data@[j] == sharpen_spec(
                    o,
                    wi,
                    hti,
                )[j],
            forall|j: int| 0 <= j < o.len() && !scan_lt(wi, j, 1, y as int) ==> data@[j] == o[j],
        decreases height - y,
    {
        sharpen_row(data, &snap, width, height, y);
        y = y + 1;
    }
    proof {
        assert forall|j: int| 0 <= j < o.len() implies data@[j] == sharpen_spec(o, wi, hti)[j] by {
            lemma_pix_range(wi, hti, j);
        }
        assert(data@ =~= sharpen_spec(o, wi, hti));
    }
}

/// One pixel of the edge-enhancement pass: advances the scan frontier
/// from column `x` to column `x + 1` of row `y`.
#[verifier::loop_isolation(false)]
#[verifier::rlimit(100)]
fn enhance_pixel(
    data: &mut Vec<u8>,
    snap: &Vec<u8>,
    width: usize,
    height: usize,
    x: usize,
    y: usize,
)
    requires
        3 <= width,
        3 <= height,
        1 <= x < width - 1,
        1 <= y < height - 1,
        snap@.len() == width as int * height as int * 4,
        old(data)@.len() == snap@.len(),
        forall|j: int|
            0 <= j < snap@.len() && scan_lt(width as int, j, x as int, y as int) ==> old(data)@[j]
                == enhance_spec(snap@, width as int, height as int)[j],
        forall|j: int|
            0 <= j < snap@.len() && !scan_lt(width as int, j, x as int, y as int) ==> old(data)@[j] == snap@[j],
    ensures
        final(data)@.len() == snap@.len(),
        forall|j: int|
            0 <= j < snap@.len() && scan_lt(width as int, j, x as int + 1, y as int) ==> final(data)@[j] == enhance_spec(snap@, width as int, height as int)[j],
        forall|j: int|
            0 <= j < snap@.len() && !scan_lt(width as int, j, x as int + 1, y as int) ==> final(data)@[j] == snap@[j],
{
    let ghost o = snap@;
    let ghost wi = width as int;
    let ghost hti = height as int;
    let total = data.len();
    proof {
        lemma_off_in_bounds(wi, hti, x as int + 1, y as int + 1, 2);
        lemma_off_in_bounds(wi, hti, x as int, y as int, 0);
    }
    let m2 = grad_m2(snap, x, y, width);
    let idx0: usize = (y * width + x) * 4;
    let mut c: usize = 0;
    while c < 3
        invariant
            c <= 3,
            data@.len() == o.len(),
            forall|j: int|
                0 <= j < o.len() && scan_lt(wi, j, x as int, y as int) ==> data@[j]
                    == enhance_spec(o, wi, hti)[j],
            forall|j: int|
                0 <= j < o.len() && !scan_lt(wi, j, x as int, y as int) && !(idx0 <= j < idx0 + c)
                    ==> data@[j] == o[j],
            forall|j: int|
                idx0 <= j < idx0 + c ==> data@[j] == enh_chan(
                    o[j],
                    mag2(o, wi, x as int, y as int),
                ),
        decreases 3 - c,
    {
        proof {
            assert(!scan_lt(wi, idx0 + c, x as int, y as int)) by {
                lemma_decode(wi, x as int, y as int, c as int);
            }
        }
        let s0 = snap[idx0 + c];
        let nv = enh_value(s0, m2);
        data.set(idx0 + c, nv);
        c = c + 1;
    }
    proof {
        lemma_decode(wi, x as int, y as int, 0);
        assert forall|j: int|
            0 <= j < o.len() && scan_lt(wi, j, x as int + 1, y as int) implies data@[j]
            == enhance_spec(o, wi, hti)[j] by {
            lemma_pix_range(wi, hti, j);
        }
        assert forall|j: int|
            0 <= j < o.len() && !scan_lt(wi, j, x as int + 1, y as int) implies data@[j]
            == o[j] by {
            lemma_pix_range(wi, hti, j);
        }
    }
}

/// One row of the edge-enhancement pass: advances the scan frontier from
/// the start of row `y` to the start of row `y + 1`.
#[verifier::loop_isolation(false)]
#[verifier::rlimit(100)]
fn enhance_row(data: &mut Vec<u8>, snap: &Vec<u8>, width: usize, height: usize, y: usize)
    requires
        3 <= width,
        3 <= height,
        1 <= y < height - 1,
        snap@.len() == width as int * height as int * 4,
        old(data)@.len() == snap@.len(),
        forall|j: int|
            0 <= j < snap@.len() && scan_lt(width as int, j, 1, y as int) ==> old(data)@[j]
                == enhance_spec(snap@, width as int, height as int)[j],
        forall|j: int|
            0 <= j < snap@.len() && !scan_lt(width as int, j, 1, y as int) ==> old(data)@[j]
                == snap@[j],
    ensures
        final(data)@.len() == snap@.len(),
        forall|j: int|
            0 <= j < snap@.len() && scan_lt(width as int, j, 1, y as int + 1) ==> final(data)@[j]
                == enhance_spec(snap@, width as int, height as int)[j],
        forall|j: int|
            0 <= j < snap@.len() && !scan_lt(width as int, j, 1, y as int + 1) ==> final(data)@[j]
                == snap@[j],
{
    let ghost o = snap@;
    let ghost wi = width as int;
    let ghost hti = height as int;
    let mut x: usize = 1;
    while x < width - 1
        invariant
            1 <= x <= width - 1,
            data@.len() == o.len(),
            forall|j: int|
                0 <= j < o.len() && scan_lt(wi, j, x as int, y as int) ==> data@[j]
                    == enhance_spec(o, wi, hti)[j],
            forall|j: int|
                0 <= j < o.len() && !scan_lt(wi, j, x as int, y as int) ==> data@[j] == o[j],
        decreases width - x,
    {
        enhance_pixel(data, snap, width, height, x, y);
        x = x + 1;
    }
    proof {
        assert forall|j: int|
            0 <= j < o.len() && scan_lt(wi, j, 1, y as int + 1) implies data@[j] == enhance_spec(
            o,
            wi,
            hti,
        )[j] by {
            lemma_pix_range(wi, hti, j);
        }
        assert forall|j: int|
            0 <= j < o.len() && !scan_lt(wi, j, 1, y as int + 1) implies data@[j] == o[j] by {
            lemma_pix_range(wi, hti, j);
        }
    }
}

/// In-place edge-enhancement pass.
#[verifier::loop_isolation(false)]
#[verifier::rlimit(100)]
pub fn enhance_pass(data: &mut Vec<u8>, width: usize, height: usize)
    requires
        old(data)@.len() == width as int * height as int * 4,
    ensures
        final(data)@ == enhance_spec(old(data)@, width as int, height as int),
{
    let ghost o = old(data)@;
    let ghost wi = width as int;
    let ghost hti = height as int;
    if width < 3 || height < 3 {
        proof {
            assert forall|j: int| 0 <= j < o.len() implies enhance_spec(o, wi, hti)[j] == o[j] by {
                assert(wi >= 1 && hti >= 1) by (nonlinear_arith)
                    requires
                        o.len() == wi * hti * 4,
                        o.len() > 0,
                        wi >= 0,
                        hti >= 0,
                ;
                lemma_pix_range(wi, hti, j);
            }
            assert(data@ =~= enhance_spec(o, wi, hti));
        }
        return ;
    }
    let snap = snapshot(data);
    let mut y: usize = 1;
    while y < height - 1
        invariant
            1 <= y <= height - 1,
            data@.len() == o.len(),
            forall|j: int|
                0 <= j < o.len() && scan_lt(wi, j, 1, y as int) ==> data@[j] == enhance_spec(
                    o,
                    wi,
                    hti,
                )[j],
            forall|j: int| 0 <= j < o.len() && !scan_lt(wi, j, 1, y as int) ==> data@[j] == o[j],
        decreases height - y,
    {
        enhance_row(data, &snap, width, height, y);
        y = y + 1;
    }
    proof {
        assert forall|j: int| 0 <= j < o.len() implies data@[j] == enhance_spec(o, wi, hti)[j] by {
            lemma_pix_range(wi, hti, j);
        }
        assert(data@ =~= enhance_spec(o, wi, hti));
    }
}

} // verus!
