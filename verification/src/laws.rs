//! Buffer-level laws of the filter engine, each proved against the
//! operation specifications: alpha preservation, the identity of the
//! zero-radius blur, the involution of the negative, channel ranges,
//! the shape of edge detection, the fixed point of sharpening on a
//! uniform image, and the identity of the interior passes on rasters
//! too small to have an interior.

use vstd::prelude::*;
use crate::buffer::{off, interior, lemma_off_in_bounds, lemma_decode, lemma_pix_range};
use crate::blur::{win_lo, win_hi, row_sum, col_sum, blur_h_spec, blur_v_spec};
use crate::conv::{edge_spec, edge_mag, mag2, sharpen_spec, sharp_chan, enhance_spec};
use crate::hdr::{hdr_spec, poster_spec};
use crate::point::{sepia_spec, sepia_r, sepia_g, sepia_b, negative_spec};

verus! {

/// Law: no operation modifies an alpha byte.  Every alpha byte (offset
/// 3 of each pixel) of the image of any operation equals the alpha byte
/// of the argument, here stated for each single pass.
pub proof fn lemma_passes_preserve_alpha(s: Seq<u8>, w: int, h: int, half: int)
    ensures
        forall|i: int| 0 <= i < s.len() && i % 4 == 3 ==> #[trigger] sepia_spec(s)[i] == s[i],
        forall|i: int| 0 <= i < s.len() && i % 4 == 3 ==> #[trigger] negative_spec(s)[i] == s[i],
        forall|i: int| 0 <= i < s.len() && i % 4 == 3 ==> #[trigger] hdr_spec(s)[i] == s[i],
        forall|i: int| 0 <= i < s.len() && i % 4 == 3 ==> #[trigger] poster_spec(s)[i] == s[i],
        forall|i: int|
            0 <= i < s.len() && i % 4 == 3 ==> #[trigger] blur_h_spec(s, w, half)[i] == s[i],
        forall|i: int|
            0 <= i < s.len() && i % 4 == 3 ==> #[trigger] blur_v_spec(s, w, h, half)[i] == s[i],
        forall|i: int| 0 <= i < s.len() && i % 4 == 3 ==> #[trigger] edge_spec(s, w, h)[i] == s[i],
        forall|i: int|
            0 <= i < s.len() && i % 4 == 3 ==> #[trigger] sharpen_spec(s, w, h)[i] == s[i],
        forall|i: int|
            0 <= i < s.len() && i % 4 == 3 ==> #[trigger] enhance_spec(s, w, h)[i] == s[i],
{
}

/// Law: no operation modifies an alpha byte, stated for the two
/// composite operations (the blur's two passes, and the three-stage
/// stylization pipeline).
pub proof fn lemma_composites_preserve_alpha(s: Seq<u8>, w: int, h: int, half: int)
    ensures
        forall|i: int|
            0 <= i < s.len() && i % 4 == 3 ==> #[trigger] blur_v_spec(
                blur_h_spec(s, w, half),
                w,
                h,
                half,
            )[i] == s[i],
        forall|i: int|
            0 <= i < s.len() && i % 4 == 3 ==> #[trigger] enhance_spec(
                poster_spec(hdr_spec(s)),
                w,
                h,
            )[i] == s[i],
{
    lemma_passes_preserve_alpha(s, w, h, half);
    let t1 = blur_h_spec(s, w, half);
    lemma_passes_preserve_alpha(t1, w, h, half);
    assert forall|i: int|
        0 <= i < s.len() && i % 4 == 3 implies #[trigger] blur_v_spec(t1, w, h, half)[i]
        == s[i] by {
        assert(t1[i] == s[i]);
        assert(blur_v_spec(t1, w, h, half)[i] == t1[i]);
    }
    let t2 = hdr_spec(s);
    let t3 = poster_spec(t2);
    lemma_passes_preserve_alpha(t2, w, h, half);
    lemma_passes_preserve_alpha(t3, w, h, half);
    assert forall|i: int|
        0 <= i < s.len() && i % 4 == 3 implies #[trigger] enhance_spec(t3, w, h)[i] == s[i] by {
        assert(t2[i] == s[i]);
        assert(t3[i] == t2[i]);
        assert(enhance_spec(t3, w, h)[i] == t3[i]);
    }
}

/// Law: a blur of radius zero is the identity transform.
pub proof fn lemma_blur_zero_identity(s: Seq<u8>, w: int, h: int)
    requires
        s.len() == w * h * 4,
        0 <= w,
        0 <= h,
    ensures
        blur_v_spec(blur_h_spec(s, w, 0), w, h, 0) == s,
{
    if w >= 1 && h >= 1 {
        assert forall|i: int| 0 <= i < s.len() implies blur_h_spec(s, w, 0)[i] == s[i] by {
            lemma_pix_range(w, h, i);
            let p = i / 4;
            let x = p % w;
            let y = p / w;
            let c = i % 4;
            if c < 3 {
                assert(win_lo(x, 0) == x && win_hi(x, 0, w) == x);
                assert(row_sum(s, w, y, c, x + 1, x) == 0);
                assert(row_sum(s, w, y, c, x, x) == s[i]);
                vstd::arithmetic::div_mod::lemma_div_multiples_vanish(s[i] as int, 1);
            }
        }
        assert(blur_h_spec(s, w, 0) =~= s);
        assert forall|i: int| 0 <= i < s.len() implies blur_v_spec(s, w, h, 0)[i] == s[i] by {
            lemma_pix_range(w, h, i);
            let p = i / 4;
            let x = p % w;
            let y = p / w;
            let c = i % 4;
            if c < 3 {
                assert(win_lo(y, 0) == y && win_hi(y, 0, h) == y);
                assert(col_sum(s, w, x, c, y + 1, y) == 0);
                assert(col_sum(s, w, x, c, y, y) == s[i]);
                vstd::arithmetic::div_mod::lemma_div_multiples_vanish(s[i] as int, 1);
            }
        }
        assert(blur_v_spec(s, w, h, 0) =~= s);
    } else {
        assert(s.len() == 0) by (nonlinear_arith)
            requires
                s.len() == w * h * 4,
                0 <= w,
                0 <= h,
                w == 0 || h == 0,
        ;
        assert(blur_h_spec(s, w, 0) =~= s);
        assert(blur_v_spec(blur_h_spec(s, w, 0), w, h, 0) =~= s);
    }
}

/// Law: the negative is an involution on R, G and B — applying it twice
/// restores the original buffer.
pub proof fn lemma_negative_involution(s: Seq<u8>)
    ensures
        negative_spec(negative_spec(s)) == s,
{
    let t = negative_spec(s);
    assert forall|i: int| 0 <= i < s.len() implies negative_spec(t)[i] == s[i] by {
    }
    assert(negative_spec(t) =~= s);
}

/// Law: sepia never produces a channel value outside [0, 255].  The
/// matrix value is non-negative even before clamping, because the
/// coefficients are non-negative, so only the upper cap is ever needed.
pub proof fn lemma_sepia_in_range(r: u8, g: u8, b: u8)
    ensures
        0 <= (393 * (r as int) + 769 * (g as int) + 189 * (b as int)) / 1000,
        0 <= (349 * (r as int) + 686 * (g as int) + 168 * (b as int)) / 1000,
        0 <= (272 * (r as int) + 534 * (g as int) + 131 * (b as int)) / 1000,
        0 <= sepia_r(r, g, b) <= 255,
        0 <= sepia_g(r, g, b) <= 255,
        0 <= sepia_b(r, g, b) <= 255,
{
    vstd::arithmetic::div_mod::lemma_div_pos_is_pos(
        393 * (r as int) + 769 * (g as int) + 189 * (b as int),
        1000,
    );
    vstd::arithmetic::div_mod::lemma_div_pos_is_pos(
        349 * (r as int) + 686 * (g as int) + 168 * (b as int),
        1000,
    );
    vstd::arithmetic::div_mod::lemma_div_pos_is_pos(
        272 * (r as int) + 534 * (g as int) + 131 * (b as int),
        1000,
    );
}

/// Law: the stylization pipeline never produces a channel value outside
/// [0, 255].
pub proof fn lemma_stylize_in_range(s: Seq<u8>, w: int, h: int)
    ensures
        forall|i: int|
            0 <= i < s.len() ==> 0 <= #[trigger] enhance_spec(poster_spec(hdr_spec(s)), w, h)[i]
                <= 255,
{
}

/// Law: edge detection leaves the one-pixel border (and every byte of a
/// buffer without interior) unchanged, and on every interior pixel sets
/// R, G and B all to the same value, the rounded capped gradient
/// magnitude.
pub proof fn lemma_edge_detect_shape(s: Seq<u8>, w: int, h: int)
    requires
        s.len() == w * h * 4,
        1 <= w,
        1 <= h,
    ensures
        edge_spec(s, w, h).len() == s.len(),
        forall|i: int|
            0 <= i < s.len() && !interior(w, h, (i / 4) % w, (i / 4) / w) ==> #[trigger] edge_spec(
                s,
                w,
                h,
            )[i] == s[i],
        forall|x: int, y: int, c: int|
            interior(w, h, x, y) && 0 <= c < 3 ==> #[trigger] edge_spec(s, w, h)[off(w, x, y, c)]
                == edge_mag(mag2(s, w, x, y)),
{
    assert forall|x: int, y: int, c: int|
        interior(w, h, x, y) && 0 <= c < 3 implies #[trigger] edge_spec(s, w, h)[off(w, x, y, c)]
        == edge_mag(mag2(s, w, x, y)) by {
        lemma_off_in_bounds(w, h, x, y, c);
        lemma_decode(w, x, y, c);
    }
}

/// Law: sharpening a uniform-color image changes nothing — the kernel
/// coefficients sum to one, so each interior channel is reproduced, and
/// border pixels are never written.
pub proof fn lemma_sharpen_uniform_identity(s: Seq<u8>, w: int, h: int, r: u8, g: u8, b: u8)
    requires
        s.len() == w * h * 4,
        0 <= w,
        0 <= h,
        forall|x: int, y: int|
            #![trigger off(w, x, y, 0)]
            0 <= x < w && 0 <= y < h ==> s[off(w, x, y, 0)] == r && s[off(w, x, y, 1)] == g && s[off(
                w,
                x,
                y,
                2,
            )] == b,
    ensures
        sharpen_spec(s, w, h) == s,
{
    if w >= 1 && h >= 1 {
        assert forall|i: int| 0 <= i < s.len() implies sharpen_spec(s, w, h)[i] == s[i] by {
            lemma_pix_range(w, h, i);
            let p = i / 4;
            let x = p % w;
            let y = p / w;
            let c = i % 4;
            if c < 3 && interior(w, h, x, y) {
                assert((y - 1) * w == y * w - w && (y + 1) * w == y * w + w) by (nonlinear_arith);
                assert(s[off(w, x, y, 0)] == r && s[off(w, x - 1, y, 0)] == r && s[off(
                    w,
                    x + 1,
                    y,
                    0,
                )] == r && s[off(w, x, y - 1, 0)] == r && s[off(w, x, y + 1, 0)] == r);
                if c == 0 {
                    assert(sharp_chan(s[i], s[i], s[i], s[i], s[i]) == s[i]);
                } else if c == 1 {
                    assert(sharp_chan(s[i], s[i], s[i], s[i], s[i]) == s[i]);
                } else {
                    assert(sharp_chan(s[i], s[i], s[i], s[i], s[i]) == s[i]);
                }
            }
        }
        assert(sharpen_spec(s, w, h) =~= s);
    } else {
        assert(s.len() == 0) by (nonlinear_arith)
            requires
                s.len() == w * h * 4,
                0 <= w,
                0 <= h,
                w == 0 || h == 0,
        ;
        assert(sharpen_spec(s, w, h) =~= s);
    }
}

/// Law: on a raster with no interior (width or height below three) the
/// three neighborhood operations change nothing at all.
pub proof fn lemma_small_image_identity(s: Seq<u8>, w: int, h: int)
    requires
        s.len() == w * h * 4,
        0 <= w,
        0 <= h,
        w < 3 || h < 3,
    ensures
        edge_spec(s, w, h) == s,
        sharpen_spec(s, w, h) == s,
        enhance_spec(s, w, h) == s,
{
    if w >= 1 && h >= 1 {
        assert forall|i: int| 0 <= i < s.len() implies edge_spec(s, w, h)[i] == s[i]
            && sharpen_spec(s, w, h)[i] == s[i] && enhance_spec(s, w, h)[i] == s[i] by {
            lemma_pix_range(w, h, i);
        }
    } else {
        assert(s.len() == 0) by (nonlinear_arith)
            requires
                s.len() == w * h * 4,
                0 <= w,
                0 <= h,
                w == 0 || h == 0,
        ;
    }
    assert(edge_spec(s, w, h) =~= s);
    assert(sharpen_spec(s, w, h) =~= s);
    assert(enhance_spec(s, w, h) =~= s);
}

} // verus!