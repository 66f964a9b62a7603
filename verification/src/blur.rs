//! The separable box blur: a horizontal then a vertical averaging pass.
//!
//! The radius is carried in half-pixel steps (`half` is twice the real
//! radius, rounded down): the window of the pass at coordinate `x` is
//! `[x - half/2, x - half/2 + half]` clipped to the axis, which for a
//! whole radius `r` is the symmetric window `[x - r, x + r]`.  Each
//! channel is averaged independently over the clipped window, and the
//! average is floored; the window narrows at the edges rather than
//! padding.  Alpha bytes are never touched.

use vstd::prelude::*;
use crate::buffer::{off, lemma_off_in_bounds, lemma_decode, snapshot};
use vstd::arithmetic::div_mod::{lemma_div_is_ordered, lemma_div_multiples_vanish, lemma_div_pos_is_pos};

verus! {

/// Lower edge of the clipped window centered near `x`.
pub open spec fn win_lo(x: int, half: int) -> int {
    if x - half / 2 > 0 {
        x - half / 2
    } else {
        0
    }
}

/// Upper edge of the clipped window centered near `x`, on an axis of
/// extent `w`.
pub open spec fn win_hi(x: int, half: int, w: int) -> int {
    if x - half / 2 + half < w - 1 {
        x - half / 2 + half
    } else {
        w - 1
    }
}

/// Sum of channel `c` over columns `lo ..= hi` of row `y`.
pub open spec fn row_sum(s: Seq<u8>, w: int, y: int, c: int, lo: int, hi: int) -> int
    decreases hi + 1 - lo,
{
    if lo > hi {
        0
    } else {
        s[off(w, lo, y, c)] + row_sum(s, w, y, c, lo + 1, hi)
    }
}

/// Sum of channel `c` over rows `lo ..= hi` of column `x`.
pub open spec fn col_sum(s: Seq<u8>, w: int, x: int, c: int, lo: int, hi: int) -> int
    decreases hi + 1 - lo,
{
    if lo > hi {
        0
    } else {
        s[off(w, x, lo, c)] + col_sum(s, w, x, c, lo + 1, hi)
    }
}

/// The horizontal pass: every R, G, B byte becomes the floored average of
/// its channel over the clipped row window; alpha bytes are kept.
pub open spec fn blur_h_spec(s: Seq<u8>, w: int, half: int) -> Seq<u8> {
    Seq::new(
        s.len(),
        |i: int|
            {
                let c = i % 4;
                let p = i / 4;
                let x = p % w;
                let y = p / w;
                if c < 3 {
                    let lo = win_lo(x, half);
                    let hi = win_hi(x, half, w);
                    (row_sum(s, w, y, c, lo, hi) / (hi - lo + 1)) as u8
                } else {
                    s[i]
                }
            },
    )
}

/// The vertical pass: the same averaging over the clipped column window.
pub open spec fn blur_v_spec(s: Seq<u8>, w: int, h: int, half: int) -> Seq<u8> {
    Seq::new(
        s.len(),
        |i: int|
            {
                let c = i % 4;
                let p = i / 4;
                let x = p % w;
                let y = p / w;
                if c < 3 {
                    let lo = win_lo(y, half);
                    let hi = win_hi(y, half, h);
                    (col_sum(s, w, x, c, lo, hi) / (hi - lo + 1)) as u8
                } else {
                    s[i]
                }
            },
    )
}

/// Peeling the top element off a row sum.
proof fn lemma_row_sum_snoc(s: Seq<u8>, w: int, y: int, c: int, lo: int, hi: int)
    requires
        lo <= hi,
    ensures
        row_sum(s, w, y, c, lo, hi) == row_sum(s, w, y, c, lo, hi - 1) + s[off(w, hi, y, c)],
    decreases hi + 1 - lo,
{
    if lo < hi {
        lemma_row_sum_snoc(s, w, y, c, lo + 1, hi);
    } else {
        assert(row_sum(s, w, y, c, lo + 1, hi) == 0);
        assert(row_sum(s, w, y, c, lo, hi - 1) == 0);
    }
}

/// Peeling the top element off a column sum.
proof fn lemma_col_sum_snoc(s: Seq<u8>, w: int, x: int, c: int, lo: int, hi: int)
    requires
        lo <= hi,
    ensures
        col_sum(s, w, x, c, lo, hi) == col_sum(s, w, x, c, lo, hi - 1) + s[off(w, x, hi, c)],
    decreases hi + 1 - lo,
{
    if lo < hi {
        lemma_col_sum_snoc(s, w, x, c, lo + 1, hi);
    } else {
        assert(col_sum(s, w, x, c, lo + 1, hi) == 0);
        assert(col_sum(s, w, x, c, lo, hi - 1) == 0);
    }
}

/// A sum of byte channels lies between 0 and 255 per element.
proof fn lemma_row_sum_bounds(s: Seq<u8>, w: int, y: int, c: int, lo: int, hi: int)
    ensures
        0 <= row_sum(s, w, y, c, lo, hi),
        row_sum(s, w, y, c, lo, hi) <= if hi + 1 - lo > 0 {
            255 * (hi + 1 - lo)
        } else {
            0
        },
    decreases hi + 1 - lo,
{
    if lo <= hi {
        lemma_row_sum_bounds(s, w, y, c, lo + 1, hi);
    }
}

/// A sum of byte channels lies between 0 and 255 per element.
proof fn lemma_col_sum_bounds(s: Seq<u8>, w: int, x: int, c: int, lo: int, hi: int)
    ensures
        0 <= col_sum(s, w, x, c, lo, hi),
        col_sum(s, w, x, c, lo, hi) <= if hi + 1 - lo > 0 {
            255 * (hi + 1 - lo)
        } else {
            0
        },
    decreases hi + 1 - lo,
{
    if lo <= hi {
        lemma_col_sum_bounds(s, w, x, c, lo + 1, hi);
    }
}

/// A floored average of bytes is itself a byte value.
proof fn lemma_avg_in_byte(sum: int, cnt: int)
    requires
        0 <= sum,
        sum <= 255 * cnt,
        1 <= cnt,
    ensures
        0 <= sum / cnt <= 255,
{
    lemma_div_is_ordered(sum, 255 * cnt, cnt);
    lemma_div_multiples_vanish(255, cnt);
    assert(cnt * 255 == 255 * cnt) by (nonlinear_arith);
    lemma_div_pos_is_pos(sum, cnt);
}

/// In-place horizontal averaging pass.
#[verifier::loop_isolation(false)]
#[verifier::rlimit(80)]
pub fn blur_h_pass(data: &mut Vec<u8>, width: usize, height: usize, half: u32)
    requires
        old(data)@.len() == width as int * height as int * 4,
    ensures
        final(data)@ == blur_h_spec(old(data)@, width as int, half as int),
{
    let ghost o = old(data)@;
    let ghost wi = width as int;
    let ghost hf = half as int;
    if width == 0 || height == 0 {
        proof {
            assert(o.len() == 0) by (nonlinear_arith)
                requires
                    o.len() == width as int * height as int * 4,
                    width == 0 || height == 0,
            ;
            assert(data@ =~= blur_h_spec(o, wi, hf));
        }
        return ;
    }
    let snap = snapshot(data);
    let n = data.len();
    let offu: u32 = half / 2;
    let span: u32 = half - offu;
    proof {
        assert(n as int == o.len());
        assert(wi * 4 <= wi * (height as int) * 4) by (nonlinear_arith)
            requires
                height >= 1,
                wi >= 0,
        ;
    }
    let mut y: usize = 0;
    while y < height
        invariant
            y <= height,
            data@.len() == o.len(),
            forall|j: int|
                0 <= j < off(wi, 0, y as int, 0) ==> data@[j] == blur_h_spec(o, wi, hf)[j],
            forall|j: int| off(wi, 0, y as int, 0) <= j < o.len() ==> data@[j] == o[j],
        decreases height - y,
    {
        let mut x: usize = 0;
        proof {
            assert(off(wi, 0, y as int, 0) >= 0) by (nonlinear_arith)
                requires
                    y >= 0,
                    wi >= 0,
            ;
        }
        while x < width
            invariant
                x <= width,
                data@.len() == o.len(),
                forall|j: int|
                    0 <= j < off(wi, x as int, y as int, 0) ==> data@[j] == blur_h_spec(
                        o,
                        wi,
                        hf,
                    )[j],
                forall|j: int| off(wi, x as int, y as int, 0) <= j < o.len() ==> data@[j] == o[j],
            decreases width - x,
        {
            let lo: usize = if x > offu as usize {
                x - offu as usize
            } else {
                0
            };
            proof {
                lemma_off_in_bounds(wi, height as int, x as int, y as int, 0);
            }
            let hi64: u64 = x as u64 + span as u64;
            let hi: usize = if hi64 > (width - 1) as u64 {
                width - 1
            } else {
                hi64 as usize
            };
            proof {
                assert(lo as int == win_lo(x as int, hf));
                assert(hi as int == win_hi(x as int, hf, wi));
            }
            let cnt: usize = hi - lo + 1;
            let idx0: usize = (y * width + x) * 4;
            let mut px: usize = lo;
            let mut rs: u128 = 0;
            let mut gs: u128 = 0;
            let mut bs: u128 = 0;
            while px <= hi
                invariant
                    lo <= px <= hi + 1,
                    rs == row_sum(o, wi, y as int, 0, lo as int, px as int - 1),
                    gs == row_sum(o, wi, y as int, 1, lo as int, px as int - 1),
                    bs == row_sum(o, wi, y as int, 2, lo as int, px as int - 1),
                decreases hi + 1 - px,
            {
                proof {
                    lemma_off_in_bounds(wi, height as int, px as int, y as int, 0);
                    lemma_row_sum_bounds(o, wi, y as int, 0, lo as int, px as int - 1);
                    lemma_row_sum_bounds(o, wi, y as int, 1, lo as int, px as int - 1);
                    lemma_row_sum_bounds(o, wi, y as int, 2, lo as int, px as int - 1);
                }
                let idx: usize = (y * width + px) * 4;
                rs = rs + snap[idx] as u128;
                gs = gs + snap[idx + 1] as u128;
                bs = bs + snap[idx + 2] as u128;
                proof {
                    lemma_row_sum_snoc(o, wi, y as int, 0, lo as int, px as int);
                    lemma_row_sum_snoc(o, wi, y as int, 1, lo as int, px as int);
                    lemma_row_sum_snoc(o, wi, y as int, 2, lo as int, px as int);
                }
                px = px + 1;
            }
            proof {
                lemma_row_sum_bounds(o, wi, y as int, 0, lo as int, hi as int);
                lemma_row_sum_bounds(o, wi, y as int, 1, lo as int, hi as int);
                lemma_row_sum_bounds(o, wi, y as int, 2, lo as int, hi as int);
                lemma_avg_in_byte(rs as int, cnt as int);
                lemma_avg_in_byte(gs as int, cnt as int);
                lemma_avg_in_byte(bs as int, cnt as int);
            }
            let vr: u8 = (rs / cnt as u128) as u8;
            let vg: u8 = (gs / cnt as u128) as u8;
            let vb: u8 = (bs / cnt as u128) as u8;
            data.set(idx0, vr);
            data.set(idx0 + 1, vg);
            data.set(idx0 + 2, vb);
            proof {
                lemma_decode(wi, x as int, y as int, 0);
                lemma_decode(wi, x as int, y as int, 1);
                lemma_decode(wi, x as int, y as int, 2);
                lemma_decode(wi, x as int, y as int, 3);
                assert(off(wi, x as int + 1, y as int, 0) == off(wi, x as int, y as int, 0) + 4);
                assert forall|j: int|
                    0 <= j < off(wi, x as int + 1, y as int, 0) implies data@[j] == blur_h_spec(
                    o,
                    wi,
                    hf,
                )[j] by {
                    if j < off(wi, x as int, y as int, 0) {
                    } else {
                        assert(j == idx0 + (j - idx0));
                    }
                }
            }
            x = x + 1;
        }
        proof {
            assert((y as int) * wi + wi == (y as int + 1) * wi) by (nonlinear_arith);
            assert(off(wi, width as int, y as int, 0) == off(wi, 0, y as int + 1, 0));
        }
        y = y + 1;
    }
    proof {
        assert((height as int) * wi == wi * (height as int)) by (nonlinear_arith);
        assert(off(wi, 0, height as int, 0) == o.len());
        assert(data@ =~= blur_h_spec(o, wi, hf));
    }
}

/// In-place vertical averaging pass.
#[verifier::loop_isolation(false)]
#[verifier::rlimit(80)]
pub fn blur_v_pass(data: &mut Vec<u8>, width: usize, height: usize, half: u32)
    requires
        old(data)@.len() == width as int * height as int * 4,
    ensures
        final(data)@ == blur_v_spec(old(data)@, width as int, height as int, half as int),
{
    let ghost o = old(data)@;
    let ghost wi = width as int;
    let ghost hti = height as int;
    let ghost hf = half as int;
    if width == 0 || height == 0 {
        proof {
            assert(o.len() == 0) by (nonlinear_arith)
                requires
                    o.len() == width as int * height as int * 4,
                    width == 0 || height == 0,
            ;
            assert(data@ =~= blur_v_spec(o, wi, hti, hf));
        }
        return ;
    }
    let snap = snapshot(data);
    let n = data.len();
    let offu: u32 = half / 2;
    let span: u32 = half - offu;
    proof {
        assert(n as int == o.len());
        assert(hti * 4 <= wi * hti * 4) by (nonlinear_arith)
            requires
                wi >= 1,
                hti >= 0,
        ;
    }
    let mut y: usize = 0;
    while y < height
        invariant
            y <= height,
            data@.len() == o.len(),
            forall|j: int|
                0 <= j < off(wi, 0, y as int, 0) ==> data@[j] == blur_v_spec(o, wi, hti, hf)[j],
            forall|j: int| off(wi, 0, y as int, 0) <= j < o.len() ==> data@[j] == o[j],
        decreases height - y,
    {
        let lo: usize = if y > offu as usize {
            y - offu as usize
        } else {
            0
        };
        let hi64: u64 = y as u64 + span as u64;
        let hi: usize = if hi64 > (height - 1) as u64 {
            height - 1
        } else {
            hi64 as usize
        };
        proof {
            assert(lo as int == win_lo(y as int, hf));
            assert(hi as int == win_hi(y as int, hf, hti));
        }
        let cnt: usize = hi - lo + 1;
        let mut x: usize = 0;
        proof {
            assert(off(wi, 0, y as int, 0) >= 0) by (nonlinear_arith)
                requires
                    y >= 0,
                    wi >= 0,
            ;
        }
        while x < width
            invariant
                x <= width,
                data@.len() == o.len(),
                forall|j: int|
                    0 <= j < off(wi, x as int, y as int, 0) ==> data@[j] == blur_v_spec(
                        o,
                        wi,
                        hti,
                        hf,
                    )[j],
                forall|j: int| off(wi, x as int, y as int, 0) <= j < o.len() ==> data@[j] == o[j],
            decreases width - x,
        {
            proof {
                lemma_off_in_bounds(wi, hti, x as int, y as int, 0);
            }
            let idx0: usize = (y * width + x) * 4;
            let mut py: usize = lo;
            let mut rs: u128 = 0;
            let mut gs: u128 = 0;
            let mut bs: u128 = 0;
            while py <= hi
                invariant
                    lo <= py <= hi + 1,
                    rs == col_sum(o, wi, x as int, 0, lo as int, py as int - 1),
                    gs == col_sum(o, wi, x as int, 1, lo as int, py as int - 1),
                    bs == col_sum(o, wi, x as int, 2, lo as int, py as int - 1),
                decreases hi + 1 - py,
            {
                proof {
                    lemma_off_in_bounds(wi, hti, x as int, py as int, 0);
                    lemma_col_sum_bounds(o, wi, x as int, 0, lo as int, py as int - 1);
                    lemma_col_sum_bounds(o, wi, x as int, 1, lo as int, py as int - 1);
                    lemma_col_sum_bounds(o, wi, x as int, 2, lo as int, py as int - 1);
                }
                let idx: usize = (py * width + x) * 4;
                rs = rs + snap[idx] as u128;
                gs = gs + snap[idx + 1] as u128;
                bs = bs + snap[idx + 2] as u128;
                proof {
                    lemma_col_sum_snoc(o, wi, x as int, 0, lo as int, py as int);
                    lemma_col_sum_snoc(o, wi, x as int, 1, lo as int, py as int);
                    lemma_col_sum_snoc(o, wi, x as int, 2, lo as int, py as int);
                }
                py = py + 1;
            }
            proof {
                lemma_col_sum_bounds(o, wi, x as int, 0, lo as int, hi as int);
                lemma_col_sum_bounds(o, wi, x as int, 1, lo as int, hi as int);
                lemma_col_sum_bounds(o, wi, x as int, 2, lo as int, hi as int);
                lemma_avg_in_byte(rs as int, cnt as int);
                lemma_avg_in_byte(gs as int, cnt as int);
                lemma_avg_in_byte(bs as int, cnt as int);
            }
            let vr: u8 = (rs / cnt as u128) as u8;
            let vg: u8 = (gs / cnt as u128) as u8;
            let vb: u8 = (bs / cnt as u128) as u8;
            data.set(idx0, vr);
            data.set(idx0 + 1, vg);
            data.set(idx0 + 2, vb);
            proof {
                lemma_decode(wi, x as int, y as int, 0);
                lemma_decode(wi, x as int, y as int, 1);
                lemma_decode(wi, x as int, y as int, 2);
                lemma_decode(wi, x as int, y as int, 3);
                assert(off(wi, x as int + 1, y as int, 0) == off(wi, x as int, y as int, 0) + 4);
                assert forall|j: int|
                    0 <= j < off(wi, x as int + 1, y as int, 0) implies data@[j] == blur_v_spec(
                    o,
                    wi,
                    hti,
                    hf,
                )[j] by {
                    if j < off(wi, x as int, y as int, 0) {
                    } else {
                        assert(j == idx0 + (j - idx0));
                    }
                }
            }
            x = x + 1;
        }
        proof {
            assert((y as int) * wi + wi == (y as int + 1) * wi) by (nonlinear_arith);
            assert(off(wi, width as int, y as int, 0) == off(wi, 0, y as int + 1, 0));
        }
        y = y + 1;
    }
    proof {
        assert(hti * wi == wi * hti) by (nonlinear_arith);
        assert(off(wi, 0, hti, 0) == o.len());
        assert(data@ =~= blur_v_spec(o, wi, hti, hf));
    }
}

} // verus!
