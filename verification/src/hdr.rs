//! The point stages of the stylization pipeline: HDR enhancement (gamma
//! 0.7 and a saturation boost of 1.8 around the luma) and posterization
//! to six evenly spaced levels.
//!
//! The gamma curve is exact integer arithmetic: the corrected channel is
//! carried in 1/4080 units, and `⌊4080 · (c/255)^(7/10)⌋` equals the
//! floor tenth root of `4080^10 · c^7 / 255^7 = 2^40 · 255^3 · c^7`,
//! an exact integer.

use vstd::prelude::*;
use crate::arith::{root10, root10_exec, p2, p10, lemma_mul_le_mul};

verus! {

/// Seventh power.
pub open spec fn p7(t: int) -> int {
    t * t * t * t * t * t * t
}

/// Gamma-corrected channel in 1/4080 units: `⌊4080 · (c/255)^0.7⌋`.
#[verifier::opaque]
pub open spec fn gamma_q(c: u8) -> int {
    root10(1099511627776 * 16581375 * p7(c as int))
}

/// One channel of HDR enhancement, in exact arithmetic: with `G` the
/// gamma-corrected channel and `L = ⌊0.299 Gr + 0.587 Gg + 0.114 Gb⌋`
/// the luma of the corrected pixel (all in 1/4080 units), the result is
/// `⌊(L + 1.8 (G - L)) / 16⌋ = ⌊(9 G - 4 L) / 80⌋` clamped to a byte;
/// dividing by 16 turns 1/4080 units back into 1/255 units.
pub open spec fn hdr_chan(c: u8, r: u8, g: u8, b: u8) -> u8 {
    let lum = (299 * gamma_q(r) + 587 * gamma_q(g) + 114 * gamma_q(b)) / 1000;
    let num = 9 * gamma_q(c) - 4 * lum;
    if num <= 0 {
        0u8
    } else if num / 80 > 255 {
        255u8
    } else {
        (num / 80) as u8
    }
}

/// HDR enhancement of a whole buffer: every R, G, B byte is replaced by
/// its enhanced value; every alpha byte is kept.
pub open spec fn hdr_spec(s: Seq<u8>) -> Seq<u8> {
    Seq::new(
        s.len(),
        |i: int|
            {
                let p = i - i % 4;
                if i % 4 < 3 {
                    hdr_chan(s[i], s[p], s[p + 1], s[p + 2])
                } else {
                    s[i]
                }
            },
    )
}

/// Posterization of one channel to 6 levels with step `255/5 = 51`:
/// the level is `round(v/51)` (a value is never exactly halfway), the
/// result `level * 51`, capped at 255.
pub open spec fn poster_v(v: u8) -> u8 {
    let lv = (2 * (v as int) + 51) / 102;
    if lv * 51 > 255 {
        255u8
    } else {
        (lv * 51) as u8
    }
}

/// Posterization of a whole buffer: every R, G, B byte is quantized;
/// every alpha byte is kept.
pub open spec fn poster_spec(s: Seq<u8>) -> Seq<u8> {
    Seq::new(
        s.len(),
        |i: int|
            if i % 4 < 3 {
                poster_v(s[i])
            } else {
                s[i]
            },
    )
}

/// Gamma-corrected channel, exactly, by an integer tenth root.
fn gamma_exec(c: u8) -> (g: u16)
    ensures
        g as int == gamma_q(c),
        g <= 4080,
{
    let c1: u64 = c as u64;
    proof {
        assert((c1 as int) * (c1 as int) <= 65025) by (nonlinear_arith)
            requires
                c1 <= 255,
        ;
    }
    let c2: u64 = c1 * c1;
    proof {
        assert((c2 as int) * (c1 as int) <= 16581375) by (nonlinear_arith)
            requires
                c2 <= 65025,
                c1 <= 255,
        ;
    }
    let c3: u64 = c2 * c1;
    proof {
        assert((c3 as int) * (c3 as int) <= 16581375 * 16581375) by (nonlinear_arith)
            requires
                c3 <= 16581375,
        ;
    }
    let c6: u64 = c3 * c3;
    proof {
        assert((c6 as int) * (c1 as int) <= 16581375 * 16581375 * 255) by (nonlinear_arith)
            requires
                c6 <= 16581375 * 16581375,
                c1 <= 255,
        ;
    }
    let c7: u64 = c6 * c1;
    proof {
        assert(c7 as int == p7(c as int)) by (nonlinear_arith)
            requires
                c1 == c as int,
                c2 == (c1 as int) * (c1 as int),
                c3 == (c2 as int) * (c1 as int),
                c6 == (c3 as int) * (c3 as int),
                c7 == (c6 as int) * (c1 as int),
                p7(c as int) == (c as int) * (c as int) * (c as int) * (c as int) * (c as int) * (
                c as int) * (c as int),
        ;
        assert((1099511627776int * 16581375) * (c7 as int) <= (1099511627776int * 16581375) * (
        16581375 * 16581375 * 255)) by (nonlinear_arith)
            requires
                0 <= c7 <= 16581375 * 16581375 * 255,
        ;
    }
    let n: u128 = 1099511627776u128 * 16581375u128 * (c7 as u128);
    proof {
        // n is at most the value for a full channel, which is 4080^10
        assert(16581375 * 16581375 * 255 == 70110209207109375int);
        let big: int = 1099511627776int * 16581375int;
        lemma_mul_le_mul(c7 as int, 70110209207109375int, big, big);
        assert((c7 as int) * (1099511627776 * 16581375) == (1099511627776int * 16581375) * (
        c7 as int)) by (nonlinear_arith);
        assert(p10(4080) == 1099511627776int * 16581375 * 70110209207109375) by {
            assert(p2(4080) == 16646400);
            assert(p10(4080) == 16646400int * 16646400 * 16646400 * 16646400 * 16646400);
        }
        assert(70110209207109375int * (1099511627776 * 16581375) == 1099511627776int * 16581375
            * 70110209207109375) by (nonlinear_arith);
    }
    let r = root10_exec(n);
    proof {
        reveal(gamma_q);
    }
    r as u16
}

/// One pixel of HDR enhancement: the three enhanced channel values.
fn hdr_pixel(r: u8, g: u8, b: u8) -> (t: (u8, u8, u8))
    ensures
        t.0 == hdr_chan(r, r, g, b),
        t.1 == hdr_chan(g, r, g, b),
        t.2 == hdr_chan(b, r, g, b),
{
    let gr: i64 = gamma_exec(r) as i64;
    let gg: i64 = gamma_exec(g) as i64;
    let gb: i64 = gamma_exec(b) as i64;
    let lum: i64 = (299 * gr + 587 * gg + 114 * gb) / 1000;
    let nr = hdr_clamp(9 * gr - 4 * lum);
    let ng = hdr_clamp(9 * gg - 4 * lum);
    let nb = hdr_clamp(9 * gb - 4 * lum);
    (nr, ng, nb)
}

/// Clamp the scaled HDR numerator to a byte.
fn hdr_clamp(num: i64) -> (v: u8)
    requires
        -16320 <= num <= 36720,
    ensures
        v == (if num <= 0 {
            0u8
        } else if num / 80 > 255 {
            255u8
        } else {
            (num / 80) as u8
        }),
{
    if num <= 0 {
        0
    } else {
        let q = num / 80;
        if q > 255 {
            255
        } else {
            q as u8
        }
    }
}

/// In-place HDR-enhancement pass.
pub fn hdr_pass(data: &mut Vec<u8>)
    requires
        old(data)@.len() % 4 == 0,
    ensures
        final(data)@ == hdr_spec(old(data)@),
{
    let ghost o = old(data)@;
    let n = data.len();
    let mut i: usize = 0;
    while i < n
        invariant
            i <= n,
            i % 4 == 0,
            n == o.len(),
            n % 4 == 0,
            data@.len() == o.len(),
            forall|j: int| 0 <= j < i ==> data@[j] == hdr_spec(o)[j],
            forall|j: int| i <= j < n ==> data@[j] == o[j],
        decreases n - i,
    {
        let r = data[i];
        let g = data[i + 1];
        let b = data[i + 2];
        let (nr, ng, nb) = hdr_pixel(r, g, b);
        data.set(i, nr);
        data.set(i + 1, ng);
        data.set(i + 2, nb);
        i = i + 4;
    }
    proof {
        assert(data@ =~= hdr_spec(o));
    }
}

/// Posterization of one channel.
fn poster_value(v: u8) -> (r: u8)
    ensures
        r == poster_v(v),
{
    let lv: u32 = (2 * (v as u32) + 51) / 102;
    let out: u32 = lv * 51;
    if out > 255 {
        255
    } else {
        out as u8
    }
}

/// In-place posterization pass.
pub fn poster_pass(data: &mut Vec<u8>)
    requires
        old(data)@.len() % 4 == 0,
    ensures
        final(data)@ == poster_spec(old(data)@),
{
    let ghost o = old(data)@;
    let n = data.len();
    let mut i: usize = 0;
    while i < n
        invariant
            i <= n,
            i % 4 == 0,
            n == o.len(),
            n % 4 == 0,
            data@.len() == o.len(),
            forall|j: int| 0 <= j < i ==> data@[j] == poster_spec(o)[j],
            forall|j: int| i <= j < n ==> data@[j] == o[j],
        decreases n - i,
    {
        let r = data[i];
        let g = data[i + 1];
        let b = data[i + 2];
        data.set(i, poster_value(r));
        data.set(i + 1, poster_value(g));
        data.set(i + 2, poster_value(b));
        i = i + 4;
    }
    proof {
        assert(data@ =~= poster_spec(o));
    }
}

} // verus!
