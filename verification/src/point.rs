//! Neighborhood-free per-pixel transforms: the sepia matrix and channel
//! negation.  Each transform is specified as the exact image of the whole
//! buffer, with fractional matrix coefficients carried as rationals over
//! 1000 and floored.

use vstd::prelude::*;

verus! {

/// Sepia red output: `⌊0.393 R + 0.769 G + 0.189 B⌋`, capped at 255.
pub open spec fn sepia_r(r: u8, g: u8, b: u8) -> u8 {
    let v = (393 * (r as int) + 769 * (g as int) + 189 * (b as int)) / 1000;
    if v > 255 {
        255u8
    } else {
        v as u8
    }
}

/// Sepia green output: `⌊0.349 R + 0.686 G + 0.168 B⌋`, capped at 255.
pub open spec fn sepia_g(r: u8, g: u8, b: u8) -> u8 {
    let v = (349 * (r as int) + 686 * (g as int) + 168 * (b as int)) / 1000;
    if v > 255 {
        255u8
    } else {
        v as u8
    }
}

/// Sepia blue output: `⌊0.272 R + 0.534 G + 0.131 B⌋`, capped at 255.
pub open spec fn sepia_b(r: u8, g: u8, b: u8) -> u8 {
    let v = (272 * (r as int) + 534 * (g as int) + 131 * (b as int)) / 1000;
    if v > 255 {
        255u8
    } else {
        v as u8
    }
}

/// The sepia tone of a whole buffer: every R, G, B byte is replaced by the
/// matrix image of its own pixel's channels; every alpha byte is kept.
pub open spec fn sepia_spec(s: Seq<u8>) -> Seq<u8> {
    Seq::new(
        s.len(),
        |i: int|
            {
                let p = i - i % 4;
                if i % 4 == 0 {
                    sepia_r(s[p], s[p + 1], s[p + 2])
                } else if i % 4 == 1 {
                    sepia_g(s[p], s[p + 1], s[p + 2])
                } else if i % 4 == 2 {
                    sepia_b(s[p], s[p + 1], s[p + 2])
                } else {
                    s[i]
                }
            },
    )
}

/// Channel negation.
pub open spec fn neg_v(v: u8) -> u8 {
    (255 - v as int) as u8
}

/// The negative of a whole buffer: every R, G, B byte is replaced by its
/// complement; every alpha byte is kept.
pub open spec fn negative_spec(s: Seq<u8>) -> Seq<u8> {
    Seq::new(
        s.len(),
        |i: int|
            if i % 4 < 3 {
                neg_v(s[i])
            } else {
                s[i]
            },
    )
}

/// In-place sepia pass over the buffer.
pub fn sepia_pass(data: &mut Vec<u8>)
    requires
        old(data)@.len() % 4 == 0,
    ensures
        final(data)@ == sepia_spec(old(data)@),
{
    let ghost o = old(data)@;
    let n = data.len();
    let mut i: usize = 0;
    while i < n
        invariant
            i <= n,
            i % 4 == 0,
            n == o.len(),
            n % 4 == 0,
            data@.len() == o.len(),
            forall|j: int| 0 <= j < i ==> data@[j] == sepia_spec(o)[j],
            forall|j: int| i <= j < n ==> data@[j] == o[j],
        decreases n - i,
    {
        let r = data[i];
        let g = data[i + 1];
        let b = data[i + 2];
        let vr: u32 = (393 * (r as u32) + 769 * (g as u32) + 189 * (b as u32)) / 1000;
        let vg: u32 = (349 * (r as u32) + 686 * (g as u32) + 168 * (b as u32)) / 1000;
        let vb: u32 = (272 * (r as u32) + 534 * (g as u32) + 131 * (b as u32)) / 1000;
        let nr: u8 = if vr > 255 {
            255
        } else {
            vr as u8
        };
        let ng: u8 = if vg > 255 {
            255
        } else {
            vg as u8
        };
        let nb: u8 = if vb > 255 {
            255
        } else {
            vb as u8
        };
        data.set(i, nr);
        data.set(i + 1, ng);
        data.set(i + 2, nb);
        proof {
            assert(nr == sepia_r(o[i as int], o[i + 1], o[i + 2]));
            assert(ng == sepia_g(o[i as int], o[i + 1], o[i + 2]));
            assert(nb == sepia_b(o[i as int], o[i + 1], o[i + 2]));
        }
        i = i + 4;
    }
    proof {
        assert(data@ =~= sepia_spec(o));
    }
}

/// In-place negation pass over the buffer.
pub fn negative_pass(data: &mut Vec<u8>)
    requires
        old(data)@.len() % 4 == 0,
    ensures
        final(data)@ == negative_spec(old(data)@),
{
    let ghost o = old(data)@;
    let n = data.len();
    let mut i: usize = 0;
    while i < n
        invariant
            i <= n,
            i % 4 == 0,
            n == o.len(),
            n % 4 == 0,
            data@.len() == o.len(),
            forall|j: int| 0 <= j < i ==> data@[j] == negative_spec(o)[j],
            forall|j: int| i <= j < n ==> data@[j] == o[j],
        decreases n - i,
    {
        let r = data[i];
        let g = data[i + 1];
        let b = data[i + 2];
        data.set(i, 255 - r);
        data.set(i + 1, 255 - g);
        data.set(i + 2, 255 - b);
        i = i + 4;
    }
    proof {
        assert(data@ =~= negative_spec(o));
    }
}

} // verus!
