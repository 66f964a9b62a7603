//! The RGBA buffer model: byte indexing of a row-major, channel-interleaved
//! raster, and the lemmas that relate a flat byte index to its pixel
//! coordinates and channel.

use vstd::prelude::*;
use vstd::arithmetic::div_mod::lemma_fundamental_div_mod_converse;

verus! {

/// Byte offset of channel `c` of the pixel at column `x`, row `y`.
pub open spec fn off(w: int, x: int, y: int, c: int) -> int {
    (y * w + x) * 4 + c
}

/// A pixel with a full 3x3 neighborhood.
pub open spec fn interior(w: int, h: int, x: int, y: int) -> bool {
    1 <= x < w - 1 && 1 <= y < h - 1
}

/// Channel offsets of in-range pixels lie inside the buffer.
pub proof fn lemma_off_in_bounds(w: int, h: int, x: int, y: int, c: int)
    requires
        0 <= x < w,
        0 <= y < h,
        0 <= c < 4,
    ensures
        0 <= off(w, x, y, c),
        off(w, x, y, c) < w * h * 4,
        off(w, x, y, c) + (3 - c) < w * h * 4,
{
    assert(0 <= (y * w + x) * 4 + c && (y * w + x) * 4 + 3 < w * h * 4) by (nonlinear_arith)
        requires
            0 <= x < w,
            0 <= y < h,
            0 <= c < 4,
    ;
}

/// A flat byte index decodes back to its pixel coordinates and channel.
pub proof fn lemma_decode(w: int, x: int, y: int, c: int)
    requires
        0 <= x < w,
        0 <= y,
        0 <= c < 4,
    ensures
        off(w, x, y, c) % 4 == c,
        off(w, x, y, c) / 4 == y * w + x,
        (y * w + x) % w == x,
        (y * w + x) / w == y,
{
    lemma_fundamental_div_mod_converse((y * w + x) * 4 + c, 4, y * w + x, c);
    lemma_fundamental_div_mod_converse(y * w + x, w, y, x);
}

/// The pixel that byte `j` belongs to comes before column `x` of row `y`
/// in row-major scan order.
pub open spec fn scan_lt(w: int, j: int, x: int, y: int) -> bool {
    let p = j / 4;
    p / w < y || (p / w == y && p % w < x)
}

/// Every byte index of a well-formed buffer decodes to in-range pixel
/// coordinates and a channel, and encodes back to itself.
pub proof fn lemma_pix_range(w: int, h: int, j: int)
    requires
        w >= 1,
        h >= 1,
        0 <= j < w * h * 4,
    ensures
        0 <= j / 4 < w * h,
        0 <= (j / 4) % w < w,
        0 <= (j / 4) / w < h,
        0 <= j % 4 < 4,
        off(w, (j / 4) % w, (j / 4) / w, j % 4) == j,
{
    vstd::arithmetic::div_mod::lemma_fundamental_div_mod(j, 4);
    let p = j / 4;
    vstd::arithmetic::div_mod::lemma_fundamental_div_mod(p, w);
    let px = p % w;
    let py = p / w;
    vstd::arithmetic::div_mod::lemma_div_pos_is_pos(p, w);
    assert(py < h) by (nonlinear_arith)
        requires
            p == w * py + px,
            0 <= px < w,
            p < w * h,
            w >= 1,
    ;
    assert(py * w == w * py) by (nonlinear_arith);
}

/// A private, pass-scoped copy of the buffer, so that passes reading a
/// neighborhood never observe their own partially written output.
pub fn snapshot(data: &Vec<u8>) -> (r: Vec<u8>)
    ensures
        r@ == data@,
{
    let mut r: Vec<u8> = Vec::new();
    let n = data.len();
    let mut i: usize = 0;
    while i < n
        invariant
            i <= n,
            n == data@.len(),
            r@ == data@.subrange(0, i as int),
        decreases n - i,
    {
        r.push(data[i]);
        proof {
            assert(r@ =~= data@.subrange(0, i + 1 as int));
        }
        i = i + 1;
    }
    proof {
        assert(r@ =~= data@);
    }
    r
}

} // verus!
