//! An in-memory RGBA pixel-filter engine.
//!
//! Every operation works in place on a caller-supplied byte buffer of
//! length `width * height * 4` (row-major, channels interleaved as
//! R, G, B, A).  All kernels are exact integer arithmetic: fractional
//! coefficients are carried as rationals and floored, and the gamma
//! curve of the stylization pipeline is an exact integer tenth root.
//! No operation ever modifies an alpha byte.

use vstd::prelude::*;

pub mod arith;
pub mod buffer;
pub mod blur;
pub mod conv;
pub mod hdr;
pub mod laws;
pub mod point;

use vstd::arithmetic::div_mod::lemma_mod_multiples_basic;

verus! {

/// A filter engine bound to a fixed raster size.  The dimensions are
/// set at construction and never change; every operation expects a
/// buffer of exactly `width * height * 4` bytes.
pub struct ImageProcessor {
    pub width: u32,
    pub height: u32,
}

impl ImageProcessor {
    /// Buffers this engine operates on have exactly this many bytes.
    pub open spec fn buf_len(self) -> int {
        self.width as int * self.height as int * 4
    }

    /// A new engine for rasters of the given size.
    pub fn new(width: u32, height: u32) -> (p: ImageProcessor)
        ensures
            p.width == width,
            p.height == height,
    {
        ImageProcessor { width, height }
    }

    /// Separable box blur with the radius given in half-pixel steps:
    /// a blur radius of `r` pixels is passed as `⌊2r⌋`, which carries
    /// every fractional radius exactly; `0` leaves the buffer unchanged.
    /// Runs the horizontal averaging pass, then the vertical pass over
    /// its output.
    pub fn gaussian_blur(&mut self, data: &mut Vec<u8>, radius_half: u32)
        requires
            old(data)@.len() == old(self).buf_len(),
        ensures
            *final(self) == *old(self),
            final(data)@ == blur::blur_v_spec(
                blur::blur_h_spec(old(data)@, old(self).width as int, radius_half as int),
                old(self).width as int,
                old(self).height as int,
                radius_half as int,
            ),
    {
        let width = self.width as usize;
        let height = self.height as usize;
        blur::blur_h_pass(data, width, height, radius_half);
        blur::blur_v_pass(data, width, height, radius_half);
    }

    /// Sobel edge detection: every interior pixel's R, G and B are set
    /// to the rounded, capped gradient magnitude of a pre-pass snapshot;
    /// the one-pixel border and all alpha bytes are unchanged.
    pub fn edge_detection(&mut self, data: &mut Vec<u8>)
        requires
            old(data)@.len() == old(self).buf_len(),
        ensures
            *final(self) == *old(self),
            final(data)@ == conv::edge_spec(
                old(data)@,
                old(self).width as int,
                old(self).height as int,
            ),
    {
        let width = self.width as usize;
        let height = self.height as usize;
        conv::edge_pass(data, width, height);
    }

    /// Sepia tone: every pixel's R, G and B are replaced by the sepia
    /// matrix image of that pixel; alpha bytes are unchanged.
    pub fn sepia_tone(&mut self, data: &mut Vec<u8>)
        requires
            old(data)@.len() == old(self).buf_len(),
        ensures
            *final(self) == *old(self),
            final(data)@ == point::sepia_spec(old(data)@),
    {
        proof {
            lemma_mod_multiples_basic(old(self).width as int * old(self).height as int, 4);
        }
        point::sepia_pass(data);
    }

    /// Negative: every pixel's R, G and B are replaced by their
    /// complements; alpha bytes are unchanged.
    pub fn negative(&mut self, data: &mut Vec<u8>)
        requires
            old(data)@.len() == old(self).buf_len(),
        ensures
            *final(self) == *old(self),
            final(data)@ == point::negative_spec(old(data)@),
    {
        proof {
            lemma_mod_multiples_basic(old(self).width as int * old(self).height as int, 4);
        }
        point::negative_pass(data);
    }

    /// Sharpening: the kernel `[0, -1, 0, -1, 5, -1, 0, -1, 0]` is
    /// applied per channel to every interior pixel of a pre-pass
    /// snapshot, clamped to a byte; the one-pixel border and all alpha
    /// bytes are unchanged.
    pub fn sharpen(&mut self, data: &mut Vec<u8>)
        requires
            old(data)@.len() == old(self).buf_len(),
        ensures
            *final(self) == *old(self),
            final(data)@ == conv::sharpen_spec(
                old(data)@,
                old(self).width as int,
                old(self).height as int,
            ),
    {
        let width = self.width as usize;
        let height = self.height as usize;
        conv::sharpen_pass(data, width, height);
    }

    /// The stylization pipeline, three stages in fixed order: HDR
    /// enhancement, posterization to six levels, then edge enhancement
    /// on a snapshot of the posterized buffer.
    pub fn hdr_anime(&mut self, data: &mut Vec<u8>)
        requires
            old(data)@.len() == old(self).buf_len(),
        ensures
            *final(self) == *old(self),
            final(data)@ == conv::enhance_spec(
                hdr::poster_spec(hdr::hdr_spec(old(data)@)),
                old(self).width as int,
                old(self).height as int,
            ),
    {
        let width = self.width as usize;
        let height = self.height as usize;
        proof {
            lemma_mod_multiples_basic(old(self).width as int * old(self).height as int, 4);
        }
        hdr::hdr_pass(data);
        hdr::poster_pass(data);
        conv::enhance_pass(data, width, height);
    }

    /// Horizontal averaging pass of the blur, on a raster of the given
    /// size; the radius is in half-pixel steps, as in `gaussian_blur`.
    pub fn blur_horizontal(&self, data: &mut Vec<u8>, width: usize, height: usize, radius_half: u32)
        requires
            old(data)@.len() == width as int * height as int * 4,
        ensures
            final(data)@ == blur::blur_h_spec(old(data)@, width as int, radius_half as int),
    {
        blur::blur_h_pass(data, width, height, radius_half);
    }

    /// Vertical averaging pass of the blur, on a raster of the given
    /// size; the radius is in half-pixel steps, as in `gaussian_blur`.
    pub fn blur_vertical(&self, data: &mut Vec<u8>, width: usize, height: usize, radius_half: u32)
        requires
            old(data)@.len() == width as int * height as int * 4,
        ensures
            final(data)@ == blur::blur_v_spec(
                old(data)@,
                width as int,
                height as int,
                radius_half as int,
            ),
    {
        blur::blur_v_pass(data, width, height, radius_half);
    }

    /// Grayscale sample of the pixel at `(x, y)` of a raster of the
    /// given width.
    pub fn get_gray_value(&self, data: &Vec<u8>, x: usize, y: usize, width: usize) -> (g: u8)
        requires
            buffer::off(width as int, x as int, y as int, 2) < data@.len(),
        ensures
            g as int == conv::gray_at(data@, width as int, x as int, y as int),
    {
        conv::gray_value(data, x, y, width)
    }

    /// First stylization stage alone: HDR enhancement of every pixel.
    pub fn apply_hdr_enhancement(&self, data: &mut Vec<u8>, width: usize, height: usize)
        requires
            old(data)@.len() == width as int * height as int * 4,
        ensures
            final(data)@ == hdr::hdr_spec(old(data)@),
    {
        proof {
            lemma_mod_multiples_basic(width as int * height as int, 4);
        }
        hdr::hdr_pass(data);
    }

    /// Second stylization stage alone: posterization of every pixel.
    pub fn apply_anime_posterization(&self, data: &mut Vec<u8>, width: usize, height: usize)
        requires
            old(data)@.len() == width as int * height as int * 4,
        ensures
            final(data)@ == hdr::poster_spec(old(data)@),
    {
        proof {
            lemma_mod_multiples_basic(width as int * height as int, 4);
        }
        hdr::poster_pass(data);
    }

    /// Third stylization stage alone: edge enhancement of the interior.
    pub fn apply_edge_enhancement(&self, data: &mut Vec<u8>, width: usize, height: usize)
        requires
            old(data)@.len() == width as int * height as int * 4,
        ensures
            final(data)@ == conv::enhance_spec(old(data)@, width as int, height as int),
    {
        conv::enhance_pass(data, width, height);
    }
}

} // verus!
