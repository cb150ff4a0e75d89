//! Pixel values that travel between the tracer and its sinks, and the
//! per-pixel record that decides when a pixel has settled.

use crate::record::pushed;
use vstd::prelude::*;
use vstd::std_specs::cmp::PartialEqSpecImpl;

verus! {

/// A pixel stops being sampled once it has repeated its colour more often
/// than this.
pub const MAX_SIMILAR_SAMPLE_FOR_A_PIXEL: u8 = 3;

/// A quantised colour, one byte per channel.
#[derive(Debug, Clone, Copy)]
pub struct PixelColor {
    pub r: u8,
    pub g: u8,
    pub b: u8,
}

impl PartialEq for PixelColor {
    fn eq(&self, other: &Self) -> (equal: bool) {
        self.r == other.r && self.g == other.g && self.b == other.b
    }
}

impl PartialEqSpecImpl for PixelColor {
    open spec fn obeys_eq_spec() -> bool {
        true
    }

    open spec fn eq_spec(&self, other: &Self) -> bool {
        self.r == other.r && self.g == other.g && self.b == other.b
    }
}

impl PixelColor {
    /// The colour every pixel holds before its first sample.
    pub open spec fn black() -> PixelColor {
        PixelColor { r: 0, g: 0, b: 0 }
    }

    /// The colour written as `0xRRGGBB`. Bits above the red byte are ignored.
    pub fn from_hex(hex: u32) -> (color: PixelColor)
        ensures
            color.r == (hex / 0x1_0000) % 0x100,
            color.g == (hex / 0x100) % 0x100,
            color.b == hex % 0x100,
    {
        assert((hex >> 16) & 0xff == (hex / 0x1_0000) % 0x100) by (bit_vector);
        assert((hex >> 8) & 0xff == (hex / 0x100) % 0x100) by (bit_vector);
        assert(hex & 0xff == hex % 0x100) by (bit_vector);
        PixelColor {
            r: ((hex >> 16) & 0xff) as u8,
            g: ((hex >> 8) & 0xff) as u8,
            b: (hex & 0xff) as u8,
        }
    }
}

/// Integer grid coordinates of a pixel.
#[derive(Debug, Clone, Copy)]
pub struct PixelPosition {
    pub x: usize,
    pub y: usize,
}

/// What the tracer remembers about one pixel between passes.
#[derive(Debug, Clone, Copy)]
pub struct PixelCache {
    pub pos: PixelPosition,
    pub last_color: PixelColor,
    pub same_color_count: u8,
}

impl PixelCache {
    /// The record of a pixel that has not been sampled yet.
    pub open spec fn fresh(pos: PixelPosition) -> PixelCache {
        PixelCache { pos, last_color: PixelColor::black(), same_color_count: 0 }
    }

    /// Whether the pixel has repeated its colour often enough to be left alone.
    pub open spec fn spec_is_converged(&self) -> bool {
        self.same_color_count > MAX_SIMILAR_SAMPLE_FOR_A_PIXEL
    }

    /// The record after one more pass has produced `color` for this pixel.
    ///
    /// A converged pixel is not sampled, so its record stays as it is. For the
    /// others a repeated colour counts one up, and a new colour replaces the
    /// remembered one and starts the count again.
    pub open spec fn observed(self, color: PixelColor) -> PixelCache {
        if self.spec_is_converged() {
            self
        } else if self.last_color == color {
            PixelCache { same_color_count: (self.same_color_count + 1) as u8, ..self }
        } else {
            PixelCache { last_color: color, same_color_count: 0, ..self }
        }
    }

    /// The record a pixel starts with.
    pub fn new(pos: PixelPosition) -> (entry: PixelCache)
        ensures
            entry == PixelCache::fresh(pos),
    {
        PixelCache { pos, last_color: PixelColor { r: 0, g: 0, b: 0 }, same_color_count: 0 }
    }

    #[verifier::when_used_as_spec(spec_is_converged)]
    pub fn is_converged(&self) -> (converged: bool)
        ensures
            converged == self.spec_is_converged(),
    {
        self.same_color_count > MAX_SIMILAR_SAMPLE_FOR_A_PIXEL
    }

    /// Takes in the colour that a pass produced for this pixel.
    pub fn record(&mut self, color: PixelColor)
        ensures
            *final(self) == old(self).observed(color),
    {
        if self.same_color_count > MAX_SIMILAR_SAMPLE_FOR_A_PIXEL {
            return ;
        }
        if self.last_color == color {
            self.same_color_count = self.same_color_count + 1;
        } else {
            self.last_color = color;
            self.same_color_count = 0;
        }
    }
}

/// A pixel that comes out, four passes running, in the colour its record
/// already holds is converged after the fourth pass, so a fifth pass leaves
/// it out.
pub proof fn lemma_four_repeats_converge(entry: PixelCache, color: PixelColor)
    requires
        entry.last_color == color,
    ensures
        entry.observed(color).observed(color).observed(color).observed(color).spec_is_converged(),
{
}

/// Once a pixel is converged, no colour changes its record: nothing but a
/// new cache brings it back into sampling.
pub proof fn lemma_converged_stays(entry: PixelCache, color: PixelColor)
    requires
        entry.spec_is_converged(),
    ensures
        entry.observed(color) == entry,
{
}

/// A colour other than the remembered one starts the count again, so a pixel
/// that keeps changing is never left out.
pub proof fn lemma_new_color_restarts(entry: PixelCache, color: PixelColor)
    requires
        !entry.spec_is_converged(),
        entry.last_color != color,
    ensures
        entry.observed(color).same_color_count == 0,
        entry.observed(color).last_color == color,
        !entry.observed(color).spec_is_converged(),
{
}

/// A fresh record is not converged: a pixel whose record was made anew is
/// sampled by the next pass.
pub proof fn lemma_fresh_is_pending(pos: PixelPosition)
    ensures
        !PixelCache::fresh(pos).spec_is_converged(),
{
}

/// One call on a sink.
pub enum SinkCall {
    /// The sink was handed this colour for the pixel at this position.
    SetPixel(PixelPosition, PixelColor),
    /// The sink was told to clear what it shows.
    InvalidatePixels,
}

/// The sink that finished colours are handed to.
///
/// The tracer only ever writes to a sink; it never reads a pixel back. All
/// that is asked of a sink is that its record, if it keeps one, grows by
/// each call it receives.
pub trait PixelRenderer {
    /// Every call the sink has received, oldest first, if the sink keeps a
    /// record of them; `None` if it keeps none.
    open spec fn received(&self) -> Option<Seq<SinkCall>> {
        None
    }

    /// Shows `color` at `pos`.
    fn set_pixel(&mut self, pos: PixelPosition, color: PixelColor)
        ensures
            final(self).received() == pushed(
                old(self).received(),
                SinkCall::SetPixel(pos, color),
            ),
    ;

    /// Clears whatever has been shown so far.
    fn invalidate_pixels(&mut self)
        ensures
            final(self).received() == pushed(old(self).received(), SinkCall::InvalidatePixels),
    ;
}

} // verus!
