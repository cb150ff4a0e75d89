//! A frame buffer that collects finished colours and paints them into the
//! byte frame of a display surface.

use crate::pixel::{PixelColor, PixelPosition, PixelRenderer, SinkCall};
use vstd::prelude::*;

verus! {

struct Size {
    width: usize,
    height: usize,
}

/// The picture so far: one colour per pixel, row after row.
pub struct World {
    pixels: Vec<PixelColor>,
    size: Size,
    received: Ghost<Seq<SinkCall>>,
}

/// The byte that a pixel of `color` puts at place `channel` of its four
/// bytes: red, green, blue, and an alpha that is always opaque.
pub open spec fn rgba_byte(color: PixelColor, channel: int) -> u8 {
    if channel == 0 {
        color.r
    } else if channel == 1 {
        color.g
    } else if channel == 2 {
        color.b
    } else {
        0xff
    }
}

impl World {
    pub closed spec fn spec_width(&self) -> usize {
        self.size.width
    }

    pub closed spec fn spec_height(&self) -> usize {
        self.size.height
    }

    /// The stored colours, row after row.
    pub closed spec fn pixels(&self) -> Seq<PixelColor> {
        self.pixels@
    }

    /// Every call the world has received as a sink, oldest first.
    pub closed spec fn record(&self) -> Seq<SinkCall> {
        self.received@
    }

    /// A world stores one colour per pixel, always.
    #[verifier::type_invariant]
    spec fn one_color_per_pixel(&self) -> bool {
        self.pixels@.len() == self.size.width * self.size.height
    }

    /// The colour stored for the pixel at (`x`, `y`).
    pub open spec fn pixel_at(&self, x: int, y: int) -> PixelColor {
        self.pixels()[y * self.spec_width() + x]
    }

    /// What `draw` makes of a frame: every complete group of four bytes is
    /// the colour of one pixel, the groups running along the rows from the
    /// last stored row up to the first, so that the picture comes out
    /// flipped top to bottom. Bytes after the last complete group are kept.
    pub open spec fn drawn(&self, frame: Seq<u8>) -> Seq<u8> {
        Seq::new(
            frame.len(),
            |at: int|
                if at / 4 < frame.len() / 4 {
                    rgba_byte(
                        self.pixel_at(
                            (at / 4) % (self.spec_width() as int),
                            self.spec_height() - 1 - (at / 4) / (self.spec_width() as int),
                        ),
                        at % 4,
                    )
                } else {
                    frame[at]
                },
        )
    }

    /// An all-black picture of `height` rows of `width` pixels.
    pub fn new(height: usize, width: usize) -> (world: World)
        requires
            width * height <= usize::MAX,
        ensures
            world.pixels().len() == width * height,
            world.spec_width() == width,
            world.spec_height() == height,
            forall|i: int|
                0 <= i < world.pixels().len() ==> #[trigger] world.pixels()[i]
                    == PixelColor::black(),
            world.record() == Seq::<SinkCall>::empty(),
    {
        let count = width * height;
        let black = PixelColor { r: 0, g: 0, b: 0 };
        let mut v: Vec<PixelColor> = Vec::with_capacity(count);
        while v.len() < count
            invariant
                v@.len() <= count,
                black == PixelColor::black(),
                forall|i: int| 0 <= i < v@.len() ==> #[trigger] v@[i] == PixelColor::black(),
            decreases count - v@.len(),
        {
            v.push(black);
        }
        World { pixels: v, size: Size { width, height }, received: Ghost(Seq::empty()) }
    }

    #[verifier::when_used_as_spec(spec_width)]
    pub fn width(&self) -> (width: usize)
        ensures
            width == self.spec_width(),
    {
        self.size.width
    }

    #[verifier::when_used_as_spec(spec_height)]
    pub fn height(&self) -> (height: usize)
        ensures
            height == self.spec_height(),
    {
        self.size.height
    }

    /// The colour stored for the pixel at (`x`, `y`).
    pub fn pixel(&self, x: usize, y: usize) -> (color: PixelColor)
        requires
            x < self.spec_width(),
            y < self.spec_height(),
        ensures
            color == self.pixel_at(x as int, y as int),
            self.pixels().len() == self.spec_width() * self.spec_height(),
    {
        proof {
            use_type_invariant(self);
            lemma_cell_in_grid(
                x as int,
                y as int,
                self.spec_width() as int,
                self.spec_height() as int,
            );
            assert(self.pixels.len() == self.spec_width() * self.spec_height());
        }
        self.pixels[y * self.size.width + x]
    }

    /// Stores `color` for the pixel at (`x`, `y`) and leaves the rest alone.
    pub fn set_pixel(&mut self, x: usize, y: usize, color: PixelColor)
        requires
            x < old(self).spec_width(),
            y < old(self).spec_height(),
        ensures
            final(self).spec_width() == old(self).spec_width(),
            final(self).spec_height() == old(self).spec_height(),
            final(self).pixels() == old(self).pixels().update(
                y * old(self).spec_width() + x,
                color,
            ),
            final(self).pixels().len() == final(self).spec_width() * final(self).spec_height(),
            final(self).pixel_at(x as int, y as int) == color,
            final(self).record() == old(self).record(),
    {
        proof {
            use_type_invariant(&*self);
            lemma_cell_in_grid(
                x as int,
                y as int,
                self.spec_width() as int,
                self.spec_height() as int,
            );
            assert(self.pixels.len() == self.spec_width() * self.spec_height());
        }
        let at = y * self.size.width + x;
        self.pixels[at] = color;
    }

    /// Advances the world by one step of the display loop. The picture has
    /// no motion of its own, so nothing changes.
    pub fn update(&mut self)
        ensures
            final(self).pixels() == old(self).pixels(),
            final(self).spec_width() == old(self).spec_width(),
            final(self).spec_height() == old(self).spec_height(),
            final(self).record() == old(self).record(),
    {
    }

    /// Turns every stored colour back to black.
    pub fn invalidate_pixels(&mut self)
        ensures
            final(self).spec_width() == old(self).spec_width(),
            final(self).spec_height() == old(self).spec_height(),
            final(self).pixels().len() == old(self).pixels().len(),
            forall|i: int|
                0 <= i < final(self).pixels().len() ==> #[trigger] final(self).pixels()[i]
                    == PixelColor::black(),
            final(self).record() == old(self).record(),
    {
        proof {
            use_type_invariant(&*self);
        }
        let black = PixelColor { r: 0, g: 0, b: 0 };
        let mut at: usize = 0;
        while at < self.pixels.len()
            invariant
                self.pixels@.len() == self.size.width * self.size.height,
                self.size == old(self).size,
                self.received@ == old(self).received@,
                self.pixels@.len() == old(self).pixels@.len(),
                black == PixelColor::black(),
                forall|i: int| 0 <= i < at ==> #[trigger] self.pixels@[i] == PixelColor::black(),
            decreases self.pixels@.len() - at,
        {
            self.pixels[at] = black;
            at = at + 1;
        }
    }

    /// Paints the picture into `frame`, four bytes to the pixel.
    pub fn draw(&self, frame: &mut [u8])
        requires
            old(frame)@.len() / 4 <= self.spec_width() * self.spec_height(),
        ensures
            final(frame)@ == self.drawn(old(frame)@),
    {
        proof {
            use_type_invariant(self);
        }
        let groups = frame.len() / 4;
        let mut i: usize = 0;
        while i < groups
            invariant
                self.pixels@.len() == self.size.width * self.size.height,
                i <= groups,
                groups == old(frame)@.len() / 4,
                groups <= self.spec_width() * self.spec_height(),
                frame@.len() == old(frame)@.len(),
                forall|at: int|
                    0 <= at < frame@.len() ==> #[trigger] frame@[at] == if at / 4 < i {
                        self.drawn(old(frame)@)[at]
                    } else {
                        old(frame)@[at]
                    },
            decreases groups - i,
        {
            proof {
                lemma_group_in_grid(
                    i as int,
                    self.spec_width() as int,
                    self.spec_height() as int,
                );
                assert(self.pixels.len() == self.spec_width() * self.spec_height());
                assert(4 * i + 3 < frame@.len() == frame.len());
            }
            let x = i % self.size.width;
            let y = self.size.height - 1 - i / self.size.width;
            let color = self.pixels[y * self.size.width + x];
            frame[4 * i] = color.r;
            frame[4 * i + 1] = color.g;
            frame[4 * i + 2] = color.b;
            frame[4 * i + 3] = 0xff;
            i = i + 1;
        }
        assert(frame@ =~= self.drawn(old(frame)@));
    }
}

/// A world is a sink: it keeps the colours it is handed, and a record of
/// every call. A position outside the picture has no place to go and is let
/// pass.
impl PixelRenderer for World {
    open spec fn received(&self) -> Option<Seq<SinkCall>> {
        Some(self.record())
    }

    fn set_pixel(&mut self, pos: PixelPosition, color: PixelColor)
        ensures
            final(self).spec_width() == old(self).spec_width(),
            final(self).spec_height() == old(self).spec_height(),
            final(self).pixels() == if pos.x < old(self).spec_width() && pos.y < old(
                self,
            ).spec_height() {
                old(self).pixels().update(pos.y * old(self).spec_width() + pos.x, color)
            } else {
                old(self).pixels()
            },
            pos.x < old(self).spec_width() && pos.y < old(self).spec_height() ==> final(self).pixel_at(
                pos.x as int,
                pos.y as int,
            ) == color,
    {
        if pos.x < self.size.width && pos.y < self.size.height {
            World::set_pixel(self, pos.x, pos.y, color);
        }
        proof {
            use_type_invariant(&*self);
            self.received@ = self.received@.push(SinkCall::SetPixel(pos, color));
        }
    }

    fn invalidate_pixels(&mut self)
        ensures
            final(self).spec_width() == old(self).spec_width(),
            final(self).spec_height() == old(self).spec_height(),
            final(self).pixels().len() == old(self).pixels().len(),
            forall|i: int|
                0 <= i < final(self).pixels().len() ==> #[trigger] final(self).pixels()[i]
                    == PixelColor::black(),
    {
        World::invalidate_pixels(self);
        proof {
            use_type_invariant(&*self);
            self.received@ = self.received@.push(SinkCall::InvalidatePixels);
        }
    }
}

/// The cell (`x`, `y`) of a grid has its place inside the row-major store.
pub proof fn lemma_cell_in_grid(x: int, y: int, width: int, height: int)
    requires
        0 <= x < width,
        0 <= y < height,
    ensures
        0 <= y * width <= y * width + x < width * height,
{
    assert(y * width + x < width * height) by (nonlinear_arith)
        requires
            0 <= x < width,
            0 <= y < height,
    {
        assert((y + 1) * width <= height * width);
    }
    assert(0 <= y * width) by (nonlinear_arith)
        requires
            0 <= y,
            0 <= width,
    ;
}

/// The `i`-th group of a frame falls on a cell of the grid, counted from the
/// last row upwards.
pub proof fn lemma_group_in_grid(i: int, width: int, height: int)
    requires
        0 <= i < width * height,
        0 <= width,
        0 <= height,
    ensures
        0 < width,
        0 <= i % width < width,
        0 <= i / width < height,
        0 <= (height - 1 - i / width) * width <= (height - 1 - i / width) * width + i % width
            < width * height,
{
    assert(0 < width) by (nonlinear_arith)
        requires
            0 <= i < width * height,
            0 <= width,
    ;
    vstd::arithmetic::div_mod::lemma_fundamental_div_mod(i, width);
    vstd::arithmetic::div_mod::lemma_mod_bound(i, width);
    vstd::arithmetic::div_mod::lemma_div_pos_is_pos(i, width);
    assert(i / width < height) by (nonlinear_arith)
        requires
            0 <= i < width * height,
            0 < width,
            i == width * (i / width) + i % width,
            0 <= i % width,
    ;
    lemma_cell_in_grid(i % width, height - 1 - i / width, width, height);
}

} // verus!
