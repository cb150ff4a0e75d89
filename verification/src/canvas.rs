//! A square RGBA byte buffer of the kind a host page reads a picture from.

use crate::pixel::{PixelColor, PixelPosition};
use crate::world::lemma_cell_in_grid;
use vstd::prelude::*;

verus! {

/// Where the four bytes of the pixel at (`x`, `y`) begin in the buffer of a
/// canvas `size` pixels wide and high. The canvas counts its squares from
/// the far corner, so the last pixel of the last row comes first.
pub open spec fn rgba_offset(size: int, x: int, y: int) -> int {
    (size * size - (y * size + x) - 1) * 4
}

/// `buffer` with the four bytes from `at` on set to `color`, fully opaque.
pub open spec fn painted(buffer: Seq<u8>, at: int, color: PixelColor) -> Seq<u8> {
    buffer.update(at, color.r).update(at + 1, color.g).update(at + 2, color.b).update(
        at + 3,
        0xff,
    )
}

/// Writes the colour `c` of the pixel at `position` into the buffer of a
/// canvas `size` pixels wide and high, and touches no other byte.
pub fn set_pixel(buffer: &mut [u8], size: usize, position: PixelPosition, c: PixelColor)
    requires
        position.x < size,
        position.y < size,
        old(buffer)@.len() == size * size * 4,
    ensures
        final(buffer)@ == painted(
            old(buffer)@,
            rgba_offset(size as int, position.x as int, position.y as int),
            c,
        ),
{
    proof {
        lemma_cell_in_grid(position.x as int, position.y as int, size as int, size as int);
        assert(size * size * 4 == buffer.len());
    }
    let square_number: usize = (size * size) - (position.y * size + position.x) - 1;
    let square_rgba_index: usize = square_number * 4;
    buffer[square_rgba_index] = c.r;
    buffer[square_rgba_index + 1] = c.g;
    buffer[square_rgba_index + 2] = c.b;
    buffer[square_rgba_index + 3] = 255;
}

} // verus!
