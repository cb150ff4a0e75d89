//! The scheduling core of a progressive Monte-Carlo path tracer.
//!
//! Everything here works on whole numbers: the pixel grid and the random
//! order in which it is visited, the per-pixel cache that decides when a
//! pixel has settled, the pass that samples what is still unsettled, the
//! bounce budget of a light path, and the buffers that finished colours end
//! up in. The arithmetic of light itself (rays, surfaces, materials) is
//! reached through two traits, [`PixelSampler`] and [`path::Walker`], and
//! finished colours leave through a third, [`PixelRenderer`]. Each of the
//! three may keep a record of what passed through it; the contracts of the
//! functions that call them are stated over those records.

pub mod canvas;
pub mod path;
pub mod pixel;
pub mod random;
pub mod raytracer;
pub mod record;
pub mod schedule;
pub mod world;

pub use pixel::{PixelCache, PixelColor, PixelPosition, PixelRenderer};
pub use raytracer::{PixelSampler, Raytracer, ViewportError};
pub use world::World;
