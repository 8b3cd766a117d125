//! Two grid engines for a canvas host: a fractal pixel grid recomputed lazily
//! from a fixed-point view, and a toroidal Game of Life.

pub mod animation;
pub mod fractal;
pub mod life;
pub mod plane;

pub use animation::{AnimationState, Field};
pub use fractal::{clamp_u8, invalid_fractal, mandelbrot_set, newton_fractal, Color};
pub use life::{Cell, Universe};
pub use plane::{rescale, translate_coordinates, FIXED_ONE};
