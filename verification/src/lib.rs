//! Verified core of a sand-and-text terminal animation: the discrete sand
//! grid, the text stamp, the resampling of fields on resize, and the ANSI and
//! RGBA encodings of a frame.

pub mod color;
pub mod renderer;
pub mod foreground;
pub mod text;
pub mod random;
pub mod grid;
pub mod stamp;
pub mod field;
pub mod noise;
pub mod frame;
