//! A minimal software rasterizer core: a packed 32-bit pixel framebuffer
//! with an explicit row pitch, deterministic pattern generators, a blitting
//! engine with two interchangeable copy strategies proved equivalent, and a
//! per-tick frame compositor.

pub mod blit;
pub mod compositor;
pub mod pattern;
pub mod pixel_buffer;
pub mod rng;
