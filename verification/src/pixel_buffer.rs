//! The pixel-buffer data model: a contiguous, row-major block of packed
//! 32-bit pixels with an explicit row pitch.

use vstd::prelude::*;

verus! {

/// A contiguous block of packed pixels, addressed row-major: the byte
/// offset of pixel `(x, y)` is `y * pitch + x * bytes_per_pixel`.
pub struct PixelBuffer {
    /// The backing memory, exactly `pitch * height_in_pixels` bytes.
    pub buffer: Vec<u8>,
    /// Bytes per packed pixel; this system uses 4 (one 32-bit color).
    pub bytes_per_pixel: u8,
    /// Bytes from the start of one row to the start of the next.
    pub pitch: u32,
    /// Width in pixels, positive.
    pub width_in_pixels: u32,
    /// Height in pixels, positive.
    pub height_in_pixels: u32,
}

impl PixelBuffer {
    /// The buffer's structural invariant: positive dimensions, pitch derived
    /// from width and bytes-per-pixel, and backing memory of exactly
    /// `pitch * height` bytes.
    pub open spec fn wf(self) -> bool {
        &&& self.bytes_per_pixel > 0
        &&& self.width_in_pixels > 0
        &&& self.height_in_pixels > 0
        &&& self.pitch as int == self.bytes_per_pixel as int * self.width_in_pixels as int
        &&& self.buffer@.len() == self.pitch as int * self.height_in_pixels as int
    }
}

/// Allocates a buffer of `width * height` pixels at `bytes_per_pixel` bytes
/// each, every byte initialized to `0xFF`.
pub fn create_pixel_buffer(width: u32, height: u32, bytes_per_pixel: u8) -> (r: PixelBuffer)
    requires
        width > 0,
        height > 0,
        bytes_per_pixel > 0,
        bytes_per_pixel as int * width as int <= u32::MAX as int,
        bytes_per_pixel as int * width as int * height as int <= usize::MAX as int,
    ensures
        r.wf(),
        r.width_in_pixels == width,
        r.height_in_pixels == height,
        r.bytes_per_pixel == bytes_per_pixel,
        r.buffer@.len() == bytes_per_pixel as int * width as int * height as int,
        forall|i: int| 0 <= i < r.buffer@.len() ==> r.buffer@[i] == 0xFFu8,
{
    let pitch: u32 = bytes_per_pixel as u32 * width;
    let buffer_size: usize = pitch as usize * height as usize;
    let mut buffer: Vec<u8> = Vec::new();
    while buffer.len() < buffer_size
        invariant
            buffer@.len() <= buffer_size,
            forall|i: int| 0 <= i < buffer@.len() ==> buffer@[i] == 0xFFu8,
        decreases buffer_size - buffer@.len(),
    {
        buffer.push(0xFFu8);
    }
    PixelBuffer {
        buffer,
        bytes_per_pixel,
        pitch,
        width_in_pixels: width,
        height_in_pixels: height,
    }
}

} // verus!
