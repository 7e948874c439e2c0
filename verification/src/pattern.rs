//! Pattern generators: pure operations that fill every pixel of a buffer
//! with deterministic content — a coordinate-derived gradient and a solid
//! color — plus the channel-packing convention they rely on.
//!
//! A packed 32-bit color stores its four 8-bit channels `[c0, c1, c2, c3]`
//! in increasing byte order: byte `k` of the pixel holds channel `k`, and
//! channel `k` contributes `c_k * 256^k` to the packed value.

use vstd::prelude::*;
use vstd::arithmetic::div_mod::lemma_mul_mod_noop;
use crate::pixel_buffer::PixelBuffer;

verus! {

/// The byte offset of channel `k` of the pixel at `(x, y)` in a buffer with
/// the given row pitch and four bytes per pixel.
pub open spec fn pixel_byte_index(pitch: int, x: int, y: int, k: int) -> int {
    y * pitch + 4 * x + k
}

/// Byte `k` of a packed 32-bit color, under the byte order documented above.
pub open spec fn color_byte(color: u32, k: int) -> u8
    recommends
        0 <= k < 4,
{
    if k == 0 {
        (color as int % 256) as u8
    } else if k == 1 {
        ((color as int / 256) % 256) as u8
    } else if k == 2 {
        ((color as int / 65536) % 256) as u8
    } else {
        (color as int / 16777216) as u8
    }
}

/// Byte `k` of the gradient pixel at `(x, y)`: the channel bytes are
/// `[y mod 256, x mod 256, (x * y) mod 256, 255]`.
pub open spec fn gradient_byte(x: int, y: int, k: int) -> u8
    recommends
        0 <= x,
        0 <= y,
        0 <= k < 4,
{
    if k == 0 {
        (y % 256) as u8
    } else if k == 1 {
        (x % 256) as u8
    } else if k == 2 {
        ((x * y) % 256) as u8
    } else {
        255u8
    }
}

/// Packs four 8-bit channels into one 32-bit color, channel `k` landing in
/// byte `k` of the packed value.
pub fn pack_color(c0: u8, c1: u8, c2: u8, c3: u8) -> (r: u32)
    ensures
        r as int == c0 + 256 * c1 as int + 65536 * c2 as int + 16777216 * c3 as int,
        color_byte(r, 0) == c0,
        color_byte(r, 1) == c1,
        color_byte(r, 2) == c2,
        color_byte(r, 3) == c3,
{
    c0 as u32 + 256 * c1 as u32 + 65536 * c2 as u32 + 16777216 * c3 as u32
}

/// Pixel byte offsets grow strictly along the row-major traversal order
/// (row, then pixel within the row, then byte within the pixel).
proof fn lemma_pixel_byte_index_order(
    pitch: int,
    w: int,
    x1: int,
    y1: int,
    k1: int,
    x2: int,
    y2: int,
    k2: int,
)
    requires
        pitch == 4 * w,
        0 <= x1 < w,
        0 <= x2 < w,
        0 <= k1 < 4,
        0 <= k2 < 4,
        0 <= y1,
        0 <= y2,
        y1 < y2 || (y1 == y2 && x1 < x2) || (y1 == y2 && x1 == x2 && k1 < k2),
    ensures
        pixel_byte_index(pitch, x1, y1, k1) < pixel_byte_index(pitch, x2, y2, k2),
{
    assert(y1 * pitch + 4 * x1 + k1 < y2 * pitch + 4 * x2 + k2) by (nonlinear_arith)
        requires
            pitch == 4 * w,
            0 <= x1 < w,
            0 <= x2 < w,
            0 <= k1 < 4,
            0 <= k2 < 4,
            0 <= y1,
            0 <= y2,
            y1 < y2 || (y1 == y2 && x1 < x2) || (y1 == y2 && x1 == x2 && k1 < k2),
    ;
}

/// Every pixel byte offset lies inside the buffer's backing memory.
proof fn lemma_pixel_byte_index_bounds(pitch: int, w: int, h: int, x: int, y: int, k: int)
    requires
        pitch == 4 * w,
        0 <= x < w,
        0 <= y < h,
        0 <= k < 4,
    ensures
        0 <= pixel_byte_index(pitch, x, y, k),
        pixel_byte_index(pitch, x, y, k) + 4 - k <= pitch * h,
{
    assert(0 <= y * pitch + 4 * x + k && y * pitch + 4 * x + 4 <= pitch * h)
        by (nonlinear_arith)
        requires
            pitch == 4 * w,
            0 <= x < w,
            0 <= y < h,
            0 <= k < 4,
    ;
}

/// Fills the buffer with the deterministic diagonal gradient, traversing
/// rows by the buffer's own pitch: the pixel at `(x, y)` receives the
/// channel bytes `[y mod 256, x mod 256, (x * y) mod 256, 255]`.
#[verifier::loop_isolation(false)]
pub fn render_weird_gradient(b: &mut PixelBuffer)
    requires
        old(b).wf(),
        old(b).bytes_per_pixel == 4,
    ensures
        final(b).wf(),
        final(b).bytes_per_pixel == old(b).bytes_per_pixel,
        final(b).pitch == old(b).pitch,
        final(b).width_in_pixels == old(b).width_in_pixels,
        final(b).height_in_pixels == old(b).height_in_pixels,
        final(b).buffer@.len() == old(b).buffer@.len(),
        forall|x: int, y: int, k: int|
            0 <= x < old(b).width_in_pixels && 0 <= y < old(b).height_in_pixels && 0 <= k < 4
                ==> final(b).buffer@[#[trigger] pixel_byte_index(old(b).pitch as int, x, y, k)]
                == gradient_byte(x, y, k),
{
    let ghost pitch_g = old(b).pitch as int;
    let ghost w_g = old(b).width_in_pixels as int;
    let ghost h_g = old(b).height_in_pixels as int;
    let ghost bpp_g = old(b).bytes_per_pixel as int;
    proof {
        assert(pitch_g == 4 * w_g) by (nonlinear_arith)
            requires
                pitch_g == bpp_g * w_g,
                bpp_g == 4,
        ;
    }
    let total: usize = b.buffer.len();
    let mut y: u32 = 0;
    while y < b.height_in_pixels
        invariant
            y <= h_g,
            b.bytes_per_pixel == old(b).bytes_per_pixel,
            b.pitch == old(b).pitch,
            b.width_in_pixels == old(b).width_in_pixels,
            b.height_in_pixels == old(b).height_in_pixels,
            b.buffer@.len() == total as int,
            forall|x2: int, y2: int, k2: int|
                0 <= x2 < w_g && 0 <= y2 < y as int && 0 <= k2 < 4 ==> b.buffer@[
                    #[trigger] pixel_byte_index(pitch_g, x2, y2, k2)] == gradient_byte(x2, y2,
                    k2),
        decreases h_g - y,
    {
        let mut x: u32 = 0;
        while x < b.width_in_pixels
            invariant
                x <= w_g,
                y < h_g,
                b.bytes_per_pixel == old(b).bytes_per_pixel,
                b.pitch == old(b).pitch,
                b.width_in_pixels == old(b).width_in_pixels,
                b.height_in_pixels == old(b).height_in_pixels,
                b.buffer@.len() == total as int,
                forall|x2: int, y2: int, k2: int|
                    0 <= x2 < w_g && 0 <= y2 < y as int && 0 <= k2 < 4 ==> b.buffer@[
                        #[trigger] pixel_byte_index(pitch_g, x2, y2, k2)] == gradient_byte(x2,
                        y2, k2),
                forall|x2: int, k2: int|
                    0 <= x2 < x as int && 0 <= k2 < 4 ==> b.buffer@[
                        #[trigger] pixel_byte_index(pitch_g, x2, y as int, k2)]
                        == gradient_byte(x2, y as int, k2),
            decreases w_g - x,
        {
            let ghost base = pitch_g * (y as int) + 4 * (x as int);
            proof {
                assert(0 <= base && base + 4 <= pitch_g * h_g && base == (y as int) * pitch_g
                    + 4 * (x as int) && base == pixel_byte_index(pitch_g, x as int, y as int,
                    0)) by (nonlinear_arith)
                    requires
                        0 <= y as int,
                        (y as int) < h_g,
                        0 <= x as int,
                        (x as int) < w_g,
                        pitch_g == 4 * w_g,
                        base == pitch_g * (y as int) + 4 * (x as int),
                        pixel_byte_index(pitch_g, x as int, y as int, 0) == (y as int)
                            * pitch_g + 4 * (x as int),
                ;
            }
            let xm: u32 = x % 256;
            let ym: u32 = y % 256;
            let v0: u8 = ym as u8;
            let v1: u8 = xm as u8;
            proof {
                assert((xm as int) * (ym as int) < 65536) by (nonlinear_arith)
                    requires
                        xm < 256,
                        ym < 256,
                ;
            }
            let v2: u8 = ((xm * ym) % 256) as u8;
            let v3: u8 = 255;
            let off: usize = y as usize * b.pitch as usize + 4 * x as usize;
            b.buffer[off] = v0;
            b.buffer[off + 1] = v1;
            b.buffer[off + 2] = v2;
            b.buffer[off + 3] = v3;
            proof {
                lemma_mul_mod_noop(x as int, y as int, 256);
                assert(v0 == gradient_byte(x as int, y as int, 0));
                assert(v1 == gradient_byte(x as int, y as int, 1));
                assert(v2 == gradient_byte(x as int, y as int, 2));
                assert(v3 == gradient_byte(x as int, y as int, 3));
                assert forall|x2: int, y2: int, k2: int|
                    0 <= x2 < w_g && 0 <= y2 < y as int && 0 <= k2 < 4 implies b.buffer@[
                    #[trigger] pixel_byte_index(pitch_g, x2, y2, k2)] == gradient_byte(x2, y2,
                    k2) by {
                    lemma_pixel_byte_index_bounds(pitch_g, w_g, h_g, x2, y2, k2);
                    lemma_pixel_byte_index_order(pitch_g, w_g, x2, y2, k2, x as int, y as int,
                        0);
                }
                assert forall|x2: int, k2: int|
                    0 <= x2 <= x as int && 0 <= k2 < 4 implies b.buffer@[
                    #[trigger] pixel_byte_index(pitch_g, x2, y as int, k2)] == gradient_byte(
                    x2, y as int, k2) by {
                    lemma_pixel_byte_index_bounds(pitch_g, w_g, h_g, x2, y as int, k2);
                    if x2 == x as int {
                        assert(pixel_byte_index(pitch_g, x2, y as int, k2) == base + k2);
                    } else {
                        lemma_pixel_byte_index_order(pitch_g, w_g, x2, y as int, k2, x as int,
                            y as int, 0);
                    }
                }
            }
            x = x + 1;
        }
        y = y + 1;
    }
}

/// Writes the literal 32-bit `color` to every pixel of the buffer,
/// traversing rows by the buffer's own pitch: afterwards byte `i` of the
/// buffer holds byte `i mod 4` of the packed color.
#[verifier::loop_isolation(false)]
pub fn render_color(b: &mut PixelBuffer, color: u32)
    requires
        old(b).wf(),
        old(b).bytes_per_pixel == 4,
    ensures
        final(b).wf(),
        final(b).bytes_per_pixel == old(b).bytes_per_pixel,
        final(b).pitch == old(b).pitch,
        final(b).width_in_pixels == old(b).width_in_pixels,
        final(b).height_in_pixels == old(b).height_in_pixels,
        final(b).buffer@.len() == old(b).buffer@.len(),
        forall|i: int|
            0 <= i < final(b).buffer@.len() ==> final(b).buffer@[i] == color_byte(color, i % 4),
{
    let ghost pitch_g = old(b).pitch as int;
    let ghost w_g = old(b).width_in_pixels as int;
    let ghost h_g = old(b).height_in_pixels as int;
    let ghost bpp_g = old(b).bytes_per_pixel as int;
    proof {
        assert(pitch_g == 4 * w_g) by (nonlinear_arith)
            requires
                pitch_g == bpp_g * w_g,
                bpp_g == 4,
        ;
    }
    let v0: u8 = (color % 256) as u8;
    let v1: u8 = ((color / 256) % 256) as u8;
    let v2: u8 = ((color / 65536) % 256) as u8;
    let v3: u8 = (color / 16777216) as u8;
    let total: usize = b.buffer.len();
    let mut y: u32 = 0;
    while y < b.height_in_pixels
        invariant
            y <= h_g,
            b.bytes_per_pixel == old(b).bytes_per_pixel,
            b.pitch == old(b).pitch,
            b.width_in_pixels == old(b).width_in_pixels,
            b.height_in_pixels == old(b).height_in_pixels,
            b.buffer@.len() == old(b).buffer@.len(),
            forall|i: int|
                0 <= i < pitch_g * (y as int) ==> b.buffer@[i] == color_byte(color, i % 4),
        decreases h_g - y,
    {
        let mut x: u32 = 0;
        while x < b.width_in_pixels
            invariant
                x <= w_g,
                y < h_g,
                b.bytes_per_pixel == old(b).bytes_per_pixel,
                b.pitch == old(b).pitch,
                b.width_in_pixels == old(b).width_in_pixels,
                b.height_in_pixels == old(b).height_in_pixels,
                b.buffer@.len() == old(b).buffer@.len(),
                forall|i: int|
                    0 <= i < pitch_g * (y as int) + 4 * (x as int) ==> b.buffer@[i]
                        == color_byte(color, i % 4),
            decreases w_g - x,
        {
            let ghost base = pitch_g * (y as int) + 4 * (x as int);
            proof {
                assert(0 <= base && base + 4 <= pitch_g * h_g && base == 4 * ((y as int) * w_g
                    + x as int) && base == (y as int) * pitch_g + 4 * (x as int))
                    by (nonlinear_arith)
                    requires
                        0 <= y as int,
                        (y as int) < h_g,
                        0 <= x as int,
                        (x as int) < w_g,
                        pitch_g == 4 * w_g,
                        base == pitch_g * (y as int) + 4 * (x as int),
                ;
            }
            let off: usize = y as usize * b.pitch as usize + 4 * x as usize;
            b.buffer[off] = v0;
            b.buffer[off + 1] = v1;
            b.buffer[off + 2] = v2;
            b.buffer[off + 3] = v3;
            proof {
                let ghost m = (y as int) * w_g + x as int;
                assert((4 * m) % 4 == 0 && (4 * m + 1) % 4 == 1 && (4 * m + 2) % 4 == 2 && (4
                    * m + 3) % 4 == 3) by (nonlinear_arith);
            }
            x = x + 1;
        }
        proof {
            assert(pitch_g * (y as int) + 4 * w_g == pitch_g * (y as int + 1))
                by (nonlinear_arith)
                requires
                    pitch_g == 4 * w_g,
            ;
        }
        y = y + 1;
    }
}

} // verus!

