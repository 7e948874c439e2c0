use rasterizer::compositor::{compose_frame, compose_frame_at};
use rasterizer::pattern::{pack_color, render_color, render_weird_gradient};
use rasterizer::pixel_buffer::{create_pixel_buffer, PixelBuffer};

/// The channel bytes the gradient generator must produce at pixel `(x, y)`.
fn gradient_bytes(x: u32, y: u32) -> [u8; 4] {
    [(y % 256) as u8, (x % 256) as u8, ((x * y) % 256) as u8, 255]
}

fn pixel_bytes(b: &PixelBuffer, x: u32, y: u32) -> [u8; 4] {
    let off = (y * b.pitch + 4 * x) as usize;
    [
        b.buffer[off],
        b.buffer[off + 1],
        b.buffer[off + 2],
        b.buffer[off + 3],
    ]
}

#[test]
fn create_buffer_dimensions_and_content() {
    let b = create_pixel_buffer(8, 4, 4);
    assert_eq!(b.width_in_pixels, 8);
    assert_eq!(b.height_in_pixels, 4);
    assert_eq!(b.bytes_per_pixel, 4);
    assert_eq!(b.pitch, 32);
    assert_eq!(b.buffer.len(), 128);
    assert!(b.buffer.iter().all(|&v| v == 0xFF));
}

#[test]
fn pack_color_byte_order() {
    assert_eq!(pack_color(1, 2, 3, 4), 0x04030201);
    assert_eq!(pack_color(0, 0, 0, 0), 0);
    assert_eq!(pack_color(255, 255, 255, 255), 0xFFFFFFFF);
}

#[test]
fn gradient_sample_grid() {
    let mut b = create_pixel_buffer(4, 4, 4);
    render_weird_gradient(&mut b);
    assert_eq!(pixel_bytes(&b, 3, 2), [2, 3, 6, 255]);
    assert_eq!(pixel_bytes(&b, 0, 0), [0, 0, 0, 255]);
    for y in 0..4 {
        for x in 0..4 {
            assert_eq!(pixel_bytes(&b, x, y), gradient_bytes(x, y));
        }
    }
}

#[test]
fn gradient_wraps_at_256() {
    let mut b = create_pixel_buffer(300, 2, 4);
    render_weird_gradient(&mut b);
    assert_eq!(pixel_bytes(&b, 259, 1), [1, 3, 3, 255]);
}

#[test]
fn solid_fill_zero() {
    let mut b = create_pixel_buffer(5, 3, 4);
    render_color(&mut b, 0x00000000);
    assert!(b.buffer.iter().all(|&v| v == 0));
}

#[test]
fn solid_fill_max() {
    let mut b = create_pixel_buffer(5, 3, 4);
    render_color(&mut b, 0xFFFFFFFF);
    assert!(b.buffer.iter().all(|&v| v == 0xFF));
}

#[test]
fn solid_fill_byte_order() {
    let mut b = create_pixel_buffer(3, 2, 4);
    render_color(&mut b, 0x04030201);
    for i in 0..b.buffer.len() {
        assert_eq!(b.buffer[i], [1u8, 2, 3, 4][i % 4]);
    }
}

#[test]
fn round_trip_by_pixels() {
    let mut src = create_pixel_buffer(4, 3, 4);
    render_weird_gradient(&mut src);
    let mut dest = create_pixel_buffer(4, 3, 4);
    render_color(&mut dest, 0x12345678);
    src.render_by_pixels(&mut dest, 0, 0);
    assert_eq!(dest.buffer, src.buffer);
}

#[test]
fn round_trip_by_blocks() {
    let mut src = create_pixel_buffer(4, 3, 4);
    render_weird_gradient(&mut src);
    let mut dest = create_pixel_buffer(4, 3, 4);
    render_color(&mut dest, 0x12345678);
    src.render_by_blocks(&mut dest, 0, 0);
    assert_eq!(dest.buffer, src.buffer);
}

#[test]
fn strategy_equivalence_at_offset() {
    let mut src = create_pixel_buffer(2, 2, 4);
    render_color(&mut src, 0xCAFEBABE);
    let mut d1 = create_pixel_buffer(6, 5, 4);
    render_weird_gradient(&mut d1);
    let mut d2 = create_pixel_buffer(6, 5, 4);
    render_weird_gradient(&mut d2);
    src.render_by_pixels(&mut d1, 3, 2);
    src.render_by_blocks(&mut d2, 3, 2);
    assert_eq!(d1.buffer, d2.buffer);
}

#[test]
fn localized_write_touches_only_the_rectangle() {
    let mut src = create_pixel_buffer(2, 2, 4);
    render_color(&mut src, 0xDEADBEEF);
    let mut dest = create_pixel_buffer(4, 4, 4);
    render_weird_gradient(&mut dest);
    let before = dest.buffer.clone();
    src.render_by_blocks(&mut dest, 1, 1);
    for y in 0..4u32 {
        for i in 0..dest.pitch {
            let idx = (y * dest.pitch + i) as usize;
            let in_rows = y >= 1 && y < 3;
            let in_cols = i >= 4 && i < 12;
            if in_rows && in_cols {
                let src_idx = ((y - 1) * src.pitch + (i - 4)) as usize;
                assert_eq!(dest.buffer[idx], src.buffer[src_idx]);
            } else {
                assert_eq!(dest.buffer[idx], before[idx]);
            }
        }
    }
}

#[test]
fn overlap_order_last_writer_wins() {
    let mut a = create_pixel_buffer(2, 2, 4);
    render_color(&mut a, 0x11111111);
    let mut b = create_pixel_buffer(2, 2, 4);
    render_color(&mut b, 0x22222222);
    let mut dest = create_pixel_buffer(4, 4, 4);
    render_color(&mut dest, 0);
    a.render_by_pixels(&mut dest, 1, 1);
    b.render_by_pixels(&mut dest, 1, 1);
    for y in 1..3 {
        for x in 1..3 {
            assert_eq!(pixel_bytes(&dest, x, y), [0x22, 0x22, 0x22, 0x22]);
        }
    }
}

#[test]
fn compose_frame_at_layers_in_pool_order() {
    let mut fb = create_pixel_buffer(4, 4, 4);
    let mut bg = create_pixel_buffer(4, 4, 4);
    render_weird_gradient(&mut bg);
    let mut s0 = create_pixel_buffer(2, 2, 4);
    render_color(&mut s0, 0x11111111);
    let mut s1 = create_pixel_buffer(2, 2, 4);
    render_color(&mut s1, 0x22222222);
    let sprites = vec![s0, s1];
    let positions = vec![(0u32, 0u32), (1u32, 1u32)];
    compose_frame_at(&mut fb, &bg, &sprites, &positions);
    // the later sprite covers (1..3, 1..3)
    for y in 1..3 {
        for x in 1..3 {
            assert_eq!(pixel_bytes(&fb, x, y), [0x22, 0x22, 0x22, 0x22]);
        }
    }
    // the earlier sprite still shows where the later one does not cover it
    assert_eq!(pixel_bytes(&fb, 0, 0), [0x11, 0x11, 0x11, 0x11]);
    assert_eq!(pixel_bytes(&fb, 1, 0), [0x11, 0x11, 0x11, 0x11]);
    assert_eq!(pixel_bytes(&fb, 0, 1), [0x11, 0x11, 0x11, 0x11]);
    // everything else is background
    for y in 0..4u32 {
        for x in 0..4u32 {
            if x >= 3 || y >= 3 {
                assert_eq!(pixel_bytes(&fb, x, y), gradient_bytes(x, y));
            }
        }
    }
}

#[test]
fn compose_frame_places_sprites_in_bounds() {
    let mut fb = create_pixel_buffer(16, 16, 4);
    let mut bg = create_pixel_buffer(16, 16, 4);
    render_weird_gradient(&mut bg);
    let mut sprite = create_pixel_buffer(4, 4, 4);
    render_color(&mut sprite, 0xAABBCCDD);
    let sprites = vec![sprite];
    let mut rng = rand::rng();
    let positions = compose_frame(&mut fb, &bg, &sprites, &mut rng);
    assert_eq!(positions.len(), 1);
    let (px, py) = positions[0];
    assert!(px <= 12);
    assert!(py <= 12);
    // the sprite's rectangle shows the sprite, everything else the background
    for y in 0..16u32 {
        for x in 0..16u32 {
            let inside = x >= px && x < px + 4 && y >= py && y < py + 4;
            if inside {
                assert_eq!(pixel_bytes(&fb, x, y), [0xDD, 0xCC, 0xBB, 0xAA]);
            } else {
                assert_eq!(pixel_bytes(&fb, x, y), gradient_bytes(x, y));
            }
        }
    }
}
