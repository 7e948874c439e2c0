//! The frame compositor: once per tick it blits the background over the
//! whole framebuffer and then draws every sprite of a fixed pool at a
//! randomly chosen in-bounds position, later sprites overwriting earlier
//! ones.

use vstd::prelude::*;
use crate::blit::{blit_result, lemma_blit_round_trip};
use crate::pixel_buffer::PixelBuffer;
use crate::rng::random_in_range;

verus! {

/// The framebuffer contents after drawing the first `n` sprites, each at its
/// own position, over `base`, in pool order.
pub open spec fn compose_result(
    base: Seq<u8>,
    dpitch: int,
    sprites: Seq<PixelBuffer>,
    positions: Seq<(u32, u32)>,
    n: int,
) -> Seq<u8>
    decreases n,
{
    if n <= 0 {
        base
    } else {
        blit_result(
            compose_result(base, dpitch, sprites, positions, n - 1),
            sprites[n - 1].buffer@,
            sprites[n - 1].pitch as int,
            sprites[n - 1].height_in_pixels as int,
            dpitch,
            4 * positions[n - 1].0 as int,
            positions[n - 1].1 as int,
        )
    }
}

/// Whether every sprite of the pool is a well-formed 32-bit-per-pixel buffer.
pub open spec fn sprites_wf(sprites: Seq<PixelBuffer>) -> bool {
    forall|j: int|
        0 <= j < sprites.len() ==> (#[trigger] sprites[j]).wf() && sprites[j].bytes_per_pixel
            == 4
}

/// Whether each position places its sprite fully inside a `w x h` buffer.
pub open spec fn positions_in_bounds(
    sprites: Seq<PixelBuffer>,
    positions: Seq<(u32, u32)>,
    w: int,
    h: int,
) -> bool {
    forall|j: int|
        0 <= j < sprites.len() ==> (#[trigger] positions[j]).0 + sprites[j].width_in_pixels
            <= w && positions[j].1 + sprites[j].height_in_pixels <= h
}

/// One tick's compositing at caller-chosen sprite positions: blits the
/// background over the whole framebuffer (block strategy, whole-buffer fast
/// path), then draws each sprite at its position, in pool order.
#[verifier::loop_isolation(false)]
pub fn compose_frame_at(
    framebuffer: &mut PixelBuffer,
    background: &PixelBuffer,
    sprites: &Vec<PixelBuffer>,
    positions: &Vec<(u32, u32)>,
)
    requires
        old(framebuffer).wf(),
        old(framebuffer).bytes_per_pixel == 4,
        background.wf(),
        background.bytes_per_pixel == 4,
        background.width_in_pixels == old(framebuffer).width_in_pixels,
        background.height_in_pixels == old(framebuffer).height_in_pixels,
        positions@.len() == sprites@.len(),
        sprites_wf(sprites@),
        positions_in_bounds(
            sprites@,
            positions@,
            old(framebuffer).width_in_pixels as int,
            old(framebuffer).height_in_pixels as int,
        ),
    ensures
        final(framebuffer).wf(),
        final(framebuffer).bytes_per_pixel == old(framebuffer).bytes_per_pixel,
        final(framebuffer).pitch == old(framebuffer).pitch,
        final(framebuffer).width_in_pixels == old(framebuffer).width_in_pixels,
        final(framebuffer).height_in_pixels == old(framebuffer).height_in_pixels,
        final(framebuffer).buffer@ == compose_result(
            background.buffer@,
            old(framebuffer).pitch as int,
            sprites@,
            positions@,
            sprites@.len() as int,
        ),
{
    let ghost dpitch = old(framebuffer).pitch as int;
    background.render_by_blocks(framebuffer, 0, 0);
    proof {
        assert(background.pitch == old(framebuffer).pitch);
        assert(background.buffer@.len() == old(framebuffer).buffer@.len());
        lemma_blit_round_trip(
            old(framebuffer).buffer@,
            background.buffer@,
            background.pitch as int,
            background.height_in_pixels as int,
        );
    }
    let mut j: usize = 0;
    while j < sprites.len()
        invariant
            j <= sprites@.len(),
            framebuffer.bytes_per_pixel == old(framebuffer).bytes_per_pixel,
            framebuffer.pitch == old(framebuffer).pitch,
            framebuffer.width_in_pixels == old(framebuffer).width_in_pixels,
            framebuffer.height_in_pixels == old(framebuffer).height_in_pixels,
            framebuffer.buffer@.len() == old(framebuffer).buffer@.len(),
            framebuffer.buffer@ == compose_result(background.buffer@, dpitch, sprites@,
                positions@, j as int),
        decreases sprites@.len() - j,
    {
        let pos = positions[j];
        sprites[j].render_by_pixels(framebuffer, pos.0, pos.1);
        j = j + 1;
    }
}

/// One full tick: blits the background over the whole framebuffer, then
/// draws every sprite at an independently chosen random position that keeps
/// it fully inside the framebuffer. Returns the chosen positions.
pub fn compose_frame(
    framebuffer: &mut PixelBuffer,
    background: &PixelBuffer,
    sprites: &Vec<PixelBuffer>,
    rng: &mut rand::rngs::ThreadRng,
) -> (positions: Vec<(u32, u32)>)
    requires
        old(framebuffer).wf(),
        old(framebuffer).bytes_per_pixel == 4,
        background.wf(),
        background.bytes_per_pixel == 4,
        background.width_in_pixels == old(framebuffer).width_in_pixels,
        background.height_in_pixels == old(framebuffer).height_in_pixels,
        sprites_wf(sprites@),
        forall|j: int|
            0 <= j < sprites@.len() ==> (#[trigger] sprites@[j]).width_in_pixels <= old(
                framebuffer,
            ).width_in_pixels && sprites@[j].height_in_pixels <= old(
                framebuffer,
            ).height_in_pixels,
    ensures
        final(framebuffer).wf(),
        final(framebuffer).bytes_per_pixel == old(framebuffer).bytes_per_pixel,
        final(framebuffer).pitch == old(framebuffer).pitch,
        final(framebuffer).width_in_pixels == old(framebuffer).width_in_pixels,
        final(framebuffer).height_in_pixels == old(framebuffer).height_in_pixels,
        positions@.len() == sprites@.len(),
        positions_in_bounds(
            sprites@,
            positions@,
            old(framebuffer).width_in_pixels as int,
            old(framebuffer).height_in_pixels as int,
        ),
        final(framebuffer).buffer@ == compose_result(
            background.buffer@,
            old(framebuffer).pitch as int,
            sprites@,
            positions@,
            sprites@.len() as int,
        ),
{
    let mut positions: Vec<(u32, u32)> = Vec::new();
    let mut j: usize = 0;
    while j < sprites.len()
        invariant
            j <= sprites@.len(),
            positions@.len() == j as int,
            sprites_wf(sprites@),
            forall|i: int|
                0 <= i < sprites@.len() ==> (#[trigger] sprites@[i]).width_in_pixels <= old(
                    framebuffer,
                ).width_in_pixels && sprites@[i].height_in_pixels <= old(
                    framebuffer,
                ).height_in_pixels,
            forall|i: int|
                0 <= i < j as int ==> (#[trigger] positions@[i]).0 + sprites@[i].width_in_pixels
                    <= old(framebuffer).width_in_pixels && positions@[i].1
                    + sprites@[i].height_in_pixels <= old(framebuffer).height_in_pixels,
            *framebuffer == *old(framebuffer),
        decreases sprites@.len() - j,
    {
        let sprite_w = sprites[j].width_in_pixels;
        let sprite_h = sprites[j].height_in_pixels;
        let x = random_in_range(rng, 0, framebuffer.width_in_pixels - sprite_w);
        let y = random_in_range(rng, 0, framebuffer.height_in_pixels - sprite_h);
        positions.push((x, y));
        j = j + 1;
    }
    compose_frame_at(framebuffer, background, sprites, &positions);
    positions
}

} // verus!
