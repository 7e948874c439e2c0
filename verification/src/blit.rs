//! The blit engine: copies every pixel of a source buffer into a destination
//! buffer at a byte-exact offset, via two interchangeable strategies that are
//! proved to produce identical destination contents.

use vstd::prelude::*;
use vstd::arithmetic::div_mod::{
    lemma_fundamental_div_mod, lemma_fundamental_div_mod_converse,
};
use crate::pixel_buffer::PixelBuffer;

verus! {

/// Whether destination byte index `i` lies inside the rectangle written by a
/// blit of `sh` source rows of `spitch` bytes each, placed at row `dy` and
/// row-local byte offset `dxb` of a destination whose rows are `dpitch`
/// bytes long.
pub open spec fn in_blit_rect(i: int, dpitch: int, dxb: int, dy: int, spitch: int, sh: int) -> bool {
    &&& dy <= i / dpitch < dy + sh
    &&& dxb <= i % dpitch < dxb + spitch
}

/// The source byte index that a blit copies to destination byte index `i`
/// (meaningful only when `i` lies in the blit rectangle).
pub open spec fn blit_src_index(i: int, dpitch: int, dxb: int, dy: int, spitch: int) -> int {
    (i / dpitch - dy) * spitch + (i % dpitch - dxb)
}

/// The destination byte contents after blitting `src` (`sh` rows of `spitch`
/// bytes) into `dest` at row `dy`, row-local byte offset `dxb`.
pub open spec fn blit_result(
    dest: Seq<u8>,
    src: Seq<u8>,
    spitch: int,
    sh: int,
    dpitch: int,
    dxb: int,
    dy: int,
) -> Seq<u8> {
    Seq::new(
        dest.len(),
        |i: int|
            if in_blit_rect(i, dpitch, dxb, dy, spitch, sh) {
                src[blit_src_index(i, dpitch, dxb, dy, spitch)]
            } else {
                dest[i]
            },
    )
}

/// The destination contents in the middle of a blit, after the first `done`
/// source bytes (in row-major order) have been copied.
pub open spec fn blit_partial(
    dest: Seq<u8>,
    src: Seq<u8>,
    spitch: int,
    sh: int,
    dpitch: int,
    dxb: int,
    dy: int,
    done: int,
) -> Seq<u8> {
    Seq::new(
        dest.len(),
        |i: int|
            if in_blit_rect(i, dpitch, dxb, dy, spitch, sh)
                && blit_src_index(i, dpitch, dxb, dy, spitch) < done {
                src[blit_src_index(i, dpitch, dxb, dy, spitch)]
            } else {
                dest[i]
            },
    )
}

/// A destination byte index built from a row and a row-local byte offset
/// decomposes back into exactly that row and offset.
proof fn lemma_row_col_div_mod(dpitch: int, q: int, r: int)
    requires
        dpitch > 0,
        0 <= r < dpitch,
        0 <= q,
    ensures
        (q * dpitch + r) / dpitch == q,
        (q * dpitch + r) % dpitch == r,
{
    lemma_fundamental_div_mod_converse(q * dpitch + r, dpitch, q, r);
}

/// Before any byte is copied, the partial blit is the untouched destination.
proof fn lemma_blit_partial_init(
    dest: Seq<u8>,
    src: Seq<u8>,
    spitch: int,
    sh: int,
    dpitch: int,
    dxb: int,
    dy: int,
)
    requires
        dpitch > 0,
        spitch > 0,
    ensures
        blit_partial(dest, src, spitch, sh, dpitch, dxb, dy, 0) == dest,
{
    assert forall|i: int| 0 <= i < dest.len() implies blit_partial(
        dest, src, spitch, sh, dpitch, dxb, dy, 0,
    )[i] == dest[i] by {
        if in_blit_rect(i, dpitch, dxb, dy, spitch, sh) {
            assert(blit_src_index(i, dpitch, dxb, dy, spitch) >= 0) by (nonlinear_arith)
                requires
                    i / dpitch - dy >= 0,
                    i % dpitch - dxb >= 0,
                    spitch > 0,
                    blit_src_index(i, dpitch, dxb, dy, spitch) == (i / dpitch - dy) * spitch + (
                    i % dpitch - dxb),
            ;
        }
    }
    assert(blit_partial(dest, src, spitch, sh, dpitch, dxb, dy, 0) =~= dest);
}

/// Copying one more source byte turns the partial blit for `done` bytes into
/// the partial blit for `done + 1` bytes: a single point update of the
/// destination.
proof fn lemma_blit_partial_step(
    dest: Seq<u8>,
    src: Seq<u8>,
    spitch: int,
    sh: int,
    dpitch: int,
    dxb: int,
    dy: int,
    y: int,
    c: int,
)
    requires
        dpitch > 0,
        spitch > 0,
        0 <= dxb,
        dxb + spitch <= dpitch,
        0 <= dy,
        (dy + sh) * dpitch <= dest.len(),
        0 <= y < sh,
        0 <= c < spitch,
    ensures
        blit_partial(dest, src, spitch, sh, dpitch, dxb, dy, y * spitch + c + 1)
            =~= blit_partial(dest, src, spitch, sh, dpitch, dxb, dy, y * spitch + c).update(
            (dy + y) * dpitch + dxb + c,
            src[y * spitch + c],
        ),
        0 <= (dy + y) * dpitch + dxb + c < dest.len(),
{
    let done = y * spitch + c;
    let idx = (dy + y) * dpitch + dxb + c;
    let lhs = blit_partial(dest, src, spitch, sh, dpitch, dxb, dy, done + 1);
    let rhs = blit_partial(dest, src, spitch, sh, dpitch, dxb, dy, done);

    lemma_row_col_div_mod(dpitch, dy + y, dxb + c);
    assert(idx / dpitch == dy + y);
    assert(idx % dpitch == dxb + c);
    assert(blit_src_index(idx, dpitch, dxb, dy, spitch) == done) by (nonlinear_arith)
        requires
            idx / dpitch == dy + y,
            idx % dpitch == dxb + c,
            done == y * spitch + c,
            blit_src_index(idx, dpitch, dxb, dy, spitch) == (idx / dpitch - dy) * spitch + (idx
                % dpitch - dxb),
    ;
    assert(idx < (dy + sh) * dpitch) by (nonlinear_arith)
        requires
            idx == (dy + y) * dpitch + dxb + c,
            0 <= y < sh,
            0 <= dy,
            dxb + c < dpitch,
            0 <= dxb + c,
            dpitch > 0,
    ;
    assert(0 <= idx) by (nonlinear_arith)
        requires
            idx == (dy + y) * dpitch + dxb + c,
            0 <= dy + y,
            0 <= dxb + c,
            dpitch > 0,
    ;

    assert forall|i: int| 0 <= i < dest.len() implies lhs[i] == rhs.update(idx, src[done])[i] by {
        if i == idx {
            assert(in_blit_rect(idx, dpitch, dxb, dy, spitch, sh));
            assert(lhs[i] == src[done]);
        } else if in_blit_rect(i, dpitch, dxb, dy, spitch, sh) {
            let q = i / dpitch;
            let r = i % dpitch;
            lemma_fundamental_div_mod(i, dpitch);
            if blit_src_index(i, dpitch, dxb, dy, spitch) == done {
                // the copied source byte has a unique destination index,
                // so this case would force i == idx
                lemma_row_col_div_mod(spitch, q - dy, r - dxb);
                lemma_row_col_div_mod(spitch, y, c);
                assert((q - dy) * spitch + (r - dxb) == y * spitch + c);
                assert(q - dy == y && r - dxb == c);
                assert(i == idx) by (nonlinear_arith)
                    requires
                        i == dpitch * q + r,
                        q == dy + y,
                        r == dxb + c,
                        idx == (dy + y) * dpitch + dxb + c,
                ;
            }
        }
    }
}

/// Once every source byte has been copied, the partial blit is the full blit.
proof fn lemma_blit_partial_complete(
    dest: Seq<u8>,
    src: Seq<u8>,
    spitch: int,
    sh: int,
    dpitch: int,
    dxb: int,
    dy: int,
)
    requires
        dpitch > 0,
        spitch > 0,
        sh >= 0,
    ensures
        blit_partial(dest, src, spitch, sh, dpitch, dxb, dy, sh * spitch) == blit_result(
            dest, src, spitch, sh, dpitch, dxb, dy,
        ),
{
    assert forall|i: int| 0 <= i < dest.len() implies blit_partial(
        dest, src, spitch, sh, dpitch, dxb, dy, sh * spitch,
    )[i] == blit_result(dest, src, spitch, sh, dpitch, dxb, dy)[i] by {
        if in_blit_rect(i, dpitch, dxb, dy, spitch, sh) {
            assert(blit_src_index(i, dpitch, dxb, dy, spitch) < sh * spitch) by (nonlinear_arith)
                requires
                    blit_src_index(i, dpitch, dxb, dy, spitch) == (i / dpitch - dy) * spitch + (
                    i % dpitch - dxb),
                    i / dpitch - dy < sh,
                    i % dpitch - dxb < spitch,
                    0 <= i / dpitch - dy,
                    0 <= i % dpitch - dxb,
                    spitch > 0,
            ;
        }
    }
    assert(blit_partial(dest, src, spitch, sh, dpitch, dxb, dy, sh * spitch) =~= blit_result(
        dest, src, spitch, sh, dpitch, dxb, dy,
    ));
}

/// A source and a destination of equal total byte size, each with its pitch
/// derived row-major, have equal pitch and row count as soon as the source
/// fits inside the destination.
proof fn lemma_equal_size_equal_layout(spitch: int, sh: int, dpitch: int, dh: int)
    requires
        spitch > 0,
        sh > 0,
        dpitch > 0,
        dh > 0,
        spitch <= dpitch,
        sh <= dh,
        spitch * sh == dpitch * dh,
    ensures
        spitch == dpitch,
        sh == dh,
{
    assert(spitch == dpitch && sh == dh) by (nonlinear_arith)
        requires
            spitch > 0,
            sh > 0,
            dpitch > 0,
            dh > 0,
            spitch <= dpitch,
            sh <= dh,
            spitch * sh == dpitch * dh,
    ;
}

/// Round-trip identity: blitting a source onto a destination of the same
/// pitch, row count and total size at offset `(0, 0)` yields exactly the
/// source bytes.
pub proof fn lemma_blit_round_trip(dest: Seq<u8>, src: Seq<u8>, pitch: int, h: int)
    requires
        pitch > 0,
        h >= 0,
        src.len() == pitch * h,
        dest.len() == src.len(),
    ensures
        blit_result(dest, src, pitch, h, pitch, 0, 0) == src,
{
    assert forall|i: int| 0 <= i < dest.len() implies blit_result(
        dest, src, pitch, h, pitch, 0, 0,
    )[i] == src[i] by {
        lemma_fundamental_div_mod(i, pitch);
        let q = i / pitch;
        let r = i % pitch;
        assert(0 <= q < h && 0 <= r < pitch) by (nonlinear_arith)
            requires
                pitch > 0,
                0 <= i < pitch * h,
                i == pitch * q + r,
                0 <= r < pitch,
        ;
        assert(in_blit_rect(i, pitch, 0, 0, pitch, h));
        assert((q - 0) * pitch + (r - 0) == i) by (nonlinear_arith)
            requires
                i == pitch * q + r,
        ;
        assert(blit_src_index(i, pitch, 0, 0, pitch) == i);
    }
    assert(blit_result(dest, src, pitch, h, pitch, 0, 0) =~= src);
}

/// The layout facts that both blit strategies need: pitches are four bytes
/// per pixel wide, the copied span fits inside a destination row, and the
/// written rows fit inside the destination's backing memory.
proof fn lemma_blit_context(src_buf: PixelBuffer, dst_buf: PixelBuffer, pos_x: int, pos_y: int)
    requires
        src_buf.wf(),
        dst_buf.wf(),
        src_buf.bytes_per_pixel == 4,
        dst_buf.bytes_per_pixel == 4,
        0 <= pos_x,
        0 <= pos_y,
        pos_x + src_buf.width_in_pixels <= dst_buf.width_in_pixels,
        pos_y + src_buf.height_in_pixels <= dst_buf.height_in_pixels,
    ensures
        src_buf.pitch as int == 4 * src_buf.width_in_pixels as int,
        dst_buf.pitch as int == 4 * dst_buf.width_in_pixels as int,
        src_buf.pitch > 0,
        dst_buf.pitch > 0,
        4 * pos_x + src_buf.pitch as int <= dst_buf.pitch as int,
        (pos_y + src_buf.height_in_pixels as int) * dst_buf.pitch as int
            <= dst_buf.buffer@.len(),
{
    assert(src_buf.pitch as int == 4 * src_buf.width_in_pixels as int) by (nonlinear_arith)
        requires
            src_buf.pitch as int == src_buf.bytes_per_pixel as int
                * src_buf.width_in_pixels as int,
            src_buf.bytes_per_pixel == 4,
    ;
    assert(dst_buf.pitch as int == 4 * dst_buf.width_in_pixels as int) by (nonlinear_arith)
        requires
            dst_buf.pitch as int == dst_buf.bytes_per_pixel as int
                * dst_buf.width_in_pixels as int,
            dst_buf.bytes_per_pixel == 4,
    ;
    assert((pos_y + src_buf.height_in_pixels as int) * dst_buf.pitch as int
        <= dst_buf.buffer@.len()) by (nonlinear_arith)
        requires
            pos_y + src_buf.height_in_pixels as int <= dst_buf.height_in_pixels as int,
            dst_buf.pitch > 0,
            dst_buf.buffer@.len() == dst_buf.pitch as int * dst_buf.height_in_pixels as int,
    ;
}

/// The destination byte index that a blit writes for source row `y`,
/// row-local source byte `b`.
pub open spec fn blit_dest_index(dpitch: int, dxb: int, dy: int, y: int, b: int) -> int {
    (dy + y) * dpitch + dxb + b
}

/// Strategy equivalence: for one source, destination and in-bounds offset,
/// the pixel-wise and the block strategy leave the destination with the same
/// byte contents. Both strategies ensure that the destination equals
/// `blit_result`, which is a function of its arguments alone.
pub proof fn lemma_strategy_equivalence(
    by_pixels: Seq<u8>,
    by_blocks: Seq<u8>,
    dest: Seq<u8>,
    src: Seq<u8>,
    spitch: int,
    sh: int,
    dpitch: int,
    dxb: int,
    dy: int,
)
    requires
        by_pixels == blit_result(dest, src, spitch, sh, dpitch, dxb, dy),
        by_blocks == blit_result(dest, src, spitch, sh, dpitch, dxb, dy),
    ensures
        by_pixels == by_blocks,
{
}

/// Localized write: a blit modifies exactly the bytes whose destination row
/// lies in `[dy, dy + sh)` and whose offset within that row lies in
/// `[dxb, dxb + spitch)` — those receive the corresponding source byte, and
/// every other destination byte is unchanged.
pub proof fn lemma_localized_write(
    dest: Seq<u8>,
    src: Seq<u8>,
    spitch: int,
    sh: int,
    dpitch: int,
    dxb: int,
    dy: int,
)
    requires
        dpitch > 0,
        spitch > 0,
        0 <= dxb,
        dxb + spitch <= dpitch,
        0 <= dy,
        0 <= sh,
        (dy + sh) * dpitch <= dest.len(),
    ensures
        blit_result(dest, src, spitch, sh, dpitch, dxb, dy).len() == dest.len(),
        forall|y: int, b: int|
            0 <= y < sh && 0 <= b < spitch ==> blit_result(dest, src, spitch, sh, dpitch, dxb,
                dy)[#[trigger] blit_dest_index(dpitch, dxb, dy, y, b)] == src[y * spitch + b],
        forall|i: int|
            0 <= i < dest.len() && !in_blit_rect(i, dpitch, dxb, dy, spitch, sh)
                ==> blit_result(dest, src, spitch, sh, dpitch, dxb, dy)[i] == dest[i],
{
    assert forall|y: int, b: int| 0 <= y < sh && 0 <= b < spitch implies blit_result(
        dest, src, spitch, sh, dpitch, dxb, dy,
    )[#[trigger] blit_dest_index(dpitch, dxb, dy, y, b)] == src[y * spitch + b] by {
        let idx = blit_dest_index(dpitch, dxb, dy, y, b);
        lemma_row_col_div_mod(dpitch, dy + y, dxb + b);
        assert(0 <= idx && idx < (dy + sh) * dpitch) by (nonlinear_arith)
            requires
                idx == (dy + y) * dpitch + dxb + b,
                0 <= y < sh,
                0 <= dy,
                0 <= dxb + b,
                dxb + b < dpitch,
                dpitch > 0,
        ;
        assert(in_blit_rect(idx, dpitch, dxb, dy, spitch, sh));
        assert(blit_src_index(idx, dpitch, dxb, dy, spitch) == y * spitch + b) by (nonlinear_arith)
            requires
                idx / dpitch == dy + y,
                idx % dpitch == dxb + b,
                blit_src_index(idx, dpitch, dxb, dy, spitch) == (idx / dpitch - dy) * spitch + (
                idx % dpitch - dxb),
        ;
    }
}

/// Bounds stress: under the caller's bounds contract, every destination byte
/// index that a blit writes lies inside `[0, dest.len())`, and the blit
/// never changes the destination's size.
pub proof fn lemma_blit_stays_in_bounds(
    dest: Seq<u8>,
    src: Seq<u8>,
    spitch: int,
    sh: int,
    dpitch: int,
    dxb: int,
    dy: int,
)
    requires
        dpitch > 0,
        spitch > 0,
        0 <= dxb,
        dxb + spitch <= dpitch,
        0 <= dy,
        0 <= sh,
        (dy + sh) * dpitch <= dest.len(),
    ensures
        blit_result(dest, src, spitch, sh, dpitch, dxb, dy).len() == dest.len(),
        forall|y: int, b: int|
            0 <= y < sh && 0 <= b < spitch ==> 0 <= #[trigger] blit_dest_index(dpitch, dxb, dy,
                y, b) < dest.len(),
{
    assert forall|y: int, b: int| 0 <= y < sh && 0 <= b < spitch implies 0 <= #[trigger]
        blit_dest_index(dpitch, dxb, dy, y, b) < dest.len() by {
        assert(0 <= blit_dest_index(dpitch, dxb, dy, y, b) && blit_dest_index(dpitch, dxb, dy,
            y, b) < (dy + sh) * dpitch) by (nonlinear_arith)
            requires
                blit_dest_index(dpitch, dxb, dy, y, b) == (dy + y) * dpitch + dxb + b,
                0 <= y < sh,
                0 <= dy,
                0 <= dxb + b,
                dxb + b < dpitch,
                dpitch > 0,
        ;
    }
}

/// Overlap order: blitting sprite `a` and then sprite `b`, both of the same
/// dimensions and at the same offset, leaves exactly what blitting `b` alone
/// would leave — the later write wins and nothing blends.
pub proof fn lemma_overlap_order(
    dest: Seq<u8>,
    a: Seq<u8>,
    b: Seq<u8>,
    spitch: int,
    sh: int,
    dpitch: int,
    dxb: int,
    dy: int,
)
    ensures
        blit_result(
            blit_result(dest, a, spitch, sh, dpitch, dxb, dy),
            b,
            spitch,
            sh,
            dpitch,
            dxb,
            dy,
        ) == blit_result(dest, b, spitch, sh, dpitch, dxb, dy),
{
    let once = blit_result(dest, b, spitch, sh, dpitch, dxb, dy);
    let twice = blit_result(
        blit_result(dest, a, spitch, sh, dpitch, dxb, dy),
        b,
        spitch,
        sh,
        dpitch,
        dxb,
        dy,
    );
    assert(twice =~= once);
}

impl PixelBuffer {
    /// Pixel-wise strategy: for each destination row, copies the source
    /// row's pixels one 32-bit unit at a time into the correspondingly
    /// offset destination row. The semantic reference implementation.
    #[verifier::loop_isolation(false)]
    pub fn render_by_pixels(&self, dest: &mut PixelBuffer, pos_x: u32, pos_y: u32)
        requires
            self.wf(),
            old(dest).wf(),
            self.bytes_per_pixel == 4,
            old(dest).bytes_per_pixel == 4,
            pos_x + self.width_in_pixels <= old(dest).width_in_pixels,
            pos_y + self.height_in_pixels <= old(dest).height_in_pixels,
        ensures
            final(dest).wf(),
            final(dest).bytes_per_pixel == old(dest).bytes_per_pixel,
            final(dest).pitch == old(dest).pitch,
            final(dest).width_in_pixels == old(dest).width_in_pixels,
            final(dest).height_in_pixels == old(dest).height_in_pixels,
            final(dest).buffer@ == blit_result(
                old(dest).buffer@,
                self.buffer@,
                self.pitch as int,
                self.height_in_pixels as int,
                old(dest).pitch as int,
                4 * pos_x as int,
                pos_y as int,
            ),
    {
        let ghost spitch = self.pitch as int;
        let ghost sh = self.height_in_pixels as int;
        let ghost dpitch = old(dest).pitch as int;
        let ghost dh = old(dest).height_in_pixels as int;
        let ghost dxb = 4 * pos_x as int;
        let ghost dy = pos_y as int;
        let ghost src = self.buffer@;
        let ghost dest0 = old(dest).buffer@;
        proof {
            lemma_blit_context(*self, *old(dest), pos_x as int, pos_y as int);
            lemma_blit_partial_init(dest0, src, spitch, sh, dpitch, dxb, dy);
        }
        let src_total: usize = self.buffer.len();
        let dest_total: usize = dest.buffer.len();
        let mut y: u32 = 0;
        while y < self.height_in_pixels
            invariant
                y <= self.height_in_pixels,
                dest.bytes_per_pixel == old(dest).bytes_per_pixel,
                dest.pitch == old(dest).pitch,
                dest.width_in_pixels == old(dest).width_in_pixels,
                dest.height_in_pixels == old(dest).height_in_pixels,
                dest.buffer@.len() == dest0.len(),
                dest.buffer@ == blit_partial(dest0, src, spitch, sh, dpitch, dxb, dy,
                    (y as int) * spitch),
            decreases self.height_in_pixels - y,
        {
            let mut x: u32 = 0;
            while x < self.width_in_pixels
                invariant
                    x <= self.width_in_pixels,
                    dest.bytes_per_pixel == old(dest).bytes_per_pixel,
                    dest.pitch == old(dest).pitch,
                    dest.width_in_pixels == old(dest).width_in_pixels,
                    dest.height_in_pixels == old(dest).height_in_pixels,
                    dest.buffer@.len() == dest0.len(),
                    dest.buffer@ == blit_partial(dest0, src, spitch, sh, dpitch, dxb, dy,
                        (y as int) * spitch + 4 * (x as int)),
                decreases self.width_in_pixels - x,
            {
                let mut k: u32 = 0;
                while k < 4
                    invariant
                        k <= 4,
                        dest.bytes_per_pixel == old(dest).bytes_per_pixel,
                        dest.pitch == old(dest).pitch,
                        dest.width_in_pixels == old(dest).width_in_pixels,
                        dest.height_in_pixels == old(dest).height_in_pixels,
                        dest.buffer@.len() == dest0.len(),
                        dest.buffer@ == blit_partial(dest0, src, spitch, sh, dpitch, dxb, dy,
                            (y as int) * spitch + 4 * (x as int) + k as int),
                    decreases 4 - k,
                {
                    let ghost c = 4 * (x as int) + k as int;
                    proof {
                        assert(0 <= (y as int) * spitch && (y as int) * spitch + c
                            < spitch * sh) by (nonlinear_arith)
                            requires
                                0 <= y as int,
                                (y as int) < sh,
                                0 <= c,
                                c < spitch,
                        ;
                        lemma_blit_partial_step(dest0, src, spitch, sh, dpitch, dxb, dy,
                            y as int, c);
                    }
                    let sidx: usize = y as usize * self.pitch as usize + 4 * x as usize
                        + k as usize;
                    let didx: usize = (pos_y as usize + y as usize) * dest.pitch as usize
                        + 4 * pos_x as usize + 4 * x as usize + k as usize;
                    let v: u8 = self.buffer[sidx];
                    dest.buffer[didx] = v;
                    proof {
                        assert(dest.buffer@ =~= blit_partial(dest0, src, spitch, sh, dpitch,
                            dxb, dy, (y as int) * spitch + c + 1));
                    }
                    k = k + 1;
                }
                x = x + 1;
            }
            proof {
                assert((y as int) * spitch + spitch == (y as int + 1) * spitch)
                    by (nonlinear_arith);
            }
            y = y + 1;
        }
        proof {
            lemma_blit_partial_complete(dest0, src, spitch, sh, dpitch, dxb, dy);
        }
    }

    /// Block strategy: a single whole-buffer byte copy when source and
    /// destination have identical total size and the offset is the origin
    /// (the bounds contract then forces equal pitch and row count, so the
    /// row-major layouts coincide); otherwise one contiguous copy of
    /// `self.pitch` bytes per source row.
    #[verifier::loop_isolation(false)]
    pub fn render_by_blocks(&self, dest: &mut PixelBuffer, pos_x: u32, pos_y: u32)
        requires
            self.wf(),
            old(dest).wf(),
            self.bytes_per_pixel == 4,
            old(dest).bytes_per_pixel == 4,
            pos_x + self.width_in_pixels <= old(dest).width_in_pixels,
            pos_y + self.height_in_pixels <= old(dest).height_in_pixels,
        ensures
            final(dest).wf(),
            final(dest).bytes_per_pixel == old(dest).bytes_per_pixel,
            final(dest).pitch == old(dest).pitch,
            final(dest).width_in_pixels == old(dest).width_in_pixels,
            final(dest).height_in_pixels == old(dest).height_in_pixels,
            final(dest).buffer@ == blit_result(
                old(dest).buffer@,
                self.buffer@,
                self.pitch as int,
                self.height_in_pixels as int,
                old(dest).pitch as int,
                4 * pos_x as int,
                pos_y as int,
            ),
    {
        let ghost spitch = self.pitch as int;
        let ghost sh = self.height_in_pixels as int;
        let ghost dpitch = old(dest).pitch as int;
        let ghost dh = old(dest).height_in_pixels as int;
        let ghost dxb = 4 * pos_x as int;
        let ghost dy = pos_y as int;
        let ghost src = self.buffer@;
        let ghost dest0 = old(dest).buffer@;
        proof {
            lemma_blit_context(*self, *old(dest), pos_x as int, pos_y as int);
            lemma_blit_partial_init(dest0, src, spitch, sh, dpitch, dxb, dy);
        }
        let src_total: usize = self.buffer.len();
        let dest_total: usize = dest.buffer.len();
        if src_total == dest_total && pos_x == 0 && pos_y == 0 {
            proof {
                lemma_equal_size_equal_layout(spitch, sh, dpitch, dh);
            }
            let mut i: usize = 0;
            while i < dest_total
                invariant
                    i <= dest_total,
                    dest.bytes_per_pixel == old(dest).bytes_per_pixel,
                    dest.pitch == old(dest).pitch,
                    dest.width_in_pixels == old(dest).width_in_pixels,
                    dest.height_in_pixels == old(dest).height_in_pixels,
                    dest.buffer@.len() == dest0.len(),
                    forall|j: int| 0 <= j < i ==> dest.buffer@[j] == src[j],
                decreases dest_total - i,
            {
                let v: u8 = self.buffer[i];
                dest.buffer[i] = v;
                i = i + 1;
            }
            proof {
                assert(dest.buffer@ =~= src);
                lemma_blit_round_trip(dest0, src, spitch, sh);
            }
        } else {
            let mut y: u32 = 0;
            while y < self.height_in_pixels
                invariant
                    y <= self.height_in_pixels,
                    dest.bytes_per_pixel == old(dest).bytes_per_pixel,
                    dest.pitch == old(dest).pitch,
                    dest.width_in_pixels == old(dest).width_in_pixels,
                    dest.height_in_pixels == old(dest).height_in_pixels,
                    dest.buffer@.len() == dest0.len(),
                    dest.buffer@ == blit_partial(dest0, src, spitch, sh, dpitch, dxb, dy,
                        (y as int) * spitch),
                decreases self.height_in_pixels - y,
            {
                let mut b_off: u32 = 0;
                while b_off < self.pitch
                    invariant
                        b_off <= self.pitch,
                        dest.bytes_per_pixel == old(dest).bytes_per_pixel,
                        dest.pitch == old(dest).pitch,
                        dest.width_in_pixels == old(dest).width_in_pixels,
                        dest.height_in_pixels == old(dest).height_in_pixels,
                        dest.buffer@.len() == dest0.len(),
                        dest.buffer@ == blit_partial(dest0, src, spitch, sh, dpitch, dxb, dy,
                            (y as int) * spitch + b_off as int),
                    decreases self.pitch - b_off,
                {
                    let ghost c = b_off as int;
                    proof {
                        assert(0 <= (y as int) * spitch && (y as int) * spitch + c
                            < spitch * sh) by (nonlinear_arith)
                            requires
                                0 <= y as int,
                                (y as int) < sh,
                                0 <= c,
                                c < spitch,
                        ;
                        lemma_blit_partial_step(dest0, src, spitch, sh, dpitch, dxb, dy,
                            y as int, c);
                    }
                    let sidx: usize = y as usize * self.pitch as usize + b_off as usize;
                    let didx: usize = (pos_y as usize + y as usize) * dest.pitch as usize
                        + 4 * pos_x as usize + b_off as usize;
                    let v: u8 = self.buffer[sidx];
                    dest.buffer[didx] = v;
                    proof {
                        assert(dest.buffer@ =~= blit_partial(dest0, src, spitch, sh, dpitch,
                            dxb, dy, (y as int) * spitch + c + 1));
                    }
                    b_off = b_off + 1;
                }
                proof {
                    assert((y as int) * spitch + spitch == (y as int + 1) * spitch)
                        by (nonlinear_arith);
                }
                y = y + 1;
            }
            proof {
                lemma_blit_partial_complete(dest0, src, spitch, sh, dpitch, dxb, dy);
            }
        }
    }
}

} // verus!
