use vstd::prelude::*;

use super::circle::{
    PixelOp, aa_fill_ops, aa_inner_blends, aa_inv, aa_next, aa_on_blends, aa_ops,
    aa_outward_blends, alpha_in, alpha_on, alpha_out, apply_op, apply_ops, circle_ops, crisp_inv,
    crisp_next, crisp_ops, diagonal, disc_ops, lemma_aa_start, lemma_aa_step, lemma_crisp_start,
    lemma_aa_ops_within, lemma_crisp_all_writes, lemma_crisp_axes, lemma_crisp_misses_centre,
    lemma_crisp_ops_within, lemma_crisp_step, lemma_writes_paint, hits_point, mirrored_blends,
    op_index, op_within, ops_fit, ops_within, touches, walk_start, with_alpha,
};
use vstd::std_specs::cmp::PartialEqSpecImpl;

use super::inner_common::{PALETTE, SCREEN_HEIGHT, SCREEN_LENGTH, SCREEN_WIDTH};

verus! {

/// A screen-sized array of 0xAABBGGRR pixels, row by row.
pub struct Framebuffer {
    pub buffer: Vec<u32>,
}

/// The index of pixel `(x, y)`: `y * SCREEN_WIDTH + x`, where each of the
/// multiplication and the addition saturates at `usize::MAX`.
pub open spec fn xy_to_i_spec(x: usize, y: usize) -> usize {
    let row = if y * SCREEN_WIDTH > usize::MAX { usize::MAX as int } else { y * SCREEN_WIDTH };
    if row + x > usize::MAX { usize::MAX } else { (row + x) as usize }
}

/// Channel `k` (0 red, 1 green, 2 blue, 3 alpha) of a 0xAABBGGRR colour.
pub open spec fn channel(c: u32, k: int) -> int {
    (c as int / pow256(k)) % 256
}

/// 256 to the power `k`, for `k` in 0..4.
pub open spec fn pow256(k: int) -> int {
    if k <= 0 {
        1
    } else if k == 1 {
        0x100
    } else if k == 2 {
        0x10000
    } else {
        0x1000000
    }
}

/// One channel of `fg` laid over `bg` with `fg`'s alpha `a` (0..=255):
/// `((a + 1) * fg + (256 - a) * bg) / 256`.
pub open spec fn mix(fg: int, bg: int, a: int) -> int {
    ((a + 1) * fg + (256 - a) * bg) / 256
}

/// The opaque colour that results from blending `fg` over `bg`.
pub open spec fn blend_colour(bg: u32, fg: u32) -> u32 {
    let a = channel(fg, 3);
    (mix(channel(fg, 0), channel(bg, 0), a) + mix(channel(fg, 1), channel(bg, 1), a) * 0x100
        + mix(channel(fg, 2), channel(bg, 2), a) * 0x10000 + 0xFF000000) as u32
}

proof fn lemma_channels(c: u32)
    ensures
        c & 0xFF == channel(c, 0),
        (c & 0xFF00) >> 8 == channel(c, 1),
        (c & 0xFF0000) >> 16 == channel(c, 2),
        (c & 0xFF000000) >> 24 == channel(c, 3),
{
    assert(c & 0xFF == c % 0x100) by (bit_vector);
    assert((c & 0xFF00) >> 8 == (c / 0x100) % 0x100) by (bit_vector);
    assert((c & 0xFF0000) >> 16 == (c / 0x10000) % 0x100) by (bit_vector);
    assert((c & 0xFF000000) >> 24 == (c / 0x1000000) % 0x100) by (bit_vector);
}

proof fn lemma_mix_bound(fg: int, bg: int, a: int)
    requires
        0 <= fg < 256,
        0 <= bg < 256,
        0 <= a < 256,
    ensures
        0 <= (a + 1) * fg + (256 - a) * bg <= 257 * 255,
        0 <= mix(fg, bg, a) < 256,
{
    assert(0 <= (a + 1) * fg <= (a + 1) * 255) by (nonlinear_arith)
        requires
            0 <= fg < 256,
            0 <= a < 256,
    ;
    assert(0 <= (256 - a) * bg <= (256 - a) * 255) by (nonlinear_arith)
        requires
            0 <= bg < 256,
            0 <= a < 256,
    ;
}

/// Blends one channel: `((alpha * fg + inv_alpha * bg) >> 8)`.
fn mix_channel(fg: u32, bg: u32, a: u32) -> (m: u32)
    requires
        fg < 256,
        bg < 256,
        a < 256,
    ensures
        m == mix(fg as int, bg as int, a as int),
        m < 256,
{
    proof {
        lemma_mix_bound(fg as int, bg as int, a as int);
    }
    let alpha = a + 1;
    let inv_alpha = 256 - a;
    let sum = alpha * fg + inv_alpha * bg;
    assert(sum >> 8 == sum / 256) by (bit_vector);
    sum >> 8
}

/// Pixel index `i` is that of some `(cx, cy)` with `x0 <= cx < x1` and
/// `y0 <= cy < y1`.
pub open spec fn in_block(i: int, x0: int, x1: int, y0: int, y1: int) -> bool {
    exists|cx: usize, cy: usize|
        x0 <= cx < x1 && y0 <= cy < y1 && #[trigger] xy_to_i_spec(cx, cy) == i
}

/// `buf` with every pixel whose index satisfies `painted` set to `colour`.
pub open spec fn paint(buf: Seq<u32>, painted: spec_fn(int) -> bool, colour: u32) -> Seq<u32> {
    Seq::new(buf.len(), |i: int| if painted(i) { colour } else { buf[i] })
}

/// Pixel index `i` lies on the outline of the `width` by `height` rectangle
/// whose top-left corner is `(x, y)`: its left and right columns and its top
/// and bottom rows.
pub open spec fn on_outline(i: int, x: int, y: int, width: int, height: int) -> bool {
    ||| in_block(i, x, x + 1, y, y + height)
    ||| in_block(i, x + width - 1, x + width, y, y + height)
    ||| in_block(i, x, x + width, y, y + 1)
    ||| in_block(i, x, x + width, y + height - 1, y + height)
}

/// A block with one more column on its right.
proof fn lemma_block_extend_x(i: int, x0: int, x1: int, y0: int, y1: int, k: int)
    requires
        x1 >= x0,
        0 <= x1,
        y1 == y0 + 1,
        0 <= y0,
        k == xy_to_i_spec(x1 as usize, y0 as usize),
        x1 <= usize::MAX,
        y0 <= usize::MAX,
    ensures
        in_block(i, x0, x1 + 1, y0, y1) <==> (in_block(i, x0, x1, y0, y1) || i == k),
{
    if i == k {
        assert(xy_to_i_spec(x1 as usize, y0 as usize) == i);
    }
    if in_block(i, x0, x1, y0, y1) {
        let (a, b) = choose|cx: usize, cy: usize|
            x0 <= cx < x1 && y0 <= cy < y1 && #[trigger] xy_to_i_spec(cx, cy) == i;
        assert(xy_to_i_spec(a, b) == i);
    }
    if in_block(i, x0, x1 + 1, y0, y1) {
        let (a, b) = choose|cx: usize, cy: usize|
            x0 <= cx < x1 + 1 && y0 <= cy < y1 && #[trigger] xy_to_i_spec(cx, cy) == i;
        if a < x1 {
            assert(xy_to_i_spec(a, b) == i);
        }
    }
}

/// Rows `y0..y1` and row `y1` make rows `y0..y1 + 1`.
proof fn lemma_block_extend_y(i: int, x0: int, x1: int, y0: int, y1: int)
    requires
        y1 >= y0,
    ensures
        in_block(i, x0, x1, y0, y1 + 1) <==> (in_block(i, x0, x1, y0, y1) || in_block(
            i,
            x0,
            x1,
            y1,
            y1 + 1,
        )),
{
    if in_block(i, x0, x1, y0, y1) {
        let (a, b) = choose|cx: usize, cy: usize|
            x0 <= cx < x1 && y0 <= cy < y1 && #[trigger] xy_to_i_spec(cx, cy) == i;
        assert(xy_to_i_spec(a, b) == i);
    }
    if in_block(i, x0, x1, y1, y1 + 1) {
        let (a, b) = choose|cx: usize, cy: usize|
            x0 <= cx < x1 && y1 <= cy < y1 + 1 && #[trigger] xy_to_i_spec(cx, cy) == i;
        assert(xy_to_i_spec(a, b) == i);
    }
    if in_block(i, x0, x1, y0, y1 + 1) {
        let (a, b) = choose|cx: usize, cy: usize|
            x0 <= cx < x1 && y0 <= cy < y1 + 1 && #[trigger] xy_to_i_spec(cx, cy) == i;
        assert(xy_to_i_spec(a, b) == i);
    }
}

/// A block one pixel wide and one tall holds just that pixel's index.
proof fn lemma_block_point(i: int, a: int, b: int)
    requires
        0 <= a <= usize::MAX,
        0 <= b <= usize::MAX,
    ensures
        in_block(i, a, a + 1, b, b + 1) <==> i == xy_to_i_spec(a as usize, b as usize),
{
    if i == xy_to_i_spec(a as usize, b as usize) {
        assert(xy_to_i_spec(a as usize, b as usize) == i);
    }
}

/// A column block gains the pixel below it.
proof fn lemma_column_extend(i: int, a: int, y0: int, y1: int)
    requires
        0 <= a <= usize::MAX,
        0 <= y0 <= y1 <= usize::MAX,
    ensures
        in_block(i, a, a + 1, y0, y1 + 1) <==> (in_block(i, a, a + 1, y0, y1) || i == xy_to_i_spec(
            a as usize,
            y1 as usize,
        )),
{
    lemma_block_extend_y(i, a, a + 1, y0, y1);
    lemma_block_point(i, a, y1);
}

/// `colour` with its alpha channel replaced by `alpha`.
fn set_alpha(colour: u32, alpha: u32) -> (c: u32)
    requires
        alpha < 256,
    ensures
        c == with_alpha(colour, alpha as int),
{
    assert((colour & 0x00FF_FFFF) | alpha << 24 == colour % 0x1000000 + alpha * 0x1000000)
        by (bit_vector)
        requires
            alpha < 256,
    ;
    (colour & 0x00FF_FFFF) | alpha << 24
}

/// A blend value from an error term no larger than the diameter is at most
/// 255.
proof fn lemma_alpha_bound(e: int, d: int)
    requires
        0 <= e <= d,
        d > 0,
    ensures
        0 <= 255 * e / d <= 255,
{
    assert(255 * e <= 255 * d) by (nonlinear_arith)
        requires
            0 <= e <= d,
    ;
    assert(255 * e / d <= 255 * d / d) by (nonlinear_arith)
        requires
            255 * e <= 255 * d,
            d > 0,
            0 <= e,
    ;
    assert(255 * d / d == 255) by (nonlinear_arith)
        requires
            d > 0,
    ;
    assert(0 <= 255 * e / d) by (nonlinear_arith)
        requires
            0 <= e,
            d > 0,
    ;
}

/// A blend value from a non-negative error term is non-negative.
proof fn lemma_alpha_nonneg(e: int, d: int)
    requires
        0 <= e,
        d > 0,
    ensures
        0 <= 255 * e / d,
{
    assert(0 <= 255 * e / d) by (nonlinear_arith)
        requires
            0 <= e,
            d > 0,
    ;
}

/// Carrying out `a + b` is carrying out `a`, then `b`.
proof fn lemma_apply_ops_append(buf: Seq<u32>, a: Seq<PixelOp>, b: Seq<PixelOp>)
    ensures
        apply_ops(buf, a + b) == apply_ops(apply_ops(buf, a), b),
    decreases a.len(),
{
    if a.len() > 0 {
        assert((a + b).drop_first() =~= a.drop_first() + b);
        lemma_apply_ops_append(apply_op(buf, a[0]), a.drop_first(), b);
    } else {
        assert(a + b =~= b);
    }
}

/// Dropping the first operation keeps the rest in range.
proof fn lemma_ops_fit_drop(ops: Seq<PixelOp>, len: int)
    requires
        ops.len() > 0,
        ops_fit(ops, len),
    ensures
        op_index(ops[0]) < len,
        ops_fit(ops.drop_first(), len),
{
    assert(op_index(ops[0]) < len);
    assert forall|k: int| 0 <= k < ops.drop_first().len() implies #[trigger] op_index(
        ops.drop_first()[k],
    ) < len by {
        assert(ops.drop_first()[k] == ops[k + 1]);
        assert(op_index(ops[k + 1]) < len);
    }
}

impl Framebuffer {
    /// A framebuffer of `SCREEN_LENGTH` pixels, all of palette colour 0.
    pub fn new() -> (fb: Framebuffer)
        ensures
            fb.buffer@ == Seq::new(SCREEN_LENGTH as nat, |i: int| PALETTE[0]),
    {
        Framebuffer::default()
    }

    /// The buffer index of pixel `(x, y)`; see [`xy_to_i_spec`].
    pub fn xy_to_i(x: usize, y: usize) -> (i: usize)
        ensures
            i == xy_to_i_spec(x, y),
    {
        let row = match y.checked_mul(SCREEN_WIDTH) {
            Some(r) => r,
            None => usize::MAX,
        };
        row.saturating_add(x)
    }

    /// Blends `colour` over pixel `i` by `colour`'s alpha; the pixel becomes
    /// opaque.
    pub fn blend(&mut self, i: usize, colour: u32)
        requires
            i < old(self).buffer.len(),
        ensures
            final(self).buffer@ == old(self).buffer@.update(
                i as int,
                blend_colour(old(self).buffer@[i as int], colour),
            ),
    {
        let background = self.buffer[i];
        proof {
            lemma_channels(colour);
            lemma_channels(background);
        }
        let a = (colour & 0xFF000000) >> 24;
        let r = mix_channel(colour & 0xFF, background & 0xFF, a);
        let g = mix_channel((colour & 0xFF00) >> 8, (background & 0xFF00) >> 8, a);
        let b = mix_channel((colour & 0xFF0000) >> 16, (background & 0xFF0000) >> 16, a);
        assert(r | g << 8 | b << 16 | 0xFFu32 << 24 == r + g * 0x100 + b * 0x10000 + 0xFF000000)
            by (bit_vector)
            requires
                r < 256,
                g < 256,
                b < 256,
        ;
        self.buffer[i] = r | g << 8 | b << 16 | 0xFF << 24;
    }

    /// Blends `colour` over pixel `(x, y)`.
    pub fn blend_xy(&mut self, x: usize, y: usize, colour: u32)
        requires
            xy_to_i_spec(x, y) < old(self).buffer.len(),
        ensures
            final(self).buffer@ == old(self).buffer@.update(
                xy_to_i_spec(x, y) as int,
                blend_colour(old(self).buffer@[xy_to_i_spec(x, y) as int], colour),
            ),
    {
        self.blend(Framebuffer::xy_to_i(x, y), colour);
    }

    /// Sets each pixel `(cx, cy)` with `x <= cx < x + width` and
    /// `y <= cy < y + height` to `colour`; those whose index falls outside
    /// the buffer are skipped.
    pub fn draw_filled_rect(&mut self, x: usize, y: usize, width: usize, height: usize, colour: u32)
        requires
            x + width <= usize::MAX,
            y + height <= usize::MAX,
        ensures
            final(self).buffer@ == paint(
                old(self).buffer@,
                |i: int| in_block(i, x as int, x + width, y as int, y + height),
                colour,
            ),
    {
        let one_past_right_edge = x + width;
        let one_past_bottom_edge = y + height;
        let ghost old_buf = self.buffer@;
        let n = self.buffer.len();

        for current_y in y..one_past_bottom_edge
            invariant
                n == self.buffer.len(),
                old_buf.len() == n,
                one_past_right_edge == x + width,
                one_past_bottom_edge == y + height,
                forall|i: int|
                    0 <= i < n ==> #[trigger] self.buffer@[i] == (if in_block(
                        i,
                        x as int,
                        x + width,
                        y as int,
                        current_y as int,
                    ) {
                        colour
                    } else {
                        old_buf[i]
                    }),
        {
            let ghost row_start = self.buffer@;
            for current_x in x..one_past_right_edge
                invariant
                    n == self.buffer.len(),
                    old_buf.len() == n,
                    y <= current_y < y + height,
                    one_past_right_edge == x + width,
                    forall|i: int|
                        0 <= i < n ==> #[trigger] self.buffer@[i] == (if in_block(
                            i,
                            x as int,
                            x + width,
                            y as int,
                            current_y as int,
                        ) || in_block(i, x as int, current_x as int, current_y as int, current_y + 1) {
                            colour
                        } else {
                            old_buf[i]
                        }),
            {
                let i = Framebuffer::xy_to_i(current_x, current_y);
                if i < self.buffer.len() {
                    self.buffer[i] = colour;
                }
                proof {
                    assert forall|j: int| 0 <= j < n implies #[trigger] self.buffer@[j] == (if in_block(
                        j,
                        x as int,
                        x + width,
                        y as int,
                        current_y as int,
                    ) || in_block(j, x as int, current_x + 1, current_y as int, current_y + 1) {
                        colour
                    } else {
                        old_buf[j]
                    }) by {
                        lemma_block_extend_x(
                            j,
                            x as int,
                            current_x as int,
                            current_y as int,
                            current_y + 1,
                            i as int,
                        );
                    }
                }
            }
            proof {
                assert forall|j: int| 0 <= j < n implies #[trigger] self.buffer@[j] == (if in_block(
                    j,
                    x as int,
                    x + width,
                    y as int,
                    current_y + 1,
                ) {
                    colour
                } else {
                    old_buf[j]
                }) by {
                    lemma_block_extend_y(j, x as int, x + width, y as int, current_y as int);
                }
            }
        }
        assert(self.buffer@ =~= paint(
            old_buf,
            |i: int| in_block(i, x as int, x + width, y as int, y + height),
            colour,
        ));
    }

    /// Sets the pixels on the outline of the `width` by `height` rectangle
    /// whose top-left corner is `(x, y)` to `colour`; those whose index falls
    /// outside the buffer are skipped.
    pub fn draw_rect(&mut self, x: usize, y: usize, width: usize, height: usize, colour: u32)
        requires
            x + width <= usize::MAX,
            y + height <= usize::MAX,
            height > 0 ==> x + width > 0,
            width > 0 ==> y + height > 0,
        ensures
            final(self).buffer@ == paint(
                old(self).buffer@,
                |i: int| on_outline(i, x as int, y as int, width as int, height as int),
                colour,
            ),
    {
        let one_past_right_edge = x + width;
        let one_past_bottom_edge = y + height;
        let ghost old_buf = self.buffer@;
        let n = self.buffer.len();

        for current_y in y..one_past_bottom_edge
            invariant
                n == self.buffer.len(),
                old_buf.len() == n,
                one_past_right_edge == x + width,
                one_past_bottom_edge == y + height,
                height > 0 ==> x + width > 0,
                forall|i: int|
                    0 <= i < n ==> #[trigger] self.buffer@[i] == (if in_block(
                        i,
                        x as int,
                        x + 1,
                        y as int,
                        current_y as int,
                    ) || in_block(i, x + width - 1, x + width, y as int, current_y as int) {
                        colour
                    } else {
                        old_buf[i]
                    }),
        {
            let left = Framebuffer::xy_to_i(x, current_y);
            if left < self.buffer.len() {
                self.buffer[left] = colour;
            }
            let right = Framebuffer::xy_to_i(one_past_right_edge - 1, current_y);
            if right < self.buffer.len() {
                self.buffer[right] = colour;
            }
            proof {
                assert forall|j: int| 0 <= j < n implies #[trigger] self.buffer@[j] == (if in_block(
                    j,
                    x as int,
                    x + 1,
                    y as int,
                    current_y + 1,
                ) || in_block(j, x + width - 1, x + width, y as int, current_y + 1) {
                    colour
                } else {
                    old_buf[j]
                }) by {
                    lemma_column_extend(j, x as int, y as int, current_y as int);
                    lemma_column_extend(j, x + width - 1, y as int, current_y as int);
                }
            }
        }

        for current_x in x..one_past_right_edge
            invariant
                n == self.buffer.len(),
                old_buf.len() == n,
                one_past_right_edge == x + width,
                one_past_bottom_edge == y + height,
                width > 0 ==> y + height > 0,
                forall|i: int|
                    0 <= i < n ==> #[trigger] self.buffer@[i] == (if in_block(
                        i,
                        x as int,
                        x + 1,
                        y as int,
                        y + height,
                    ) || in_block(i, x + width - 1, x + width, y as int, y + height) || in_block(
                        i,
                        x as int,
                        current_x as int,
                        y as int,
                        y + 1,
                    ) || in_block(i, x as int, current_x as int, y + height - 1, y + height) {
                        colour
                    } else {
                        old_buf[i]
                    }),
        {
            let top = Framebuffer::xy_to_i(current_x, y);
            if top < self.buffer.len() {
                self.buffer[top] = colour;
            }
            let bottom = Framebuffer::xy_to_i(current_x, one_past_bottom_edge - 1);
            if bottom < self.buffer.len() {
                self.buffer[bottom] = colour;
            }
            proof {
                assert forall|j: int| 0 <= j < n implies #[trigger] self.buffer@[j] == (if in_block(
                    j,
                    x as int,
                    x + 1,
                    y as int,
                    y + height,
                ) || in_block(j, x + width - 1, x + width, y as int, y + height) || in_block(
                    j,
                    x as int,
                    current_x + 1,
                    y as int,
                    y + 1,
                ) || in_block(j, x as int, current_x + 1, y + height - 1, y + height) {
                    colour
                } else {
                    old_buf[j]
                }) by {
                    lemma_block_extend_x(j, x as int, current_x as int, y as int, y + 1, top as int);
                    lemma_block_extend_x(
                        j,
                        x as int,
                        current_x as int,
                        y + height - 1,
                        y + height,
                        bottom as int,
                    );
                }
            }
        }
        assert(self.buffer@ =~= paint(
            old_buf,
            |i: int| on_outline(i, x as int, y as int, width as int, height as int),
            colour,
        ));
    }

    /// Carries out `pending[0]`, a write of `colour` at `(x, y)`.
    fn write_op(&mut self, x: usize, y: usize, colour: u32, Ghost(pending): Ghost<Seq<PixelOp>>)
        requires
            pending.len() > 0,
            pending[0].0 as usize == x,
            pending[0].1 as usize == y,
            pending[0].2 == colour,
            !pending[0].3,
            ops_fit(pending, old(self).buffer.len() as int),
        ensures
            final(self).buffer.len() == old(self).buffer.len(),
            apply_ops(final(self).buffer@, pending.drop_first()) == apply_ops(
                old(self).buffer@,
                pending,
            ),
            ops_fit(pending.drop_first(), old(self).buffer.len() as int),
    {
        proof {
            lemma_ops_fit_drop(pending, self.buffer.len() as int);
        }
        let i = Framebuffer::xy_to_i(x, y);
        self.buffer[i] = colour;
        assert(self.buffer@ == apply_op(old(self).buffer@, pending[0]));
    }

    /// Carries out `pending[0]`, a blend of `colour` at `(x, y)`.
    fn blend_op(&mut self, x: usize, y: usize, colour: u32, Ghost(pending): Ghost<Seq<PixelOp>>)
        requires
            pending.len() > 0,
            pending[0].0 as usize == x,
            pending[0].1 as usize == y,
            pending[0].2 == colour,
            pending[0].3,
            ops_fit(pending, old(self).buffer.len() as int),
        ensures
            final(self).buffer.len() == old(self).buffer.len(),
            apply_ops(final(self).buffer@, pending.drop_first()) == apply_ops(
                old(self).buffer@,
                pending,
            ),
            ops_fit(pending.drop_first(), old(self).buffer.len() as int),
    {
        proof {
            lemma_ops_fit_drop(pending, self.buffer.len() as int);
        }
        self.blend_xy(x, y, colour);
        assert(self.buffer@ == apply_op(old(self).buffer@, pending[0]));
    }

    /// Writes `colour` along a diagonal run from `(cx, cy)`, one step right or
    /// left and down or up at a time, for as long as the run has not reached
    /// the centre `(xMid, yMid)` in both coordinates.
    fn fill_run(
        &mut self,
        cx: usize,
        cy: usize,
        right: bool,
        down: bool,
        xMid: usize,
        yMid: usize,
        colour: u32,
        Ghost(n): Ghost<int>,
        Ghost(pending): Ghost<Seq<PixelOp>>,
        Ghost(rest): Ghost<Seq<PixelOp>>,
    )
        requires
            right ==> cx <= xMid,
            !right ==> cx >= xMid,
            down ==> cy <= yMid,
            !down ==> cy >= yMid,
            n == ({
                let dx = if right {
                    xMid - cx
                } else {
                    cx - xMid
                };
                let dy = if down {
                    yMid - cy
                } else {
                    cy - yMid
                };
                if dx < dy {
                    dy
                } else {
                    dx
                }
            }),
            !right ==> cx - n >= 0,
            !down ==> cy - n >= 0,
            right ==> cx + n <= usize::MAX,
            down ==> cy + n <= usize::MAX,
            pending == diagonal(
                cx as int,
                cy as int,
                if right {
                    1
                } else {
                    -1
                },
                if down {
                    1
                } else {
                    -1
                },
                n,
                colour,
            ) + rest,
            ops_fit(pending, old(self).buffer.len() as int),
        ensures
            final(self).buffer.len() == old(self).buffer.len(),
            apply_ops(final(self).buffer@, rest) == apply_ops(old(self).buffer@, pending),
            ops_fit(rest, old(self).buffer.len() as int),
    {
        let ghost sx: int = if right {
            1
        } else {
            -1
        };
        let ghost sy: int = if down {
            1
        } else {
            -1
        };
        let ghost run = diagonal(cx as int, cy as int, sx, sy, n, colour);
        let ghost target = apply_ops(self.buffer@, pending);
        let ghost len = self.buffer.len() as int;
        let mut current_x = cx;
        let mut current_y = cy;
        let ghost mut j: int = 0;
        let ghost mut left = pending;
        while (right && current_x < xMid) || (!right && current_x > xMid) || (down && current_y
            < yMid) || (!down && current_y > yMid)
            invariant
                0 <= j <= n,
                current_x == (if right {
                    cx + j
                } else {
                    cx - j
                }),
                current_y == (if down {
                    cy + j
                } else {
                    cy - j
                }),
                sx == (if right {
                    1int
                } else {
                    -1int
                }),
                sy == (if down {
                    1int
                } else {
                    -1int
                }),
                right ==> cx <= xMid,
                !right ==> cx >= xMid,
                down ==> cy <= yMid,
                !down ==> cy >= yMid,
                n == ({
                    let dx = if right {
                        xMid - cx
                    } else {
                        cx - xMid
                    };
                    let dy = if down {
                        yMid - cy
                    } else {
                        cy - yMid
                    };
                    if dx < dy {
                        dy
                    } else {
                        dx
                    }
                }),
                !right ==> cx - n >= 0,
                !down ==> cy - n >= 0,
                right ==> cx + n <= usize::MAX,
                down ==> cy + n <= usize::MAX,
                run == diagonal(cx as int, cy as int, sx, sy, n, colour),
                left == run.subrange(j, n) + rest,
                self.buffer.len() == len,
                ops_fit(left, len),
                apply_ops(self.buffer@, left) == target,
            decreases n - j,
        {
            assert(j < n);
            assert(sx * j == (if right {
                j
            } else {
                -j
            })) by (nonlinear_arith)
                requires
                    sx == (if right {
                        1int
                    } else {
                        -1int
                    }),
            ;
            assert(sy * j == (if down {
                j
            } else {
                -j
            })) by (nonlinear_arith)
                requires
                    sy == (if down {
                        1int
                    } else {
                        -1int
                    }),
            ;
            assert(left[0] == run[j]);
            self.write_op(current_x, current_y, colour, Ghost(left));
            proof {
                left = left.drop_first();
                assert(left =~= run.subrange(j + 1, n) + rest);
                j = j + 1;
            }
            if right {
                current_x += 1;
            } else {
                current_x -= 1;
            }
            if down {
                current_y += 1;
            } else {
                current_y -= 1;
            }
        }
        assert(left =~= rest);
    }

    /// Carries out the four mirrored blends of the quadrant point `(px, py)`
    /// around `(xm, ym)` with `colour`, the first four pending operations.
    fn blend_mirrored(
        &mut self,
        xm: isize,
        ym: isize,
        px: isize,
        py: isize,
        colour: u32,
        Ghost(pending): Ghost<Seq<PixelOp>>,
        Ghost(rest): Ghost<Seq<PixelOp>>,
    )
        requires
            0 <= xm,
            0 <= ym,
            -isize::MAX <= px <= isize::MAX,
            -isize::MAX <= py <= isize::MAX,
            xm + (if px < 0 { -px } else { px as int }) <= isize::MAX,
            xm + (if py < 0 { -py } else { py as int }) <= isize::MAX,
            ym + (if px < 0 { -px } else { px as int }) <= isize::MAX,
            ym + (if py < 0 { -py } else { py as int }) <= isize::MAX,
            pending == mirrored_blends(xm as int, ym as int, px as int, py as int, colour) + rest,
            ops_fit(pending, old(self).buffer.len() as int),
        ensures
            final(self).buffer.len() == old(self).buffer.len(),
            apply_ops(final(self).buffer@, rest) == apply_ops(old(self).buffer@, pending),
            ops_fit(rest, old(self).buffer.len() as int),
    {
        let ghost mut left = pending;
        /*   I. Quadrant */
        self.blend_op((xm - px) as usize, (ym + py) as usize, colour, Ghost(left));
        proof {
            left = left.drop_first();
        }
        /*  II. Quadrant */
        self.blend_op((xm - py) as usize, (ym - px) as usize, colour, Ghost(left));
        proof {
            left = left.drop_first();
        }
        /* III. Quadrant */
        self.blend_op((xm + px) as usize, (ym - py) as usize, colour, Ghost(left));
        proof {
            left = left.drop_first();
        }
        /*  IV. Quadrant */
        self.blend_op((xm + py) as usize, (ym + px) as usize, colour, Ghost(left));
        proof {
            left = left.drop_first();
            assert(left =~= rest);
        }
    }

    /// Fills the inside of a disc state `(x, y)` that takes a `y` step: four
    /// diagonal runs towards the centre.
    #[verifier::rlimit(40)]
    fn fill_inside(
        &mut self,
        xMid: usize,
        yMid: usize,
        x: isize,
        y: isize,
        colour: u32,
        Ghost(rad): Ghost<int>,
        Ghost(err): Ghost<int>,
        Ghost(pending): Ghost<Seq<PixelOp>>,
        Ghost(rest): Ghost<Seq<PixelOp>>,
    )
        requires
            aa_inv(rad, (x as int, y as int, err)),
            err + x <= 0,
            xMid >= rad,
            yMid >= rad,
            xMid + rad < isize::MAX,
            yMid + rad < isize::MAX,
            pending == aa_fill_ops(xMid as int, yMid as int, (x as int, y as int, err), colour) + rest,
            ops_fit(pending, old(self).buffer.len() as int),
        ensures
            final(self).buffer.len() == old(self).buffer.len(),
            apply_ops(final(self).buffer@, rest) == apply_ops(old(self).buffer@, pending),
            ops_fit(rest, old(self).buffer.len() as int),
    {
        let xm = xMid as isize;
        let ym = yMid as isize;
        let ghost (xmi, ymi) = (xMid as int, yMid as int);
        let ghost n: int = if -x - 1 < y {
            y as int
        } else {
            -x - 1
        };
        let ghost d1 = diagonal(xmi - x - 1, ymi + y, -1, -1, n, colour);
        let ghost d2 = diagonal(xmi + y, ymi + x + 1, -1, 1, n, colour);
        let ghost d3 = diagonal(xmi - y, ymi - x - 1, 1, -1, n, colour);
        let ghost d4 = diagonal(xmi + x + 1, ymi - y, 1, 1, n, colour);
        assert(pending =~= d1 + (d2 + (d3 + (d4 + rest))));
        self.fill_run(
            (xm - x - 1) as usize,
            (ym + y) as usize,
            false,
            false,
            xMid,
            yMid,
            colour,
            Ghost(n),
            Ghost(pending),
            Ghost(d2 + (d3 + (d4 + rest))),
        );
        self.fill_run(
            (xm + y) as usize,
            (ym + x + 1) as usize,
            false,
            true,
            xMid,
            yMid,
            colour,
            Ghost(n),
            Ghost(d2 + (d3 + (d4 + rest))),
            Ghost(d3 + (d4 + rest)),
        );
        self.fill_run(
            (xm - y) as usize,
            (ym - x - 1) as usize,
            true,
            false,
            xMid,
            yMid,
            colour,
            Ghost(n),
            Ghost(d3 + (d4 + rest)),
            Ghost(d4 + rest),
        );
        self.fill_run(
            (xm + x + 1) as usize,
            (ym - y) as usize,
            true,
            true,
            xMid,
            yMid,
            colour,
            Ghost(n),
            Ghost(d4 + rest),
            Ghost(rest),
        );
    }

    /// The anti-aliased walk shared by [`Framebuffer::draw_circle`] and
    /// [`Framebuffer::draw_filled_circle`]: with `filled` the pixels inside a
    /// `y` step are written with `colour`, otherwise the inward pixel is
    /// blended.
    #[verifier::rlimit(60)]
    fn aa_walk(&mut self, xMid: usize, yMid: usize, radius: usize, colour: u32, filled: bool)
        requires
            radius >= 1,
            1024 * radius + 1024 <= isize::MAX,
            xMid >= radius,
            yMid >= radius,
            xMid + radius < isize::MAX,
            yMid + radius < isize::MAX,
            ops_fit(
                aa_ops(
                    xMid as int,
                    yMid as int,
                    radius as int,
                    walk_start(radius as int),
                    colour,
                    filled,
                ),
                old(self).buffer.len() as int,
            ),
        ensures
            final(self).buffer.len() == old(self).buffer.len(),
            final(self).buffer@ == apply_ops(
                old(self).buffer@,
                aa_ops(
                    xMid as int,
                    yMid as int,
                    radius as int,
                    walk_start(radius as int),
                    colour,
                    filled,
                ),
            ),
    {
        let ghost rad = radius as int;
        let ghost (xmi, ymi) = (xMid as int, yMid as int);
        let ghost target = apply_ops(
            self.buffer@,
            aa_ops(xmi, ymi, rad, walk_start(rad), colour, filled),
        );
        let ghost len = self.buffer.len() as int;
        let xm = xMid as isize;
        let ym = yMid as isize;

        /* II. quadrant from bottom left to top right */
        let mut x: isize = -(radius as isize);
        let mut y: isize = 0;

        let mut alpha: isize;

        /* error of 1.step */
        let mut err: isize = 2 - 2 * (radius as isize);

        //equivalent to 2 * radius - 1
        let diameter = 1 - err;
        let ghost mut pending = aa_ops(xmi, ymi, rad, walk_start(rad), colour, filled);
        proof {
            lemma_aa_start(rad);
        }
        loop
            invariant_except_break
                aa_inv(rad, (x as int, y as int, err as int)),
                pending == aa_ops(xmi, ymi, rad, (x as int, y as int, err as int), colour, filled),
            invariant
                1024 * rad + 1024 <= isize::MAX,
                rad >= 1,
                diameter == 2 * rad - 1,
                xm == xMid,
                ym == yMid,
                xmi == xMid,
                ymi == yMid,
                xMid >= rad,
                yMid >= rad,
                xMid + rad < isize::MAX,
                yMid + rad < isize::MAX,
                self.buffer.len() == len,
                ops_fit(pending, len),
                apply_ops(self.buffer@, pending) == target,
            ensures
                self.buffer@ == target,
            decreases (-x) + (rad - y),
        {
            let ghost s = (x as int, y as int, err as int);
            let ghost rest = if aa_next(s).0 < 0 {
                aa_ops(xmi, ymi, rad, aa_next(s), colour, filled)
            } else {
                Seq::<PixelOp>::empty()
            };
            let ghost inner = if filled {
                aa_fill_ops(xmi, ymi, s, colour)
            } else {
                aa_inner_blends(xmi, ymi, rad, s, colour)
            };
            let ghost out = aa_outward_blends(xmi, ymi, rad, s, colour);
            proof {
                lemma_aa_step(rad, s);
                assert(pending =~= aa_on_blends(xmi, ymi, rad, s, colour) + (out + (inner + rest)));
            }

            /* get blend value of pixel */
            let e = err - 2 * (x + y) - 2;
            let e_abs = if e < 0 {
                -e
            } else {
                e
            };
            proof {
                lemma_alpha_bound(e_abs as int, diameter as int);
            }
            alpha = 255 * e_abs / diameter;
            assert(alpha == alpha_on(rad, s));
            {
                let new_colour = set_alpha(colour, 255 - (alpha as u32));
                self.blend_mirrored(xm, ym, x, y, new_colour, Ghost(pending), Ghost(out + (inner + rest)));
                proof {
                    pending = out + (inner + rest);
                }
            }

            /* remember values */
            let e2 = err;
            let x2 = x;

            /* x step */
            if err + y > 0 {
                proof {
                    lemma_alpha_nonneg(err - 2 * x - 1, diameter as int);
                }
                alpha = 255 * (err - 2 * x - 1) / diameter;
                assert(alpha == alpha_out(rad, s));

                /* outward pixel */
                if alpha < 256 {
                    let new_colour = set_alpha(colour, 255 - (alpha as u32));
                    self.blend_mirrored(xm, ym, x, y + 1, new_colour, Ghost(pending), Ghost(inner + rest));
                }
                proof {
                    pending = inner + rest;
                }
                x += 1;
                err += x * 2 + 1;
            }
            assert(pending =~= inner + rest);

            /* y step */
            if e2 + x2 <= 0 {
                if filled {
                    /* inward pixels */
                    self.fill_inside(xMid, yMid, x2, y, colour, Ghost(rad), Ghost(e2 as int), Ghost(pending), Ghost(rest));
                } else {
                    proof {
                        lemma_alpha_nonneg(2 * y + 3 - e2, diameter as int);
                    }
                    alpha = 255 * (2 * y + 3 - e2) / diameter;
                    assert(alpha == alpha_in(rad, s));

                    /* inward pixel */
                    if alpha < 256 {
                        let new_colour = set_alpha(colour, 255 - (alpha as u32));
                        self.blend_mirrored(xm, ym, x2 + 1, y, new_colour, Ghost(pending), Ghost(rest));
                    }
                }
                proof {
                    pending = rest;
                }
                y += 1;
                err += y * 2 + 1;
            }
            assert(pending =~= rest);
            assert((x as int, y as int, err as int) == aa_next(s));
            if !(x < 0) {
                break;
            }
        }
    }

    /// Draws an anti-aliased circle outline of `radius` around
    /// `(xMid, yMid)` in `colour`: each pixel near the circle is blended with
    /// an alpha that falls off with its distance from the circle; see
    /// [`circle_ops`].  Nothing is drawn when the circle would reach past the
    /// top or left edge.
    ///
    /// When the circle is drawn, the radius is at least 1: a radius of 0 gives
    /// a blend value below 0.  The bounds on the radius and the centre hold
    /// of any circle whose pixels lie in a buffer in memory; `lemma_circle_fits` gives a simple
    /// condition for the pixels to lie in the buffer.
    pub fn draw_circle(&mut self, xMid: usize, yMid: usize, radius: usize, colour: u32)
        requires
            xMid >= radius && yMid >= radius ==> radius >= 1,
            xMid >= radius && yMid >= radius ==> 1024 * radius + 1024 <= isize::MAX,
            xMid >= radius && yMid >= radius ==> xMid + radius < isize::MAX,
            xMid >= radius && yMid >= radius ==> yMid + radius < isize::MAX,
            xMid >= radius && yMid >= radius ==> ops_fit(
                circle_ops(xMid as int, yMid as int, radius as int, colour),
                old(self).buffer.len() as int,
            ),
        ensures
            xMid < radius || yMid < radius ==> final(self).buffer@ == old(self).buffer@,
            xMid >= radius && yMid >= radius ==> final(self).buffer@ == apply_ops(
                old(self).buffer@,
                circle_ops(xMid as int, yMid as int, radius as int, colour),
            ),
    {
        if xMid < radius || yMid < radius {
            return;
        }
        self.aa_walk(xMid, yMid, radius, colour, false);
    }

    /// Draws an anti-aliased disc of `radius` around `(xMid, yMid)` in
    /// `colour`: the edge is blended as in [`Framebuffer::draw_circle`] and
    /// the inside is filled; see [`disc_ops`].  Nothing is drawn when the
    /// disc would reach past the top or left edge.
    ///
    /// The bounds are those of [`Framebuffer::draw_circle`].
    pub fn draw_filled_circle(&mut self, xMid: usize, yMid: usize, radius: usize, colour: u32)
        requires
            xMid >= radius && yMid >= radius ==> radius >= 1,
            xMid >= radius && yMid >= radius ==> 1024 * radius + 1024 <= isize::MAX,
            xMid >= radius && yMid >= radius ==> xMid + radius < isize::MAX,
            xMid >= radius && yMid >= radius ==> yMid + radius < isize::MAX,
            xMid >= radius && yMid >= radius ==> ops_fit(
                disc_ops(xMid as int, yMid as int, radius as int, colour),
                old(self).buffer.len() as int,
            ),
        ensures
            xMid < radius || yMid < radius ==> final(self).buffer@ == old(self).buffer@,
            xMid >= radius && yMid >= radius ==> final(self).buffer@ == apply_ops(
                old(self).buffer@,
                disc_ops(xMid as int, yMid as int, radius as int, colour),
            ),
    {
        if xMid < radius || yMid < radius {
            return;
        }
        let ghost walk = aa_ops(
            xMid as int,
            yMid as int,
            radius as int,
            walk_start(radius as int),
            colour,
            true,
        );
        let ghost centre = seq![(xMid as int, yMid as int, colour, false)];
        let ghost all = disc_ops(xMid as int, yMid as int, radius as int, colour);
        proof {
            assert(all == walk + centre);
            assert forall|k: int| 0 <= k < walk.len() implies #[trigger] op_index(walk[k])
                < self.buffer.len() by {
                assert(all[k] == walk[k]);
            }
            assert(all[walk.len() as int] == centre[0]);
            lemma_apply_ops_append(self.buffer@, walk, centre);
        }
        self.aa_walk(xMid, yMid, radius, colour, true);
        self.write_op(xMid, yMid, colour, Ghost(centre));
        assert(centre.drop_first() =~= Seq::<PixelOp>::empty());
    }

    /// Draws an aliased circle of `radius` around `(xMid, yMid)` in `colour`
    /// with the integer error-term walk; see [`crisp_ops`].  Nothing is drawn
    /// when the circle would reach past the top or left edge.
    ///
    /// When the circle is drawn, the bounds on the radius and the centre hold
    /// of any circle whose pixels lie in a buffer in memory; `lemma_circle_fits` gives a simple
    /// condition for the pixels to lie in the buffer.
    pub fn draw_crisp_circle(&mut self, xMid: usize, yMid: usize, radius: usize, colour: u32)
        requires
            xMid >= radius && yMid >= radius ==> 8 * radius + 8 <= isize::MAX,
            xMid >= radius && yMid >= radius ==> xMid + radius < isize::MAX,
            xMid >= radius && yMid >= radius ==> yMid + radius < isize::MAX,
            xMid >= radius && yMid >= radius ==> ops_fit(
                crisp_ops(
                    xMid as int,
                    yMid as int,
                    radius as int,
                    walk_start(radius as int),
                    colour,
                ),
                old(self).buffer.len() as int,
            ),
        ensures
            xMid < radius || yMid < radius ==> final(self).buffer@ == old(self).buffer@,
            xMid >= radius && yMid >= radius ==> final(self).buffer@ == apply_ops(
                old(self).buffer@,
                crisp_ops(
                    xMid as int,
                    yMid as int,
                    radius as int,
                    walk_start(radius as int),
                    colour,
                ),
            ),
            xMid >= radius && yMid >= radius ==> final(self).buffer@ == Seq::new(
                old(self).buffer@.len(),
                |i: int|
                    if touches(
                        crisp_ops(
                            xMid as int,
                            yMid as int,
                            radius as int,
                            walk_start(radius as int),
                            colour,
                        ),
                        i,
                    ) {
                        colour
                    } else {
                        old(self).buffer@[i]
                    },
            ),
    {
        if xMid < radius || yMid < radius {
            return;
        }
        proof {
            lemma_crisp_start(radius as int);
            lemma_crisp_all_writes(
                xMid as int,
                yMid as int,
                radius as int,
                walk_start(radius as int),
                colour,
            );
            lemma_writes_paint(
                self.buffer@,
                crisp_ops(xMid as int, yMid as int, radius as int, walk_start(radius as int), colour),
                colour,
            );
        }
        let ghost rad = radius as int;
        let ghost target = apply_ops(
            self.buffer@,
            crisp_ops(xMid as int, yMid as int, rad, walk_start(rad), colour),
        );
        let ghost len = self.buffer.len() as int;
        let xm = xMid as isize;
        let ym = yMid as isize;
        let mut r = radius as isize;
        let mut x = -r;
        let mut y = 0isize;
        let mut err = 2 - 2 * r;  /* II. Quadrant */
        let ghost mut pending = crisp_ops(xMid as int, yMid as int, rad, walk_start(rad), colour);
        proof {
            lemma_crisp_start(rad);
        }
        loop
            invariant_except_break
                crisp_inv(rad, (x as int, y as int, err as int)),
                pending == crisp_ops(xMid as int, yMid as int, rad, (x as int, y as int, err as int), colour),
            invariant
                8 * rad + 8 <= isize::MAX,
                xm == xMid,
                ym == yMid,
                xMid >= rad,
                yMid >= rad,
                xMid + rad < isize::MAX,
                yMid + rad < isize::MAX,
                self.buffer.len() == len,
                ops_fit(pending, len),
                apply_ops(self.buffer@, pending) == target,
            ensures
                self.buffer@ == target,
            decreases (-x) + (rad - y),
        {
            let ghost s = (x as int, y as int, err as int);
            proof {
                lemma_crisp_step(rad, s);
            }
            self.write_op((xm - x) as usize, (ym + y) as usize, colour, Ghost(pending));  /*   I. Quadrant */
            proof {
                pending = pending.drop_first();
            }
            self.write_op((xm - y) as usize, (ym - x) as usize, colour, Ghost(pending));  /*  II. Quadrant */
            proof {
                pending = pending.drop_first();
            }
            self.write_op((xm + x) as usize, (ym - y) as usize, colour, Ghost(pending));  /* III. Quadrant */
            proof {
                pending = pending.drop_first();
            }
            self.write_op((xm + y) as usize, (ym + x) as usize, colour, Ghost(pending));  /*  IV. Quadrant */
            proof {
                pending = pending.drop_first();
            }
            r = err;
            if r <= y {
                y += 1;
                err += y * 2 + 1;  /* e_xy+e_y < 0 */
            }
            if r > x || err > y {
                x += 1;
                err += x * 2 + 1;  /* e_xy+e_x > 0 or no 2nd y-step */
            }
            assert((x as int, y as int, err as int) == crisp_next(s));
            if !(x < 0) {
                assert(pending =~= Seq::<PixelOp>::empty());
                break;
            }
            assert(pending =~= crisp_ops(xMid as int, yMid as int, rad, (x as int, y as int, err as int), colour));
        }
    }

    /// Sets every pixel to 0.
    pub fn clear(&mut self)
        ensures
            final(self).buffer@ == Seq::new(old(self).buffer@.len(), |i: int| 0u32),
    {
        let n = self.buffer.len();
        for i in 0..n
            invariant
                n == self.buffer.len(),
                forall|j: int| 0 <= j < i ==> self.buffer@[j] == 0u32,
        {
            self.buffer[i] = 0;
        }
        assert(self.buffer@ =~= Seq::new(old(self).buffer@.len(), |i: int| 0u32));
    }

    /// Sets every pixel to `colour`.
    pub fn clearTo(&mut self, colour: u32)
        ensures
            final(self).buffer@ == Seq::new(old(self).buffer@.len(), |i: int| colour),
    {
        let n = self.buffer.len();
        for i in 0..n
            invariant
                n == self.buffer.len(),
                forall|j: int| 0 <= j < i ==> self.buffer@[j] == colour,
        {
            self.buffer[i] = colour;
        }
        assert(self.buffer@ =~= Seq::new(old(self).buffer@.len(), |i: int| colour));
    }
}

/// A colour is the sum of its channels.
proof fn lemma_channel_sum(c: u32)
    ensures
        c as int == channel(c, 0) + channel(c, 1) * 0x100 + channel(c, 2) * 0x10000 + channel(c, 3)
            * 0x1000000,
        0 <= channel(c, 0) < 256,
        0 <= channel(c, 1) < 256,
        0 <= channel(c, 2) < 256,
        0 <= channel(c, 3) < 256,
{
    lemma_channels(c);
    assert(c == (c & 0xFF) + ((c & 0xFF00) >> 8) * 0x100 + ((c & 0xFF0000) >> 16) * 0x10000 + ((c
        & 0xFF000000) >> 24) * 0x1000000) by (bit_vector);
    assert((c & 0xFF) < 256 && ((c & 0xFF00) >> 8) < 256 && ((c & 0xFF0000) >> 16) < 256 && ((c
        & 0xFF000000) >> 24) < 256) by (bit_vector);
}

/// The channels of a colour built from channels below 256.
proof fn lemma_channels_of_sum(r: int, g: int, b: int, a: int)
    requires
        0 <= r < 256,
        0 <= g < 256,
        0 <= b < 256,
        0 <= a < 256,
    ensures
        ({
            let c = (r + g * 0x100 + b * 0x10000 + a * 0x1000000) as u32;
            &&& c as int == r + g * 0x100 + b * 0x10000 + a * 0x1000000
            &&& channel(c, 0) == r
            &&& channel(c, 1) == g
            &&& channel(c, 2) == b
            &&& channel(c, 3) == a
        }),
{
    let v = r + g * 0x100 + b * 0x10000 + a * 0x1000000;
    assert(0 <= v < 0x1_0000_0000);
    assert(v / 0x100 == g + b * 0x100 + a * 0x10000);
    assert(v / 0x10000 == b + a * 0x100);
    assert(v / 0x1000000 == a);
}

/// Blending always gives an opaque colour.
pub proof fn lemma_blend_opaque(bg: u32, fg: u32)
    ensures
        channel(blend_colour(bg, fg), 3) == 255,
{
    lemma_channel_sum(bg);
    lemma_channel_sum(fg);
    let a = channel(fg, 3);
    lemma_mix_bound(channel(fg, 0), channel(bg, 0), a);
    lemma_mix_bound(channel(fg, 1), channel(bg, 1), a);
    lemma_mix_bound(channel(fg, 2), channel(bg, 2), a);
    lemma_channels_of_sum(
        mix(channel(fg, 0), channel(bg, 0), a),
        mix(channel(fg, 1), channel(bg, 1), a),
        mix(channel(fg, 2), channel(bg, 2), a),
        255,
    );
}

/// Blending an opaque colour (alpha 255) gives that colour, whatever lies
/// under it.
pub proof fn lemma_blend_full_alpha(bg: u32, fg: u32)
    requires
        channel(fg, 3) == 255,
    ensures
        blend_colour(bg, fg) == fg,
{
    lemma_channel_sum(bg);
    lemma_channel_sum(fg);
    assert forall|f: int, b: int| 0 <= f < 256 && 0 <= b < 256 implies #[trigger] mix(f, b, 255)
        == f by {
        assert((256 * f + b) / 256 == f);
    }
    lemma_channels_of_sum(channel(fg, 0), channel(fg, 1), channel(fg, 2), 255);
}

/// Blending a fully transparent colour (alpha 0) keeps the colour under it,
/// made opaque.
pub proof fn lemma_blend_zero_alpha(bg: u32, fg: u32)
    requires
        channel(fg, 3) == 0,
    ensures
        channel(blend_colour(bg, fg), 0) == channel(bg, 0),
        channel(blend_colour(bg, fg), 1) == channel(bg, 1),
        channel(blend_colour(bg, fg), 2) == channel(bg, 2),
        channel(blend_colour(bg, fg), 3) == 255,
{
    lemma_channel_sum(bg);
    lemma_channel_sum(fg);
    assert forall|f: int, b: int| 0 <= f < 256 && 0 <= b < 256 implies #[trigger] mix(f, b, 0)
        == b by {
        assert((f + 256 * b) / 256 == b);
    }
    lemma_channels_of_sum(channel(bg, 0), channel(bg, 1), channel(bg, 2), 255);
}

/// The outline of a rectangle at least one pixel wide and tall lies within
/// the filled rectangle, so filling a rectangle over its drawn outline gives
/// the filled rectangle alone.
pub proof fn lemma_fill_covers_outline(
    buf: Seq<u32>,
    x: int,
    y: int,
    width: int,
    height: int,
    outline: u32,
    fill: u32,
)
    requires
        0 <= x,
        0 <= y,
        width >= 1,
        height >= 1,
    ensures
        paint(
            paint(buf, |i: int| on_outline(i, x, y, width, height), outline),
            |i: int| in_block(i, x, x + width, y, y + height),
            fill,
        ) == paint(buf, |i: int| in_block(i, x, x + width, y, y + height), fill),
{
    let outlined = paint(buf, |i: int| on_outline(i, x, y, width, height), outline);
    let lhs = paint(outlined, |i: int| in_block(i, x, x + width, y, y + height), fill);
    let rhs = paint(buf, |i: int| in_block(i, x, x + width, y, y + height), fill);
    assert forall|i: int| 0 <= i < lhs.len() implies lhs[i] == rhs[i] by {
        if on_outline(i, x, y, width, height) {
            lemma_outline_in_block(i, x, y, width, height);
        }
    }
    assert(lhs =~= rhs);
}

/// A pixel of the outline is a pixel of the filled rectangle.
proof fn lemma_outline_in_block(i: int, x: int, y: int, width: int, height: int)
    requires
        0 <= x,
        0 <= y,
        width >= 1,
        height >= 1,
        on_outline(i, x, y, width, height),
    ensures
        in_block(i, x, x + width, y, y + height),
{
    if in_block(i, x, x + 1, y, y + height) {
        let (a, b) = choose|cx: usize, cy: usize|
            x <= cx < x + 1 && y <= cy < y + height && #[trigger] xy_to_i_spec(cx, cy) == i;
        assert(xy_to_i_spec(a, b) == i);
    } else if in_block(i, x + width - 1, x + width, y, y + height) {
        let (a, b) = choose|cx: usize, cy: usize|
            x + width - 1 <= cx < x + width && y <= cy < y + height && #[trigger] xy_to_i_spec(
                cx,
                cy,
            ) == i;
        assert(xy_to_i_spec(a, b) == i);
    } else if in_block(i, x, x + width, y, y + 1) {
        let (a, b) = choose|cx: usize, cy: usize|
            x <= cx < x + width && y <= cy < y + 1 && #[trigger] xy_to_i_spec(cx, cy) == i;
        assert(xy_to_i_spec(a, b) == i);
    } else {
        let (a, b) = choose|cx: usize, cy: usize|
            x <= cx < x + width && y + height - 1 <= cy < y + height && #[trigger] xy_to_i_spec(
                cx,
                cy,
            ) == i;
        assert(xy_to_i_spec(a, b) == i);
    }
}

/// Carrying out operations that fit keeps the buffer's length.
proof fn lemma_apply_ops_len(buf: Seq<u32>, ops: Seq<PixelOp>)
    requires
        ops_fit(ops, buf.len() as int),
    ensures
        apply_ops(buf, ops).len() == buf.len(),
    decreases ops.len(),
{
    if ops.len() > 0 {
        lemma_ops_fit_drop(ops, buf.len() as int);
        lemma_apply_ops_len(apply_op(buf, ops[0]), ops.drop_first());
    }
}

/// The centre of a drawn disc has the disc's colour.
pub proof fn lemma_disc_centre(buf: Seq<u32>, xm: int, ym: int, r: int, colour: u32)
    requires
        0 <= xm <= usize::MAX,
        0 <= ym <= usize::MAX,
        ops_fit(disc_ops(xm, ym, r, colour), buf.len() as int),
    ensures
        apply_ops(buf, disc_ops(xm, ym, r, colour))[xy_to_i_spec(xm as usize, ym as usize) as int]
            == colour,
{
    let walk = aa_ops(xm, ym, r, walk_start(r), colour, true);
    let centre: Seq<PixelOp> = seq![(xm, ym, colour, false)];
    let all = disc_ops(xm, ym, r, colour);
    assert(all == walk + centre);
    assert forall|k: int| 0 <= k < walk.len() implies #[trigger] op_index(walk[k]) < buf.len() by {
        assert(all[k] == walk[k]);
    }
    assert(all[walk.len() as int] == centre[0]);
    lemma_apply_ops_append(buf, walk, centre);
    lemma_apply_ops_len(buf, walk);
    let mid = apply_ops(buf, walk);
    assert(centre.drop_first() =~= Seq::<PixelOp>::empty());
    let after = apply_op(mid, centre[0]);
    assert(apply_ops(after, centre.drop_first()) == after);
    assert(op_index(all[walk.len() as int]) < buf.len());
}

// ---------------------------------------------------------------------------
// What the circle routines do to single pixels.

/// Carrying out operations leaves a pixel none of them touches as it was.
pub proof fn lemma_apply_ops_untouched(buf: Seq<u32>, ops: Seq<PixelOp>, i: int)
    requires
        ops_fit(ops, buf.len() as int),
        0 <= i < buf.len(),
        !touches(ops, i),
    ensures
        apply_ops(buf, ops).len() == buf.len(),
        apply_ops(buf, ops)[i] == buf[i],
    decreases ops.len(),
{
    if ops.len() > 0 {
        lemma_ops_fit_drop(ops, buf.len() as int);
        let rest = ops.drop_first();
        if touches(rest, i) {
            let k = choose|k: int| 0 <= k < rest.len() && #[trigger] op_index(rest[k]) == i;
            assert(op_index(ops[k + 1]) == i);
        }
        if op_index(ops[0]) == i {
            assert(touches(ops, i));
        }
        lemma_apply_ops_untouched(apply_op(buf, ops[0]), rest, i);
    }
}

/// A pixel that operations in a square change is a pixel of that square.
proof fn lemma_changed_in_square(buf: Seq<u32>, ops: Seq<PixelOp>, xm: int, ym: int, m: int, i: int)
    requires
        ops_fit(ops, buf.len() as int),
        ops_within(ops, xm, ym, m),
        0 <= i < buf.len(),
        apply_ops(buf, ops)[i] != buf[i],
    ensures
        exists|cx: int, cy: int|
            xm - m <= cx <= xm + m && ym - m <= cy <= ym + m && #[trigger] xy_to_i_spec(
                cx as usize,
                cy as usize,
            ) == i,
{
    if !touches(ops, i) {
        lemma_apply_ops_untouched(buf, ops, i);
    }
    let k = choose|k: int| 0 <= k < ops.len() && #[trigger] op_index(ops[k]) == i;
    assert(op_within(ops[k], xm, ym, m));
    assert(xy_to_i_spec(ops[k].0 as usize, ops[k].1 as usize) == i);
}

/// Every pixel that a circle, disc or crisp circle of radius `r >= 1`
/// changes lies in the square of half-side `r + 1` around its centre.
pub proof fn lemma_circle_changes_within(buf: Seq<u32>, xm: int, ym: int, r: int, colour: u32, i: int)
    requires
        r >= 1,
        0 <= i < buf.len(),
    ensures
        ops_fit(circle_ops(xm, ym, r, colour), buf.len() as int) && apply_ops(
            buf,
            circle_ops(xm, ym, r, colour),
        )[i] != buf[i] ==> exists|cx: int, cy: int|
            xm - r - 1 <= cx <= xm + r + 1 && ym - r - 1 <= cy <= ym + r + 1
                && #[trigger] xy_to_i_spec(cx as usize, cy as usize) == i,
        ops_fit(disc_ops(xm, ym, r, colour), buf.len() as int) && apply_ops(
            buf,
            disc_ops(xm, ym, r, colour),
        )[i] != buf[i] ==> exists|cx: int, cy: int|
            xm - r - 1 <= cx <= xm + r + 1 && ym - r - 1 <= cy <= ym + r + 1
                && #[trigger] xy_to_i_spec(cx as usize, cy as usize) == i,
        ops_fit(crisp_ops(xm, ym, r, walk_start(r), colour), buf.len() as int) && apply_ops(
            buf,
            crisp_ops(xm, ym, r, walk_start(r), colour),
        )[i] != buf[i] ==> exists|cx: int, cy: int|
            xm - r <= cx <= xm + r && ym - r <= cy <= ym + r && #[trigger] xy_to_i_spec(
                cx as usize,
                cy as usize,
            ) == i,
{
    lemma_aa_start(r);
    lemma_crisp_start(r);
    lemma_aa_ops_within(xm, ym, r, walk_start(r), colour, false);
    lemma_aa_ops_within(xm, ym, r, walk_start(r), colour, true);
    lemma_crisp_ops_within(xm, ym, r, walk_start(r), colour);
    let walk = aa_ops(xm, ym, r, walk_start(r), colour, true);
    let centre = seq![(xm, ym, colour, false)];
    let disc = disc_ops(xm, ym, r, colour);
    assert(disc == walk + centre);
    assert forall|k: int| 0 <= k < disc.len() implies #[trigger] op_within(
        disc[k],
        xm,
        ym,
        r + 1,
    ) by {
        if k < walk.len() {
            assert(disc[k] == walk[k]);
        } else {
            assert(disc[k] == centre[0]);
        }
    }
    if ops_fit(circle_ops(xm, ym, r, colour), buf.len() as int) && apply_ops(
        buf,
        circle_ops(xm, ym, r, colour),
    )[i] != buf[i] {
        lemma_changed_in_square(buf, circle_ops(xm, ym, r, colour), xm, ym, r + 1, i);
    }
    if ops_fit(disc, buf.len() as int) && apply_ops(buf, disc)[i] != buf[i] {
        lemma_changed_in_square(buf, disc, xm, ym, r + 1, i);
    }
    if ops_fit(crisp_ops(xm, ym, r, walk_start(r), colour), buf.len() as int) && apply_ops(
        buf,
        crisp_ops(xm, ym, r, walk_start(r), colour),
    )[i] != buf[i] {
        lemma_changed_in_square(buf, crisp_ops(xm, ym, r, walk_start(r), colour), xm, ym, r, i);
    }
}

/// `v` lies between `a` and `b`.
pub open spec fn between(v: int, a: int, b: int) -> bool {
    (a <= v <= b) || (b <= v <= a)
}

/// One blended channel lies between the two channels blended.
proof fn lemma_mix_between(fg: int, bg: int, a: int)
    requires
        0 <= fg < 256,
        0 <= bg < 256,
        0 <= a < 256,
    ensures
        between(mix(fg, bg, a), bg, fg),
{
    let lo = if fg < bg {
        fg
    } else {
        bg
    };
    let hi = if fg < bg {
        bg
    } else {
        fg
    };
    assert(256 * lo <= (a + 1) * fg + (256 - a) * bg) by (nonlinear_arith)
        requires
            lo <= fg,
            lo <= bg,
            0 <= lo,
            0 <= a < 256,
    ;
    assert((a + 1) * fg + (256 - a) * bg < 256 * (hi + 1)) by (nonlinear_arith)
        requires
            fg <= hi,
            bg <= hi,
            hi < 256,
            0 <= a < 256,
    ;
    assert(lo <= ((a + 1) * fg + (256 - a) * bg) / 256) by (nonlinear_arith)
        requires
            256 * lo <= (a + 1) * fg + (256 - a) * bg,
    ;
    assert(((a + 1) * fg + (256 - a) * bg) / 256 <= hi) by (nonlinear_arith)
        requires
            (a + 1) * fg + (256 - a) * bg < 256 * (hi + 1),
            0 <= (a + 1) * fg + (256 - a) * bg,
    ;
}

/// The red, green and blue channels of a blend are the blended channels,
/// and its alpha is 255.
proof fn lemma_blend_channels(bg: u32, fg: u32)
    ensures
        forall|c: int|
            0 <= c < 3 ==> #[trigger] channel(blend_colour(bg, fg), c) == mix(
                channel(fg, c),
                channel(bg, c),
                channel(fg, 3),
            ),
        channel(blend_colour(bg, fg), 3) == 255,
{
    lemma_channel_sum(bg);
    lemma_channel_sum(fg);
    let a = channel(fg, 3);
    lemma_mix_bound(channel(fg, 0), channel(bg, 0), a);
    lemma_mix_bound(channel(fg, 1), channel(bg, 1), a);
    lemma_mix_bound(channel(fg, 2), channel(bg, 2), a);
    lemma_channels_of_sum(
        mix(channel(fg, 0), channel(bg, 0), a),
        mix(channel(fg, 1), channel(bg, 1), a),
        mix(channel(fg, 2), channel(bg, 2), a),
        255,
    );
}

/// Replacing the alpha of a colour keeps its red, green and blue.
proof fn lemma_with_alpha_channels(colour: u32, a: int)
    requires
        0 <= a < 256,
    ensures
        forall|c: int| 0 <= c < 3 ==> #[trigger] channel(with_alpha(colour, a), c) == channel(colour, c),
{
    lemma_channel_sum(colour);
    lemma_channels_of_sum(channel(colour, 0), channel(colour, 1), channel(colour, 2), a);
    assert(colour as int % 0x1000000 == channel(colour, 0) + channel(colour, 1) * 0x100 + channel(
        colour,
        2,
    ) * 0x10000);
}

/// Every operation blends a colour with the red, green and blue of `colour`.
pub open spec fn blends_of(ops: Seq<PixelOp>, colour: u32) -> bool {
    forall|k: int|
        0 <= k < ops.len() ==> (#[trigger] ops[k]).3 && forall|c: int|
            0 <= c < 3 ==> #[trigger] channel(ops[k].2, c) == channel(colour, c)
}

proof fn lemma_blends_concat(a: Seq<PixelOp>, b: Seq<PixelOp>, colour: u32)
    requires
        blends_of(a, colour),
        blends_of(b, colour),
    ensures
        blends_of(a + b, colour),
{
    assert forall|k: int| 0 <= k < (a + b).len() implies (#[trigger] (a + b)[k]).3 && forall|c: int|
        0 <= c < 3 ==> #[trigger] channel((a + b)[k].2, c) == channel(colour, c) by {
        if k < a.len() {
            assert((a + b)[k] == a[k]);
        } else {
            assert((a + b)[k] == b[k - a.len()]);
        }
    }
}

proof fn lemma_mirrored_blends_of(xm: int, ym: int, px: int, py: int, colour: u32, a: int)
    requires
        0 <= a < 256,
    ensures
        blends_of(mirrored_blends(xm, ym, px, py, with_alpha(colour, a)), colour),
{
    lemma_with_alpha_channels(colour, a);
}

/// The outline walk only blends colours with the red, green and blue of
/// `colour`.
proof fn lemma_outline_blends(xm: int, ym: int, r: int, s: (int, int, int), colour: u32)
    requires
        aa_inv(r, s),
    ensures
        blends_of(aa_ops(xm, ym, r, s, colour, false), colour),
    decreases (-s.0) + (r - s.1),
{
    lemma_aa_step(r, s);
    let (x, y, err) = s;
    let e = err - 2 * (x + y) - 2;
    lemma_alpha_bound(
        if e < 0 {
            -e
        } else {
            e
        },
        2 * r - 1,
    );
    lemma_mirrored_blends_of(xm, ym, x, y, colour, 255 - alpha_on(r, s));
    let on = aa_on_blends(xm, ym, r, s, colour);
    let out = aa_outward_blends(xm, ym, r, s, colour);
    let inner = aa_inner_blends(xm, ym, r, s, colour);
    if err + y > 0 && alpha_out(r, s) < 256 {
        lemma_alpha_nonneg(err - 2 * x - 1, 2 * r - 1);
        lemma_mirrored_blends_of(xm, ym, x, y + 1, colour, 255 - alpha_out(r, s));
    } else {
        assert(out =~= Seq::<PixelOp>::empty());
    }
    if err + x <= 0 && alpha_in(r, s) < 256 {
        lemma_alpha_nonneg(2 * y + 3 - err, 2 * r - 1);
        lemma_mirrored_blends_of(xm, ym, x + 1, y, colour, 255 - alpha_in(r, s));
    } else {
        assert(inner =~= Seq::<PixelOp>::empty());
    }
    lemma_blends_concat(on, out, colour);
    lemma_blends_concat(on + out, inner, colour);
    let n = aa_next(s);
    if n.0 < 0 {
        lemma_outline_blends(xm, ym, r, n, colour);
        lemma_blends_concat(on + out + inner, aa_ops(xm, ym, r, n, colour, false), colour);
    } else {
        assert(on + out + inner + Seq::<PixelOp>::empty() =~= on + out + inner);
    }
}

/// Blends of colours with the red, green and blue of `colour` leave each of
/// those channels of every pixel between its old value and `colour`'s, and
/// every pixel they touch opaque.
proof fn lemma_blends_between(buf: Seq<u32>, ops: Seq<PixelOp>, colour: u32)
    requires
        blends_of(ops, colour),
        ops_fit(ops, buf.len() as int),
    ensures
        apply_ops(buf, ops).len() == buf.len(),
        forall|i: int, c: int|
            0 <= i < buf.len() && 0 <= c < 3 ==> between(
                #[trigger] channel(apply_ops(buf, ops)[i], c),
                channel(buf[i], c),
                channel(colour, c),
            ),
        forall|i: int|
            0 <= i < buf.len() && touches(ops, i) ==> #[trigger] channel(apply_ops(buf, ops)[i], 3)
                == 255,
    decreases ops.len(),
{
    lemma_apply_ops_len(buf, ops);
    if ops.len() == 0 {
        assert forall|i: int, c: int| 0 <= i < buf.len() && 0 <= c < 3 implies between(
            #[trigger] channel(apply_ops(buf, ops)[i], c),
            channel(buf[i], c),
            channel(colour, c),
        ) by {}
    } else {
        lemma_ops_fit_drop(ops, buf.len() as int);
        let j = op_index(ops[0]);
        let first = apply_op(buf, ops[0]);
        let rest = ops.drop_first();
        assert forall|k: int| 0 <= k < rest.len() implies (#[trigger] rest[k]).3 && forall|c: int|
            0 <= c < 3 ==> #[trigger] channel(rest[k].2, c) == channel(colour, c) by {
            assert(rest[k] == ops[k + 1]);
        }
        lemma_blends_between(first, rest, colour);
        lemma_blend_channels(buf[j], ops[0].2);
        lemma_channel_sum(buf[j]);
        lemma_channel_sum(ops[0].2);
        let result = apply_ops(buf, ops);
        assert(result == apply_ops(first, rest));
        assert forall|i: int, c: int| 0 <= i < buf.len() && 0 <= c < 3 implies between(
            #[trigger] channel(result[i], c),
            channel(buf[i], c),
            channel(colour, c),
        ) by {
            if i == j {
                assert(channel(ops[0].2, c) == channel(colour, c));
                lemma_mix_between(channel(ops[0].2, c), channel(buf[j], c), channel(ops[0].2, 3));
                assert(channel(first[i], c) == mix(
                    channel(ops[0].2, c),
                    channel(buf[j], c),
                    channel(ops[0].2, 3),
                ));
                assert(between(channel(result[i], c), channel(first[i], c), channel(colour, c)));
            } else {
                assert(first[i] == buf[i]);
                assert(between(channel(result[i], c), channel(first[i], c), channel(colour, c)));
            }
        }
        assert forall|i: int| 0 <= i < buf.len() && touches(ops, i) implies #[trigger] channel(
            result[i],
            3,
        ) == 255 by {
            if touches(rest, i) {
                assert(channel(apply_ops(first, rest)[i], 3) == 255);
            } else {
                let k = choose|k: int| 0 <= k < ops.len() && #[trigger] op_index(ops[k]) == i;
                if k > 0 {
                    assert(rest[k - 1] == ops[k]);
                    assert(op_index(rest[k - 1]) == i);
                }
                assert(i == j);
                lemma_apply_ops_untouched(first, rest, i);
            }
        }
    }
}

/// An anti-aliased circle outline leaves the red, green and blue of every
/// pixel between its old value and the circle's colour, and makes every
/// pixel it touches opaque.
pub proof fn lemma_circle_blends_between(buf: Seq<u32>, xm: int, ym: int, r: int, colour: u32)
    requires
        r >= 1,
        ops_fit(circle_ops(xm, ym, r, colour), buf.len() as int),
    ensures
        forall|i: int, c: int|
            0 <= i < buf.len() && 0 <= c < 3 ==> between(
                #[trigger] channel(apply_ops(buf, circle_ops(xm, ym, r, colour))[i], c),
                channel(buf[i], c),
                channel(colour, c),
            ),
        forall|i: int|
            0 <= i < buf.len() && touches(circle_ops(xm, ym, r, colour), i) ==> #[trigger] channel(
                apply_ops(buf, circle_ops(xm, ym, r, colour))[i],
                3,
            ) == 255,
{
    lemma_aa_start(r);
    lemma_outline_blends(xm, ym, r, walk_start(r), colour);
    lemma_blends_between(buf, circle_ops(xm, ym, r, colour), colour);
}

/// A crisp circle sets the four pixels on its axes at distance `r` to its
/// colour.
pub proof fn lemma_crisp_axis_pixels(buf: Seq<u32>, xm: int, ym: int, r: int, colour: u32)
    requires
        r >= 0,
        xm >= r,
        ym >= r,
        ops_fit(crisp_ops(xm, ym, r, walk_start(r), colour), buf.len() as int),
    ensures
        ({
            let after = apply_ops(buf, crisp_ops(xm, ym, r, walk_start(r), colour));
            &&& after[xy_to_i_spec((xm + r) as usize, ym as usize) as int] == colour
            &&& after[xy_to_i_spec(xm as usize, (ym + r) as usize) as int] == colour
            &&& after[xy_to_i_spec((xm - r) as usize, ym as usize) as int] == colour
            &&& after[xy_to_i_spec(xm as usize, (ym - r) as usize) as int] == colour
        }),
{
    let ops = crisp_ops(xm, ym, r, walk_start(r), colour);
    lemma_crisp_start(r);
    lemma_crisp_all_writes(xm, ym, r, walk_start(r), colour);
    lemma_writes_paint(buf, ops, colour);
    lemma_crisp_axes(xm, ym, r, colour);
    let k0 = choose|k: int| 0 <= k < ops.len() && (#[trigger] ops[k]).0 == xm + r && ops[k].1 == ym;
    let k1 = choose|k: int| 0 <= k < ops.len() && (#[trigger] ops[k]).0 == xm && ops[k].1 == ym + r;
    let k2 = choose|k: int| 0 <= k < ops.len() && (#[trigger] ops[k]).0 == xm - r && ops[k].1 == ym;
    let k3 = choose|k: int| 0 <= k < ops.len() && (#[trigger] ops[k]).0 == xm && ops[k].1 == ym - r;
    assert(op_index(ops[k0]) < buf.len() && op_index(ops[k1]) < buf.len() && op_index(ops[k2])
        < buf.len() && op_index(ops[k3]) < buf.len());
    assert(touches(ops, op_index(ops[k0])));
    assert(touches(ops, op_index(ops[k1])));
    assert(touches(ops, op_index(ops[k2])));
    assert(touches(ops, op_index(ops[k3])));
}

/// A crisp circle of radius at least 1 that lies within the screen's width
/// leaves its centre pixel as it was.
pub proof fn lemma_crisp_centre_untouched(buf: Seq<u32>, xm: int, ym: int, r: int, colour: u32)
    requires
        r >= 1,
        xm >= r,
        ym >= r,
        xm + r < SCREEN_WIDTH,
        (ym + r + 1) * SCREEN_WIDTH <= usize::MAX,
        buf.len() <= usize::MAX,
        ops_fit(crisp_ops(xm, ym, r, walk_start(r), colour), buf.len() as int),
        xy_to_i_spec(xm as usize, ym as usize) < buf.len(),
    ensures
        apply_ops(buf, crisp_ops(xm, ym, r, walk_start(r), colour))[xy_to_i_spec(
            xm as usize,
            ym as usize,
        ) as int] == buf[xy_to_i_spec(xm as usize, ym as usize) as int],
{
    let ops = crisp_ops(xm, ym, r, walk_start(r), colour);
    let centre = xy_to_i_spec(xm as usize, ym as usize) as int;
    lemma_crisp_start(r);
    lemma_crisp_ops_within(xm, ym, r, walk_start(r), colour);
    lemma_crisp_misses_centre(xm, ym, r, colour);
    if touches(ops, centre) {
        let k = choose|k: int| 0 <= k < ops.len() && #[trigger] op_index(ops[k]) == centre;
        assert(op_within(ops[k], xm, ym, r));
        assert(op_index(ops[k]) < buf.len());
        let (cx, cy) = (ops[k].0, ops[k].1);
        assert(xy_to_i_spec(cx as usize, cy as usize) == cy * SCREEN_WIDTH + cx);
        assert(xy_to_i_spec(xm as usize, ym as usize) == ym * SCREEN_WIDTH + xm);
        assert(cy * SCREEN_WIDTH + cx == ym * SCREEN_WIDTH + xm);
        assert(ops[k].1 == ym && ops[k].0 == xm);
        assert(hits_point(ops, xm, ym));
    }
    lemma_apply_ops_untouched(buf, ops, centre);
}

impl Default for Framebuffer {
    /// A framebuffer of `SCREEN_LENGTH` pixels, all of palette colour 0.
    fn default() -> (fb: Framebuffer)
        ensures
            fb.buffer@ == Seq::new(SCREEN_LENGTH as nat, |i: int| PALETTE[0]),
    {
        let mut buffer: Vec<u32> = Vec::new();
        buffer.resize(SCREEN_WIDTH * SCREEN_HEIGHT, PALETTE[0]);
        let fb = Framebuffer { buffer };
        assert(fb.buffer@ =~= Seq::new(SCREEN_LENGTH as nat, |i: int| PALETTE[0]));
        fb
    }
}

impl PartialEq for Framebuffer {
    fn eq(&self, other: &Framebuffer) -> (same: bool) {
        if self.buffer.len() != other.buffer.len() {
            return false;
        }
        let n = self.buffer.len();
        for i in 0..n
            invariant
                n == self.buffer.len(),
                n == other.buffer.len(),
                forall|j: int| 0 <= j < i ==> self.buffer@[j] == other.buffer@[j],
        {
            if self.buffer[i] != other.buffer[i] {
                return false;
            }
        }
        assert(self.buffer@ =~= other.buffer@);
        true
    }
}

impl PartialEqSpecImpl for Framebuffer {
    open spec fn obeys_eq_spec() -> bool {
        true
    }

    open spec fn eq_spec(&self, other: &Framebuffer) -> bool {
        self.buffer@ == other.buffer@
    }
}

impl Eq for Framebuffer {

}

/// The number of nested outlines on the winning screen: a third of the
/// shorter screen side is left in the middle.
pub open spec fn winning_layer_count() -> int {
    let smaller_side = if SCREEN_WIDTH < SCREEN_HEIGHT { SCREEN_WIDTH } else { SCREEN_HEIGHT };
    (smaller_side - smaller_side / 3) / 2
}

/// `buf` after the first `n` outlines of the winning screen: outline `k` has
/// its corner at `(k, k)`, measures `SCREEN_WIDTH - 2k` by
/// `SCREEN_HEIGHT - 2k`, and has palette colour `(8 + k) mod 16`.
pub open spec fn winning_layers(buf: Seq<u32>, n: nat) -> Seq<u32>
    decreases n,
{
    if n == 0 {
        buf
    } else {
        let k = (n - 1) as nat;
        paint(
            winning_layers(buf, k),
            |i: int|
                on_outline(
                    i,
                    k as int,
                    k as int,
                    SCREEN_WIDTH - 2 * k,
                    SCREEN_HEIGHT - 2 * k,
                ),
            PALETTE[((8 + k) % 16) as int],
        )
    }
}

/// Draws the winning screen: nested rectangle outlines in palette colours,
/// from the screen's edge inwards.
pub fn draw_winning_screen(framebuffer: &mut Framebuffer)
    ensures
        final(framebuffer).buffer@ == winning_layers(
            old(framebuffer).buffer@,
            winning_layer_count() as nat,
        ),
{
    let mut colour_index: usize = 8;
    let mut w: usize = SCREEN_WIDTH;
    let mut h: usize = SCREEN_HEIGHT;

    let smaller_side: usize = if SCREEN_WIDTH < SCREEN_HEIGHT {
        SCREEN_WIDTH
    } else {
        SCREEN_HEIGHT
    };
    let layers = (smaller_side - smaller_side / 3) / 2;
    let ghost start = framebuffer.buffer@;

    for corner in 0..layers
        invariant
            layers == winning_layer_count(),
            w == SCREEN_WIDTH - 2 * corner,
            h == SCREEN_HEIGHT - 2 * corner,
            colour_index == (8 + corner) % 16,
            framebuffer.buffer@ == winning_layers(start, corner as nat),
    {
        let colour = PALETTE[colour_index];
        framebuffer.draw_rect(corner, corner, w, h, colour);

        if w > 2 {
            w -= 2;
        }
        if h > 2 {
            h -= 2;
        }

        let next = colour_index + 1;
        assert(next & 0xF == next % 16) by (bit_vector);
        colour_index = next & 0xF;
        assert(framebuffer.buffer@ == winning_layers(start, (corner + 1) as nat));
    }
}

} // verus!
