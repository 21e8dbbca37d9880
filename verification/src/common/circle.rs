//! The pixel sequences that the circle routines of the framebuffer produce.
//!
//! All three routines walk one quadrant of the circle with the integer
//! error-term method, from `(-r, 0)` up to the `y` axis, and mirror every
//! point into the other three quadrants.  A state of the walk is
//! `(x, y, err)`, where `err` is the error of the diagonal step,
//! `(x + 1)^2 + (y + 1)^2 - r^2`.
use vstd::prelude::*;

use super::inner_common::SCREEN_WIDTH;
use super::rendering::{blend_colour, xy_to_i_spec};

verus! {

/// One pixel operation: `(x, y, colour, blend)`.  With `blend` set the colour
/// is blended over the pixel, otherwise it is written.
pub type PixelOp = (int, int, u32, bool);

/// The buffer index an operation touches; coordinates are converted to
/// `usize` as the routines convert them.
pub open spec fn op_index(op: PixelOp) -> int {
    xy_to_i_spec(op.0 as usize, op.1 as usize) as int
}

/// The buffer after one operation.
pub open spec fn apply_op(buf: Seq<u32>, op: PixelOp) -> Seq<u32> {
    let i = op_index(op);
    if op.3 {
        buf.update(i, blend_colour(buf[i], op.2))
    } else {
        buf.update(i, op.2)
    }
}

/// The buffer after the operations, in order.
pub open spec fn apply_ops(buf: Seq<u32>, ops: Seq<PixelOp>) -> Seq<u32>
    decreases ops.len(),
{
    if ops.len() == 0 {
        buf
    } else {
        apply_ops(apply_op(buf, ops[0]), ops.drop_first())
    }
}

/// Every operation touches an index below `len`.
pub open spec fn ops_fit(ops: Seq<PixelOp>, len: int) -> bool {
    forall|k: int| 0 <= k < ops.len() ==> #[trigger] op_index(ops[k]) < len
}

/// The first state of the walk for radius `r`.
pub open spec fn walk_start(r: int) -> (int, int, int) {
    (-r, 0, 2 - 2 * r)
}

/// `y*y <= r*r + 2r` forces `y <= r`.
proof fn lemma_y_le_r(y: int, r: int)
    requires
        0 <= y,
        0 <= r,
        y * y <= r * r + 2 * r,
    ensures
        y <= r,
{
    if y > r {
        assert(y * y >= (r + 1) * (r + 1)) by (nonlinear_arith)
            requires
                y >= r + 1,
                r >= 0,
        ;
        assert((r + 1) * (r + 1) == r * r + 2 * r + 1) by (nonlinear_arith);
    }
}

/// The error term moves with the state.
proof fn lemma_err_steps(x: int, y: int, r: int)
    ensures
        (x + 2) * (x + 2) + (y + 1) * (y + 1) - r * r == (x + 1) * (x + 1) + (y + 1) * (y + 1) - r
            * r + 2 * (x + 1) + 1,
        (x + 1) * (x + 1) + (y + 2) * (y + 2) - r * r == (x + 1) * (x + 1) + (y + 1) * (y + 1) - r
            * r + 2 * (y + 1) + 1,
{
    assert((x + 2) * (x + 2) == (x + 1) * (x + 1) + 2 * (x + 1) + 1) by (nonlinear_arith);
    assert((y + 2) * (y + 2) == (y + 1) * (y + 1) + 2 * (y + 1) + 1) by (nonlinear_arith);
}

/// The error term restated over the pixel itself: `x*x + y*y - r*r`.
proof fn lemma_err_offset(x: int, y: int, r: int)
    ensures
        (x + 1) * (x + 1) + (y + 1) * (y + 1) - r * r - 2 * x - 2 * y - 2 == x * x + y * y - r * r,
{
    assert((x + 1) * (x + 1) == x * x + 2 * x + 1) by (nonlinear_arith);
    assert((y + 1) * (y + 1) == y * y + 2 * y + 1) by (nonlinear_arith);
}

/// `x*x >= 1` when `x <= -1`.
proof fn lemma_square_pos(x: int)
    requires
        x <= -1,
    ensures
        x * x >= 1,
{
    assert(x * x >= 1) by (nonlinear_arith)
        requires
            x <= -1,
    ;
}

// ---------------------------------------------------------------------------
// The aliased (crisp) walk.

/// One step of the crisp walk.
pub open spec fn crisp_next(s: (int, int, int)) -> (int, int, int) {
    let (x, y, err) = s;
    let r = err;
    let (y1, e1) = if r <= y {
        (y + 1, err + 2 * (y + 1) + 1)
    } else {
        (y, err)
    };
    if r > x || e1 > y1 {
        (x + 1, y1, e1 + 2 * (x + 1) + 1)
    } else {
        (x, y1, e1)
    }
}

/// What holds of every state the crisp walk for radius `r` visits: with
/// `r == 0` there is just the first state.
pub open spec fn crisp_inv(r: int, s: (int, int, int)) -> bool {
    (r == 0 && s == walk_start(0)) || crisp_inv_pos(r, s)
}

/// What holds of every state the crisp walk for a positive radius `r`
/// visits.
pub open spec fn crisp_inv_pos(r: int, s: (int, int, int)) -> bool {
    let (x, y, err) = s;
    &&& r >= 1
    &&& -r <= x <= -1
    &&& 0 <= y <= r
    &&& err == (x + 1) * (x + 1) + (y + 1) * (y + 1) - r * r
    &&& -2 * r - 1 <= err - 2 * x - 2 * y - 2 <= 2 * r + 1
}

/// A crisp step moves `x` or `y` up by one or both, and keeps the invariant
/// while the walk goes on.
pub proof fn lemma_crisp_step(r: int, s: (int, int, int))
    requires
        crisp_inv(r, s),
    ensures
        ({
            let n = crisp_next(s);
            &&& s.0 <= n.0 <= s.0 + 1
            &&& s.1 <= n.1 <= s.1 + 1
            &&& n.0 + n.1 > s.0 + s.1
            &&& n.0 <= 1
            &&& n.0 < 0 ==> crisp_inv(r, n)
        }),
{
    if !(r == 0 && s == walk_start(0)) {
        let (x, y, err) = s;
        let n = crisp_next(s);
        lemma_err_steps(x, y, r);
        lemma_err_steps(x, y + 1, r);
        lemma_err_offset(x, y, r);
        lemma_err_offset(n.0, n.1, r);
        if n.0 < 0 {
            lemma_square_pos(n.0);
            assert(n.1 * n.1 <= r * r + 2 * r);
            lemma_y_le_r(n.1, r);
        }
    }
}

/// The walk starts in a state of the invariant.
pub proof fn lemma_crisp_start(r: int)
    requires
        r >= 0,
    ensures
        crisp_inv(r, walk_start(r)),
{
    assert((-r + 1) * (-r + 1) == r * r - 2 * r + 1) by (nonlinear_arith);
}

/// The four mirrored pixels of a crisp state, all written with `colour`.
pub open spec fn crisp_state_ops(xm: int, ym: int, s: (int, int, int), colour: u32) -> Seq<
    PixelOp,
> {
    let (x, y, err) = s;
    seq![
        (xm - x, ym + y, colour, false),
        (xm - y, ym - x, colour, false),
        (xm + x, ym - y, colour, false),
        (xm + y, ym + x, colour, false),
    ]
}

/// The operations of the crisp walk from state `s` to its end.
pub open spec fn crisp_ops(xm: int, ym: int, r: int, s: (int, int, int), colour: u32) -> Seq<
    PixelOp,
>
    decreases (-s.0) + (r - s.1),
    when crisp_inv(r, s)
{
    proof {
        lemma_crisp_step(r, s);
    }
    let n = crisp_next(s);
    crisp_state_ops(xm, ym, s, colour) + if n.0 < 0 {
        crisp_ops(xm, ym, r, n, colour)
    } else {
        Seq::empty()
    }
}

// ---------------------------------------------------------------------------
// The anti-aliased walk.

/// One step of the anti-aliased walk: an `x` step when `err + y > 0`, then a
/// `y` step when the error before the step and `x` before the step sum to at
/// most 0.
pub open spec fn aa_next(s: (int, int, int)) -> (int, int, int) {
    let (x, y, err) = s;
    let (x1, e1) = if err + y > 0 {
        (x + 1, err + 2 * (x + 1) + 1)
    } else {
        (x, err)
    };
    if err + x <= 0 {
        (x1, y + 1, e1 + 2 * (y + 1) + 1)
    } else {
        (x1, y, e1)
    }
}

/// What holds of every state the anti-aliased walk for radius `r` visits:
/// the pixel `(x, y)` lies within one pixel of the circle, and the error
/// terms that set the blend values are in range.
pub open spec fn aa_inv(r: int, s: (int, int, int)) -> bool {
    let (x, y, err) = s;
    let d = err - 2 * x - 2 * y - 2;
    &&& r >= 1
    &&& -r <= x <= -1
    &&& 0 <= y <= r
    &&& err == (x + 1) * (x + 1) + (y + 1) * (y + 1) - r * r
    &&& -2 * y - 1 <= d <= -2 * x + 1
    &&& -2 * r + 1 <= d <= 2 * r - 1
}

/// The walk starts in a state of the invariant.
pub proof fn lemma_aa_start(r: int)
    requires
        r >= 1,
    ensures
        aa_inv(r, walk_start(r)),
{
    assert((-r + 1) * (-r + 1) == r * r - 2 * r + 1) by (nonlinear_arith);
}

/// An anti-aliased step moves `x` or `y` up by one or both, and keeps the
/// invariant while the walk goes on.
pub proof fn lemma_aa_step(r: int, s: (int, int, int))
    requires
        aa_inv(r, s),
    ensures
        ({
            let n = aa_next(s);
            &&& s.0 <= n.0 <= s.0 + 1
            &&& s.1 <= n.1 <= s.1 + 1
            &&& n.0 + n.1 > s.0 + s.1
            &&& n.0 <= 0
            &&& n.0 < 0 ==> aa_inv(r, n)
        }),
{
    let (x, y, err) = s;
    let n = aa_next(s);
    lemma_err_steps(x, y, r);
    lemma_err_steps(x + 1, y, r);
    lemma_err_offset(x, y, r);
    lemma_err_offset(n.0, n.1, r);
    if n.0 < 0 {
        lemma_square_pos(n.0);
        assert(n.1 * n.1 <= r * r + 2 * r);
        lemma_y_le_r(n.1, r);
    }
}

/// `colour` with its alpha channel replaced by `a`.
pub open spec fn with_alpha(colour: u32, a: int) -> u32 {
    (colour as int % 0x1000000 + a * 0x1000000) as u32
}

/// The blend value of the pixel on the walk: 255 times its distance from the
/// circle over the diameter `2r - 1`.
pub open spec fn alpha_on(r: int, s: (int, int, int)) -> int {
    let (x, y, err) = s;
    let e = err - 2 * (x + y) - 2;
    255 * (if e < 0 {
        -e
    } else {
        e
    }) / (2 * r - 1)
}

/// The blend value of the pixel just outside the walk, next to an `x` step.
pub open spec fn alpha_out(r: int, s: (int, int, int)) -> int {
    let (x, y, err) = s;
    255 * (err - 2 * x - 1) / (2 * r - 1)
}

/// The blend value of the pixel just inside the walk, next to a `y` step.
pub open spec fn alpha_in(r: int, s: (int, int, int)) -> int {
    let (x, y, err) = s;
    255 * (2 * y + 3 - err) / (2 * r - 1)
}

/// The four mirrored blends of a point `(px, py)` of the quadrant.
pub open spec fn mirrored_blends(xm: int, ym: int, px: int, py: int, colour: u32) -> Seq<PixelOp> {
    seq![
        (xm - px, ym + py, colour, true),
        (xm - py, ym - px, colour, true),
        (xm + px, ym - py, colour, true),
        (xm + py, ym + px, colour, true),
    ]
}

/// The blends of the walk's own pixel.
pub open spec fn aa_on_blends(xm: int, ym: int, r: int, s: (int, int, int), colour: u32) -> Seq<
    PixelOp,
> {
    mirrored_blends(xm, ym, s.0, s.1, with_alpha(colour, 255 - alpha_on(r, s)))
}

/// The blends of the pixel just outside the walk, when the state takes an
/// `x` step whose blend value is below 256.
pub open spec fn aa_outward_blends(xm: int, ym: int, r: int, s: (int, int, int), colour: u32) -> Seq<
    PixelOp,
> {
    let (x, y, err) = s;
    if err + y > 0 && alpha_out(r, s) < 256 {
        mirrored_blends(xm, ym, x, y + 1, with_alpha(colour, 255 - alpha_out(r, s)))
    } else {
        Seq::empty()
    }
}

/// The inward blends of an outline state that takes a `y` step whose blend
/// value is below 256: the pixel one step in from the walk.
pub open spec fn aa_inner_blends(xm: int, ym: int, r: int, s: (int, int, int), colour: u32) -> Seq<
    PixelOp,
> {
    let (x, y, err) = s;
    if err + x <= 0 && alpha_in(r, s) < 256 {
        mirrored_blends(xm, ym, x + 1, y, with_alpha(colour, 255 - alpha_in(r, s)))
    } else {
        Seq::empty()
    }
}

/// `n` writes of `colour` from `(cx, cy)` along the diagonal `(sx, sy)`.
pub open spec fn diagonal(cx: int, cy: int, sx: int, sy: int, n: int, colour: u32) -> Seq<PixelOp> {
    Seq::new(n as nat, |j: int| (cx + sx * j, cy + sy * j, colour, false))
}

/// The inside fill of a disc state that takes a `y` step: four diagonal runs
/// from the pixel one step in from the walk towards the centre, each
/// `max(-x - 1, y)` long.
pub open spec fn aa_fill_ops(xm: int, ym: int, s: (int, int, int), colour: u32) -> Seq<PixelOp> {
    let (x, y, err) = s;
    let n = if -x - 1 < y {
        y
    } else {
        -x - 1
    };
    if err + x <= 0 {
        diagonal(xm - x - 1, ym + y, -1, -1, n, colour) + diagonal(xm + y, ym + x + 1, -1, 1, n, colour)
            + diagonal(xm - y, ym - x - 1, 1, -1, n, colour) + diagonal(
            xm + x + 1,
            ym - y,
            1,
            1,
            n,
            colour,
        )
    } else {
        Seq::empty()
    }
}

/// The operations of one state: an outline's blends, or a disc's blends and
/// fill.
pub open spec fn aa_state_ops(
    xm: int,
    ym: int,
    r: int,
    s: (int, int, int),
    colour: u32,
    filled: bool,
) -> Seq<PixelOp> {
    aa_on_blends(xm, ym, r, s, colour) + aa_outward_blends(xm, ym, r, s, colour) + if filled {
        aa_fill_ops(xm, ym, s, colour)
    } else {
        aa_inner_blends(xm, ym, r, s, colour)
    }
}

/// The operations of the anti-aliased walk from state `s` to its end.
pub open spec fn aa_ops(
    xm: int,
    ym: int,
    r: int,
    s: (int, int, int),
    colour: u32,
    filled: bool,
) -> Seq<PixelOp>
    decreases (-s.0) + (r - s.1),
    when aa_inv(r, s)
{
    proof {
        lemma_aa_step(r, s);
    }
    let n = aa_next(s);
    aa_state_ops(xm, ym, r, s, colour, filled) + if n.0 < 0 {
        aa_ops(xm, ym, r, n, colour, filled)
    } else {
        Seq::empty()
    }
}

/// The operations of an anti-aliased circle outline.
pub open spec fn circle_ops(xm: int, ym: int, r: int, colour: u32) -> Seq<PixelOp> {
    aa_ops(xm, ym, r, walk_start(r), colour, false)
}

/// The operations of an anti-aliased disc: the walk with its fill, then the
/// centre pixel.
pub open spec fn disc_ops(xm: int, ym: int, r: int, colour: u32) -> Seq<PixelOp> {
    aa_ops(xm, ym, r, walk_start(r), colour, true) + seq![(xm, ym, colour, false)]
}

// ---------------------------------------------------------------------------
// Where the walks go.

/// Every pixel the anti-aliased walk visits lies within one pixel of the
/// circle: `(r - 1)^2 <= x^2 + y^2 <= r^2 + 2r - 1`.
pub proof fn lemma_aa_near_circle(r: int, s: (int, int, int))
    requires
        aa_inv(r, s),
    ensures
        (r - 1) * (r - 1) <= s.0 * s.0 + s.1 * s.1 <= r * r + 2 * r - 1,
{
    lemma_err_offset(s.0, s.1, r);
    assert((r - 1) * (r - 1) == r * r - 2 * r + 1) by (nonlinear_arith);
}

/// Every pixel the crisp walk for a positive radius visits lies within
/// about one pixel of the circle: `r^2 - 2r - 1 <= x^2 + y^2 <= r^2 + 2r + 1`.
pub proof fn lemma_crisp_near_circle(r: int, s: (int, int, int))
    requires
        crisp_inv(r, s),
        r >= 1,
    ensures
        r * r - 2 * r - 1 <= s.0 * s.0 + s.1 * s.1 <= r * r + 2 * r + 1,
{
    lemma_err_offset(s.0, s.1, r);
}

/// The operation lies in the square of half-side `m` around `(xm, ym)`.
pub open spec fn op_within(op: PixelOp, xm: int, ym: int, m: int) -> bool {
    xm - m <= op.0 <= xm + m && ym - m <= op.1 <= ym + m
}

/// Every operation lies in the square of half-side `m` around `(xm, ym)`.
pub open spec fn ops_within(ops: Seq<PixelOp>, xm: int, ym: int, m: int) -> bool {
    forall|k: int| 0 <= k < ops.len() ==> #[trigger] op_within(ops[k], xm, ym, m)
}

proof fn lemma_within_concat(a: Seq<PixelOp>, b: Seq<PixelOp>, xm: int, ym: int, m: int)
    requires
        ops_within(a, xm, ym, m),
        ops_within(b, xm, ym, m),
    ensures
        ops_within(a + b, xm, ym, m),
{
    assert forall|k: int| 0 <= k < (a + b).len() implies #[trigger] op_within(
        (a + b)[k],
        xm,
        ym,
        m,
    ) by {
        if k < a.len() {
            assert((a + b)[k] == a[k]);
        } else {
            assert((a + b)[k] == b[k - a.len()]);
        }
    }
}

proof fn lemma_mirrored_within(xm: int, ym: int, px: int, py: int, colour: u32, m: int)
    requires
        -m <= px <= m,
        -m <= py <= m,
    ensures
        ops_within(mirrored_blends(xm, ym, px, py, colour), xm, ym, m),
{
    let ops = mirrored_blends(xm, ym, px, py, colour);
    assert forall|k: int| 0 <= k < ops.len() implies #[trigger] op_within(ops[k], xm, ym, m) by {}
}

proof fn lemma_diagonal_within(
    cx: int,
    cy: int,
    sx: int,
    sy: int,
    n: int,
    colour: u32,
    xm: int,
    ym: int,
    m: int,
)
    requires
        sx == 1 || sx == -1,
        sy == 1 || sy == -1,
        n >= 0,
        xm - m <= cx <= xm + m,
        ym - m <= cy <= ym + m,
        xm - m <= cx + sx * n <= xm + m,
        ym - m <= cy + sy * n <= ym + m,
    ensures
        ops_within(diagonal(cx, cy, sx, sy, n, colour), xm, ym, m),
{
    let ops = diagonal(cx, cy, sx, sy, n, colour);
    assert forall|k: int| 0 <= k < ops.len() implies #[trigger] op_within(ops[k], xm, ym, m) by {
        if sx == 1 {
            assert(sx * k == k);
        } else {
            assert(sx * k == -k);
        }
        if sy == 1 {
            assert(sy * k == k);
        } else {
            assert(sy * k == -k);
        }
        assert(sx * n == n || sx * n == -n);
        assert(sy * n == n || sy * n == -n);
    }
}

/// Every pixel of the anti-aliased walk, of its outward and inward blends and
/// of its fill lies within `r + 1` of the centre in each coordinate.
pub proof fn lemma_aa_ops_within(
    xm: int,
    ym: int,
    r: int,
    s: (int, int, int),
    colour: u32,
    filled: bool,
)
    requires
        aa_inv(r, s),
    ensures
        ops_within(aa_ops(xm, ym, r, s, colour, filled), xm, ym, r + 1),
    decreases (-s.0) + (r - s.1),
{
    lemma_aa_step(r, s);
    let (x, y, err) = s;
    let m = r + 1;
    let on = aa_on_blends(xm, ym, r, s, colour);
    let out = aa_outward_blends(xm, ym, r, s, colour);
    let inner = if filled {
        aa_fill_ops(xm, ym, s, colour)
    } else {
        aa_inner_blends(xm, ym, r, s, colour)
    };
    lemma_mirrored_within(xm, ym, x, y, with_alpha(colour, 255 - alpha_on(r, s)), m);
    if err + y > 0 && alpha_out(r, s) < 256 {
        lemma_mirrored_within(xm, ym, x, y + 1, with_alpha(colour, 255 - alpha_out(r, s)), m);
    }
    if filled {
        if err + x <= 0 {
            let n = if -x - 1 < y {
                y
            } else {
                -x - 1
            };
            lemma_diagonal_within(xm - x - 1, ym + y, -1, -1, n, colour, xm, ym, m);
            lemma_diagonal_within(xm + y, ym + x + 1, -1, 1, n, colour, xm, ym, m);
            lemma_diagonal_within(xm - y, ym - x - 1, 1, -1, n, colour, xm, ym, m);
            lemma_diagonal_within(xm + x + 1, ym - y, 1, 1, n, colour, xm, ym, m);
            lemma_within_concat(
                diagonal(xm - x - 1, ym + y, -1, -1, n, colour),
                diagonal(xm + y, ym + x + 1, -1, 1, n, colour),
                xm,
                ym,
                m,
            );
            lemma_within_concat(
                diagonal(xm - x - 1, ym + y, -1, -1, n, colour) + diagonal(
                    xm + y,
                    ym + x + 1,
                    -1,
                    1,
                    n,
                    colour,
                ),
                diagonal(xm - y, ym - x - 1, 1, -1, n, colour),
                xm,
                ym,
                m,
            );
            lemma_within_concat(
                diagonal(xm - x - 1, ym + y, -1, -1, n, colour) + diagonal(
                    xm + y,
                    ym + x + 1,
                    -1,
                    1,
                    n,
                    colour,
                ) + diagonal(xm - y, ym - x - 1, 1, -1, n, colour),
                diagonal(xm + x + 1, ym - y, 1, 1, n, colour),
                xm,
                ym,
                m,
            );
        }
    } else if err + x <= 0 && alpha_in(r, s) < 256 {
        lemma_mirrored_within(xm, ym, x + 1, y, with_alpha(colour, 255 - alpha_in(r, s)), m);
    }
    lemma_within_concat(on, out, xm, ym, m);
    lemma_within_concat(on + out, inner, xm, ym, m);
    let n = aa_next(s);
    if n.0 < 0 {
        lemma_aa_ops_within(xm, ym, r, n, colour, filled);
        lemma_within_concat(on + out + inner, aa_ops(xm, ym, r, n, colour, filled), xm, ym, m);
    } else {
        assert(on + out + inner + Seq::<PixelOp>::empty() =~= on + out + inner);
    }
}

/// Every pixel of the crisp walk lies within `r` of the centre in each
/// coordinate.
pub proof fn lemma_crisp_ops_within(xm: int, ym: int, r: int, s: (int, int, int), colour: u32)
    requires
        crisp_inv(r, s),
    ensures
        ops_within(crisp_ops(xm, ym, r, s, colour), xm, ym, r),
    decreases (-s.0) + (r - s.1),
{
    lemma_crisp_step(r, s);
    let here = crisp_state_ops(xm, ym, s, colour);
    assert forall|k: int| 0 <= k < here.len() implies #[trigger] op_within(here[k], xm, ym, r) by {}
    let n = crisp_next(s);
    if n.0 < 0 {
        lemma_crisp_ops_within(xm, ym, r, n, colour);
        lemma_within_concat(here, crisp_ops(xm, ym, r, n, colour), xm, ym, r);
    } else {
        assert(here + Seq::<PixelOp>::empty() =~= here);
    }
}

/// Operations in a square that lies on the screen's rows within the buffer
/// all touch indices within the buffer.
pub proof fn lemma_within_fits(ops: Seq<PixelOp>, xm: int, ym: int, m: int, len: int)
    requires
        ops_within(ops, xm, ym, m),
        xm >= m,
        ym >= m,
        (ym + m) * SCREEN_WIDTH + xm + m < len,
        len <= usize::MAX,
    ensures
        ops_fit(ops, len),
{
    assert forall|k: int| 0 <= k < ops.len() implies #[trigger] op_index(ops[k]) < len by {
        assert(op_within(ops[k], xm, ym, m));
    }
}

/// A circle, disc or crisp circle of radius `r >= 1` around `(xm, ym)` stays
/// within the buffer when its bounding square, one pixel wider on each side,
/// lies on the screen's rows within the buffer.
pub proof fn lemma_circle_fits(xm: int, ym: int, r: int, colour: u32, len: int)
    requires
        r >= 1,
        xm >= r + 1,
        ym >= r + 1,
        (ym + r + 1) * SCREEN_WIDTH + xm + r + 1 < len,
        len <= usize::MAX,
    ensures
        ops_fit(circle_ops(xm, ym, r, colour), len),
        ops_fit(disc_ops(xm, ym, r, colour), len),
        ops_fit(crisp_ops(xm, ym, r, walk_start(r), colour), len),
{
    lemma_aa_start(r);
    lemma_crisp_start(r);
    lemma_aa_ops_within(xm, ym, r, walk_start(r), colour, false);
    lemma_aa_ops_within(xm, ym, r, walk_start(r), colour, true);
    lemma_crisp_ops_within(xm, ym, r, walk_start(r), colour);
    let centre = seq![(xm, ym, colour, false)];
    assert forall|k: int| 0 <= k < centre.len() implies #[trigger] op_within(
        centre[k],
        xm,
        ym,
        r + 1,
    ) by {}
    lemma_within_concat(
        aa_ops(xm, ym, r, walk_start(r), colour, true),
        centre,
        xm,
        ym,
        r + 1,
    );
    lemma_within_fits(circle_ops(xm, ym, r, colour), xm, ym, r + 1, len);
    lemma_within_fits(disc_ops(xm, ym, r, colour), xm, ym, r + 1, len);
    assert forall|k: int|
        0 <= k < crisp_ops(xm, ym, r, walk_start(r), colour).len() implies #[trigger] op_within(
        crisp_ops(xm, ym, r, walk_start(r), colour)[k],
        xm,
        ym,
        r + 1,
    ) by {
        assert(op_within(crisp_ops(xm, ym, r, walk_start(r), colour)[k], xm, ym, r));
    }
    lemma_within_fits(crisp_ops(xm, ym, r, walk_start(r), colour), xm, ym, r + 1, len);
}

/// Every operation writes `colour`.
pub open spec fn all_writes_of(ops: Seq<PixelOp>, colour: u32) -> bool {
    forall|k: int| 0 <= k < ops.len() ==> !(#[trigger] ops[k]).3 && ops[k].2 == colour
}

/// Some operation touches index `i`.
pub open spec fn touches(ops: Seq<PixelOp>, i: int) -> bool {
    exists|k: int| 0 <= k < ops.len() && #[trigger] op_index(ops[k]) == i
}

/// Writes of one colour set exactly the pixels they touch to that colour,
/// whatever their order.
pub proof fn lemma_writes_paint(buf: Seq<u32>, ops: Seq<PixelOp>, colour: u32)
    requires
        all_writes_of(ops, colour),
        ops_fit(ops, buf.len() as int),
    ensures
        apply_ops(buf, ops) == Seq::new(
            buf.len(),
            |i: int|
                if touches(ops, i) {
                    colour
                } else {
                    buf[i]
                },
        ),
    decreases ops.len(),
{
    let target = Seq::new(buf.len(), |i: int| if touches(ops, i) { colour } else { buf[i] });
    if ops.len() == 0 {
        assert(apply_ops(buf, ops) =~= target);
    } else {
        let first = apply_op(buf, ops[0]);
        let rest = ops.drop_first();
        assert(op_index(ops[0]) < buf.len());
        assert forall|k: int| 0 <= k < rest.len() implies #[trigger] op_index(rest[k]) < first.len() by {
            assert(rest[k] == ops[k + 1]);
            assert(op_index(ops[k + 1]) < buf.len());
        }
        assert forall|k: int| 0 <= k < rest.len() implies !(#[trigger] rest[k]).3 && rest[k].2
            == colour by {
            assert(rest[k] == ops[k + 1]);
        }
        lemma_writes_paint(first, rest, colour);
        let after = apply_ops(first, rest);
        assert forall|i: int| 0 <= i < buf.len() implies after[i] == target[i] by {
            if touches(rest, i) {
                let k = choose|k: int| 0 <= k < rest.len() && #[trigger] op_index(rest[k]) == i;
                assert(op_index(ops[k + 1]) == i);
            }
            if touches(ops, i) {
                let k = choose|k: int| 0 <= k < ops.len() && #[trigger] op_index(ops[k]) == i;
                if k > 0 {
                    assert(rest[k - 1] == ops[k]);
                    assert(op_index(rest[k - 1]) == i);
                }
            }
            if i == op_index(ops[0]) {
                assert(op_index(ops[0]) == i);
            }
        }
        assert(after =~= target);
    }
}

/// The crisp walk only writes `colour`.
pub proof fn lemma_crisp_all_writes(xm: int, ym: int, r: int, s: (int, int, int), colour: u32)
    requires
        crisp_inv(r, s),
    ensures
        all_writes_of(crisp_ops(xm, ym, r, s, colour), colour),
    decreases (-s.0) + (r - s.1),
{
    lemma_crisp_step(r, s);
    let here = crisp_state_ops(xm, ym, s, colour);
    let n = crisp_next(s);
    if n.0 < 0 {
        lemma_crisp_all_writes(xm, ym, r, n, colour);
        let rest = crisp_ops(xm, ym, r, n, colour);
        assert forall|k: int| 0 <= k < (here + rest).len() implies !(#[trigger] (here + rest)[k]).3
            && (here + rest)[k].2 == colour by {
            if k >= here.len() {
                assert((here + rest)[k] == rest[k - here.len()]);
            }
        }
    } else {
        assert(here + Seq::<PixelOp>::empty() =~= here);
    }
}

/// Some operation is at pixel `(cx, cy)`.
pub open spec fn hits_point(ops: Seq<PixelOp>, cx: int, cy: int) -> bool {
    exists|k: int| 0 <= k < ops.len() && (#[trigger] ops[k]).0 == cx && ops[k].1 == cy
}

proof fn lemma_hits_concat(a: Seq<PixelOp>, b: Seq<PixelOp>, cx: int, cy: int)
    ensures
        hits_point(a + b, cx, cy) <==> (hits_point(a, cx, cy) || hits_point(b, cx, cy)),
{
    if hits_point(a + b, cx, cy) {
        let k = choose|k: int| 0 <= k < (a + b).len() && (#[trigger] (a + b)[k]).0 == cx && (a
            + b)[k].1 == cy;
        if k < a.len() {
            assert(a[k] == (a + b)[k]);
        } else {
            assert(b[k - a.len()] == (a + b)[k]);
        }
    }
    if hits_point(a, cx, cy) {
        let k = choose|k: int| 0 <= k < a.len() && (#[trigger] a[k]).0 == cx && a[k].1 == cy;
        assert((a + b)[k] == a[k]);
    }
    if hits_point(b, cx, cy) {
        let k = choose|k: int| 0 <= k < b.len() && (#[trigger] b[k]).0 == cx && b[k].1 == cy;
        assert((a + b)[k + a.len()] == b[k]);
    }
}

/// The crisp walk from `s` is unchanged by a quarter turn about the centre:
/// with a pixel at offset `(dx, dy)` it has one at `(-dy, dx)`.
pub proof fn lemma_crisp_quarter_turn_from(
    xm: int,
    ym: int,
    r: int,
    s: (int, int, int),
    colour: u32,
    dx: int,
    dy: int,
)
    requires
        crisp_inv(r, s),
        hits_point(crisp_ops(xm, ym, r, s, colour), xm + dx, ym + dy),
    ensures
        hits_point(crisp_ops(xm, ym, r, s, colour), xm - dy, ym + dx),
    decreases (-s.0) + (r - s.1),
{
    lemma_crisp_step(r, s);
    let here = crisp_state_ops(xm, ym, s, colour);
    let n = crisp_next(s);
    let rest = if n.0 < 0 {
        crisp_ops(xm, ym, r, n, colour)
    } else {
        Seq::empty()
    };
    assert(crisp_ops(xm, ym, r, s, colour) == here + rest);
    lemma_hits_concat(here, rest, xm + dx, ym + dy);
    lemma_hits_concat(here, rest, xm - dy, ym + dx);
    if hits_point(here, xm + dx, ym + dy) {
        let k = choose|k: int| 0 <= k < here.len() && (#[trigger] here[k]).0 == xm + dx && here[k].1
            == ym + dy;
        let k2 = if k == 3 {
            0
        } else {
            k + 1
        };
        assert(here[k2].0 == xm - dy && here[k2].1 == ym + dx);
    } else {
        assert(hits_point(rest, xm + dx, ym + dy));
        if n.0 < 0 {
            lemma_crisp_quarter_turn_from(xm, ym, r, n, colour, dx, dy);
        }
    }
}

/// The crisp circle is unchanged by a quarter turn about its centre: with a
/// pixel at offset `(dx, dy)` it has one at `(-dy, dx)`.
pub proof fn lemma_crisp_quarter_turn(xm: int, ym: int, r: int, colour: u32, dx: int, dy: int)
    requires
        r >= 0,
        hits_point(crisp_ops(xm, ym, r, walk_start(r), colour), xm + dx, ym + dy),
    ensures
        hits_point(crisp_ops(xm, ym, r, walk_start(r), colour), xm - dy, ym + dx),
{
    lemma_crisp_start(r);
    lemma_crisp_quarter_turn_from(xm, ym, r, walk_start(r), colour, dx, dy);
}

/// The crisp circle has the four points on the axes at distance `r`.
pub proof fn lemma_crisp_axes(xm: int, ym: int, r: int, colour: u32)
    requires
        r >= 0,
    ensures
        hits_point(crisp_ops(xm, ym, r, walk_start(r), colour), xm + r, ym),
        hits_point(crisp_ops(xm, ym, r, walk_start(r), colour), xm, ym + r),
        hits_point(crisp_ops(xm, ym, r, walk_start(r), colour), xm - r, ym),
        hits_point(crisp_ops(xm, ym, r, walk_start(r), colour), xm, ym - r),
{
    lemma_crisp_start(r);
    let s = walk_start(r);
    lemma_crisp_step(r, s);
    let ops = crisp_ops(xm, ym, r, s, colour);
    let here = crisp_state_ops(xm, ym, s, colour);
    assert(ops[0] == here[0] && ops[1] == here[1] && ops[2] == here[2] && ops[3] == here[3]);
    assert(ops[0].0 == xm + r && ops[0].1 == ym);
    assert(ops[1].0 == xm && ops[1].1 == ym + r);
    assert(ops[2].0 == xm - r && ops[2].1 == ym);
    assert(ops[3].0 == xm && ops[3].1 == ym - r);
}

/// No pixel of the crisp walk from `s`, for a radius of at least 1, is the
/// centre.
proof fn lemma_crisp_misses_centre_from(xm: int, ym: int, r: int, s: (int, int, int), colour: u32)
    requires
        r >= 1,
        crisp_inv(r, s),
    ensures
        forall|k: int|
            0 <= k < crisp_ops(xm, ym, r, s, colour).len() ==> !((#[trigger] crisp_ops(
                xm,
                ym,
                r,
                s,
                colour,
            )[k]).0 == xm && crisp_ops(xm, ym, r, s, colour)[k].1 == ym),
    decreases (-s.0) + (r - s.1),
{
    lemma_crisp_step(r, s);
    let here = crisp_state_ops(xm, ym, s, colour);
    let n = crisp_next(s);
    let ops = crisp_ops(xm, ym, r, s, colour);
    if n.0 < 0 {
        lemma_crisp_misses_centre_from(xm, ym, r, n, colour);
        let rest = crisp_ops(xm, ym, r, n, colour);
        assert forall|k: int| 0 <= k < ops.len() implies !((#[trigger] ops[k]).0 == xm && ops[k].1
            == ym) by {
            if k >= 4 {
                assert(ops[k] == rest[k - 4]);
            }
        }
    } else {
        assert(ops =~= here);
    }
}

/// For a radius of at least 1 no pixel of the crisp circle is its centre.
pub proof fn lemma_crisp_misses_centre(xm: int, ym: int, r: int, colour: u32)
    requires
        r >= 1,
    ensures
        !hits_point(crisp_ops(xm, ym, r, walk_start(r), colour), xm, ym),
{
    lemma_crisp_start(r);
    lemma_crisp_misses_centre_from(xm, ym, r, walk_start(r), colour);
}

} // verus!
