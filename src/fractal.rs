use vstd::prelude::*;
use crate::plane::{
    fixed_mul,
    fx_mul,
    lemma_mul_bounds,
    lemma_tdiv_between,
    lemma_tdiv_neg,
    lemma_tdiv_shrink,
    tdiv,
    trunc_div,
    FIXED_ONE,
    STEP_LIMIT,
};

verus! {

/// An RGB color; the alpha channel is implicitly opaque.
#[derive(Clone, Copy, Debug, PartialEq, Eq, Structural)]
pub struct Color {
    pub r: u8,
    pub g: u8,
    pub b: u8,
}

/// Iteration budget of the escape-time rule.
pub const ESCAPE_BUDGET: u32 = 100;

/// Iteration budget of the root-basin rule.
pub const NEWTON_BUDGET: u32 = 128;

/// Convergence tolerance of the root-basin rule, per coordinate, in fixed point
/// (0.005 plane units).
pub const NEWTON_TOLERANCE: i64 = 328;

/// Imaginary part of the two complex cube roots of unity, `sqrt(3) / 2`, in fixed point.
pub const ROOT_IM: i64 = 56756;

/// `v` capped at 255.
pub open spec fn clamp_byte(v: int) -> int {
    if v > 255 {
        255
    } else {
        v
    }
}

pub open spec fn black() -> Color {
    Color { r: 0, g: 0, b: 0 }
}

/// Fixed-point square of the complex number `z = (re, im)`.
pub open spec fn fx_square(z: (int, int)) -> (int, int) {
    (fx_mul(z.0, z.0) - fx_mul(z.1, z.1), 2 * fx_mul(z.0, z.1))
}

/// Fixed-point product of two complex numbers.
pub open spec fn fx_cmul(a: (int, int), b: (int, int)) -> (int, int) {
    (fx_mul(a.0, b.0) - fx_mul(a.1, b.1), fx_mul(a.0, b.1) + fx_mul(a.1, b.0))
}

/// Fixed-point quotient `n / d` of two complex numbers, `n * conj(d) / |d|^2`,
/// each part rounded toward zero.
pub open spec fn fx_cdiv(n: (int, int), d: (int, int)) -> (int, int) {
    let den = d.0 * d.0 + d.1 * d.1;
    (
        tdiv((n.0 * d.0 + n.1 * d.1) * FIXED_ONE, den),
        tdiv((n.1 * d.0 - n.0 * d.1) * FIXED_ONE, den),
    )
}

/// `|z| > 2`, compared on squares.
pub open spec fn escaped(z: (int, int)) -> bool {
    z.0 * z.0 + z.1 * z.1 > 4 * FIXED_ONE * FIXED_ONE
}

/// One escape-time step, `z * z + c`.
pub open spec fn square_plus(z: (int, int), c: (int, int)) -> (int, int) {
    (fx_square(z).0 + c.0, fx_square(z).1 + c.1)
}

/// Iteration recorded by the escape-time rule for `c`, continuing from `z` at
/// step `t`: the index of the last step taken before `|z|` exceeded 2, or the
/// budget itself, the cap, when no iterate up to the last one did.
pub open spec fn escape_from(c: (int, int), z: (int, int), t: int) -> int
    decreases ESCAPE_BUDGET - t,
{
    if t >= ESCAPE_BUDGET {
        if escaped(z) {
            t - 1
        } else {
            ESCAPE_BUDGET as int
        }
    } else if escaped(z) {
        if t == 0 {
            0
        } else {
            t - 1
        }
    } else {
        escape_from(c, square_plus(z, c), t + 1)
    }
}

/// Iteration recorded by the escape-time rule for the plane point `(x, y)`,
/// starting from `z = 0`.
pub open spec fn escape_iteration(x: int, y: int) -> int {
    escape_from((x, y), (0, 0), 0)
}

/// Color of escape iteration `i`: red falls, green rises, blue rises with `i^2`.
pub open spec fn escape_color(i: int) -> Color {
    Color { r: (ESCAPE_BUDGET - i) as u8, g: i as u8, b: clamp_byte(i * i) as u8 }
}

/// Root `k` of `z^3 - 1`: 1, then `-1/2 + i sqrt(3)/2`, then `-1/2 - i sqrt(3)/2`.
pub open spec fn root(k: int) -> (int, int) {
    if k == 0 {
        (FIXED_ONE as int, 0)
    } else if k == 1 {
        (-(FIXED_ONE / 2) as int, ROOT_IM as int)
    } else {
        (-(FIXED_ONE / 2) as int, -ROOT_IM as int)
    }
}

pub open spec fn abs(v: int) -> int {
    if v < 0 {
        -v
    } else {
        v
    }
}

/// `z` is within the tolerance of `r` in both coordinates.
pub open spec fn near(z: (int, int), r: (int, int)) -> bool {
    abs(r.1 - z.1) < NEWTON_TOLERANCE && abs(r.0 - z.0) < NEWTON_TOLERANCE
}

/// Index of the first root that `z` is near, or 3 when it is near none.
pub open spec fn root_index(z: (int, int)) -> int {
    if near(z, root(0)) {
        0
    } else if near(z, root(1)) {
        1
    } else if near(z, root(2)) {
        2
    } else {
        3
    }
}

/// `z` lies within `STEP_LIMIT` on both axes.
pub open spec fn in_step_range(z: (int, int)) -> bool {
    -STEP_LIMIT <= z.0 <= STEP_LIMIT && -STEP_LIMIT <= z.1 <= STEP_LIMIT
}

/// The Newton step for `f(z) = z^3 - 1` computed in full:
/// `z - f(z) / f'(z)` with `f'(z) = 3 z^2`.
pub open spec fn exact_step(z: (int, int)) -> (int, int) {
    let sq = fx_square(z);
    let cube = fx_cmul(sq, z);
    let q = fx_cdiv((cube.0 - FIXED_ONE, cube.1), (3 * sq.0, 3 * sq.1));
    (z.0 - q.0, z.1 - q.1)
}

/// One Newton step for `f(z) = z^3 - 1`. Within the step range it is
/// `exact_step`; beyond it the step `2z/3 + 1/(3z^2)` is taken as `2z/3`
/// (rounded toward zero), since there `1/(3z^2)` is below 1/48 of a
/// fixed-point unit.
pub open spec fn newton_step(z: (int, int)) -> (int, int) {
    if in_step_range(z) {
        exact_step(z)
    } else {
        (tdiv(2 * z.0, 3), tdiv(2 * z.1, 3))
    }
}

/// Outcome `(iteration, root index)` of the root-basin rule from `z` at
/// `iteration`. The run stops without a root (index 3) when the budget is
/// spent or when the derivative vanishes (the fixed-point square of `z` is 0).
pub open spec fn newton_from(z: (int, int), iteration: int) -> (int, int)
    decreases NEWTON_BUDGET - iteration,
{
    if iteration >= NEWTON_BUDGET {
        (iteration, 3)
    } else if in_step_range(z) && fx_square(z) == (0int, 0int) {
        (iteration, 3)
    } else if root_index(newton_step(z)) < 3 {
        (iteration, root_index(newton_step(z)))
    } else {
        newton_from(newton_step(z), iteration + 1)
    }
}

/// Outcome of the root-basin rule for the plane point `(x, y)`.
pub open spec fn newton_outcome(x: int, y: int) -> (int, int) {
    newton_from((x, y), 1)
}

/// Color of a root-basin outcome: a base color per root, darker the more
/// iterations it took; black when no root was reached.
pub open spec fn newton_color(outcome: (int, int)) -> Color {
    let shade = (255 - clamp_byte(outcome.0 * outcome.0 / 4)) as u8;
    if outcome.1 == 0 {
        Color { r: shade, g: shade, b: 0 }
    } else if outcome.1 == 1 {
        Color { r: 0, g: shade, b: shade }
    } else if outcome.1 == 2 {
        Color { r: shade, g: (shade / 2) as u8, b: shade }
    } else {
        black()
    }
}

/// A point with `|c| > 2` escapes at iteration 0.
pub proof fn lemma_far_point_escapes_at_once(x: int, y: int)
    requires
        escaped((x, y)),
    ensures
        escape_iteration(x, y) == 0,
{
    assert(square_plus((0, 0), (x, y)) == (x, y));
    reveal_with_fuel(escape_from, 2);
}

/// The origin never escapes: it records the cap, the whole budget.
pub proof fn lemma_origin_never_escapes()
    ensures
        escape_iteration(0, 0) == ESCAPE_BUDGET,
{
    lemma_origin_stays(0);
}

proof fn lemma_origin_stays(t: int)
    requires
        0 <= t <= ESCAPE_BUDGET,
    ensures
        escape_from((0, 0), (0, 0), t) == ESCAPE_BUDGET,
    decreases ESCAPE_BUDGET - t,
{
    if t < ESCAPE_BUDGET {
        assert(square_plus((0, 0), (0, 0)) == (0int, 0int));
        lemma_origin_stays(t + 1);
    }
}

/// A start within the tolerance of the root 1 reaches it at the first
/// iteration: its outcome is root 0 after one step.
pub proof fn lemma_near_first_root_converges(x: int, y: int)
    requires
        abs(x - FIXED_ONE) < NEWTON_TOLERANCE,
        abs(y) < NEWTON_TOLERANCE,
    ensures
        newton_outcome(x, y) == (1int, 0int),
{
    let s: int = FIXED_ONE as int;
    let a = x - s;
    let b = y;
    // Squares and products of the small offsets.
    lemma_mul_bounds(a, a, 327, 327);
    lemma_mul_bounds(b, b, 327, 327);
    lemma_mul_bounds(a, b, 327, 327);
    assert(x * x == s * s + 2 * a * s + a * a) by (nonlinear_arith)
        requires
            a == x - s,
    ;
    assert(x * y == s * b + a * b) by (nonlinear_arith)
        requires
            a == x - s,
            b == y,
    ;
    let sq = fx_square((x, y));
    let e1 = sq.0 - s - 2 * a;
    let e2 = sq.1 - 2 * b;
    assert(-3 <= e1 <= 3);
    assert(-4 <= e2 <= 4);
    // The cube.
    lemma_mul_bounds(e1, a, 3, 327);
    lemma_mul_bounds(e1, b, 3, 327);
    lemma_mul_bounds(e2, a, 4, 327);
    lemma_mul_bounds(e2, b, 4, 327);
    assert(sq.0 * x == s * s + 3 * a * s + e1 * s + 2 * (a * a) + e1 * a) by (nonlinear_arith)
        requires
            sq.0 == s + 2 * a + e1,
            x == s + a,
    ;
    assert(sq.1 * y == 2 * (b * b) + e2 * b) by (nonlinear_arith)
        requires
            sq.1 == 2 * b + e2,
            y == b,
    ;
    assert(sq.0 * y == s * b + 2 * (a * b) + e1 * b) by (nonlinear_arith)
        requires
            sq.0 == s + 2 * a + e1,
            y == b,
    ;
    assert(sq.1 * x == 2 * b * s + e2 * s + 2 * (a * b) + e2 * a) by (nonlinear_arith)
        requires
            sq.1 == 2 * b + e2,
            x == s + a,
    ;
    let cube = fx_cmul(sq, (x, y));
    let e4 = cube.0 - s - 3 * a;
    let e5 = cube.1 - 3 * b;
    assert(-14 <= e4 <= 14);
    assert(-14 <= e5 <= 14);
    // The quotient f / f'.
    let f0 = cube.0 - s;
    let f1 = cube.1;
    let d0 = 3 * sq.0;
    let d1 = 3 * sq.1;
    let del0 = 6 * a + 3 * e1;
    let del1 = d1;
    assert(d0 == 3 * s + del0);
    assert(-1971 <= del0 <= 1971);
    assert(-1974 <= del1 <= 1974);
    let den = d0 * d0 + d1 * d1;
    let n0 = f0 * d0 + f1 * d1;
    let n1 = f1 * d0 - f0 * d1;
    lemma_mul_bounds(a, del0, 327, 1971);
    lemma_mul_bounds(b, del0, 327, 1971);
    lemma_mul_bounds(e4, del0, 14, 1971);
    lemma_mul_bounds(e5, del0, 14, 1971);
    lemma_mul_bounds(del0, del0, 1971, 1971);
    lemma_mul_bounds(del1, del1, 1974, 1974);
    lemma_mul_bounds(f1, del1, 1000, 1974);
    lemma_mul_bounds(f0, del1, 1000, 1974);
    lemma_mul_bounds(a, del0 * del0, 327, 3884841);
    lemma_mul_bounds(a, del1 * del1, 327, 3896676);
    lemma_mul_bounds(b, del0 * del0, 327, 3884841);
    lemma_mul_bounds(b, del1 * del1, 327, 3896676);
    let g0 = n0 * s - a * den;
    let g1 = n1 * s - b * den;
    lemma_quotient_offset(a, e4, del0, f1, del1);
    lemma_mul_bounds(-f0, del1, 1000, 1974);
    lemma_quotient_offset(b, e5, del0, -f0, del1);
    assert(f0 * d0 == (3 * a + e4) * (196608 + del0));
    assert(f1 * d0 == (3 * b + e5) * (196608 + del0));
    assert(f0 * d1 == -((-f0) * del1)) by (nonlinear_arith)
        requires
            d1 == del1,
    ;
    assert(d0 * d0 == (196608 + del0) * (196608 + del0));
    assert(n0 * s == 65536 * ((3 * a + e4) * (196608 + del0) + f1 * del1));
    assert(n1 * s == 65536 * ((3 * b + e5) * (196608 + del0) + (-f0) * del1));
    assert(den == (196608 + del0) * (196608 + del0) + del1 * del1);
    assert(g0 == -196608 * (a * del0) + 12884901888 * e4 + 65536 * (e4 * del0) - a * (del0
        * del0) + 65536 * (f1 * del1) - a * (del1 * del1));
    assert(-130_000_000_000 <= -196608 * (a * del0) <= 130_000_000_000);
    assert(-181_000_000_000 <= 12884901888 * e4 <= 181_000_000_000);
    assert(-130_000_000_000 <= 65536 * (f1 * del1) <= 130_000_000_000);
    assert(-500_000_000_000 <= g0 <= 500_000_000_000);
    assert(g1 == -196608 * (b * del0) + 12884901888 * e5 + 65536 * (e5 * del0) - b * (del0
        * del0) + 65536 * ((-f0) * del1) - b * (del1 * del1));
    assert(-130_000_000_000 <= -196608 * (b * del0) <= 130_000_000_000);
    assert(-181_000_000_000 <= 12884901888 * e5 <= 181_000_000_000);
    assert(-130_000_000_000 <= 65536 * ((-f0) * del1) <= 130_000_000_000);
    assert(-500_000_000_000 <= g1 <= 500_000_000_000);
    assert(den >= 194637 * 194637) by (nonlinear_arith)
        requires
            d0 >= 194637,
            den == d0 * d0 + d1 * d1,
    ;
    assert((a - 326) * den <= n0 * s < (a + 327) * den) by (nonlinear_arith)
        requires
            g0 == n0 * s - a * den,
            -500_000_000_000 <= g0 <= 500_000_000_000,
            den >= 194637 * 194637,
    ;
    assert((b - 326) * den <= n1 * s < (b + 327) * den) by (nonlinear_arith)
        requires
            g1 == n1 * s - b * den,
            -500_000_000_000 <= g1 <= 500_000_000_000,
            den >= 194637 * 194637,
    ;
    lemma_tdiv_between(n0 * s, den, a - 326, a + 327);
    lemma_tdiv_between(n1 * s, den, b - 326, b + 327);
    assert(in_step_range((x, y)));
    let z1 = newton_step((x, y));
    assert(z1 == (x - tdiv(n0 * s, den), y - tdiv(n1 * s, den)));
    assert(near(z1, root(0)));
    assert(root_index(z1) == 0);
    assert(fx_square((x, y)) != (0int, 0int));
}

/// Expands `FIXED_ONE * n - t * |d|^2` for the Newton quotient near a root,
/// with `n = (3t + e)(3 FIXED_ONE + del) + u * del1` and
/// `d = (3 FIXED_ONE + del, del1)`.
proof fn lemma_quotient_offset(t: int, e: int, del: int, u: int, del1: int)
    ensures
        65536 * ((3 * t + e) * (196608 + del) + u * del1) - t * ((196608 + del) * (196608 + del)
            + del1 * del1) == -196608 * (t * del) + 12884901888 * e + 65536 * (e * del) - t * (
        del * del) + 65536 * (u * del1) - t * (del1 * del1),
{
    assert((3 * t + e) * (196608 + del) == 589824 * t + 3 * (t * del) + 196608 * e + e * del)
        by (nonlinear_arith);
    assert((196608 + del) * (196608 + del) == 38654705664 + 393216 * del + del * del)
        by (nonlinear_arith);
    assert(t * (38654705664 + 393216 * del + del * del + del1 * del1) == 38654705664 * t + 393216
        * (t * del) + t * (del * del) + t * (del1 * del1)) by (nonlinear_arith);
}

/// `z` reflected across the real axis.
pub open spec fn conj(z: (int, int)) -> (int, int) {
    (z.0, -z.1)
}

/// A root-basin outcome with the conjugate roots 1 and 2 exchanged.
pub open spec fn swap_conjugate_roots(outcome: (int, int)) -> (int, int) {
    (
        outcome.0,
        if outcome.1 == 1 {
            2
        } else if outcome.1 == 2 {
            1
        } else {
            outcome.1
        },
    )
}

proof fn lemma_fx_mul_signs(a: int, b: int)
    ensures
        fx_mul(a, -b) == -fx_mul(a, b),
        fx_mul(-a, b) == -fx_mul(a, b),
        fx_mul(-a, -b) == fx_mul(a, b),
{
    assert(a * (-b) == -(a * b)) by (nonlinear_arith);
    assert((-a) * b == -(a * b)) by (nonlinear_arith);
    assert((-a) * (-b) == a * b) by (nonlinear_arith);
    lemma_tdiv_neg(a * b, FIXED_ONE as int);
}

proof fn lemma_square_conj(z: (int, int))
    ensures
        fx_square(conj(z)) == conj(fx_square(z)),
{
    lemma_fx_mul_signs(z.0, z.1);
    lemma_fx_mul_signs(z.1, z.1);
}

/// Every Newton step the rule takes commutes with reflection across the real
/// axis.
proof fn lemma_step_conj(z: (int, int))
    requires
        !(in_step_range(z) && fx_square(z) == (0int, 0int)),
    ensures
        newton_step(conj(z)) == conj(newton_step(z)),
{
    let x = z.0;
    let y = z.1;
    lemma_square_conj(z);
    let sq = fx_square(z);
    if in_step_range(z) {
        lemma_fx_mul_signs(sq.0, y);
        lemma_fx_mul_signs(sq.1, y);
        lemma_fx_mul_signs(sq.1, x);
        let cube = fx_cmul(sq, z);
        assert(fx_cmul(conj(sq), conj(z)) == conj(cube));
        let n = (cube.0 - FIXED_ONE, cube.1);
        let d = (3 * sq.0, 3 * sq.1);
        assert((-d.1) * (-d.1) == d.1 * d.1) by (nonlinear_arith);
        assert(d.0 * d.0 + d.1 * d.1 > 0) by (nonlinear_arith)
            requires
                d.0 != 0 || d.1 != 0,
        ;
        assert(n.0 * d.0 + (-n.1) * (-d.1) == n.0 * d.0 + n.1 * d.1) by (nonlinear_arith);
        assert(((-n.1) * d.0 - n.0 * (-d.1)) * FIXED_ONE == -((n.1 * d.0 - n.0 * d.1)
            * FIXED_ONE)) by (nonlinear_arith);
        lemma_tdiv_neg((n.1 * d.0 - n.0 * d.1) * FIXED_ONE, d.0 * d.0 + d.1 * d.1);
        assert(fx_cdiv(conj(n), conj(d)) == conj(fx_cdiv(n, d)));
        assert(newton_step(conj(z)) == conj(newton_step(z)));
    } else {
        lemma_tdiv_neg(2 * y, 3);
        assert(newton_step(conj(z)) == conj(newton_step(z)));
    }
}

/// Reflection across the real axis exchanges nearness to roots 1 and 2.
proof fn lemma_root_index_conj(z: (int, int))
    ensures
        root_index(conj(z)) == swap_conjugate_roots((0, root_index(z))).1,
{
}

proof fn lemma_newton_from_conj(z: (int, int), iteration: int)
    ensures
        newton_from(conj(z), iteration) == swap_conjugate_roots(newton_from(z, iteration)),
    decreases NEWTON_BUDGET - iteration,
{
    lemma_square_conj(z);
    if iteration < NEWTON_BUDGET && !(in_step_range(z) && fx_square(z) == (0int, 0int)) {
        lemma_step_conj(z);
        lemma_root_index_conj(newton_step(z));
        lemma_newton_from_conj(newton_step(z), iteration + 1);
    }
}

/// The root-basin rule is symmetric under reflection across the real axis:
/// the reflected start takes as many iterations and reaches the conjugate
/// root (roots 1 and 2 exchange; root 1 of `z^3 - 1`, and "no root", stay).
pub proof fn lemma_newton_conjugate_symmetry(x: int, y: int)
    ensures
        newton_outcome(x, -y) == swap_conjugate_roots(newton_outcome(x, y)),
{
    lemma_newton_from_conj((x, y), 1);
}

/// `val` capped at 255.
pub fn clamp_u8(val: usize) -> (r: u8)
    ensures
        r == clamp_byte(val as int),
{
    if val > 255 {
        255
    } else {
        val as u8
    }
}

/// The field that paints every point black.
pub fn invalid_fractal(x: i64, y: i64) -> (c: Color)
    ensures
        c == black(),
{
    Color { r: 0, g: 0, b: 0 }
}

/// Escape-time color of the plane point `(x, y)` (fixed point).
pub fn mandelbrot_set(x: i64, y: i64) -> (color: Color)
    ensures
        color == escape_color(escape_iteration(x as int, y as int)),
{
    let one = FIXED_ONE as i128;
    let two = 2 * one;
    let cr = x as i128;
    let ci = y as i128;
    let ghost c = (cr as int, ci as int);
    if cr > two || cr < -two || ci > two || ci < -two {
        proof {
            assert(escaped(c)) by (nonlinear_arith)
                requires
                    c.0 > 2 * FIXED_ONE || c.0 < -2 * FIXED_ONE || c.1 > 2 * FIXED_ONE || c.1 < -2
                        * FIXED_ONE,
            ;
            assert(square_plus((0, 0), c) == c);
            reveal_with_fuel(escape_from, 2);
        }
        return escape_palette(0);
    }
    let bound = 16 * one;
    let mut zr: i128 = 0;
    let mut zi: i128 = 0;
    let mut t: u32 = 0;
    let mut done = false;
    while t < ESCAPE_BUDGET && !done
        invariant
            c == (cr as int, ci as int),
            c == (x as int, y as int),
            one == FIXED_ONE,
            two == 2 * FIXED_ONE,
            bound == 0x10_0000,
            -two <= cr <= two,
            -two <= ci <= two,
            -bound <= zr <= bound,
            -bound <= zi <= bound,
            t <= ESCAPE_BUDGET,
            !done ==> escape_iteration(x as int, y as int) == escape_from(
                c,
                (zr as int, zi as int),
                t as int,
            ),
            done ==> escape_iteration(x as int, y as int) == if t == 0 {
                0
            } else {
                t - 1
            },
        decreases 2 * (ESCAPE_BUDGET - t) + if done {
            0int
        } else {
            1int
        },
    {
        proof {
            lemma_mul_bounds(zr as int, zr as int, 0x10_0000, 0x10_0000);
            lemma_mul_bounds(zi as int, zi as int, 0x10_0000, 0x10_0000);
        }
        if zr * zr + zi * zi > 4 * one * one {
            done = true;
        } else {
            proof {
                assert(-two <= zr <= two && -two <= zi <= two) by (nonlinear_arith)
                    requires
                        zr * zr + zi * zi <= 4 * one * one,
                        two == 2 * one,
                        one > 0,
                ;
                let lim: int = 0x2_0000;
                lemma_mul_bounds(zr as int, zr as int, lim, lim);
                lemma_mul_bounds(zi as int, zi as int, lim, lim);
                lemma_mul_bounds(zr as int, zi as int, lim, lim);
                lemma_tdiv_shrink(zr * zr, lim * lim, FIXED_ONE as int);
                lemma_tdiv_shrink(zi * zi, lim * lim, FIXED_ONE as int);
                lemma_tdiv_shrink(zr * zi, lim * lim, FIXED_ONE as int);
                assert((lim * lim) / (FIXED_ONE as int) == 0x4_0000);
            }
            let (sr, si) = fixed_square(zr, zi);
            zr = sr + cr;
            zi = si + ci;
            t += 1;
        }
    }
    let i: u32 = if done {
        if t == 0 {
            0
        } else {
            t - 1
        }
    } else {
        proof {
            lemma_mul_bounds(zr as int, zr as int, 0x10_0000, 0x10_0000);
            lemma_mul_bounds(zi as int, zi as int, 0x10_0000, 0x10_0000);
        }
        if zr * zr + zi * zi > 4 * one * one {
            ESCAPE_BUDGET - 1
        } else {
            ESCAPE_BUDGET
        }
    };
    escape_palette(i)
}

/// Root-basin color of the plane point `(x, y)` (fixed point).
pub fn newton_fractal(x: i64, y: i64) -> (color: Color)
    ensures
        color == newton_color(newton_outcome(x as int, y as int)),
{
    let limit = STEP_LIMIT as i128;
    let mut zr = x as i128;
    let mut zi = y as i128;
    let mut iteration: u32 = 1;
    let mut closest: u32 = 3;
    let mut done = false;
    while iteration < NEWTON_BUDGET && !done
        invariant
            limit == STEP_LIMIT,
            1 <= iteration <= NEWTON_BUDGET,
            closest <= 3,
            -0x800_0000_0000_0000_0000_0000_0000 <= zr <= 0x800_0000_0000_0000_0000_0000_0000,
            -0x800_0000_0000_0000_0000_0000_0000 <= zi <= 0x800_0000_0000_0000_0000_0000_0000,
            !done ==> closest == 3 && newton_outcome(x as int, y as int) == newton_from(
                (zr as int, zi as int),
                iteration as int,
            ),
            done ==> newton_outcome(x as int, y as int) == (iteration as int, closest as int),
        decreases 2 * (NEWTON_BUDGET - iteration) + if done {
            0int
        } else {
            1int
        },
    {
        let in_range = -limit <= zr && zr <= limit && -limit <= zi && zi <= limit;
        let mut vanishes = false;
        let mut nr = zr;
        let mut ni = zi;
        if in_range {
            let (sqr, sqi) = fixed_square(zr, zi);
            if sqr == 0 && sqi == 0 {
                vanishes = true;
            } else {
                let (er, ei) = newton_step_fixed(zr, zi, sqr, sqi);
                nr = er;
                ni = ei;
            }
        } else {
            proof {
                lemma_tdiv_shrink(2 * zr, 0x1000_0000_0000_0000_0000_0000_0000, 3);
                lemma_tdiv_shrink(2 * zi, 0x1000_0000_0000_0000_0000_0000_0000, 3);
            }
            nr = trunc_div(2 * zr, 3);
            ni = trunc_div(2 * zi, 3);
        }
        if vanishes {
            done = true;
        } else {
            let k = root_index_fixed(nr, ni);
            if k < 3 {
                closest = k;
                done = true;
            } else {
                iteration += 1;
            }
            zr = nr;
            zi = ni;
        }
    }
    newton_palette(iteration, closest)
}

/// One Newton step from the plane point `z = (zr, zi)` whose fixed-point square
/// `(sqr, sqi)` is not zero.
fn newton_step_fixed(zr: i128, zi: i128, sqr: i128, sqi: i128) -> (r: (i128, i128))
    requires
        in_step_range((zr as int, zi as int)),
        (sqr as int, sqi as int) == fx_square((zr as int, zi as int)),
        -0x20_0000_0000 <= sqr <= 0x20_0000_0000,
        -0x20_0000_0000 <= sqi <= 0x20_0000_0000,
        !(sqr == 0 && sqi == 0),
    ensures
        (r.0 as int, r.1 as int) == exact_step((zr as int, zi as int)),
        -0x800_0000_0000_0000_0000_0000_0000 <= r.0 <= 0x800_0000_0000_0000_0000_0000_0000,
        -0x800_0000_0000_0000_0000_0000_0000 <= r.1 <= 0x800_0000_0000_0000_0000_0000_0000,
{
    let one = FIXED_ONE as i128;
    let ghost sq_bound: int = 0x20_0000_0000;
    let ghost z_bound: int = STEP_LIMIT as int;
    let ghost prod: int = 0x8000_0000_0000_0000;
    proof {
        lemma_mul_bounds(sqr as int, zr as int, sq_bound, z_bound);
        lemma_mul_bounds(sqi as int, zi as int, sq_bound, z_bound);
        lemma_mul_bounds(sqr as int, zi as int, sq_bound, z_bound);
        lemma_mul_bounds(sqi as int, zr as int, sq_bound, z_bound);
        assert(sq_bound * z_bound == prod);
        lemma_tdiv_shrink(sqr * zr, prod, FIXED_ONE as int);
        lemma_tdiv_shrink(sqi * zi, prod, FIXED_ONE as int);
        lemma_tdiv_shrink(sqr * zi, prod, FIXED_ONE as int);
        lemma_tdiv_shrink(sqi * zr, prod, FIXED_ONE as int);
        assert(prod / (FIXED_ONE as int) == 0x8000_0000_0000);
    }
    let cube_r = fixed_mul(sqr, zr) - fixed_mul(sqi, zi);
    let cube_i = fixed_mul(sqr, zi) + fixed_mul(sqi, zr);
    let fr = cube_r - one;
    let fi = cube_i;
    let dr = 3 * sqr;
    let di = 3 * sqi;
    let ghost f_bound: int = 0x2_0000_0000_0000;
    let ghost d_bound: int = 0x80_0000_0000;
    proof {
        lemma_mul_bounds(dr as int, dr as int, d_bound, d_bound);
        lemma_mul_bounds(di as int, di as int, d_bound, d_bound);
        lemma_mul_bounds(fr as int, dr as int, f_bound, d_bound);
        lemma_mul_bounds(fi as int, di as int, f_bound, d_bound);
        lemma_mul_bounds(fi as int, dr as int, f_bound, d_bound);
        lemma_mul_bounds(fr as int, di as int, f_bound, d_bound);
        assert(d_bound * d_bound == 0x4000_0000_0000_0000_0000);
        assert(f_bound * d_bound == 0x100_0000_0000_0000_0000_0000);
        assert(dr * dr + di * di > 0) by (nonlinear_arith)
            requires
                dr != 0 || di != 0,
        ;
    }
    let den = dr * dr + di * di;
    let nr = (fr * dr + fi * di) * one;
    let ni = (fi * dr - fr * di) * one;
    proof {
        lemma_tdiv_shrink(nr as int, 0x200_0000_0000_0000_0000_0000_0000, den as int);
        lemma_tdiv_shrink(ni as int, 0x200_0000_0000_0000_0000_0000_0000, den as int);
    }
    let qr = trunc_div(nr, den);
    let qi = trunc_div(ni, den);
    (zr - qr, zi - qi)
}

/// `|d|` for `|d| <= 2^108`.
fn abs_fixed(d: i128) -> (r: i128)
    requires
        -0x1000_0000_0000_0000_0000_0000_0000 <= d <= 0x1000_0000_0000_0000_0000_0000_0000,
    ensures
        r == abs(d as int),
{
    if d < 0 {
        -d
    } else {
        d
    }
}

fn near_fixed(zr: i128, zi: i128, rr: i128, ri: i128) -> (r: bool)
    requires
        -0x800_0000_0000_0000_0000_0000_0000 <= zr <= 0x800_0000_0000_0000_0000_0000_0000,
        -0x800_0000_0000_0000_0000_0000_0000 <= zi <= 0x800_0000_0000_0000_0000_0000_0000,
        -0x2_0000 <= rr <= 0x2_0000,
        -0x2_0000 <= ri <= 0x2_0000,
    ensures
        r == near((zr as int, zi as int), (rr as int, ri as int)),
{
    let tolerance = NEWTON_TOLERANCE as i128;
    abs_fixed(ri - zi) < tolerance && abs_fixed(rr - zr) < tolerance
}

/// Index of the first root of `z^3 - 1` that `(zr, zi)` is near, or 3.
fn root_index_fixed(zr: i128, zi: i128) -> (r: u32)
    requires
        -0x800_0000_0000_0000_0000_0000_0000 <= zr <= 0x800_0000_0000_0000_0000_0000_0000,
        -0x800_0000_0000_0000_0000_0000_0000 <= zi <= 0x800_0000_0000_0000_0000_0000_0000,
    ensures
        r == root_index((zr as int, zi as int)),
{
    let one = FIXED_ONE as i128;
    let root_im = ROOT_IM as i128;
    if near_fixed(zr, zi, one, 0) {
        0
    } else if near_fixed(zr, zi, -(one / 2), root_im) {
        1
    } else if near_fixed(zr, zi, -(one / 2), -root_im) {
        2
    } else {
        3
    }
}

fn newton_palette(iteration: u32, closest: u32) -> (c: Color)
    requires
        iteration <= NEWTON_BUDGET,
    ensures
        c == newton_color((iteration as int, closest as int)),
{
    assert(iteration * iteration <= 16384) by (nonlinear_arith)
        requires
            iteration <= 128,
    ;
    let shade: u8 = 255 - clamp_u8((iteration * iteration / 4) as usize);
    if closest == 0 {
        Color { r: shade, g: shade, b: 0 }
    } else if closest == 1 {
        Color { r: 0, g: shade, b: shade }
    } else if closest == 2 {
        Color { r: shade, g: shade / 2, b: shade }
    } else {
        Color { r: 0, g: 0, b: 0 }
    }
}

/// Fixed-point square of `(zr, zi)` when `|zr|, |zi| <= 2^26`.
fn fixed_square(zr: i128, zi: i128) -> (r: (i128, i128))
    requires
        -0x400_0000 <= zr <= 0x400_0000,
        -0x400_0000 <= zi <= 0x400_0000,
    ensures
        (r.0 as int, r.1 as int) == fx_square((zr as int, zi as int)),
        -0x20_0000_0000 <= r.0 <= 0x20_0000_0000,
        -0x20_0000_0000 <= r.1 <= 0x20_0000_0000,
{
    let lim: i128 = 0x400_0000;
    proof {
        lemma_mul_bounds(zr as int, zr as int, lim as int, lim as int);
        lemma_mul_bounds(zi as int, zi as int, lim as int, lim as int);
        lemma_mul_bounds(zr as int, zi as int, lim as int, lim as int);
        lemma_tdiv_shrink(zr * zr, lim * lim, FIXED_ONE as int);
        lemma_tdiv_shrink(zi * zi, lim * lim, FIXED_ONE as int);
        lemma_tdiv_shrink(zr * zi, lim * lim, FIXED_ONE as int);
        assert((lim * lim) / (FIXED_ONE as int) == 0x10_0000_0000);
    }
    let a = fixed_mul(zr, zr);
    let b = fixed_mul(zi, zi);
    let p = fixed_mul(zr, zi);
    (a - b, 2 * p)
}

fn escape_palette(i: u32) -> (c: Color)
    requires
        i <= ESCAPE_BUDGET,
    ensures
        c == escape_color(i as int),
{
    assert(i * i <= 10000) by (nonlinear_arith)
        requires
            i <= 100,
    ;
    Color { r: (ESCAPE_BUDGET - i) as u8, g: i as u8, b: clamp_u8((i * i) as usize) }
}

} // verus!
