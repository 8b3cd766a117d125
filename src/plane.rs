use vstd::prelude::*;
use vstd::arithmetic::div_mod::{
    lemma_div_is_ordered,
    lemma_fundamental_div_mod,
    lemma_fundamental_div_mod_converse,
    lemma_mod_bound,
    lemma_mod_pos_bound,
};

verus! {

/// Fixed-point scale of plane coordinates: the plane value `v` is held as the
/// integer `v * FIXED_ONE` (16 fractional bits).
pub const FIXED_ONE: i64 = 65536;

/// Largest magnitude, per coordinate, at which the root-basin rule takes the
/// exact Newton step: 1024 plane units.
pub const STEP_LIMIT: i64 = 67108864;

/// `a / d` rounded toward zero, for a positive divisor: negating `a` negates
/// the quotient.
pub open spec fn tdiv(a: int, d: int) -> int {
    if a >= 0 {
        a / d
    } else {
        -((-a) / d)
    }
}

/// Product of two fixed-point values, rounded toward zero.
pub open spec fn fx_mul(a: int, b: int) -> int {
    tdiv(a * b, FIXED_ONE as int)
}

/// `v` saturated to the range of `i64`.
pub open spec fn saturate(v: int) -> i64 {
    if v < i64::MIN {
        i64::MIN
    } else if v > i64::MAX {
        i64::MAX
    } else {
        v as i64
    }
}

/// Plane coordinate, in fixed point, of pixel coordinate `p` under the view
/// offset `shift` and magnification `zoom` (both fixed point):
/// `(p - shift) / zoom`, rounded down; saturated at the range of `i64`.
pub open spec fn rescale_axis(p: int, shift: int, zoom: int) -> i64 {
    saturate(((p * FIXED_ONE - shift) * FIXED_ONE) / zoom)
}

/// `a / d` rounded down, for a positive divisor and a dividend of either sign.
pub fn floor_div(a: i128, d: i128) -> (r: i128)
    requires
        d > 0,
        a > i128::MIN,
    ensures
        r == a / d,
{
    if a >= 0 {
        (a as u128 / d as u128) as i128
    } else {
        let m: i128 = -a - 1;
        let q = (m as u128 / d as u128) as i128;
        proof {
            lemma_fundamental_div_mod(m as int, d as int);
            lemma_mod_pos_bound(m as int, d as int);
            let rem = m as int % d as int;
            assert(a == (-q - 1) * d + (d - rem - 1)) by (nonlinear_arith)
                requires
                    m == d * q + rem,
                    a == -m - 1,
            ;
            lemma_fundamental_div_mod_converse(a as int, d as int, -q - 1, d - rem - 1);
        }
        -q - 1
    }
}

/// `a / d` rounded toward zero, for a positive divisor.
pub fn trunc_div(a: i128, d: i128) -> (r: i128)
    requires
        d > 0,
        a > i128::MIN,
    ensures
        r == tdiv(a as int, d as int),
{
    if a >= 0 {
        (a as u128 / d as u128) as i128
    } else {
        -(((-a) as u128 / d as u128) as i128)
    }
}

/// Negating the dividend negates a quotient rounded toward zero.
pub proof fn lemma_tdiv_neg(a: int, d: int)
    requires
        d > 0,
    ensures
        tdiv(-a, d) == -tdiv(a, d),
{
    if a == 0 {
        lemma_div_between(0, d, 0, 1);
    }
}

/// A quotient rounded toward zero by a divisor of at least one is bounded by
/// `bound / d`, itself no larger than `bound`.
pub proof fn lemma_tdiv_shrink(a: int, bound: int, d: int)
    requires
        -bound <= a <= bound,
        d >= 1,
    ensures
        -(bound / d) <= tdiv(a, d) <= bound / d,
        bound / d <= bound,
{
    lemma_div_shrinks(bound, bound, d);
    lemma_div_between(0, d, 0, 1);
    if a >= 0 {
        lemma_div_bounds(a, 0, bound, d);
    } else {
        lemma_div_bounds(-a, 0, bound, d);
    }
}

/// A quotient rounded toward zero lies in `[lo, hi]` when the dividend lies in
/// `[lo * d, hi * d)`.
pub proof fn lemma_tdiv_between(p: int, d: int, lo: int, hi: int)
    requires
        d > 0,
        lo * d <= p,
        p < hi * d,
    ensures
        lo <= tdiv(p, d) <= hi,
{
    if p >= 0 {
        lemma_div_between(p, d, lo, hi);
    } else {
        assert(-hi * d <= -p < (-lo + 1) * d) by (nonlinear_arith)
            requires
                lo * d <= p,
                p < hi * d,
                d > 0,
        ;
        lemma_div_between(-p, d, -hi, -lo + 1);
    }
}

/// Bounds of a product of two bounded values.
pub proof fn lemma_mul_bounds(a: int, b: int, ba: int, bb: int)
    requires
        -ba <= a <= ba,
        -bb <= b <= bb,
    ensures
        -(ba * bb) <= a * b <= ba * bb,
{
    assert(-(ba * bb) <= a * b <= ba * bb) by (nonlinear_arith)
        requires
            -ba <= a <= ba,
            -bb <= b <= bb,
    ;
}

/// A quotient by a positive divisor stays between the quotients of the bounds.
pub proof fn lemma_div_bounds(a: int, lo: int, hi: int, d: int)
    requires
        lo <= a <= hi,
        d > 0,
    ensures
        lo / d <= a / d <= hi / d,
{
    lemma_div_is_ordered(lo, a, d);
    lemma_div_is_ordered(a, hi, d);
}

/// A quotient rounded down lies in `[lo, hi)` when the dividend lies in
/// `[lo * d, hi * d)`.
pub proof fn lemma_div_between(p: int, d: int, lo: int, hi: int)
    requires
        d > 0,
        lo * d <= p,
        p < hi * d,
    ensures
        lo <= p / d < hi,
{
    lemma_fundamental_div_mod(p, d);
    lemma_mod_bound(p, d);
    let q = p / d;
    let r = p % d;
    assert(lo <= q < hi) by (nonlinear_arith)
        requires
            p == d * q + r,
            0 <= r < d,
            lo * d <= p,
            p < hi * d,
            d > 0,
    ;
}

/// A quotient by a divisor of at least one is no larger in magnitude than the
/// dividend.
pub proof fn lemma_div_shrinks(a: int, bound: int, d: int)
    requires
        -bound <= a <= bound,
        d >= 1,
    ensures
        -bound <= a / d <= bound,
{
    lemma_div_bounds(a, -bound, bound, d);
    lemma_fundamental_div_mod(bound, d);
    lemma_fundamental_div_mod(-bound, d);
    assert(bound / d <= bound) by (nonlinear_arith)
        requires
            bound == d * (bound / d) + bound % d,
            0 <= bound % d < d,
            d >= 1,
            bound >= 0,
    ;
    assert((-bound) / d >= -bound) by (nonlinear_arith)
        requires
            -bound == d * ((-bound) / d) + (-bound) % d,
            0 <= (-bound) % d < d,
            d >= 1,
            bound >= 0,
    ;
}

/// Fixed-point product of two values bounded by `2^50`, rounded toward zero.
pub fn fixed_mul(a: i128, b: i128) -> (r: i128)
    requires
        -0x4_0000_0000_0000 <= a <= 0x4_0000_0000_0000,
        -0x4_0000_0000_0000 <= b <= 0x4_0000_0000_0000,
    ensures
        r == fx_mul(a as int, b as int),
{
    proof {
        lemma_mul_bounds(a as int, b as int, 0x4_0000_0000_0000, 0x4_0000_0000_0000);
    }
    trunc_div(a * b, FIXED_ONE as i128)
}

/// Plane coordinates of pixel `point = (x, y)` under the view `shift` and `zoom`,
/// each axis by `rescale_axis`.
pub fn rescale(point: (usize, usize), shift: (i64, i64), zoom: i64) -> (r: (i64, i64))
    requires
        zoom > 0,
    ensures
        r.0 == rescale_axis(point.0 as int, shift.0 as int, zoom as int),
        r.1 == rescale_axis(point.1 as int, shift.1 as int, zoom as int),
{
    (rescale_one(point.0, shift.0, zoom), rescale_one(point.1, shift.1, zoom))
}

fn rescale_one(p: usize, shift: i64, zoom: i64) -> (r: i64)
    requires
        zoom > 0,
    ensures
        r == rescale_axis(p as int, shift as int, zoom as int),
{
    let one = FIXED_ONE as i128;
    assert(p as int * FIXED_ONE <= 0x1_0000_0000_0000_0000 * FIXED_ONE) by (nonlinear_arith)
        requires
            p <= 0x1_0000_0000_0000_0000int,
    ;
    let offset: i128 = p as i128 * one - shift as i128;
    let q = floor_div(offset * one, zoom as i128);
    if q < i64::MIN as i128 {
        i64::MIN
    } else if q > i64::MAX as i128 {
        i64::MAX
    } else {
        q as i64
    }
}

/// Row-major byte offset of pixel `(row, col)` in an RGBA buffer `size` pixels wide.
pub fn translate_coordinates(row: usize, col: usize, size: usize) -> (r: usize)
    requires
        (row * size + col) * 4 <= usize::MAX,
    ensures
        r == (row * size + col) * 4,
{
    assert(row * size <= row * size + col) by (nonlinear_arith)
        requires
            col >= 0,
    ;
    assert(0 <= row * size) by (nonlinear_arith)
        requires
            row >= 0,
            size >= 0,
    ;
    (row * size + col) * 4
}

} // verus!
