//! Whole-number geometry of the board: points, rounded-down Euclidean
//! distances and the exact test for a straight walk that heads onto a point.

use vstd::prelude::*;

verus! {

/// A point of the board, as `(x, y)`.
#[derive(Clone, Copy, Debug, PartialEq, Eq, Structural)]
pub struct Position(pub i32, pub i32);

/// `r` is the square root of `n`, rounded down.
pub open spec fn is_floor_sqrt(n: int, r: int) -> bool {
    0 <= r && r * r <= n < (r + 1) * (r + 1)
}

/// The square root of `n`, rounded down.
pub open spec fn floor_sqrt(n: int) -> int {
    choose|r: int| is_floor_sqrt(n, r)
}

/// Every natural number has a rounded-down square root.
pub proof fn lemma_floor_sqrt_exists(n: int)
    requires
        0 <= n,
    ensures
        is_floor_sqrt(n, floor_sqrt(n)),
    decreases n,
{
    if n == 0 {
        assert(is_floor_sqrt(0, 0));
    } else {
        lemma_floor_sqrt_exists(n - 1);
        let r = floor_sqrt(n - 1);
        if (r + 1) * (r + 1) <= n {
            assert((r + 2) * (r + 2) > (r + 1) * (r + 1)) by (nonlinear_arith)
                requires
                    0 <= r,
            ;
            assert(is_floor_sqrt(n, r + 1));
        } else {
            assert(is_floor_sqrt(n, r));
        }
    }
}

/// The rounded-down square root is the only number between whose square and
/// whose successor's square `n` lies.
pub proof fn lemma_floor_sqrt_unique(n: int, r: int)
    requires
        is_floor_sqrt(n, r),
    ensures
        floor_sqrt(n) == r,
{
    let s = floor_sqrt(n);
    assert(is_floor_sqrt(n, s));
    assert(s == r) by (nonlinear_arith)
        requires
            0 <= r,
            0 <= s,
            r * r <= n < (r + 1) * (r + 1),
            s * s <= n < (s + 1) * (s + 1),
    ;
}

/// Square root of `n`, rounded down, by bisection.
pub fn integer_sqrt(n: u128) -> (root: u64)
    ensures
        is_floor_sqrt(n as int, root as int),
        root == floor_sqrt(n as int),
{
    let mut low: u128 = 0;
    let mut high: u128 = 0x1_0000_0000_0000_0000;
    while high - low > 1
        invariant
            low < high <= 0x1_0000_0000_0000_0000,
            low * low <= n < high * high,
        decreases high - low,
    {
        let middle: u128 = low + (high - low) / 2;
        assert(middle * middle <= u128::MAX) by (nonlinear_arith)
            requires
                middle <= 0xffff_ffff_ffff_ffff,
        ;
        if middle * middle <= n {
            low = middle;
        } else {
            high = middle;
        }
    }
    proof {
        lemma_floor_sqrt_unique(n as int, low as int);
    }
    low as u64
}

/// Length of the hypotenuse over the legs `a` and `b`, rounded down.
pub open spec fn hypotenuse(a: int, b: int) -> int {
    floor_sqrt(a * a + b * b)
}

/// Straight-line distance between two points, rounded down.
pub open spec fn radial_distance(a: Position, b: Position) -> int {
    hypotenuse(a.0 - b.0, a.1 - b.1)
}

/// The greatest distance between two points that coordinates can name.
pub const MAX_DISTANCE: u64 = 6_074_000_998;

/// A hypotenuse is the rounded-down root of the legs' squares, is never
/// shorter than either leg, and does not depend on the legs' signs or
/// order.
pub proof fn lemma_hypotenuse_bounds(a: int, b: int)
    ensures
        is_floor_sqrt(a * a + b * b, hypotenuse(a, b)),
        hypotenuse(a, b) >= a,
        hypotenuse(a, b) >= -a,
        hypotenuse(a, b) >= b,
        hypotenuse(a, b) >= -b,
        hypotenuse(a, b) == hypotenuse(b, a),
        hypotenuse(a, b) == hypotenuse(-a, b),
        hypotenuse(a, b) == hypotenuse(a, -b),
{
    let n = a * a + b * b;
    assert(0 <= a * a && 0 <= b * b) by (nonlinear_arith);
    lemma_floor_sqrt_exists(n);
    let r = floor_sqrt(n);
    assert(r >= a && r >= -a && r >= b && r >= -b) by (nonlinear_arith)
        requires
            0 <= r,
            n < (r + 1) * (r + 1),
            n == a * a + b * b,
    ;
    assert(b * b + a * a == n);
    assert((-a) * (-a) == a * a) by (nonlinear_arith);
    assert((-b) * (-b) == b * b) by (nonlinear_arith);
}

/// Length of the hypotenuse of a right triangle with legs `a` and `b`,
/// rounded down. The squares are taken in 128 bits, so that no pair of legs
/// overflows.
pub fn pythagorean_theorem(a: i64, b: i64) -> (length: u64)
    ensures
        length == hypotenuse(a as int, b as int),
        is_floor_sqrt(a * a + b * b, length as int),
{
    let wide_a: i128 = a as i128;
    let wide_b: i128 = b as i128;
    assert(0 <= wide_a * wide_a <= 0x4000_0000_0000_0000_0000_0000_0000_0000) by (nonlinear_arith)
        requires
            -0x8000_0000_0000_0000 <= wide_a <= 0x8000_0000_0000_0000,
    ;
    assert(0 <= wide_b * wide_b <= 0x4000_0000_0000_0000_0000_0000_0000_0000) by (nonlinear_arith)
        requires
            -0x8000_0000_0000_0000 <= wide_b <= 0x8000_0000_0000_0000,
    ;
    let square_a: u128 = (wide_a * wide_a) as u128;
    let square_b: u128 = (wide_b * wide_b) as u128;
    integer_sqrt(square_a + square_b)
}

/// Straight-line distance between `a` and `b`, rounded down.
pub fn distance(a: Position, b: Position) -> (length: u64)
    ensures
        length == radial_distance(a, b),
        length <= MAX_DISTANCE,
{
    proof {
        lemma_radial_distance_bounded(a, b);
    }
    pythagorean_theorem(a.0 as i64 - b.0 as i64, a.1 as i64 - b.1 as i64)
}

/// No two points are farther apart than the corners of the plane that
/// coordinates can name.
pub proof fn lemma_radial_distance_bounded(a: Position, b: Position)
    ensures
        0 <= radial_distance(a, b) <= MAX_DISTANCE,
{
    let dx = a.0 - b.0;
    let dy = a.1 - b.1;
    lemma_hypotenuse_bounds(dx, dy);
    let r = radial_distance(a, b);
    assert(r <= 6_074_000_998) by (nonlinear_arith)
        requires
            0 <= r,
            r * r <= dx * dx + dy * dy,
            -0xffff_ffff <= dx <= 0xffff_ffff,
            -0xffff_ffff <= dy <= 0xffff_ffff,
    ;
}

/// The distance from `a` to `b` is the distance from `b` to `a`.
pub proof fn lemma_distance_symmetric(a: Position, b: Position)
    ensures
        radial_distance(a, b) == radial_distance(b, a),
{
    let dx = a.0 - b.0;
    let dy = a.1 - b.1;
    lemma_hypotenuse_bounds(dx, dy);
    lemma_hypotenuse_bounds(-dx, dy);
    assert(hypotenuse(dx, dy) == hypotenuse(-dx, -dy));
}

/// A point is at distance zero from itself.
pub proof fn lemma_distance_to_self(a: Position)
    ensures
        radial_distance(a, a) == 0,
{
    assert(is_floor_sqrt(0, 0));
    lemma_floor_sqrt_unique(0, 0);
}

/// A walker who steps from `from` to `next` is walking straight at `target`:
/// the step and the rest of the way to `target` point in the same direction.
/// The cross product of the two vectors is zero (they are parallel) and
/// their dot product is not negative (they are not opposed). This is the
/// exact form of `|target - next| + |next - from| == |target - from|`.
pub open spec fn on_course(from: Position, next: Position, target: Position) -> bool {
    let step_x = next.0 - from.0;
    let step_y = next.1 - from.1;
    let rest_x = target.0 - next.0;
    let rest_y = target.1 - next.1;
    step_x * rest_y - step_y * rest_x == 0 && step_x * rest_x + step_y * rest_y >= 0
}

/// Whether a walker who steps from `from` to `next` is walking straight at
/// `target`. Exact: the products are taken in 128 bits.
pub fn is_on_course(from: Position, next: Position, target: Position) -> (heading: bool)
    ensures
        heading == on_course(from, next, target),
{
    let step_x: i128 = next.0 as i128 - from.0 as i128;
    let step_y: i128 = next.1 as i128 - from.1 as i128;
    let rest_x: i128 = target.0 as i128 - next.0 as i128;
    let rest_y: i128 = target.1 as i128 - next.1 as i128;
    proof {
        lemma_product_bounded(step_x as int, rest_y as int);
        lemma_product_bounded(step_y as int, rest_x as int);
        lemma_product_bounded(step_x as int, rest_x as int);
        lemma_product_bounded(step_y as int, rest_y as int);
    }
    let cross: i128 = step_x * rest_y - step_y * rest_x;
    let dot: i128 = step_x * rest_x + step_y * rest_y;
    cross == 0 && dot >= 0
}

/// The product of two coordinate differences fits in 65 bits.
proof fn lemma_product_bounded(a: int, b: int)
    requires
        -0x1_0000_0000 < a < 0x1_0000_0000,
        -0x1_0000_0000 < b < 0x1_0000_0000,
    ensures
        -0x1_0000_0000_0000_0000 < a * b < 0x1_0000_0000_0000_0000,
{
    assert(-0x1_0000_0000_0000_0000 < a * b < 0x1_0000_0000_0000_0000) by (nonlinear_arith)
        requires
            -0x1_0000_0000 < a < 0x1_0000_0000,
            -0x1_0000_0000 < b < 0x1_0000_0000,
    ;
}

/// An equation between two products stays true when both sides are
/// multiplied by `c`.
proof fn lemma_scaled_equation(n: int, a: int, m: int, b: int, c: int)
    requires
        n * a == m * b,
    ensures
        n * (a * c) == m * (b * c),
{
    assert(n * (a * c) == (n * a) * c) by (nonlinear_arith);
    assert(m * (b * c) == (m * b) * c) by (nonlinear_arith);
}

/// `p` is the point `a + (m / n) * (b - a)`, a fraction `m / n` of the way
/// from `a` to `b`.
pub open spec fn divides_segment(a: Position, b: Position, p: Position, m: int, n: int) -> bool {
    &&& 0 <= m <= n
    &&& 0 < n
    &&& n * (p.0 - a.0) == m * (b.0 - a.0)
    &&& n * (p.1 - a.1) == m * (b.1 - a.1)
}

/// `p` lies on the straight segment from `a` to `b`, ends included.
pub open spec fn on_segment(a: Position, b: Position, p: Position) -> bool {
    exists|m: int, n: int| divides_segment(a, b, p, m, n)
}

/// A step from `from` to `next` heads straight at `target` exactly when
/// `next` lies on the segment from `from` to `target`.
pub proof fn lemma_on_course_iff_on_segment(from: Position, next: Position, target: Position)
    ensures
        on_course(from, next, target) <==> on_segment(from, target, next),
{
    let ux = next.0 - from.0;
    let uy = next.1 - from.1;
    let wx = target.0 - from.0;
    let wy = target.1 - from.1;
    let vx = target.0 - next.0;
    let vy = target.1 - next.1;
    assert(ux * vy - uy * vx == ux * wy - uy * wx) by (nonlinear_arith)
        requires
            vx == wx - ux,
            vy == wy - uy,
    ;
    assert(ux * vx + uy * vy == (ux * wx + uy * wy) - (ux * ux + uy * uy)) by (nonlinear_arith)
        requires
            vx == wx - ux,
            vy == wy - uy,
    ;
    if on_course(from, next, target) {
        let n = wx * wx + wy * wy;
        let m = ux * wx + uy * wy;
        let uu = ux * ux + uy * uy;
        assert(0 <= uu && 0 <= n) by (nonlinear_arith)
            requires
                uu == ux * ux + uy * uy,
                n == wx * wx + wy * wy,
        ;
        if n == 0 {
            assert(wx == 0 && wy == 0) by (nonlinear_arith)
                requires
                    wx * wx + wy * wy == 0,
            ;
            assert(m == 0) by (nonlinear_arith)
                requires
                    m == ux * wx + uy * wy,
                    wx == 0,
                    wy == 0,
            ;
            assert(ux == 0 && uy == 0) by (nonlinear_arith)
                requires
                    ux * ux + uy * uy <= 0,
            ;
            assert(divides_segment(from, target, next, 0, 1));
        } else {
            assert(n * ux == m * wx && n * uy == m * wy) by (nonlinear_arith)
                requires
                    ux * wy - uy * wx == 0,
                    n == wx * wx + wy * wy,
                    m == ux * wx + uy * wy,
            ;
            lemma_scaled_equation(n, ux, m, wx, ux);
            lemma_scaled_equation(n, uy, m, wy, uy);
            assert(uu * n == m * m) by (nonlinear_arith)
                requires
                    n * (ux * ux) == m * (wx * ux),
                    n * (uy * uy) == m * (wy * uy),
                    m == ux * wx + uy * wy,
                    uu == ux * ux + uy * uy,
            ;
            assert(m <= n) by (nonlinear_arith)
                requires
                    uu * n == m * m,
                    0 <= uu <= m,
                    0 < n,
            ;
            assert(divides_segment(from, target, next, m, n));
        }
    }
    if on_segment(from, target, next) {
        let (m, n) = choose|m: int, n: int| divides_segment(from, target, next, m, n);
        assert(divides_segment(from, target, next, m, n));
        assert(n * (ux * wy - uy * wx) == 0) by (nonlinear_arith)
            requires
                n * ux == m * wx,
                n * uy == m * wy,
        ;
        assert(ux * wy - uy * wx == 0) by (nonlinear_arith)
            requires
                n * (ux * wy - uy * wx) == 0,
                0 < n,
        ;
        let ww = wx * wx + wy * wy;
        let uu = ux * ux + uy * uy;
        let d = ux * wx + uy * wy;
        lemma_scaled_equation(n, ux, m, wx, wx);
        lemma_scaled_equation(n, uy, m, wy, wy);
        lemma_scaled_equation(n, ux, m, wx, ux);
        lemma_scaled_equation(n, uy, m, wy, uy);
        assert(n * d == m * ww && n * uu == m * d) by (nonlinear_arith)
            requires
                n * (ux * wx) == m * (wx * wx),
                n * (uy * wy) == m * (wy * wy),
                n * (ux * ux) == m * (wx * ux),
                n * (uy * uy) == m * (wy * uy),
                ww == wx * wx + wy * wy,
                uu == ux * ux + uy * uy,
                d == ux * wx + uy * wy,
        ;
        assert(0 <= d) by (nonlinear_arith)
            requires
                n * d == m * ww,
                ww == wx * wx + wy * wy,
                0 <= m,
                0 < n,
        ;
        assert(uu <= d) by (nonlinear_arith)
            requires
                n * uu == m * d,
                0 <= d,
                0 <= m <= n,
                0 < n,
        ;
    }
}

/// The square of the straight-line distance between two points.
pub open spec fn squared_distance(a: Position, b: Position) -> int {
    (a.0 - b.0) * (a.0 - b.0) + (a.1 - b.1) * (a.1 - b.1)
}

/// Two lengths add up to a third, each length given by its square. For
/// lengths `a`, `b` and `c` that are not negative, `a + b == c` says that
/// `c * c - a * a - b * b` is `2 * a * b`: not negative, and with the square
/// `4 * (a * a) * (b * b)`.
pub open spec fn lengths_add_up(first_squared: int, second_squared: int, sum_squared: int) -> bool {
    let twice_product = sum_squared - first_squared - second_squared;
    twice_product >= 0 && twice_product * twice_product == 4 * (first_squared * second_squared)
}

/// The squares of two vectors' lengths multiply to the square of their dot
/// product plus the square of their cross product.
proof fn lemma_dot_and_cross(ux: int, uy: int, vx: int, vy: int)
    ensures
        (ux * ux + uy * uy) * (vx * vx + vy * vy) == (ux * vx + uy * vy) * (ux * vx + uy * vy) + (
        ux * vy - uy * vx) * (ux * vy - uy * vx),
{
    let p = ux * vx;
    let q = uy * vy;
    let r = ux * vy;
    let s = uy * vx;
    assert((ux * ux) * (vx * vx) == p * p) by (nonlinear_arith)
        requires
            p == ux * vx,
    ;
    assert((uy * uy) * (vy * vy) == q * q) by (nonlinear_arith)
        requires
            q == uy * vy,
    ;
    assert((ux * ux) * (vy * vy) == r * r) by (nonlinear_arith)
        requires
            r == ux * vy,
    ;
    assert((uy * uy) * (vx * vx) == s * s) by (nonlinear_arith)
        requires
            s == uy * vx,
    ;
    assert(p * q == r * s) by (nonlinear_arith)
        requires
            p == ux * vx,
            q == uy * vy,
            r == ux * vy,
            s == uy * vx,
    ;
    let uu_x = ux * ux;
    let uu_y = uy * uy;
    let vv_x = vx * vx;
    let vv_y = vy * vy;
    assert((uu_x + uu_y) * (vv_x + vv_y) == uu_x * vv_x + uu_x * vv_y + uu_y * vv_x + uu_y
        * vv_y) by (nonlinear_arith);
    assert((p + q) * (p + q) + (r - s) * (r - s) == p * p + q * q + r * r + s * s + 2 * (p * q)
        - 2 * (r * s)) by (nonlinear_arith);
}

/// A step from `from` to `next` heads straight at `target` exactly when the
/// distance from `from` to `next` and the distance from `next` to `target`
/// add up to the distance from `from` to `target`, the three taken exactly
/// and not rounded.
pub proof fn lemma_on_course_iff_distances_add_up(from: Position, next: Position, target: Position)
    ensures
        on_course(from, next, target) <==> lengths_add_up(
            squared_distance(next, target),
            squared_distance(from, next),
            squared_distance(from, target),
        ),
{
    let ux = next.0 - from.0;
    let uy = next.1 - from.1;
    let vx = target.0 - next.0;
    let vy = target.1 - next.1;
    let dot = ux * vx + uy * vy;
    let cross = ux * vy - uy * vx;
    let rest = squared_distance(next, target);
    let step = squared_distance(from, next);
    let whole = squared_distance(from, target);
    assert(rest == vx * vx + vy * vy) by (nonlinear_arith)
        requires
            rest == (next.0 - target.0) * (next.0 - target.0) + (next.1 - target.1) * (next.1
                - target.1),
            vx == target.0 - next.0,
            vy == target.1 - next.1,
    ;
    assert(step == ux * ux + uy * uy) by (nonlinear_arith)
        requires
            step == (from.0 - next.0) * (from.0 - next.0) + (from.1 - next.1) * (from.1 - next.1),
            ux == next.0 - from.0,
            uy == next.1 - from.1,
    ;
    assert(whole == (ux + vx) * (ux + vx) + (uy + vy) * (uy + vy)) by (nonlinear_arith)
        requires
            whole == (from.0 - target.0) * (from.0 - target.0) + (from.1 - target.1) * (from.1
                - target.1),
            ux + vx == target.0 - from.0,
            uy + vy == target.1 - from.1,
    ;
    assert(whole - rest - step == 2 * dot) by (nonlinear_arith)
        requires
            whole == (ux + vx) * (ux + vx) + (uy + vy) * (uy + vy),
            rest == vx * vx + vy * vy,
            step == ux * ux + uy * uy,
            dot == ux * vx + uy * vy,
    ;
    lemma_dot_and_cross(ux, uy, vx, vy);
    assert(step * rest == dot * dot + cross * cross);
    assert((2 * dot) * (2 * dot) == 4 * (dot * dot)) by (nonlinear_arith);
    assert(cross * cross == 0 <==> cross == 0) by (nonlinear_arith);
    assert(rest * step == step * rest) by (nonlinear_arith);
}

} // verus!
