//! The Sierpinski gasket by recursive midpoint subdivision of a triangle.

use vstd::prelude::*;
use vstd::arithmetic::div_mod::{lemma_fundamental_div_mod, lemma_mod_multiples_basic};
use vstd::arithmetic::power::{pow, lemma_pow0, lemma_pow_positive, lemma_pow_increases};
use vstd::arithmetic::power2::{pow2, lemma_pow2_pos, lemma_pow2_unfold, lemma_pow2_strictly_increases, lemma2_to64};
use crate::error::ParameterError;
use crate::point::{
    lemma_half_sum_doubled,
    lemma_halfway_within_box,
    lemma_in_the_plane,
    half_sum,
    same_parity,
    within_box,
    GridPoint,
    Point2,
};

verus! {

/// The deepest subdivision that is generated: the last whose point count is
/// within `MAX_POINTS`.
pub const MAX_DEPTH: u32 = 18;

/// The most points a triangle list may hold: the largest signed 32-bit count.
pub const MAX_POINTS: u32 = 2147483647;

/// Number of points in the triangle list of the given depth: three corners
/// for each of the `3^depth` triangles.
pub open spec fn point_count(depth: nat) -> nat {
    (3 * pow(3, depth)) as nat
}

/// The triangle list of the gasket of triangle `a`, `b`, `c`.
///
/// At depth zero it is the triangle itself. Deeper, the triangle is cut at
/// its edge midpoints into four, the middle one is left out, and the lists of
/// the three corner triangles follow one another: the one at `a`, the one at
/// `b`, the one at `c`.
pub open spec fn gasket(a: Point2, b: Point2, c: Point2, depth: nat) -> Seq<Point2>
    decreases depth,
{
    if depth == 0 {
        seq![a, b, c]
    } else {
        let ab = a.halfway(b);
        let ac = a.halfway(c);
        let bc = b.halfway(c);
        let below = (depth - 1) as nat;
        gasket(a, ab, ac, below) + gasket(ab, b, bc, below) + gasket(bc, ac, c, below)
    }
}

/// Unfolds `point_count` by one level.
pub proof fn lemma_point_count_step(depth: nat)
    ensures
        point_count(0) == 3,
        point_count(depth + 1) == 3 * point_count(depth),
        point_count(depth) >= 3,
{
    reveal(pow);
    lemma_pow0(3);
    lemma_pow_positive(3, depth);
}

/// A gasket of depth `depth` has exactly `3 * 3^depth` points.
pub proof fn lemma_gasket_len(a: Point2, b: Point2, c: Point2, depth: nat)
    ensures
        gasket(a, b, c, depth).len() == point_count(depth),
    decreases depth,
{
    if depth == 0 {
        lemma_point_count_step(0);
    } else {
        let ab = a.halfway(b);
        let ac = a.halfway(c);
        let bc = b.halfway(c);
        let below = (depth - 1) as nat;
        lemma_gasket_len(a, ab, ac, below);
        lemma_gasket_len(ab, b, bc, below);
        lemma_gasket_len(bc, ac, c, below);
        lemma_point_count_step(below);
    }
}

/// Below depth zero a gasket falls into three equal parts: the gaskets, one
/// level less deep, of the corner triangles at `a`, at `b` and at `c`.
pub proof fn lemma_gasket_thirds(a: Point2, b: Point2, c: Point2, depth: nat)
    requires
        depth > 0,
    ensures
        gasket(a, b, c, depth) == gasket(a, a.halfway(b), a.halfway(c), (depth - 1) as nat)
            + gasket(a.halfway(b), b, b.halfway(c), (depth - 1) as nat) + gasket(
            b.halfway(c),
            a.halfway(c),
            c,
            (depth - 1) as nat,
        ),
        gasket(a, a.halfway(b), a.halfway(c), (depth - 1) as nat).len() * 3 == point_count(depth),
        gasket(a.halfway(b), b, b.halfway(c), (depth - 1) as nat).len() * 3 == point_count(depth),
        gasket(b.halfway(c), a.halfway(c), c, (depth - 1) as nat).len() * 3 == point_count(depth),
{
    let below = (depth - 1) as nat;
    lemma_gasket_len(a, a.halfway(b), a.halfway(c), below);
    lemma_gasket_len(a.halfway(b), b, b.halfway(c), below);
    lemma_gasket_len(b.halfway(c), a.halfway(c), c, below);
    lemma_point_count_step(below);
}

/// The point count fits a signed 32-bit count exactly up to `MAX_DEPTH`.
pub proof fn lemma_depth_guard(depth: nat)
    ensures
        point_count(depth) <= MAX_POINTS <==> depth <= MAX_DEPTH,
{
    assert(pow(3, 18) == 387420489) by {
        reveal_with_fuel(pow, 19);
    }
    assert(pow(3, 19) == 1162261467) by {
        reveal(pow);
    }
    lemma_pow_positive(3, depth);
    if depth <= 18 {
        lemma_pow_increases(3, depth, 18);
    } else {
        lemma_pow_increases(3, 19, depth);
    }
}

/// The least corner of the box around `a`, `b` and `c`.
pub open spec fn box_low(a: Point2, b: Point2, c: Point2) -> Point2 {
    Point2 {
        x: if a.x <= b.x && a.x <= c.x {
            a.x
        } else if b.x <= c.x {
            b.x
        } else {
            c.x
        },
        y: if a.y <= b.y && a.y <= c.y {
            a.y
        } else if b.y <= c.y {
            b.y
        } else {
            c.y
        },
    }
}

/// The greatest corner of the box around `a`, `b` and `c`.
pub open spec fn box_high(a: Point2, b: Point2, c: Point2) -> Point2 {
    Point2 {
        x: if a.x >= b.x && a.x >= c.x {
            a.x
        } else if b.x >= c.x {
            b.x
        } else {
            c.x
        },
        y: if a.y >= b.y && a.y >= c.y {
            a.y
        } else if b.y >= c.y {
            b.y
        } else {
            c.y
        },
    }
}

/// Rounded or not, no point of a gasket leaves a box that holds the three
/// corners.
pub proof fn lemma_gasket_within_box(
    a: Point2,
    b: Point2,
    c: Point2,
    depth: nat,
    low: Point2,
    high: Point2,
    i: int,
)
    requires
        within_box(a, low, high),
        within_box(b, low, high),
        within_box(c, low, high),
        0 <= i < point_count(depth),
    ensures
        within_box(gasket(a, b, c, depth)[i], low, high),
    decreases depth,
{
    if depth == 0 {
        lemma_point_count_step(0);
    } else {
        let below = (depth - 1) as nat;
        let ab = a.halfway(b);
        let ac = a.halfway(c);
        let bc = b.halfway(c);
        lemma_halfway_within_box(a, b, low, high);
        lemma_halfway_within_box(a, c, low, high);
        lemma_halfway_within_box(b, c, low, high);
        lemma_point_count_step(below);
        lemma_gasket_len(a, ab, ac, below);
        lemma_gasket_len(ab, b, bc, below);
        lemma_gasket_len(bc, ac, c, below);
        let third = point_count(below) as int;
        if i < third {
            lemma_gasket_within_box(a, ab, ac, below, low, high, i);
        } else if i < 2 * third {
            lemma_gasket_within_box(ab, b, bc, below, low, high, i - third);
        } else {
            lemma_gasket_within_box(bc, ac, c, below, low, high, i - 2 * third);
        }
    }
}

/// No midpoint that the gasket of `a`, `b`, `c` takes, at any of its
/// `depth` levels, is rounded: the two points it lies between have the same
/// parity.
pub open spec fn midpoints_exact(a: Point2, b: Point2, c: Point2, depth: nat) -> bool
    decreases depth,
{
    depth > 0 ==> {
        let ab = a.halfway(b);
        let ac = a.halfway(c);
        let bc = b.halfway(c);
        let below = (depth - 1) as nat;
        &&& same_parity(a, b)
        &&& same_parity(a, c)
        &&& same_parity(b, c)
        &&& midpoints_exact(a, ab, ac, below)
        &&& midpoints_exact(ab, b, bc, below)
        &&& midpoints_exact(bc, ac, c, below)
    }
}

/// `scale` times `p` is the sum of `wa` times `a`, `wb` times `b` and `wc`
/// times `c`.
pub open spec fn weighted_sum(
    p: Point2,
    a: Point2,
    b: Point2,
    c: Point2,
    wa: int,
    wb: int,
    wc: int,
    scale: int,
) -> bool {
    &&& scale * p.x == wa * a.x + wb * b.x + wc * c.x
    &&& scale * p.y == wa * a.y + wb * b.y + wc * c.y
}

/// `p` lies in the convex hull of `a`, `b` and `c`, with weights that are
/// whole multiples of `1/scale`: `scale` times `p` is the sum of the corners
/// under whole weights, none negative, that add up to `scale`.
pub open spec fn within_triangle(p: Point2, a: Point2, b: Point2, c: Point2, scale: int) -> bool {
    exists|wa: int, wb: int, wc: int|
        0 <= wa && 0 <= wb && 0 <= wc && wa + wb + wc == scale && #[trigger] weighted_sum(
            p,
            a,
            b,
            c,
            wa,
            wb,
            wc,
            scale,
        )
}

/// Weights over a corner triangle, taken over the triangle it was cut from.
/// The corner triangle has the corner `p` in common with the larger one and
/// two at the midpoints `mq` and `mr` towards `q` and `r`; `u` is the weight
/// of the common corner, and the point stands `h` times enlarged in `hx`.
proof fn lemma_lift_weights(
    hx: int,
    p: int,
    q: int,
    r: int,
    mq: int,
    mr: int,
    u: int,
    v: int,
    w: int,
)
    requires
        hx == u * p + v * mq + w * mr,
        2 * mq == p + q,
        2 * mr == p + r,
    ensures
        2 * hx == (2 * u + v + w) * p + v * q + w * r,
{
    assert(2 * (u * p + v * mq + w * mr) == (2 * u) * p + v * (2 * mq) + w * (2 * mr))
        by (nonlinear_arith);
    assert((2 * u) * p + v * (p + q) + w * (p + r) == (2 * u + v + w) * p + v * q + w * r)
        by (nonlinear_arith);
}

/// The halfway point of two points of the same parity, doubled, is their
/// sum.
proof fn lemma_exact_midpoint(p: Point2, q: Point2)
    requires
        same_parity(p, q),
    ensures
        2 * p.halfway(q).x == p.x + q.x,
        2 * p.halfway(q).y == p.y + q.y,
{
    lemma_in_the_plane(p, q, p, q);
    lemma_half_sum_doubled(p.x as int, q.x as int);
    lemma_half_sum_doubled(p.y as int, q.y as int);
}

/// `w` are whole weights, none negative, that add up to `scale` and under
/// which the corners sum to `scale` times `p`.
spec fn weights_of(p: Point2, a: Point2, b: Point2, c: Point2, scale: int, w: (int, int, int))
    -> bool {
    &&& 0 <= w.0
    &&& 0 <= w.1
    &&& 0 <= w.2
    &&& w.0 + w.1 + w.2 == scale
    &&& weighted_sum(p, a, b, c, w.0, w.1, w.2, scale)
}

/// Doubling the scale of weights that are known at half the scale.
proof fn lemma_double_scale(h: int, x: int)
    ensures
        (2 * h) * x == 2 * (h * x),
{
    assert((2 * h) * x == 2 * (h * x)) by (nonlinear_arith);
}

/// Weights of point `i` of a gasket that rounds no midpoint.
proof fn lemma_gasket_weights(a: Point2, b: Point2, c: Point2, depth: nat, i: int) -> (w: (
    int,
    int,
    int,
))
    requires
        midpoints_exact(a, b, c, depth),
        0 <= i < point_count(depth),
    ensures
        weights_of(gasket(a, b, c, depth)[i], a, b, c, pow2(depth) as int, w),
    decreases depth,
{
    if depth == 0 {
        lemma_point_count_step(0);
        lemma2_to64();
        let list = gasket(a, b, c, 0);
        assert(list[0] == a && list[1] == b && list[2] == c);
        if i == 0 {
            (1, 0, 0)
        } else if i == 1 {
            (0, 1, 0)
        } else {
            (0, 0, 1)
        }
    } else {
        let below = (depth - 1) as nat;
        let h = pow2(below) as int;
        lemma_pow2_unfold(depth);
        lemma_point_count_step(below);
        let ab = a.halfway(b);
        let ac = a.halfway(c);
        let bc = b.halfway(c);
        lemma_exact_midpoint(a, b);
        lemma_exact_midpoint(a, c);
        lemma_exact_midpoint(b, c);
        let at_a = gasket(a, ab, ac, below);
        let at_b = gasket(ab, b, bc, below);
        let at_c = gasket(bc, ac, c, below);
        lemma_gasket_len(a, ab, ac, below);
        lemma_gasket_len(ab, b, bc, below);
        lemma_gasket_len(bc, ac, c, below);
        let third = point_count(below) as int;
        assert(gasket(a, b, c, depth) == at_a + at_b + at_c);
        if i < third {
            let (u, v, w) = lemma_gasket_weights(a, ab, ac, below, i);
            let p = at_a[i];
            assert((at_a + at_b + at_c)[i] == p);
            lemma_lift_weights(
                h * p.x,
                a.x as int,
                b.x as int,
                c.x as int,
                ab.x as int,
                ac.x as int,
                u,
                v,
                w,
            );
            lemma_lift_weights(
                h * p.y,
                a.y as int,
                b.y as int,
                c.y as int,
                ab.y as int,
                ac.y as int,
                u,
                v,
                w,
            );
            lemma_double_scale(h, p.x as int);
            lemma_double_scale(h, p.y as int);
            (2 * u + v + w, v, w)
        } else if i < 2 * third {
            let (u, v, w) = lemma_gasket_weights(ab, b, bc, below, i - third);
            let p = at_b[i - third];
            assert((at_a + at_b + at_c)[i] == p);
            lemma_lift_weights(
                h * p.x,
                b.x as int,
                a.x as int,
                c.x as int,
                ab.x as int,
                bc.x as int,
                v,
                u,
                w,
            );
            lemma_lift_weights(
                h * p.y,
                b.y as int,
                a.y as int,
                c.y as int,
                ab.y as int,
                bc.y as int,
                v,
                u,
                w,
            );
            lemma_double_scale(h, p.x as int);
            lemma_double_scale(h, p.y as int);
            (u, u + 2 * v + w, w)
        } else {
            let (u, v, w) = lemma_gasket_weights(bc, ac, c, below, i - 2 * third);
            let p = at_c[i - 2 * third];
            assert((at_a + at_b + at_c)[i] == p);
            lemma_lift_weights(
                h * p.x,
                c.x as int,
                b.x as int,
                a.x as int,
                bc.x as int,
                ac.x as int,
                w,
                u,
                v,
            );
            lemma_lift_weights(
                h * p.y,
                c.y as int,
                b.y as int,
                a.y as int,
                bc.y as int,
                ac.y as int,
                w,
                u,
                v,
            );
            lemma_double_scale(h, p.x as int);
            lemma_double_scale(h, p.y as int);
            (v, u, u + v + 2 * w)
        }
    }
}

/// Every point of a gasket that rounds no midpoint lies in the convex hull
/// of the three corners.
pub proof fn lemma_gasket_within_triangle(a: Point2, b: Point2, c: Point2, depth: nat, i: int)
    requires
        midpoints_exact(a, b, c, depth),
        0 <= i < point_count(depth),
    ensures
        within_triangle(gasket(a, b, c, depth)[i], a, b, c, pow2(depth) as int),
{
    let w = lemma_gasket_weights(a, b, c, depth, i);
    let p = gasket(a, b, c, depth)[i];
    assert(weighted_sum(p, a, b, c, w.0, w.1, w.2, pow2(depth) as int));
}

/// `scale` times the triangle `t0`, `t1`, `t2` is the triangle `a`, `b`, `c`
/// moved by `(qx, qy)`: `t2` stands for `c`, and `t0` and `t1` for `a` and
/// `b`, or, if `exchanged`, for `b` and `a`.
pub open spec fn placed_copy(
    t0: Point2,
    t1: Point2,
    t2: Point2,
    a: Point2,
    b: Point2,
    c: Point2,
    scale: int,
    qx: int,
    qy: int,
    exchanged: bool,
) -> bool {
    let first = if exchanged {
        b
    } else {
        a
    };
    let second = if exchanged {
        a
    } else {
        b
    };
    &&& scale * t0.x == qx + first.x
    &&& scale * t0.y == qy + first.y
    &&& scale * t1.x == qx + second.x
    &&& scale * t1.y == qy + second.y
    &&& scale * t2.x == qx + c.x
    &&& scale * t2.y == qy + c.y
}

/// The triangle `t0`, `t1`, `t2` is a copy of the triangle `a`, `b`, `c` at
/// `1/scale` of its size, moved but not turned.
pub open spec fn small_copy(
    t0: Point2,
    t1: Point2,
    t2: Point2,
    a: Point2,
    b: Point2,
    c: Point2,
    scale: int,
) -> bool {
    exists|qx: int, qy: int, exchanged: bool| #[trigger]
        placed_copy(t0, t1, t2, a, b, c, scale, qx, qy, exchanged)
}

/// Where triangle `t` of a gasket that rounds no midpoint stands.
proof fn lemma_triangle_placed(a: Point2, b: Point2, c: Point2, depth: nat, t: int) -> (place: (
    int,
    int,
    bool,
))
    requires
        midpoints_exact(a, b, c, depth),
        0 <= t,
        3 * t + 2 < point_count(depth),
    ensures
        placed_copy(
            gasket(a, b, c, depth)[3 * t],
            gasket(a, b, c, depth)[3 * t + 1],
            gasket(a, b, c, depth)[3 * t + 2],
            a,
            b,
            c,
            pow2(depth) as int,
            place.0,
            place.1,
            place.2,
        ),
    decreases depth,
{
    if depth == 0 {
        lemma_point_count_step(0);
        lemma2_to64();
        let list = gasket(a, b, c, 0);
        assert(list[0] == a && list[1] == b && list[2] == c);
        (0, 0, false)
    } else {
        let below = (depth - 1) as nat;
        let h = pow2(below) as int;
        lemma_pow2_unfold(depth);
        lemma_point_count_step(below);
        let ab = a.halfway(b);
        let ac = a.halfway(c);
        let bc = b.halfway(c);
        lemma_exact_midpoint(a, b);
        lemma_exact_midpoint(a, c);
        lemma_exact_midpoint(b, c);
        let at_a = gasket(a, ab, ac, below);
        let at_b = gasket(ab, b, bc, below);
        let at_c = gasket(bc, ac, c, below);
        lemma_gasket_len(a, ab, ac, below);
        lemma_gasket_len(ab, b, bc, below);
        lemma_gasket_len(bc, ac, c, below);
        let n = pow(3, below);
        lemma_pow_positive(3, below);
        assert(point_count(below) == 3 * n);
        let whole = at_a + at_b + at_c;
        assert(gasket(a, b, c, depth) == whole);
        if t < n {
            let (qx, qy, exchanged) = lemma_triangle_placed(a, ab, ac, below, t);
            let (t0, t1, t2) = (at_a[3 * t], at_a[3 * t + 1], at_a[3 * t + 2]);
            assert(whole[3 * t] == t0 && whole[3 * t + 1] == t1 && whole[3 * t + 2] == t2);
            lemma_double_scale(h, t0.x as int);
            lemma_double_scale(h, t0.y as int);
            lemma_double_scale(h, t1.x as int);
            lemma_double_scale(h, t1.y as int);
            lemma_double_scale(h, t2.x as int);
            lemma_double_scale(h, t2.y as int);
            (2 * qx + a.x, 2 * qy + a.y, exchanged)
        } else if t < 2 * n {
            let s = t - n;
            let (qx, qy, exchanged) = lemma_triangle_placed(ab, b, bc, below, s);
            let (t0, t1, t2) = (at_b[3 * s], at_b[3 * s + 1], at_b[3 * s + 2]);
            assert(whole[3 * t] == t0 && whole[3 * t + 1] == t1 && whole[3 * t + 2] == t2);
            lemma_double_scale(h, t0.x as int);
            lemma_double_scale(h, t0.y as int);
            lemma_double_scale(h, t1.x as int);
            lemma_double_scale(h, t1.y as int);
            lemma_double_scale(h, t2.x as int);
            lemma_double_scale(h, t2.y as int);
            (2 * qx + b.x, 2 * qy + b.y, exchanged)
        } else {
            let s = t - 2 * n;
            let (qx, qy, exchanged) = lemma_triangle_placed(bc, ac, c, below, s);
            let (t0, t1, t2) = (at_c[3 * s], at_c[3 * s + 1], at_c[3 * s + 2]);
            assert(whole[3 * t] == t0 && whole[3 * t + 1] == t1 && whole[3 * t + 2] == t2);
            lemma_double_scale(h, t0.x as int);
            lemma_double_scale(h, t0.y as int);
            lemma_double_scale(h, t1.x as int);
            lemma_double_scale(h, t1.y as int);
            lemma_double_scale(h, t2.x as int);
            lemma_double_scale(h, t2.y as int);
            (2 * qx + c.x, 2 * qy + c.y, !exchanged)
        }
    }
}

/// Each triangle of a gasket that rounds no midpoint is a copy of the first
/// triangle at `1/2^depth` of its size.
pub proof fn lemma_gasket_small_copies(a: Point2, b: Point2, c: Point2, depth: nat, t: int)
    requires
        midpoints_exact(a, b, c, depth),
        0 <= t,
        3 * t + 2 < point_count(depth),
    ensures
        small_copy(
            gasket(a, b, c, depth)[3 * t],
            gasket(a, b, c, depth)[3 * t + 1],
            gasket(a, b, c, depth)[3 * t + 2],
            a,
            b,
            c,
            pow2(depth) as int,
        ),
{
    let place = lemma_triangle_placed(a, b, c, depth, t);
    let list = gasket(a, b, c, depth);
    assert(placed_copy(
        list[3 * t],
        list[3 * t + 1],
        list[3 * t + 2],
        a,
        b,
        c,
        pow2(depth) as int,
        place.0,
        place.1,
        place.2,
    ));
}

impl Point2 {
    /// Both coordinates are whole multiples of `2^depth`.
    pub open spec fn on_grid(self, depth: nat) -> bool {
        (self.x as int) % (pow2(depth) as int) == 0 && (self.y as int) % (pow2(depth) as int) == 0
    }

    /// Whether the point keeps 64-bit coordinates on the grid that is
    /// `2^depth` times finer.
    pub open spec fn refinable(self, depth: nat) -> bool {
        &&& i64::MIN <= self.x * pow2(depth) <= i64::MAX
        &&& i64::MIN <= self.y * pow2(depth) <= i64::MAX
    }

    /// The same point in units of the grid that is `2^depth` times finer.
    pub open spec fn refined(self, depth: nat) -> Point2 {
        Point2 { x: (self.x * pow2(depth)) as i64, y: (self.y * pow2(depth)) as i64 }
    }
}

/// Two numbers that are `2 * h` times a whole number have an even sum, and
/// half of it is `h` times a whole number.
proof fn lemma_half_on_grid(p: i64, q: i64, h: int, m: int, n: int)
    requires
        p == 2 * h * m,
        q == 2 * h * n,
    ensures
        half_sum(p as int, q as int) as i64 == h * (m + n),
        (p + q) % 2 == 0,
{
    assert(2 * h * m + 2 * h * n == 2 * (h * (m + n))) by (nonlinear_arith);
}

/// A point on the grid of step `2 * h` is on the grid of step `h`, twice as
/// far out.
proof fn lemma_double_on_grid(p: Point2, h: int, x: int, y: int)
    requires
        p.x == 2 * h * x,
        p.y == 2 * h * y,
    ensures
        p.x == h * (2 * x),
        p.y == h * (2 * y),
{
    assert(2 * h * x == h * (2 * x) && 2 * h * y == h * (2 * y)) by (nonlinear_arith);
}

/// The gasket of corners that are `2^depth` times `(ax, ay)`, `(bx, by)` and
/// `(cx, cy)` rounds no midpoint.
proof fn lemma_multiples_exact(
    a: Point2,
    b: Point2,
    c: Point2,
    depth: nat,
    ax: int,
    ay: int,
    bx: int,
    by: int,
    cx: int,
    cy: int,
)
    requires
        a.x == pow2(depth) * ax,
        a.y == pow2(depth) * ay,
        b.x == pow2(depth) * bx,
        b.y == pow2(depth) * by,
        c.x == pow2(depth) * cx,
        c.y == pow2(depth) * cy,
    ensures
        midpoints_exact(a, b, c, depth),
    decreases depth,
{
    if depth > 0 {
        let below = (depth - 1) as nat;
        let h = pow2(below) as int;
        lemma_pow2_unfold(depth);
        let ab = a.halfway(b);
        let ac = a.halfway(c);
        let bc = b.halfway(c);
        lemma_half_on_grid(a.x, b.x, h, ax, bx);
        lemma_half_on_grid(a.y, b.y, h, ay, by);
        lemma_half_on_grid(a.x, c.x, h, ax, cx);
        lemma_half_on_grid(a.y, c.y, h, ay, cy);
        lemma_half_on_grid(b.x, c.x, h, bx, cx);
        lemma_half_on_grid(b.y, c.y, h, by, cy);
        lemma_double_on_grid(a, h, ax, ay);
        lemma_double_on_grid(b, h, bx, by);
        lemma_double_on_grid(c, h, cx, cy);
        lemma_in_the_plane(a, b, a, b);
        lemma_in_the_plane(a, c, a, c);
        lemma_in_the_plane(b, c, b, c);
        lemma_multiples_exact(
            a,
            ab,
            ac,
            below,
            2 * ax,
            2 * ay,
            ax + bx,
            ay + by,
            ax + cx,
            ay + cy,
        );
        lemma_multiples_exact(
            ab,
            b,
            bc,
            below,
            ax + bx,
            ay + by,
            2 * bx,
            2 * by,
            bx + cx,
            by + cy,
        );
        lemma_multiples_exact(
            bc,
            ac,
            c,
            below,
            bx + cx,
            by + cy,
            ax + cx,
            ay + cy,
            2 * cx,
            2 * cy,
        );
    }
}

/// The gasket of corners on the grid of step `2^depth` rounds no midpoint:
/// every midpoint it takes is a grid point.
pub proof fn lemma_grid_midpoints_exact(a: Point2, b: Point2, c: Point2, depth: nat)
    requires
        a.on_grid(depth),
        b.on_grid(depth),
        c.on_grid(depth),
    ensures
        midpoints_exact(a, b, c, depth),
{
    let step = pow2(depth) as int;
    lemma_pow2_pos(depth);
    lemma_fundamental_div_mod(a.x as int, step);
    lemma_fundamental_div_mod(a.y as int, step);
    lemma_fundamental_div_mod(b.x as int, step);
    lemma_fundamental_div_mod(b.y as int, step);
    lemma_fundamental_div_mod(c.x as int, step);
    lemma_fundamental_div_mod(c.y as int, step);
    lemma_multiples_exact(
        a,
        b,
        c,
        depth,
        (a.x as int) / step,
        (a.y as int) / step,
        (b.x as int) / step,
        (b.y as int) / step,
        (c.x as int) / step,
        (c.y as int) / step,
    );
}

/// `buffer` with the points from `start` up to `end` replaced by `points`.
pub open spec fn spliced(buffer: Seq<Point2>, start: int, end: int, points: Seq<Point2>) -> Seq<
    Point2,
> {
    buffer.subrange(0, start) + points + buffer.subrange(end, buffer.len() as int)
}

/// Writes the gasket of triangle `a`, `b`, `c` over the points of `buffer`
/// from `start` up to `end`, and leaves the rest of `buffer` as it was.
///
/// Each level hands one third of its range to each corner triangle, so no
/// two calls write the same point and nothing is allocated.
pub fn subdivide_into(
    a: Point2,
    b: Point2,
    c: Point2,
    depth: u32,
    buffer: &mut Vec<Point2>,
    start: usize,
    end: usize,
)
    requires
        start <= end <= old(buffer).len(),
        end - start == point_count(depth as nat),
    ensures
        final(buffer)@ == spliced(
            old(buffer)@,
            start as int,
            end as int,
            gasket(a, b, c, depth as nat),
        ),
    decreases depth,
{
    proof {
        lemma_gasket_len(a, b, c, depth as nat);
    }
    if depth == 0 {
        proof {
            lemma_point_count_step(0);
        }
        buffer.set(start, a);
        buffer.set(start + 1, b);
        buffer.set(start + 2, c);
        assert(buffer@ =~= spliced(old(buffer)@, start as int, end as int, seq![a, b, c]));
    } else {
        let ab = a.midpoint(b);
        let ac = a.midpoint(c);
        let bc = b.midpoint(c);
        let third = (end - start) / 3;
        proof {
            lemma_point_count_step((depth - 1) as nat);
            lemma_gasket_len(a, ab, ac, (depth - 1) as nat);
            lemma_gasket_len(ab, b, bc, (depth - 1) as nat);
            lemma_gasket_len(bc, ac, c, (depth - 1) as nat);
        }
        subdivide_into(a, ab, ac, depth - 1, buffer, start, start + third);
        subdivide_into(ab, b, bc, depth - 1, buffer, start + third, start + 2 * third);
        subdivide_into(bc, ac, c, depth - 1, buffer, start + 2 * third, end);
        assert(buffer@ =~= spliced(
            old(buffer)@,
            start as int,
            end as int,
            gasket(a, b, c, depth as nat),
        ));
    }
}

/// The gasket of triangle `a`, `b`, `c` as a list of its own: each level
/// builds the lists of its three corner triangles and joins them.
///
/// It yields the very list that `subdivide_into` writes, at the price of
/// an allocation per triangle.
pub fn concat_triangles(a: Point2, b: Point2, c: Point2, depth: u32) -> (points: Vec<Point2>)
    requires
        point_count(depth as nat) <= MAX_POINTS,
    ensures
        points@ == gasket(a, b, c, depth as nat),
    decreases depth,
{
    let mut points: Vec<Point2> = Vec::new();
    if depth == 0 {
        points.push(a);
        points.push(b);
        points.push(c);
        assert(points@ =~= seq![a, b, c]);
    } else {
        let ab = a.midpoint(b);
        let ac = a.midpoint(c);
        let bc = b.midpoint(c);
        proof {
            lemma_point_count_step((depth - 1) as nat);
        }
        let mut at_a = concat_triangles(a, ab, ac, depth - 1);
        let mut at_b = concat_triangles(ab, b, bc, depth - 1);
        let mut at_c = concat_triangles(bc, ac, c, depth - 1);
        points.append(&mut at_a);
        points.append(&mut at_b);
        points.append(&mut at_c);
        assert(points@ =~= gasket(a, b, c, depth as nat));
    }
    points
}

/// `point_count(depth)` as a machine integer.
fn count_points(depth: u32) -> (count: usize)
    requires
        depth <= MAX_DEPTH,
    ensures
        count == point_count(depth as nat),
{
    let mut count: usize = 3;
    let mut level: u32 = 0;
    proof {
        lemma_point_count_step(0);
    }
    while level < depth
        invariant
            level <= depth <= MAX_DEPTH,
            count == point_count(level as nat),
        decreases depth - level,
    {
        proof {
            lemma_point_count_step(level as nat);
            lemma_depth_guard((level + 1) as nat);
        }
        count = count * 3;
        level = level + 1;
    }
    count
}

/// The triangle list of the Sierpinski gasket of `corners` after `depth`
/// rounds of midpoint subdivision, in the units of `corners`.
///
/// The list is refused, and nothing is generated, if it would hold more than
/// `MAX_POINTS` points. A midpoint that falls between two grid points is
/// rounded down; none does where the corners lie on the grid of step
/// `2^depth`, as the corners that `refine` gives do.
pub fn generate_triangles(corners: [Point2; 3], depth: u32) -> (result: Result<
    Vec<Point2>,
    ParameterError,
>)
    ensures
        result is Ok <==> point_count(depth as nat) <= MAX_POINTS,
        result matches Err(e) ==> e == ParameterError::DepthTooLarge,
        result matches Ok(points) ==> {
            &&& points@ == gasket(corners[0], corners[1], corners[2], depth as nat)
            &&& points@.len() == 3 * pow(3, depth as nat)
            &&& depth == 0 ==> points@ == corners@
            &&& forall|i: int|
                0 <= i < points@.len() ==> within_box(
                    #[trigger] points@[i],
                    box_low(corners[0], corners[1], corners[2]),
                    box_high(corners[0], corners[1], corners[2]),
                )
            &&& midpoints_exact(corners[0], corners[1], corners[2], depth as nat) ==> forall|
                i: int,
            |
                0 <= i < points@.len() ==> within_triangle(
                    #[trigger] points@[i],
                    corners[0],
                    corners[1],
                    corners[2],
                    pow2(depth as nat) as int,
                )
            &&& corners[0].on_grid(depth as nat) && corners[1].on_grid(depth as nat)
                && corners[2].on_grid(depth as nat) ==> midpoints_exact(
                corners[0],
                corners[1],
                corners[2],
                depth as nat,
            )
        },
{
    proof {
        lemma_depth_guard(depth as nat);
    }
    if depth > MAX_DEPTH {
        return Err(ParameterError::DepthTooLarge);
    }
    let a = corners[0];
    let b = corners[1];
    let c = corners[2];
    let count = count_points(depth);
    let mut points = vec![a; count];
    subdivide_into(a, b, c, depth, &mut points, 0, count);
    proof {
        lemma_gasket_len(a, b, c, depth as nat);
        lemma_pow_positive(3, depth as nat);
        assert(points@ =~= gasket(a, b, c, depth as nat));
        if depth == 0 {
            assert(points@ =~= corners@);
        }
        let low = box_low(a, b, c);
        let high = box_high(a, b, c);
        lemma_in_the_plane(a, a, low, high);
        lemma_in_the_plane(b, b, low, high);
        lemma_in_the_plane(c, c, low, high);
        assert forall|i: int| 0 <= i < points@.len() implies within_box(
            #[trigger] points@[i],
            low,
            high,
        ) by {
            lemma_gasket_within_box(a, b, c, depth as nat, low, high, i);
        }
        if midpoints_exact(a, b, c, depth as nat) {
            assert forall|i: int| 0 <= i < points@.len() implies within_triangle(
                #[trigger] points@[i],
                a,
                b,
                c,
                pow2(depth as nat) as int,
            ) by {
                lemma_gasket_within_triangle(a, b, c, depth as nat, i);
            }
        }
        if a.on_grid(depth as nat) && b.on_grid(depth as nat) && c.on_grid(depth as nat) {
            lemma_grid_midpoints_exact(a, b, c, depth as nat);
        }
    }
    Ok(points)
}

/// `2^depth` as a machine integer.
fn grid_factor(depth: u32) -> (factor: i64)
    requires
        depth <= MAX_DEPTH,
    ensures
        factor == pow2(depth as nat),
{
    let mut factor: i64 = 1;
    let mut level: u32 = 0;
    proof {
        lemma2_to64();
    }
    while level < depth
        invariant
            level <= depth <= MAX_DEPTH,
            factor == pow2(level as nat),
        decreases depth - level,
    {
        proof {
            lemma2_to64();
            lemma_pow2_unfold((level + 1) as nat);
            lemma_pow2_strictly_increases(level as nat, 18);
        }
        factor = factor * 2;
        level = level + 1;
    }
    factor
}

/// `p` in the units of the grid that is `2^depth` times finer, where it lies
/// on the grid of step `2^depth`: the gasket of corners so refined rounds no
/// midpoint down to `depth`.
///
/// The point is refused if `depth` is deeper than any gasket that is
/// generated, or else if the point has no 64-bit coordinates on the finer
/// grid.
pub fn refine(p: Point2, depth: u32) -> (result: Result<Point2, ParameterError>)
    ensures
        result is Ok <==> point_count(depth as nat) <= MAX_POINTS && p.refinable(depth as nat),
        result matches Err(e) ==> e == if point_count(depth as nat) > MAX_POINTS {
            ParameterError::DepthTooLarge
        } else {
            ParameterError::CoordinateTooLarge
        },
        result matches Ok(finer) ==> finer == p.refined(depth as nat) && finer.on_grid(
            depth as nat,
        ),
{
    proof {
        lemma_depth_guard(depth as nat);
    }
    if depth > MAX_DEPTH {
        return Err(ParameterError::DepthTooLarge);
    }
    let factor = grid_factor(depth);
    match (p.x.checked_mul(factor), p.y.checked_mul(factor)) {
        (Some(x), Some(y)) => {
            proof {
                lemma_pow2_pos(depth as nat);
                lemma_mod_multiples_basic(p.x as int, factor as int);
                lemma_mod_multiples_basic(p.y as int, factor as int);
            }
            Ok(Point2 { x, y })
        },
        _ => Err(ParameterError::CoordinateTooLarge),
    }
}

} // verus!
