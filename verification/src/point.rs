//! Points with integer coordinates and the halving step both generators share.

use vstd::prelude::*;

verus! {

/// The greatest integer not above the mean of `a` and `b`.
pub open spec fn half_sum(a: int, b: int) -> int {
    (a + b) / 2
}

/// `half_sum` on machine integers. The sum is formed in 128 bits, so no pair
/// of coordinates overflows.
pub fn halve_sum(a: i64, b: i64) -> (h: i64)
    ensures
        h == half_sum(a as int, b as int),
{
    let bias: i128 = 0x8000_0000_0000_0000;
    let shifted: i128 = (a as i128 + bias) + (b as i128 + bias);
    let half: i128 = shifted / 2;
    (half - bias) as i64
}

/// Twice the half sum is the sum itself when the sum is even, and one less
/// when it is odd: taking `a` away from it gives `b` back exactly when `a`
/// and `b` have the same parity.
pub proof fn lemma_half_sum_doubled(a: int, b: int)
    ensures
        2 * half_sum(a, b) - a == b - (a + b) % 2,
        2 * half_sum(a, b) - a == b <==> (a + b) % 2 == 0,
        b - 1 <= 2 * half_sum(a, b) - a <= b,
{
}

/// A point of an integer grid that can be averaged with another of its kind.
pub trait GridPoint: Copy {
    /// How many coordinates a point has.
    spec fn dimensions() -> nat;

    /// The coordinate along `axis`, the first axis being axis 0.
    spec fn coordinate(self, axis: int) -> int;

    /// The grid point halfway between `self` and `other`.
    spec fn halfway(self, other: Self) -> Self;

    /// Halfway is taken axis by axis: each coordinate is the mean of the
    /// two, rounded down.
    proof fn lemma_halfway_coordinate(self, other: Self, axis: int)
        requires
            0 <= axis < Self::dimensions(),
        ensures
            self.halfway(other).coordinate(axis) == half_sum(
                self.coordinate(axis),
                other.coordinate(axis),
            ),
    ;

    /// How many corners the simplex of the point's space has: one more than
    /// the space has dimensions.
    fn corner_count() -> (n: usize)
        ensures
            n == Self::dimensions() + 1,
    ;

    /// The point halfway between `self` and `other`.
    fn midpoint(self, other: Self) -> (m: Self)
        ensures
            m == self.halfway(other),
    ;
}

/// How many corners the simplex of the point's space has: a triangle in the
/// plane, a tetrahedron in space.
pub open spec fn simplex_corners<P: GridPoint>() -> nat {
    P::dimensions() + 1
}

/// Every coordinate of `p` lies between that of `low` and that of `high`,
/// ends included.
pub open spec fn within_box<P: GridPoint>(p: P, low: P, high: P) -> bool {
    forall|axis: int|
        0 <= axis < P::dimensions() ==> low.coordinate(axis) <= #[trigger] p.coordinate(axis)
            <= high.coordinate(axis)
}

/// Along every axis the coordinate of `p` has the parity of that of `q`:
/// the point halfway between them is not rounded.
pub open spec fn same_parity<P: GridPoint>(p: P, q: P) -> bool {
    forall|axis: int|
        0 <= axis < P::dimensions() ==> (#[trigger] p.coordinate(axis) + q.coordinate(axis)) % 2
            == 0
}

/// The halfway point of two points of a box is a point of the box.
pub proof fn lemma_halfway_within_box<P: GridPoint>(p: P, q: P, low: P, high: P)
    requires
        within_box(p, low, high),
        within_box(q, low, high),
    ensures
        within_box(p.halfway(q), low, high),
{
    assert forall|axis: int| 0 <= axis < P::dimensions() implies low.coordinate(axis)
        <= #[trigger] p.halfway(q).coordinate(axis) <= high.coordinate(axis) by {
        p.lemma_halfway_coordinate(q, axis);
        assert(low.coordinate(axis) <= p.coordinate(axis) <= high.coordinate(axis));
        assert(low.coordinate(axis) <= q.coordinate(axis) <= high.coordinate(axis));
    }
}

/// Along each axis, twice the halfway point less the start is the target, or
/// one less. It is the target along every axis exactly when start and target
/// have the same parity.
pub proof fn lemma_halfway_doubled<P: GridPoint>(start: P, target: P)
    ensures
        forall|axis: int|
            0 <= axis < P::dimensions() ==> 2 * #[trigger] start.halfway(target).coordinate(axis)
                - start.coordinate(axis) == target.coordinate(axis) - (start.coordinate(axis)
                + target.coordinate(axis)) % 2,
        same_parity(start, target) <==> forall|axis: int|
            0 <= axis < P::dimensions() ==> 2 * #[trigger] start.halfway(target).coordinate(axis)
                - start.coordinate(axis) == target.coordinate(axis),
{
    let middle = start.halfway(target);
    assert forall|axis: int| 0 <= axis < P::dimensions() implies 2 * #[trigger] middle.coordinate(
        axis,
    ) - start.coordinate(axis) == target.coordinate(axis) - (start.coordinate(axis)
        + target.coordinate(axis)) % 2 by {
        start.lemma_halfway_coordinate(target, axis);
        lemma_half_sum_doubled(start.coordinate(axis), target.coordinate(axis));
    }
    if same_parity(start, target) {
        assert forall|axis: int| 0 <= axis < P::dimensions() implies 2
            * #[trigger] middle.coordinate(axis) - start.coordinate(axis) == target.coordinate(
            axis,
        ) by {
            assert((start.coordinate(axis) + target.coordinate(axis)) % 2 == 0);
        }
    }
    if forall|axis: int|
        0 <= axis < P::dimensions() ==> 2 * #[trigger] middle.coordinate(axis) - start.coordinate(
            axis,
        ) == target.coordinate(axis) {
        assert forall|axis: int| 0 <= axis < P::dimensions() implies (#[trigger] start.coordinate(
            axis,
        ) + target.coordinate(axis)) % 2 == 0 by {
            assert(2 * middle.coordinate(axis) - start.coordinate(axis) == target.coordinate(
                axis,
            ));
        }
    }
}

/// A point of the plane.
#[derive(Clone, Copy, Debug, PartialEq, Eq, Structural)]
pub struct Point2 {
    pub x: i64,
    pub y: i64,
}

/// A point of space.
#[derive(Clone, Copy, Debug, PartialEq, Eq, Structural)]
pub struct Point3 {
    pub x: i64,
    pub y: i64,
    pub z: i64,
}

impl GridPoint for Point2 {
    open spec fn dimensions() -> nat {
        2
    }

    /// `x` along axis 0, `y` along axis 1.
    open spec fn coordinate(self, axis: int) -> int {
        if axis == 0 {
            self.x as int
        } else {
            self.y as int
        }
    }

    /// Each coordinate is the mean of the two, rounded down.
    open spec fn halfway(self, other: Point2) -> Point2 {
        Point2 {
            x: half_sum(self.x as int, other.x as int) as i64,
            y: half_sum(self.y as int, other.y as int) as i64,
        }
    }

    proof fn lemma_halfway_coordinate(self, other: Point2, axis: int) {
    }

    fn corner_count() -> (n: usize) {
        3
    }

    fn midpoint(self, other: Point2) -> (m: Point2) {
        Point2 { x: halve_sum(self.x, other.x), y: halve_sum(self.y, other.y) }
    }
}

impl GridPoint for Point3 {
    open spec fn dimensions() -> nat {
        3
    }

    /// `x` along axis 0, `y` along axis 1, `z` along axis 2.
    open spec fn coordinate(self, axis: int) -> int {
        if axis == 0 {
            self.x as int
        } else if axis == 1 {
            self.y as int
        } else {
            self.z as int
        }
    }

    /// Each coordinate is the mean of the two, rounded down.
    open spec fn halfway(self, other: Point3) -> Point3 {
        Point3 {
            x: half_sum(self.x as int, other.x as int) as i64,
            y: half_sum(self.y as int, other.y as int) as i64,
            z: half_sum(self.z as int, other.z as int) as i64,
        }
    }

    proof fn lemma_halfway_coordinate(self, other: Point3, axis: int) {
    }

    fn corner_count() -> (n: usize) {
        4
    }

    fn midpoint(self, other: Point3) -> (m: Point3) {
        Point3 {
            x: halve_sum(self.x, other.x),
            y: halve_sum(self.y, other.y),
            z: halve_sum(self.z, other.z),
        }
    }
}

/// In the plane, the box and the parity of two points read by `x` and `y`.
pub proof fn lemma_in_the_plane(p: Point2, q: Point2, low: Point2, high: Point2)
    ensures
        same_parity(p, q) <==> (p.x + q.x) % 2 == 0 && (p.y + q.y) % 2 == 0,
        within_box(p, low, high) <==> low.x <= p.x <= high.x && low.y <= p.y <= high.y,
{
    assert(p.coordinate(0) == p.x && p.coordinate(1) == p.y);
    assert(q.coordinate(0) == q.x && q.coordinate(1) == q.y);
}

/// In space, the box and the parity of two points read by `x`, `y` and `z`.
pub proof fn lemma_in_space(p: Point3, q: Point3, low: Point3, high: Point3)
    ensures
        same_parity(p, q) <==> (p.x + q.x) % 2 == 0 && (p.y + q.y) % 2 == 0 && (p.z + q.z) % 2
            == 0,
        within_box(p, low, high) <==> low.x <= p.x <= high.x && low.y <= p.y <= high.y && low.z
            <= p.z <= high.z,
{
    assert(p.coordinate(0) == p.x && p.coordinate(1) == p.y && p.coordinate(2) == p.z);
    assert(q.coordinate(0) == q.x && q.coordinate(1) == q.y && q.coordinate(2) == q.z);
}

} // verus!
