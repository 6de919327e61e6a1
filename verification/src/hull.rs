//! The convex hull of a polygon's corners, on whole numbers: a point lies in
//! it if some multiple of the point is a sum of the corners under whole
//! weights, none negative, that add up to that multiple.

use vstd::prelude::*;
use crate::point::{lemma_half_sum_doubled, same_parity, GridPoint};

verus! {

/// The sum of `weights`.
pub open spec fn total(weights: Seq<int>) -> int
    decreases weights.len(),
{
    if weights.len() == 0 {
        0
    } else {
        total(weights.drop_last()) + weights.last()
    }
}

/// The sum, along `axis`, of the corners each taken by its weight.
pub open spec fn weighted_total<P: GridPoint>(weights: Seq<int>, corners: Seq<P>, axis: int) -> int
    decreases corners.len(),
{
    if corners.len() == 0 {
        0
    } else {
        weighted_total(weights.drop_last(), corners.drop_last(), axis) + weights.last()
            * corners.last().coordinate(axis)
    }
}

/// `weights` show `p` to lie in the hull of `corners`: there is one for each
/// corner, none is negative, their sum is positive, and along every axis the
/// sum times `p` is the sum of the corners each taken by its weight.
pub open spec fn hull_weights<P: GridPoint>(p: P, corners: Seq<P>, weights: Seq<int>) -> bool {
    &&& weights.len() == corners.len()
    &&& forall|j: int| 0 <= j < weights.len() ==> 0 <= #[trigger] weights[j]
    &&& total(weights) > 0
    &&& forall|axis: int|
        0 <= axis < P::dimensions() ==> total(weights) * #[trigger] p.coordinate(axis)
            == weighted_total(weights, corners, axis)
}

/// `p` lies in the convex hull of `corners`.
pub open spec fn in_hull<P: GridPoint>(p: P, corners: Seq<P>) -> bool {
    exists|weights: Seq<int>| #[trigger] hull_weights(p, corners, weights)
}

/// Raising one weight by `more` raises the sum by `more`.
pub proof fn lemma_total_raised(weights: Seq<int>, k: int, more: int)
    requires
        0 <= k < weights.len(),
    ensures
        total(weights.update(k, weights[k] + more)) == total(weights) + more,
    decreases weights.len(),
{
    let raised = weights.update(k, weights[k] + more);
    if k == weights.len() - 1 {
        assert(raised.drop_last() =~= weights.drop_last());
    } else {
        lemma_total_raised(weights.drop_last(), k, more);
        assert(raised.drop_last() =~= weights.drop_last().update(k, weights[k] + more));
    }
}

/// Raising the weight of corner `k` by `more` raises the weighted sum by
/// `more` times that corner.
pub proof fn lemma_weighted_total_raised<P: GridPoint>(
    weights: Seq<int>,
    corners: Seq<P>,
    axis: int,
    k: int,
    more: int,
)
    requires
        weights.len() == corners.len(),
        0 <= k < weights.len(),
    ensures
        weighted_total(weights.update(k, weights[k] + more), corners, axis) == weighted_total(
            weights,
            corners,
            axis,
        ) + more * corners[k].coordinate(axis),
    decreases corners.len(),
{
    let raised = weights.update(k, weights[k] + more);
    let c = corners.last().coordinate(axis);
    if k == weights.len() - 1 {
        assert(raised.drop_last() =~= weights.drop_last());
        assert((weights[k] + more) * c == weights[k] * c + more * c) by (nonlinear_arith);
    } else {
        lemma_weighted_total_raised(weights.drop_last(), corners.drop_last(), axis, k, more);
        assert(raised.drop_last() =~= weights.drop_last().update(k, weights[k] + more));
    }
}

/// Under weights that are all zero, every sum is zero.
proof fn lemma_zero_weights<P: GridPoint>(corners: Seq<P>, axis: int)
    ensures
        total(Seq::new(corners.len(), |j: int| 0int)) == 0,
        weighted_total(Seq::new(corners.len(), |j: int| 0int), corners, axis) == 0,
    decreases corners.len(),
{
    let zeros = Seq::new(corners.len(), |j: int| 0int);
    if corners.len() > 0 {
        lemma_zero_weights(corners.drop_last(), axis);
        assert(zeros.drop_last() =~= Seq::new(corners.drop_last().len(), |j: int| 0int));
        assert(0 * corners.last().coordinate(axis) == 0);
    }
}

/// Each corner lies in the hull: under the weight one for itself and zero
/// for the others.
pub proof fn lemma_corner_in_hull<P: GridPoint>(corners: Seq<P>, k: int)
    requires
        0 <= k < corners.len(),
    ensures
        in_hull(corners[k], corners),
{
    let zeros = Seq::new(corners.len(), |j: int| 0int);
    let unit = zeros.update(k, zeros[k] + 1);
    lemma_zero_weights(corners, 0);
    lemma_total_raised(zeros, k, 1);
    assert forall|axis: int| 0 <= axis < P::dimensions() implies total(unit)
        * #[trigger] corners[k].coordinate(axis) == weighted_total(unit, corners, axis) by {
        lemma_zero_weights(corners, axis);
        lemma_weighted_total_raised(zeros, corners, axis, k, 1);
    }
    assert(hull_weights(corners[k], corners, unit));
}

/// With the same parity, `sum` times twice the halfway coordinate is `sum`
/// times the one coordinate and `sum` times the other.
proof fn lemma_scaled_midpoint(sum: int, middle: int, start: int, target: int)
    requires
        2 * middle == start + target,
    ensures
        (2 * sum) * middle == sum * start + sum * target,
{
    assert((2 * sum) * middle == sum * (2 * middle)) by (nonlinear_arith);
    assert(sum * (start + target) == sum * start + sum * target) by (nonlinear_arith);
}

/// A jump that is not rounded keeps a point in the hull: the point halfway
/// between a point of the hull and a corner of its parity lies in the hull,
/// under the old weights with that of the corner raised by their sum.
pub proof fn lemma_exact_jump_in_hull<P: GridPoint>(
    p: P,
    corners: Seq<P>,
    weights: Seq<int>,
    k: int,
)
    requires
        hull_weights(p, corners, weights),
        0 <= k < corners.len(),
        same_parity(p, corners[k]),
    ensures
        hull_weights(
            p.halfway(corners[k]),
            corners,
            weights.update(k, weights[k] + total(weights)),
        ),
{
    let sum = total(weights);
    let raised = weights.update(k, weights[k] + sum);
    let middle = p.halfway(corners[k]);
    lemma_total_raised(weights, k, sum);
    assert forall|axis: int| 0 <= axis < P::dimensions() implies total(raised)
        * #[trigger] middle.coordinate(axis) == weighted_total(raised, corners, axis) by {
        p.lemma_halfway_coordinate(corners[k], axis);
        lemma_half_sum_doubled(p.coordinate(axis), corners[k].coordinate(axis));
        assert((p.coordinate(axis) + corners[k].coordinate(axis)) % 2 == 0);
        lemma_scaled_midpoint(
            sum,
            middle.coordinate(axis),
            p.coordinate(axis),
            corners[k].coordinate(axis),
        );
        lemma_weighted_total_raised(weights, corners, axis, k, sum);
        assert(sum * p.coordinate(axis) == weighted_total(weights, corners, axis));
    }
}

} // verus!
