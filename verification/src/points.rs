//! The chaos game: a cloud of points that gathers on the Sierpinski set of a
//! simplex by jumping halfway towards one corner after another.

use vstd::prelude::*;
use vstd::arithmetic::div_mod::lemma_small_mod;
use crate::error::ParameterError;
use crate::hull::{hull_weights, in_hull, lemma_exact_jump_in_hull};
use crate::point::{
    lemma_halfway_doubled,
    lemma_halfway_within_box,
    same_parity,
    simplex_corners,
    within_box,
    GridPoint,
};

verus! {

/// The index of the corner that `draw` picks among `corner_count` corners:
/// its remainder.
pub open spec fn picked(draw: usize, corner_count: nat) -> int {
    (draw as int) % (corner_count as int)
}

/// The cloud that starts at `seed` and makes one jump for each of `draws`,
/// in their order: each point lies halfway between the point before it and
/// the corner that the draw picks.
pub open spec fn chaos_walk<P: GridPoint>(corners: Seq<P>, seed: P, draws: Seq<usize>) -> Seq<P>
    decreases draws.len(),
{
    if draws.len() == 0 {
        seq![seed]
    } else {
        let before = chaos_walk(corners, seed, draws.drop_last());
        before.push(before.last().halfway(corners[picked(draws.last(), corners.len())]))
    }
}

/// `next` lies halfway between `previous` and one of `corners`.
pub open spec fn jumps_to_corner<P: GridPoint>(previous: P, next: P, corners: Seq<P>) -> bool {
    exists|j: int| 0 <= j < corners.len() && next == previous.halfway(#[trigger] corners[j])
}

/// A walk has one point more than it has draws, starts at its seed, and
/// every later point is the jump that its draw asks for.
pub proof fn lemma_walk_steps<P: GridPoint>(corners: Seq<P>, seed: P, draws: Seq<usize>)
    ensures
        chaos_walk(corners, seed, draws).len() == draws.len() + 1,
        chaos_walk(corners, seed, draws)[0] == seed,
        forall|i: int|
            1 <= i <= draws.len() ==> #[trigger] chaos_walk(corners, seed, draws)[i] == chaos_walk(
                corners,
                seed,
                draws,
            )[i - 1].halfway(corners[picked(draws[i - 1], corners.len())]),
    decreases draws.len(),
{
    if draws.len() > 0 {
        let earlier = draws.drop_last();
        lemma_walk_steps(corners, seed, earlier);
        let before = chaos_walk(corners, seed, earlier);
        let walk = chaos_walk(corners, seed, draws);
        assert forall|i: int| 1 <= i <= draws.len() implies #[trigger] walk[i] == walk[i
            - 1].halfway(corners[picked(draws[i - 1], corners.len())]) by {
            if i < draws.len() {
                assert(walk[i] == before[i]);
                assert(earlier[i - 1] == draws[i - 1]);
            }
        }
    }
}

/// The walk of a longer list of draws begins with the walk of the shorter.
pub proof fn lemma_walk_extends<P: GridPoint>(
    corners: Seq<P>,
    seed: P,
    draws: Seq<usize>,
    draw: usize,
)
    ensures
        chaos_walk(corners, seed, draws.push(draw)) == chaos_walk(corners, seed, draws).push(
            chaos_walk(corners, seed, draws).last().halfway(corners[picked(draw, corners.len())]),
        ),
{
    assert(draws.push(draw).drop_last() =~= draws);
}

/// In a walk every point after the seed lies halfway between the point
/// before it and one of the corners.
pub proof fn lemma_walk_jumps<P: GridPoint>(corners: Seq<P>, seed: P, draws: Seq<usize>, i: int)
    requires
        corners.len() > 0,
        1 <= i <= draws.len(),
    ensures
        jumps_to_corner(
            chaos_walk(corners, seed, draws)[i - 1],
            chaos_walk(corners, seed, draws)[i],
            corners,
        ),
{
    lemma_walk_steps(corners, seed, draws);
    let walk = chaos_walk(corners, seed, draws);
    let j = picked(draws[i - 1], corners.len());
    assert(0 <= j < corners.len() && walk[i] == walk[i - 1].halfway(corners[j]));
}

/// `cloud` starts at `seed`, and each later point of it lies halfway between
/// the point before it and one of `corners`.
pub open spec fn is_cloud<P: GridPoint>(cloud: Seq<P>, corners: Seq<P>, seed: P) -> bool {
    &&& cloud.len() > 0 ==> cloud[0] == seed
    &&& forall|i: int|
        1 <= i < cloud.len() ==> jumps_to_corner(cloud[i - 1], #[trigger] cloud[i], corners)
}

/// Every cloud is the walk of some draws: clouds of one seed and one set of
/// corners differ in nothing but the corners that were picked.
pub proof fn lemma_cloud_is_walk<P: GridPoint>(cloud: Seq<P>, corners: Seq<P>, seed: P) -> (draws:
    Seq<usize>)
    requires
        is_cloud(cloud, corners, seed),
        cloud.len() > 0,
        corners.len() <= usize::MAX,
    ensures
        draws.len() + 1 == cloud.len(),
        chaos_walk(corners, seed, draws) == cloud,
    decreases cloud.len(),
{
    if cloud.len() == 1 {
        let draws = Seq::<usize>::empty();
        assert(chaos_walk(corners, seed, draws) =~= cloud);
        draws
    } else {
        let earlier = cloud.drop_last();
        let last = cloud.len() - 1;
        assert(is_cloud(earlier, corners, seed)) by {
            assert forall|i: int| 1 <= i < earlier.len() implies jumps_to_corner(
                earlier[i - 1],
                #[trigger] earlier[i],
                corners,
            ) by {
                assert(jumps_to_corner(cloud[i - 1], cloud[i], corners));
            }
        }
        let before = lemma_cloud_is_walk(earlier, corners, seed);
        assert(jumps_to_corner(cloud[last - 1], cloud[last], corners));
        let j = choose|j: int|
            0 <= j < corners.len() && cloud[last] == cloud[last - 1].halfway(
                #[trigger] corners[j],
            );
        let draw = j as usize;
        assert(picked(draw, corners.len()) == j) by {
            lemma_small_mod(j as nat, corners.len());
        }
        lemma_walk_extends(corners, seed, before, draw);
        assert(chaos_walk(corners, seed, before.push(draw)) =~= cloud);
        before.push(draw)
    }
}

/// A cloud never leaves a box that holds its seed and all its corners.
pub proof fn lemma_cloud_within_box<P: GridPoint>(
    cloud: Seq<P>,
    corners: Seq<P>,
    seed: P,
    low: P,
    high: P,
    i: int,
)
    requires
        is_cloud(cloud, corners, seed),
        within_box(seed, low, high),
        forall|j: int| 0 <= j < corners.len() ==> within_box(#[trigger] corners[j], low, high),
        0 <= i < cloud.len(),
    ensures
        within_box(cloud[i], low, high),
    decreases i,
{
    if i > 0 {
        lemma_cloud_within_box(cloud, corners, seed, low, high, i - 1);
        assert(jumps_to_corner(cloud[i - 1], cloud[i], corners));
        let j = choose|j: int|
            0 <= j < corners.len() && cloud[i] == cloud[i - 1].halfway(#[trigger] corners[j]);
        lemma_halfway_within_box(cloud[i - 1], corners[j], low, high);
    }
}

/// In a cloud, each point after the seed lies halfway towards a corner, and
/// along every axis twice the point less the point before it is that very
/// corner exactly when corner and point before have the same parity.
pub proof fn lemma_cloud_doubled<P: GridPoint>(cloud: Seq<P>, corners: Seq<P>, seed: P, i: int)
    requires
        is_cloud(cloud, corners, seed),
        1 <= i < cloud.len(),
    ensures
        exists|j: int|
            {
                &&& 0 <= j < corners.len()
                &&& cloud[i] == cloud[i - 1].halfway(#[trigger] corners[j])
                &&& same_parity(cloud[i - 1], corners[j]) <==> forall|axis: int|
                    0 <= axis < P::dimensions() ==> 2 * #[trigger] cloud[i].coordinate(axis)
                        - cloud[i - 1].coordinate(axis) == corners[j].coordinate(axis)
            },
{
    assert(jumps_to_corner(cloud[i - 1], cloud[i], corners));
    let j = choose|j: int|
        0 <= j < corners.len() && cloud[i] == cloud[i - 1].halfway(#[trigger] corners[j]);
    lemma_halfway_doubled(cloud[i - 1], corners[j]);
}

/// `next` lies halfway between `previous` and one of `corners` that has the
/// parity of `previous`: the jump is not rounded.
pub open spec fn jumps_exactly<P: GridPoint>(previous: P, next: P, corners: Seq<P>) -> bool {
    exists|j: int|
        0 <= j < corners.len() && next == previous.halfway(#[trigger] corners[j]) && same_parity(
            previous,
            corners[j],
        )
}

/// `cloud` starts at `seed`, and each later point of it lies halfway between
/// the point before it and one of `corners`, with no jump rounded.
pub open spec fn is_exact_cloud<P: GridPoint>(cloud: Seq<P>, corners: Seq<P>, seed: P) -> bool {
    &&& cloud.len() > 0 ==> cloud[0] == seed
    &&& forall|i: int|
        1 <= i < cloud.len() ==> jumps_exactly(cloud[i - 1], #[trigger] cloud[i], corners)
}

/// A cloud whose jumps are not rounded is a cloud.
pub proof fn lemma_exact_cloud_is_cloud<P: GridPoint>(cloud: Seq<P>, corners: Seq<P>, seed: P)
    requires
        is_exact_cloud(cloud, corners, seed),
    ensures
        is_cloud(cloud, corners, seed),
{
    assert forall|i: int| 1 <= i < cloud.len() implies jumps_to_corner(
        cloud[i - 1],
        #[trigger] cloud[i],
        corners,
    ) by {
        assert(jumps_exactly(cloud[i - 1], cloud[i], corners));
        let j = choose|j: int|
            0 <= j < corners.len() && cloud[i] == cloud[i - 1].halfway(#[trigger] corners[j])
                && same_parity(cloud[i - 1], corners[j]);
        assert(cloud[i] == cloud[i - 1].halfway(corners[j]));
    }
}

/// A cloud whose seed lies in the convex hull of its corners, and whose
/// jumps are not rounded, stays in that hull.
pub proof fn lemma_exact_cloud_in_hull<P: GridPoint>(
    cloud: Seq<P>,
    corners: Seq<P>,
    seed: P,
    i: int,
)
    requires
        is_exact_cloud(cloud, corners, seed),
        in_hull(seed, corners),
        0 <= i < cloud.len(),
    ensures
        in_hull(cloud[i], corners),
    decreases i,
{
    if i > 0 {
        lemma_exact_cloud_in_hull(cloud, corners, seed, i - 1);
        let weights = choose|weights: Seq<int>| #[trigger]
            hull_weights(cloud[i - 1], corners, weights);
        assert(jumps_exactly(cloud[i - 1], cloud[i], corners));
        let j = choose|j: int|
            0 <= j < corners.len() && cloud[i] == cloud[i - 1].halfway(#[trigger] corners[j])
                && same_parity(cloud[i - 1], corners[j]);
        lemma_exact_jump_in_hull(cloud[i - 1], corners, weights, j);
    }
}

/// One jump of the game: the point halfway between `previous` and the corner
/// that `draw` picks.
pub fn next_point<P: GridPoint>(corners: &[P], previous: P, draw: usize) -> (next: P)
    requires
        corners@.len() > 0,
    ensures
        next == previous.halfway(corners@[picked(draw, corners@.len())]),
{
    let j = draw % corners.len();
    previous.midpoint(corners[j])
}

/// The cloud of `seed` under the given draws: the seed, then one point for
/// each draw, so there must be room for one point more than there are
/// draws. The polygon is refused if it has fewer corners than a simplex of
/// its space.
pub fn generate_points_with<P: GridPoint>(corners: &[P], seed: P, draws: &[usize]) -> (result:
    Result<Vec<P>, ParameterError>)
    requires
        draws@.len() < usize::MAX,
    ensures
        result is Ok <==> corners@.len() >= simplex_corners::<P>(),
        result matches Err(e) ==> e == ParameterError::TooFewCorners,
        result matches Ok(points) ==> {
            &&& points@ == chaos_walk(corners@, seed, draws@)
            &&& is_cloud(points@, corners@, seed)
        },
{
    if corners.len() < P::corner_count() {
        return Err(ParameterError::TooFewCorners);
    }
    let mut points: Vec<P> = Vec::new();
    points.push(seed);
    let mut previous = seed;
    let mut made: usize = 0;
    assert(draws@.take(0) =~= Seq::<usize>::empty());
    while made < draws.len()
        invariant
            made <= draws@.len(),
            corners@.len() > 0,
            points@ == chaos_walk(corners@, seed, draws@.take(made as int)),
            previous == points@.last(),
        decreases draws@.len() - made,
    {
        let next = next_point(corners, previous, draws[made]);
        proof {
            lemma_walk_steps(corners@, seed, draws@.take(made as int));
            lemma_walk_extends(corners@, seed, draws@.take(made as int), draws@[made as int]);
            assert(draws@.take(made as int).push(draws@[made as int]) =~= draws@.take(made + 1));
        }
        points.push(next);
        previous = next;
        made = made + 1;
    }
    proof {
        assert(draws@.take(made as int) =~= draws@);
        lemma_walk_steps(corners@, seed, draws@);
        assert forall|i: int| 1 <= i < points@.len() implies jumps_to_corner(
            points@[i - 1],
            #[trigger] points@[i],
            corners@,
        ) by {
            lemma_walk_jumps(corners@, seed, draws@, i);
        }
    }
    Ok(points)
}

/// A number from the generator of the running thread.
///
/// Trusted, not proved: the body calls `rand::random::<usize>()`. Nothing is
/// claimed of the number: every `usize` may come back, and two calls need
/// not agree. The call takes no input, so nothing a caller does keeps it
/// from panicking where the machine fails it: when the operating system
/// gives the thread's generator no seed at its first use, or none when it
/// is seeded anew (after each 64 KiB of output, and after a fork), or when
/// the handler that notices a fork cannot be registered.
#[verifier::external_body]
fn random_draw() -> (draw: usize) {
    rand::random::<usize>()
}

/// A cloud of `count` points that starts at `seed` and jumps halfway towards
/// a corner drawn at random, once for each further point. No points are
/// asked for with a `count` of zero, and none are made. The polygon is
/// refused if it has fewer corners than a simplex of its space.
pub fn generate_points<P: GridPoint>(corners: &[P], seed: P, count: u32) -> (result: Result<
    Vec<P>,
    ParameterError,
>)
    ensures
        result is Ok <==> corners@.len() >= simplex_corners::<P>(),
        result matches Err(e) ==> e == ParameterError::TooFewCorners,
        result matches Ok(points) ==> points@.len() == count && is_cloud(points@, corners@, seed),
{
    if corners.len() < P::corner_count() {
        return Err(ParameterError::TooFewCorners);
    }
    let mut points: Vec<P> = Vec::new();
    if count == 0 {
        return Ok(points);
    }
    points.push(seed);
    let mut previous = seed;
    let mut made: u32 = 1;
    while made < count
        invariant
            1 <= made <= count,
            corners@.len() > 0,
            points@.len() == made,
            points@[0] == seed,
            previous == points@.last(),
            forall|i: int|
                1 <= i < made ==> jumps_to_corner(points@[i - 1], #[trigger] points@[i], corners@),
        decreases count - made,
    {
        let draw = random_draw();
        let next = next_point(corners, previous, draw);
        assert(jumps_to_corner(previous, next, corners@)) by {
            let j = picked(draw, corners@.len());
            assert(0 <= j < corners@.len() && next == previous.halfway(corners@[j]));
        }
        points.push(next);
        previous = next;
        made = made + 1;
    }
    Ok(points)
}

} // verus!
