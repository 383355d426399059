//! A concrete metric item type and a deterministic synthetic point cloud,
//! for exercising the engine.
//!
//! Coordinates are fixed-point integers counted in thousandths of a unit, so
//! a jitter of `[0, 1.5)` units is the integer range `[0, 1500)`.

use vstd::prelude::*;

use crate::Metrizable;
use rand::Rng;
use rand::SeedableRng;
use rand::seq::SliceRandom;

verus! {

/// A point in three dimensions; each coordinate is in thousandths of a unit.
#[derive(Clone, Copy, Debug, PartialEq, Eq, Structural)]
pub struct ThreeDimVec(pub i32, pub i32, pub i32);

/// The square of an integer.
pub open spec fn square(x: int) -> int {
    x * x
}

/// The squared euclidean distance between two points, saturating at
/// `u64::MAX`.
pub open spec fn squared_distance(some: ThreeDimVec, other: ThreeDimVec) -> u64 {
    let s = square(some.0 - other.0) + square(some.1 - other.1) + square(some.2 - other.2);
    if s > u64::MAX {
        u64::MAX
    } else {
        s as u64
    }
}

impl Metrizable for ThreeDimVec {
    type Representer = ThreeDimVec;

    open spec fn repr_spec(&self) -> ThreeDimVec {
        *self
    }

    open spec fn dist_spec(some: ThreeDimVec, other: ThreeDimVec) -> u64 {
        squared_distance(some, other)
    }

    fn representation(&self) -> (r: ThreeDimVec) {
        *self
    }

    fn distance(some: &ThreeDimVec, other: &ThreeDimVec) -> (d: u64) {
        let dx = some.0 as i64 - other.0 as i64;
        let dy = some.1 as i64 - other.1 as i64;
        let dz = some.2 as i64 - other.2 as i64;
        proof {
            lemma_square_bounds(dx as int);
            lemma_square_bounds(dy as int);
            lemma_square_bounds(dz as int);
        }
        let s = dx as i128 * dx as i128 + dy as i128 * dy as i128 + dz as i128 * dz as i128;
        if s > u64::MAX as i128 {
            u64::MAX
        } else {
            s as u64
        }
    }

    proof fn lemma_distance_symmetric(some: ThreeDimVec, other: ThreeDimVec) {
        lemma_square_symmetric(some.0 - other.0);
        lemma_square_symmetric(some.1 - other.1);
        lemma_square_symmetric(some.2 - other.2);
    }

    proof fn lemma_distance_self_zero(some: ThreeDimVec) {
    }
}

/// The square of a difference of two `i32` coordinates is non-negative and
/// fits `u64`.
proof fn lemma_square_bounds(x: int)
    requires
        -0x1_0000_0000 < x < 0x1_0000_0000,
    ensures
        0 <= square(x) <= u64::MAX,
{
    assert(0 <= x * x <= 0xffff_fffe_0000_0001) by (nonlinear_arith)
        requires
            -0x1_0000_0000 < x < 0x1_0000_0000,
    ;
}

/// Squaring ignores the sign of the difference.
proof fn lemma_square_symmetric(x: int)
    ensures
        square(x) == square(-x),
{
    assert(x * x == (-x) * (-x)) by (nonlinear_arith);
}

#[verifier::external_type_specification]
#[verifier::external_body]
pub struct ExLcg64Xsh32(rand_pcg::Lcg64Xsh32);

/// Relies on rand_core's `SeedableRng::seed_from_u64`: builds the PCG
/// generator deterministically from a seed.
#[verifier::external_body]
fn seed_rng(seed: u64) -> rand_pcg::Pcg32 {
    rand_pcg::Pcg32::seed_from_u64(seed)
}

/// Relies on rand's `Rng::random_range` over `low..high`: the sample lies
/// in the half-open range, and a non-empty range never panics.
#[verifier::external_body]
fn next_in_range(rng: &mut rand_pcg::Pcg32, low: u32, high: u32) -> (r: u32)
    requires
        low < high,
    ensures
        low <= r < high,
{
    rng.random_range(low..high)
}

/// Relies on rand's `SliceRandom::shuffle`: an in-place permutation, so the
/// multiset of points is unchanged.
#[verifier::external_body]
fn shuffle_points(points: &mut Vec<ThreeDimVec>, rng: &mut rand_pcg::Pcg32)
    ensures
        final(points)@.to_multiset() == old(points)@.to_multiset(),
        final(points)@.len() == old(points)@.len(),
{
    points.shuffle(rng)
}

/// The lowest synthetic cluster index for a center count.
pub open spec fn cloud_start(centers_count: i32) -> int {
    -(centers_count as int / 2)
}

/// The highest synthetic cluster index for a center count.
pub open spec fn cloud_end(centers_count: i32) -> int {
    if centers_count as int % 2 == 0 {
        centers_count as int / 2 - 1
    } else {
        centers_count as int / 2
    }
}

/// The exact cluster center for index `j`: `x` at three units per step,
/// `y` and `z` at zero.
pub open spec fn center_of(j: int) -> ThreeDimVec {
    ThreeDimVec((3000 * j) as i32, 0, 0)
}

/// A point of the synthetic cloud: some cluster's exact `x`, with `y` and
/// `z` jittered within `[0, 1.5)` units.
pub open spec fn cloud_point(centers_count: i32, p: ThreeDimVec) -> bool {
    exists|j: int|
        cloud_start(centers_count) <= j <= cloud_end(centers_count) && p.0 == (
        #[trigger] center_of(j)).0 && 0 <= p.1 < 1500 && 0 <= p.2 < 1500
}

/// How many points the synthetic cloud holds: one exact center plus the
/// jittered neighbors, per cluster.
pub open spec fn cloud_size(centers_count: i32, points_per_cluster: usize) -> int {
    if centers_count <= 0 {
        0
    } else {
        centers_count as int * (points_per_cluster as int + 1)
    }
}

/// A sequence that contains a point still contains it after a push.
proof fn lemma_contains_after_push(s: Seq<ThreeDimVec>, pushed: ThreeDimVec, sought: ThreeDimVec)
    requires
        s.contains(sought),
    ensures
        s.push(pushed).contains(sought),
{
    let w = choose|w: int| 0 <= w < s.len() && s[w] == sought;
    assert(s.push(pushed)[w] == sought);
}

/// Build a deterministic, shuffled synthetic point cloud: one exact center
/// per cluster at `x` multiples of three units, plus `points_per_cluster`
/// neighbors with `y` and `z` jittered in `[0, 1.5)`.
pub fn generate_cloud(centers_count: i32, points_per_cluster: usize) -> (r: Vec<ThreeDimVec>)
    requires
        centers_count <= 700_000,
        centers_count as int * (points_per_cluster as int + 1) <= usize::MAX,
    ensures
        r@.len() == cloud_size(centers_count, points_per_cluster),
        forall|t: int| 0 <= t < r@.len() ==> cloud_point(centers_count, #[trigger] r@[t]),
        forall|j: int|
            cloud_start(centers_count) <= j <= cloud_end(centers_count) ==> r@.contains(
                #[trigger] center_of(j),
            ),
{
    let mut to_cluster: Vec<ThreeDimVec> = Vec::new();
    if centers_count <= 0 {
        return to_cluster;
    }
    let half = (centers_count as u32 / 2) as i32;
    let start = -half;
    let end_inclusive = if centers_count % 2 == 0 {
        half - 1
    } else {
        half
    };
    proof {
        assert(start == cloud_start(centers_count));
        assert(end_inclusive == cloud_end(centers_count));
        assert(end_inclusive - start + 1 == centers_count);
    }
    let mut rng = seed_rng(42);
    let q = points_per_cluster;
    let mut i: i32 = start;
    while i <= end_inclusive
        invariant
            start <= i <= end_inclusive + 1,
            -350_000 <= start <= end_inclusive <= 350_000,
            q == points_per_cluster,
            to_cluster@.len() == (i - start) * (q as int + 1),
            forall|t: int|
                0 <= t < to_cluster@.len() ==> cloud_point(centers_count, #[trigger] to_cluster@[t]),
            forall|j: int| start <= j < i ==> to_cluster@.contains(#[trigger] center_of(j)),
            start == cloud_start(centers_count),
            end_inclusive == cloud_end(centers_count),
        decreases end_inclusive + 1 - i,
    {
        let center = 3000 * i;
        let ghost before_center = to_cluster@;
        to_cluster.push(ThreeDimVec(center, 0, 0));
        proof {
            assert(cloud_point(centers_count, ThreeDimVec(center, 0, 0))) by {
                assert(center_of(i as int) == ThreeDimVec(center, 0, 0));
            }
            assert forall|j: int| start <= j <= i implies to_cluster@.contains(
                #[trigger] center_of(j),
            ) by {
                if j < i {
                    lemma_contains_after_push(before_center, ThreeDimVec(center, 0, 0), center_of(j));
                } else {
                    assert(to_cluster@[before_center.len() as int] == center_of(j));
                }
            }
        }
        let mut p: usize = 0;
        while p < q
            invariant
                p <= q,
                -350_000 <= start <= end_inclusive <= 350_000,
                start <= i <= end_inclusive,
                center == 3000 * i,
                to_cluster@.len() == (i - start) * (q as int + 1) + 1 + p,
                forall|t: int|
                    0 <= t < to_cluster@.len() ==> cloud_point(
                        centers_count,
                        #[trigger] to_cluster@[t],
                    ),
                forall|j: int| start <= j <= i ==> to_cluster@.contains(#[trigger] center_of(j)),
                start == cloud_start(centers_count),
                end_inclusive == cloud_end(centers_count),
            decreases q - p,
        {
            let y = next_in_range(&mut rng, 0, 1500);
            let z = next_in_range(&mut rng, 0, 1500);
            let jittered = ThreeDimVec(center, y as i32, z as i32);
            let ghost before_jitter = to_cluster@;
            to_cluster.push(jittered);
            proof {
                assert(cloud_point(centers_count, jittered)) by {
                    assert(center_of(i as int).0 == center);
                    assert(cloud_start(centers_count) <= i as int <= cloud_end(centers_count)
                        && 0 <= jittered.1 < 1500 && 0 <= jittered.2 < 1500);
                }
                assert forall|j: int| start <= j <= i implies to_cluster@.contains(
                    #[trigger] center_of(j),
                ) by {
                    lemma_contains_after_push(before_jitter, jittered, center_of(j));
                }
            }
            p += 1;
        }
        proof {
            assert((i + 1 - start) * (q as int + 1) == (i - start) * (q as int + 1) + (q as int
                + 1)) by (nonlinear_arith);
        }
        i += 1;
    }
    proof {
        assert(to_cluster@.len() == cloud_size(centers_count, points_per_cluster));
    }
    let ghost unshuffled = to_cluster@;
    shuffle_points(&mut to_cluster, &mut rng);
    proof {
        unshuffled.to_multiset_ensures();
        to_cluster@.to_multiset_ensures();
        assert forall|t: int| 0 <= t < to_cluster@.len() implies cloud_point(
            centers_count,
            #[trigger] to_cluster@[t],
        ) by {
            assert(to_cluster@.contains(to_cluster@[t]));
            assert(to_cluster@.to_multiset().count(to_cluster@[t]) > 0);
            assert(unshuffled.contains(to_cluster@[t]));
            let w = choose|w: int| 0 <= w < unshuffled.len() && unshuffled[w] == to_cluster@[t];
            assert(cloud_point(centers_count, unshuffled[w]));
        }
        assert forall|j: int|
            cloud_start(centers_count) <= j <= cloud_end(centers_count) implies to_cluster@.contains(
            #[trigger] center_of(j),
        ) by {
            assert(unshuffled.contains(center_of(j)));
            assert(unshuffled.to_multiset().count(center_of(j)) > 0);
        }
    }
    to_cluster
}

} // verus!
