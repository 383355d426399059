//! A bounded-memory online clustering engine.
//!
//! The engine consumes a stream of items one at a time and maintains at most
//! `max_cluster_count` cluster centers that approximate a k-center partition
//! of everything seen so far. Distances are non-negative integers supplied by
//! the [`Metrizable`] capability; the adaptive merge threshold `phi` only ever
//! shrinks while the engine is still in its initialization phase and only ever
//! doubles afterwards.

use vstd::prelude::*;

pub mod example;

verus! {

/// The metric capability an item type must provide to be clustered.
///
/// `representation` turns an item into the numeric value distances are
/// computed from; `distance` compares two such representations. Both must be
/// pure functions of their arguments, which the two spec functions pin down.
/// The capability must be symmetric and assign distance zero to a pair of
/// equal representations; the engine never relies on the triangle inequality.
pub trait Metrizable: Sized {
    type Representer;

    /// The representation of `self`, as a mathematical value.
    spec fn repr_spec(&self) -> Self::Representer;

    /// The distance between two representations, as a mathematical value.
    spec fn dist_spec(some: Self::Representer, other: Self::Representer) -> u64;

    fn representation(&self) -> (r: Self::Representer)
        ensures
            r == self.repr_spec(),
    ;

    fn distance(some: &Self::Representer, other: &Self::Representer) -> (d: u64)
        ensures
            d == Self::dist_spec(*some, *other),
    ;

    /// Distances do not depend on argument order.
    proof fn lemma_distance_symmetric(some: Self::Representer, other: Self::Representer)
        ensures
            Self::dist_spec(some, other) == Self::dist_spec(other, some),
    ;

    /// A representation is at distance zero from itself.
    proof fn lemma_distance_self_zero(some: Self::Representer)
        ensures
            Self::dist_spec(some, some) == 0,
    ;
}

/// One maintained cluster center: a canonical item, its cached
/// representation, and the count of stream elements folded into it.
pub struct ClusterPoint<T: Metrizable> {
    pub item: T,
    pub repr: T::Representer,
    pub weight: usize,
}

impl<T: Metrizable> ClusterPoint<T> {
    pub fn new(item: T, repr: T::Representer) -> (r: Self)
        ensures
            r.item == item,
            r.repr == repr,
            r.weight == 1,
    {
        Self { item, repr, weight: 1 }
    }

    pub fn item(self) -> (r: T)
        ensures
            r == self.item,
    {
        self.item
    }

    pub fn add_point(&mut self)
        requires
            old(self).weight < usize::MAX,
        ensures
            final(self).weight == old(self).weight + 1,
            final(self).item == old(self).item,
            final(self).repr == old(self).repr,
    {
        self.weight += 1;
    }

    pub fn merge_point(&mut self, other_cluster: &ClusterPoint<T>)
        requires
            old(self).weight + other_cluster.weight <= usize::MAX,
        ensures
            final(self).weight == old(self).weight + other_cluster.weight,
            final(self).item == old(self).item,
            final(self).repr == old(self).repr,
    {
        self.weight += other_cluster.weight;
    }

    pub fn repr(&self) -> (r: &T::Representer)
        ensures
            *r == self.repr,
    {
        &self.repr
    }
}

/// The smaller of two distances.
pub open spec fn min_u64(a: u64, b: u64) -> u64 {
    if a <= b {
        a
    } else {
        b
    }
}

/// The merge radius `4 * phi`, saturating at `u64::MAX`.
pub open spec fn merge_threshold(phi: u64) -> u64 {
    if phi > u64::MAX / 4 {
        u64::MAX
    } else {
        (4 * phi) as u64
    }
}

/// The doubled threshold `2 * phi`, saturating at `u64::MAX`.
pub open spec fn doubled_phi(phi: u64) -> u64 {
    if phi > u64::MAX / 2 {
        u64::MAX
    } else {
        (2 * phi) as u64
    }
}

/// Total weight carried by a sequence of centers.
pub open spec fn sum_weights<T: Metrizable>(s: Seq<ClusterPoint<T>>) -> nat
    decreases s.len(),
{
    if s.len() == 0 {
        0
    } else {
        sum_weights(s.drop_last()) + s.last().weight as nat
    }
}

/// Every center carries at least one folded stream element.
pub open spec fn weights_pos<T: Metrizable>(s: Seq<ClusterPoint<T>>) -> bool {
    forall|i: int| 0 <= i < s.len() ==> #[trigger] s[i].weight >= 1
}

/// Every center caches the representation of its own canonical item.
pub open spec fn reprs_cached<T: Metrizable>(s: Seq<ClusterPoint<T>>) -> bool {
    forall|i: int| 0 <= i < s.len() ==> #[trigger] s[i].repr == s[i].item.repr_spec()
}

/// The minimum distance from `q` to any center of `s` (`u64::MAX` when `s`
/// is empty, matching the sentinel the threshold starts from).
pub open spec fn min_distance_spec<T: Metrizable>(s: Seq<ClusterPoint<T>>, q: T::Representer) -> u64
    decreases s.len(),
{
    if s.len() == 0 {
        u64::MAX
    } else {
        min_u64(min_distance_spec(s.drop_last(), q), T::dist_spec(s.last().repr, q))
    }
}

/// The index of the center of `s` nearest to `q`; among equally near
/// centers the first one encountered wins.
pub open spec fn nearest_index<T: Metrizable>(s: Seq<ClusterPoint<T>>, q: T::Representer) -> int
    decreases s.len(),
{
    if s.len() <= 1 {
        0
    } else {
        let j = nearest_index(s.drop_last(), q);
        if T::dist_spec(s.last().repr, q) < T::dist_spec(s[j].repr, q) {
            s.len() - 1
        } else {
            j
        }
    }
}

/// The centers of `s` that lie strictly outside radius `threshold` around
/// `q`, in the order a drain from the back visits them.
pub open spec fn kept_of<T: Metrizable>(
    s: Seq<ClusterPoint<T>>,
    q: T::Representer,
    threshold: u64,
) -> Seq<ClusterPoint<T>>
    decreases s.len(),
{
    if s.len() == 0 {
        Seq::empty()
    } else if T::dist_spec(q, s.last().repr) > threshold {
        seq![s.last()] + kept_of(s.drop_last(), q, threshold)
    } else {
        kept_of(s.drop_last(), q, threshold)
    }
}

/// The total weight of the centers of `s` within radius `threshold` of `q`.
pub open spec fn absorbed_of<T: Metrizable>(
    s: Seq<ClusterPoint<T>>,
    q: T::Representer,
    threshold: u64,
) -> nat
    decreases s.len(),
{
    if s.len() == 0 {
        0
    } else if T::dist_spec(q, s.last().repr) > threshold {
        absorbed_of(s.drop_last(), q, threshold)
    } else {
        absorbed_of(s.drop_last(), q, threshold) + s.last().weight as nat
    }
}

/// One full compaction pass: repeatedly take the last active center, fold
/// the weight of every active center within `threshold` of it into it, and
/// accumulate it; the accumulator becomes the new center set.
pub open spec fn merge_pass<T: Metrizable>(
    active: Seq<ClusterPoint<T>>,
    acc: Seq<ClusterPoint<T>>,
    threshold: u64,
) -> Seq<ClusterPoint<T>>
    decreases active.len(),
    via merge_pass_decreases::<T>
{
    if active.len() == 0 {
        acc
    } else {
        let c = active.last();
        let rest = active.drop_last();
        let heavier = ClusterPoint {
            item: c.item,
            repr: c.repr,
            weight: (c.weight + absorbed_of(rest, c.repr, threshold)) as usize,
        };
        merge_pass(kept_of(rest, c.repr, threshold), acc.push(heavier), threshold)
    }
}

#[via_fn]
proof fn merge_pass_decreases<T: Metrizable>(
    active: Seq<ClusterPoint<T>>,
    acc: Seq<ClusterPoint<T>>,
    threshold: u64,
) {
    if active.len() > 0 {
        let c = active.last();
        lemma_kept_props(active.drop_last(), c.repr, threshold);
    }
}

/// The compaction step: a no-op while the bound holds, otherwise one
/// doubling of `phi` followed by one full merge pass at the new radius.
pub open spec fn spec_merge_rule<T: Metrizable>(
    centers: Seq<ClusterPoint<T>>,
    phi: u64,
    k: usize,
) -> (Seq<ClusterPoint<T>>, u64) {
    if centers.len() <= k {
        (centers, phi)
    } else {
        let grown_phi = doubled_phi(phi);
        (merge_pass(centers, Seq::empty(), merge_threshold(grown_phi)), grown_phi)
    }
}

/// The full effect of one insertion on `(initialization_phase, centers,
/// phi)`. During initialization the item becomes its own center and `phi`
/// shrinks towards the minimum pairwise distance seen; afterwards the item
/// is folded into the nearest center within `4 * phi` or pushed as a new
/// center, and the compaction step runs.
pub open spec fn spec_add_result<T: Metrizable>(
    init: bool,
    k: usize,
    centers: Seq<ClusterPoint<T>>,
    phi: u64,
    item: T,
) -> (bool, Seq<ClusterPoint<T>>, u64) {
    let q = item.repr_spec();
    if init && centers.len() <= k {
        (
            true,
            centers.push(ClusterPoint { item, repr: q, weight: 1 }),
            min_u64(phi, min_distance_spec(centers, q)),
        )
    } else {
        let j = nearest_index(centers, q);
        let grown = if T::dist_spec(centers[j].repr, q) <= merge_threshold(phi) {
            centers.update(
                j,
                ClusterPoint {
                    item: centers[j].item,
                    repr: centers[j].repr,
                    weight: (centers[j].weight + 1) as usize,
                },
            )
        } else {
            centers.push(ClusterPoint { item, repr: q, weight: 1 })
        };
        let merged = spec_merge_rule(grown, phi, k);
        (false, merged.0, merged.1)
    }
}

/// Appending a center adds its weight to the total.
proof fn lemma_sum_weights_push<T: Metrizable>(s: Seq<ClusterPoint<T>>, c: ClusterPoint<T>)
    ensures
        sum_weights(s.push(c)) == sum_weights(s) + c.weight as nat,
{
    assert(s.push(c).drop_last() =~= s);
}

/// Prepending a center adds its weight to the total.
proof fn lemma_sum_weights_prepend<T: Metrizable>(c: ClusterPoint<T>, s: Seq<ClusterPoint<T>>)
    ensures
        sum_weights(seq![c] + s) == c.weight as nat + sum_weights(s),
    decreases s.len(),
{
    if s.len() == 0 {
        assert(seq![c] + s =~= seq![c]);
        assert(seq![c].drop_last() =~= Seq::<ClusterPoint<T>>::empty());
        assert(sum_weights(Seq::<ClusterPoint<T>>::empty()) == 0);
        assert(seq![c].last() == c);
    } else {
        lemma_sum_weights_prepend(c, s.drop_last());
        assert((seq![c] + s).drop_last() =~= seq![c] + s.drop_last());
        assert((seq![c] + s).last() == s.last());
    }
}

/// Replacing one center changes the total weight by the difference.
proof fn lemma_sum_weights_update<T: Metrizable>(
    s: Seq<ClusterPoint<T>>,
    j: int,
    c: ClusterPoint<T>,
)
    requires
        0 <= j < s.len(),
    ensures
        sum_weights(s.update(j, c)) + s[j].weight as nat == sum_weights(s) + c.weight as nat,
    decreases s.len(),
{
    if j == s.len() - 1 {
        assert(s.update(j, c).drop_last() =~= s.drop_last());
        assert(s.update(j, c).last() == c);
    } else {
        lemma_sum_weights_update(s.drop_last(), j, c);
        assert(s.update(j, c).drop_last() =~= s.drop_last().update(j, c));
        assert(s.update(j, c).last() == s.last());
    }
}

/// No single center outweighs the whole collection.
proof fn lemma_weight_le_sum<T: Metrizable>(s: Seq<ClusterPoint<T>>, i: int)
    requires
        0 <= i < s.len(),
    ensures
        s[i].weight as nat <= sum_weights(s),
    decreases s.len(),
{
    if i < s.len() - 1 {
        lemma_weight_le_sum(s.drop_last(), i);
    }
}

/// The nearest index is in bounds, realizes the minimum distance, and no
/// center is nearer.
proof fn lemma_nearest_index_props<T: Metrizable>(s: Seq<ClusterPoint<T>>, q: T::Representer)
    requires
        s.len() > 0,
    ensures
        0 <= nearest_index(s, q) < s.len(),
        T::dist_spec(s[nearest_index(s, q)].repr, q) == min_distance_spec(s, q),
        forall|i: int|
            0 <= i < s.len() ==> #[trigger] T::dist_spec(s[i].repr, q) >= min_distance_spec(s, q),
    decreases s.len(),
{
    if s.len() == 1 {
        assert(s.drop_last().len() == 0);
        assert(min_distance_spec(s.drop_last(), q) == u64::MAX);
        assert(s.last() == s[0]);
    } else {
        lemma_nearest_index_props(s.drop_last(), q);
        assert(forall|i: int| 0 <= i < s.len() - 1 ==> s.drop_last()[i] == s[i]);
        let j = nearest_index(s.drop_last(), q);
        assert(s.drop_last()[j] == s[j]);
    }
}

/// What one absorption step leaves behind: the survivors keep their order
/// and weight, everything else hands its weight to the absorber.
proof fn lemma_kept_props<T: Metrizable>(s: Seq<ClusterPoint<T>>, q: T::Representer, threshold: u64)
    ensures
        kept_of(s, q, threshold).len() <= s.len(),
        sum_weights(kept_of(s, q, threshold)) + absorbed_of(s, q, threshold) == sum_weights(s),
        forall|i: int|
            0 <= i < kept_of(s, q, threshold).len() ==> s.contains(
                #[trigger] kept_of(s, q, threshold)[i],
            ),
        forall|i: int|
            0 <= i < kept_of(s, q, threshold).len() ==> T::dist_spec(
                q,
                (#[trigger] kept_of(s, q, threshold)[i]).repr,
            ) > threshold,
        weights_pos(s) ==> weights_pos(kept_of(s, q, threshold)),
        reprs_cached(s) ==> reprs_cached(kept_of(s, q, threshold)),
    decreases s.len(),
{
    if s.len() == 0 {
    } else {
        let rest = s.drop_last();
        lemma_kept_props(rest, q, threshold);
        assert(forall|i: int| 0 <= i < rest.len() ==> rest[i] == s[i]);
        assert(forall|x: ClusterPoint<T>| rest.contains(x) ==> s.contains(x));
        if T::dist_spec(q, s.last().repr) > threshold {
            lemma_sum_weights_prepend(s.last(), kept_of(rest, q, threshold));
            assert(forall|i: int|
                1 <= i < kept_of(s, q, threshold).len() ==> kept_of(s, q, threshold)[i] == kept_of(
                    rest,
                    q,
                    threshold,
                )[i - 1]);
            assert(kept_of(s, q, threshold)[0] == s.last());
            assert(s.contains(s.last()));
        }
    }
}

/// The merge pass conserves total weight, keeps every weight positive and
/// every representation cached, and never produces more centers than it was
/// given.
proof fn lemma_merge_pass_props<T: Metrizable>(
    active: Seq<ClusterPoint<T>>,
    acc: Seq<ClusterPoint<T>>,
    threshold: u64,
)
    requires
        sum_weights(active) + sum_weights(acc) <= usize::MAX,
    ensures
        sum_weights(merge_pass(active, acc, threshold)) == sum_weights(active) + sum_weights(acc),
        acc.len() <= merge_pass(active, acc, threshold).len() <= acc.len() + active.len(),
        active.len() > 0 ==> merge_pass(active, acc, threshold).len() >= acc.len() + 1,
        weights_pos(active) && weights_pos(acc) ==> weights_pos(merge_pass(active, acc, threshold)),
        reprs_cached(active) && reprs_cached(acc) ==> reprs_cached(
            merge_pass(active, acc, threshold),
        ),
    decreases active.len(),
{
    if active.len() == 0 {
    } else {
        let c = active.last();
        let rest = active.drop_last();
        lemma_kept_props(rest, c.repr, threshold);
        lemma_weight_le_sum(active, active.len() - 1);
        let heavier = ClusterPoint {
            item: c.item,
            repr: c.repr,
            weight: (c.weight + absorbed_of(rest, c.repr, threshold)) as usize,
        };
        assert(c.weight + absorbed_of(rest, c.repr, threshold) <= sum_weights(active));
        lemma_sum_weights_push(acc, heavier);
        let kept = kept_of(rest, c.repr, threshold);
        assert(sum_weights(kept) + sum_weights(acc.push(heavier)) == sum_weights(active)
            + sum_weights(acc));
        lemma_merge_pass_props(kept, acc.push(heavier), threshold);
        if weights_pos(active) && weights_pos(acc) {
            assert(weights_pos(acc.push(heavier))) by {
                assert(forall|i: int|
                    0 <= i < acc.len() ==> acc.push(heavier)[i] == #[trigger] acc[i]);
                assert(active[active.len() - 1].weight >= 1);
                assert(acc.push(heavier)[acc.len() as int] == heavier);
            }
        }
        if reprs_cached(active) && reprs_cached(acc) {
            assert(reprs_cached(acc.push(heavier))) by {
                assert(forall|i: int|
                    0 <= i < acc.len() ==> acc.push(heavier)[i] == #[trigger] acc[i]);
                assert(active[active.len() - 1].repr == active[active.len() - 1].item.repr_spec());
                assert(acc.push(heavier)[acc.len() as int] == heavier);
            }
        }
    }
}

/// The streaming cluster engine: a bounded set of centers, the capacity
/// bound, the phase flag, and the adaptive threshold `phi`.
///
/// The threshold discipline is: `phi` starts from the `u64::MAX` sentinel,
/// and the phase transition is checked at the start of each insertion, so
/// the engine leaves the initialization phase on the first insertion that
/// finds the center count already above the bound (the initialization phase
/// thus produces `max_cluster_count + 1` centers before the first
/// compaction).
///
/// `inserted` is a ghost count of the stream elements folded in so far; the
/// well-formedness invariant ties it to the total weight of the centers.
pub struct StreamingCluster<T: Metrizable> {
    pub initialization_phase: bool,
    pub max_cluster_count: usize,
    pub clusters_centers: Vec<ClusterPoint<T>>,
    pub phi: u64,
    pub inserted: Ghost<nat>,
}

impl<T: Metrizable> StreamingCluster<T> {
    /// The engine's internal invariant: positive weights, cached
    /// representations, total weight equal to the number of insertions, and
    /// a non-empty center set once the initialization phase is over.
    pub open spec fn wf(self) -> bool {
        &&& weights_pos(self.clusters_centers@)
        &&& reprs_cached(self.clusters_centers@)
        &&& sum_weights(self.clusters_centers@) == self.inserted@
        &&& self.inserted@ <= usize::MAX
        &&& (!self.initialization_phase ==> self.clusters_centers@.len() >= 1)
    }

    pub fn new(max_cluster_count: usize) -> (r: Self)
        ensures
            r.wf(),
            r.initialization_phase == true,
            r.max_cluster_count == max_cluster_count,
            r.clusters_centers@ == Seq::<ClusterPoint<T>>::empty(),
            r.phi == u64::MAX,
            r.inserted@ == 0,
    {
        Self {
            initialization_phase: true,
            max_cluster_count,
            clusters_centers: Vec::new(),
            phi: u64::MAX,
            inserted: Ghost(0),
        }
    }

    /// The smallest distance from `repr` to any existing center, or `None`
    /// when there is no center yet.
    fn min_distance(&self, repr: &T::Representer) -> (r: Option<u64>)
        ensures
            self.clusters_centers@.len() == 0 ==> r == None::<u64>,
            self.clusters_centers@.len() > 0 ==> r == Some(
                min_distance_spec(self.clusters_centers@, *repr),
            ),
    {
        let n = self.clusters_centers.len();
        if n == 0 {
            return None;
        }
        let mut best: u64 = T::distance(&self.clusters_centers[0].repr, repr);
        proof {
            assert(self.clusters_centers@.take(1).drop_last() =~= Seq::<
                ClusterPoint<T>,
            >::empty());
            assert(self.clusters_centers@.take(1).last() == self.clusters_centers@[0]);
            assert(min_distance_spec(Seq::<ClusterPoint<T>>::empty(), *repr) == u64::MAX);
        }
        let mut i: usize = 1;
        while i < n
            invariant
                1 <= i <= n,
                n == self.clusters_centers@.len(),
                best == min_distance_spec(self.clusters_centers@.take(i as int), *repr),
            decreases n - i,
        {
            let d = T::distance(&self.clusters_centers[i].repr, repr);
            proof {
                assert(self.clusters_centers@.take(i + 1).drop_last() =~= self.clusters_centers@.take(
                    i as int,
                ));
                assert(self.clusters_centers@.take(i + 1).last() == self.clusters_centers@[i as int]);
            }
            if d < best {
                best = d;
            }
            i += 1;
        }
        proof {
            assert(self.clusters_centers@.take(n as int) =~= self.clusters_centers@);
        }
        Some(best)
    }

    /// The compaction step: while the center count exceeds the capacity
    /// bound, double `phi` once and run one full merge pass at the doubled
    /// radius, folding every pair of centers within `4 * phi` of each other.
    fn merge_rule(&mut self)
        requires
            weights_pos(old(self).clusters_centers@),
            reprs_cached(old(self).clusters_centers@),
            sum_weights(old(self).clusters_centers@) <= usize::MAX,
        ensures
            final(self).initialization_phase == old(self).initialization_phase,
            final(self).max_cluster_count == old(self).max_cluster_count,
            final(self).inserted == old(self).inserted,
            final(self).clusters_centers@ == spec_merge_rule(
                old(self).clusters_centers@,
                old(self).phi,
                old(self).max_cluster_count,
            ).0,
            final(self).phi == spec_merge_rule(
                old(self).clusters_centers@,
                old(self).phi,
                old(self).max_cluster_count,
            ).1,
    {
        if self.clusters_centers.len() <= self.max_cluster_count {
            return;
        }
        self.phi = grow_phi(self.phi);
        let threshold = merge_radius(self.phi);
        let ghost c0 = self.clusters_centers@;
        let ghost k0 = self.max_cluster_count;
        let ghost init0 = self.initialization_phase;
        let ghost ins0 = self.inserted@;
        let ghost phi1 = self.phi;
        let mut merged_centers: Vec<ClusterPoint<T>> = Vec::new();
        proof {
            assert(merged_centers@ =~= Seq::<ClusterPoint<T>>::empty());
        }
        while self.clusters_centers.len() > 0
            invariant
                self.initialization_phase == init0,
                self.max_cluster_count == k0,
                self.inserted@ == ins0,
                self.phi == phi1,
                weights_pos(self.clusters_centers@),
                reprs_cached(self.clusters_centers@),
                weights_pos(merged_centers@),
                reprs_cached(merged_centers@),
                sum_weights(self.clusters_centers@) + sum_weights(merged_centers@) == sum_weights(
                    c0,
                ),
                sum_weights(c0) <= usize::MAX,
                merge_pass(self.clusters_centers@, merged_centers@, threshold) == merge_pass(
                    c0,
                    Seq::empty(),
                    threshold,
                ),
            decreases self.clusters_centers@.len(),
        {
            let ghost active_pre = self.clusters_centers@;
            let mut center_to_check = self.clusters_centers.pop().unwrap();
            let ghost c = active_pre.last();
            let ghost rest0 = self.clusters_centers@;
            let ghost w0 = center_to_check.weight as nat;
            proof {
                assert(rest0 =~= active_pre.drop_last());
                assert(sum_weights(active_pre) == sum_weights(rest0) + c.weight as nat);
            }
            let mut kept: Vec<ClusterPoint<T>> = Vec::new();
            proof {
                assert(kept@ =~= Seq::<ClusterPoint<T>>::empty());
                assert(kept_of(rest0, c.repr, threshold) =~= kept@ + kept_of(
                    self.clusters_centers@,
                    c.repr,
                    threshold,
                ));
            }
            while self.clusters_centers.len() > 0
                invariant
                    self.initialization_phase == init0,
                    self.max_cluster_count == k0,
                    self.inserted@ == ins0,
                    self.phi == phi1,
                    center_to_check.item == c.item,
                    center_to_check.repr == c.repr,
                    weights_pos(self.clusters_centers@),
                    reprs_cached(self.clusters_centers@),
                    weights_pos(kept@),
                    reprs_cached(kept@),
                    weights_pos(merged_centers@),
                    reprs_cached(merged_centers@),
                    kept_of(rest0, c.repr, threshold) == kept@ + kept_of(
                        self.clusters_centers@,
                        c.repr,
                        threshold,
                    ),
                    center_to_check.weight as nat + absorbed_of(
                        self.clusters_centers@,
                        c.repr,
                        threshold,
                    ) == w0 + absorbed_of(rest0, c.repr, threshold),
                    kept@.len() + self.clusters_centers@.len() <= rest0.len(),
                    sum_weights(self.clusters_centers@) + sum_weights(kept@)
                        + center_to_check.weight as nat + sum_weights(merged_centers@)
                        == sum_weights(c0),
                    sum_weights(c0) <= usize::MAX,
                decreases self.clusters_centers@.len(),
            {
                let ghost a_pre = self.clusters_centers@;
                let other_center = self.clusters_centers.pop().unwrap();
                proof {
                    assert(self.clusters_centers@ =~= a_pre.drop_last());
                    assert(sum_weights(a_pre) == sum_weights(a_pre.drop_last())
                        + a_pre.last().weight as nat);
                }
                let distance = T::distance(center_to_check.repr(), other_center.repr());
                if distance > threshold {
                    let ghost kept_pre = kept@;
                    kept.push(other_center);
                    proof {
                        lemma_sum_weights_push(kept_pre, other_center);
                        assert(kept@ + kept_of(self.clusters_centers@, c.repr, threshold)
                            =~= kept_pre + (seq![other_center] + kept_of(
                            self.clusters_centers@,
                            c.repr,
                            threshold,
                        )));
                    }
                } else {
                    proof {
                        assert(center_to_check.weight + other_center.weight <= sum_weights(c0));
                    }
                    center_to_check.merge_point(&other_center);
                }
            }
            proof {
                assert(kept_of(Seq::<ClusterPoint<T>>::empty(), c.repr, threshold)
                    =~= Seq::<ClusterPoint<T>>::empty());
                assert(absorbed_of(Seq::<ClusterPoint<T>>::empty(), c.repr, threshold) == 0);
                assert(kept@ + Seq::<ClusterPoint<T>>::empty() =~= kept@);
                assert(kept@ == kept_of(rest0, c.repr, threshold));
            }
            self.clusters_centers = kept;
            let ghost heavier = ClusterPoint {
                item: c.item,
                repr: c.repr,
                weight: (c.weight + absorbed_of(rest0, c.repr, threshold)) as usize,
            };
            proof {
                assert(center_to_check.weight as nat == w0 + absorbed_of(
                    rest0,
                    c.repr,
                    threshold,
                ));
                assert(center_to_check.weight as nat <= sum_weights(c0));
                assert(center_to_check == heavier);
                lemma_sum_weights_push(merged_centers@, center_to_check);
                assert(merge_pass(active_pre, merged_centers@, threshold) == merge_pass(
                    kept_of(rest0, c.repr, threshold),
                    merged_centers@.push(heavier),
                    threshold,
                ));
                assert(weights_pos(merged_centers@.push(center_to_check))) by {
                    assert(forall|i: int|
                        0 <= i < merged_centers@.len() ==> merged_centers@.push(center_to_check)[i]
                            == #[trigger] merged_centers@[i]);
                    assert(active_pre[active_pre.len() - 1].weight >= 1);
                    assert(merged_centers@.push(center_to_check)[merged_centers@.len() as int]
                        == center_to_check);
                }
                assert(reprs_cached(merged_centers@.push(center_to_check))) by {
                    assert(forall|i: int|
                        0 <= i < merged_centers@.len() ==> merged_centers@.push(center_to_check)[i]
                            == #[trigger] merged_centers@[i]);
                    assert(active_pre[active_pre.len() - 1].repr == active_pre[active_pre.len()
                        - 1].item.repr_spec());
                    assert(merged_centers@.push(center_to_check)[merged_centers@.len() as int]
                        == center_to_check);
                }
            }
            merged_centers.push(center_to_check);
        }
        proof {
            assert(merge_pass(self.clusters_centers@, merged_centers@, threshold)
                == merged_centers@);
        }
        self.clusters_centers = merged_centers;
    }

    /// Ingest one stream element.
    ///
    /// The new state is exactly [`spec_add_result`] of the old state, so the
    /// engine is a deterministic function of its input sequence. One
    /// insertion adds exactly one to the total center weight, creates at most
    /// one extra center, and never lowers `phi` once the initialization
    /// phase is over (nor raises it while that phase lasts).
    pub fn add(&mut self, item: T)
        requires
            old(self).wf(),
            old(self).inserted@ < usize::MAX,
        ensures
            final(self).wf(),
            final(self).max_cluster_count == old(self).max_cluster_count,
            final(self).inserted@ == old(self).inserted@ + 1,
            ({
                let step = spec_add_result(
                    old(self).initialization_phase,
                    old(self).max_cluster_count,
                    old(self).clusters_centers@,
                    old(self).phi,
                    item,
                );
                final(self).initialization_phase == step.0 && final(self).clusters_centers@
                    == step.1 && final(self).phi == step.2
            }),
            sum_weights(final(self).clusters_centers@) == sum_weights(old(self).clusters_centers@)
                + 1,
            final(self).clusters_centers@.len() <= old(self).clusters_centers@.len() + 1,
            !old(self).initialization_phase ==> !final(self).initialization_phase,
            !old(self).initialization_phase ==> final(self).phi >= old(self).phi,
            old(self).initialization_phase && final(self).initialization_phase ==> final(self).phi
                <= old(self).phi,
    {
        let ghost init0 = self.initialization_phase;
        let ghost k0 = self.max_cluster_count;
        let ghost c0 = self.clusters_centers@;
        let ghost phi0 = self.phi;
        let ghost ins0 = self.inserted@;
        let repr = item.representation();
        if self.initialization_phase && self.clusters_centers.len() > self.max_cluster_count {
            self.initialization_phase = false;
        }

        if self.initialization_phase {
            let md = self.min_distance(&repr);
            if let Some(min_dist) = md {
                if min_dist < self.phi {
                    self.phi = min_dist;
                }
            }
            let ghost c_new = ClusterPoint { item, repr: item.repr_spec(), weight: 1 as usize };
            self.clusters_centers.push(ClusterPoint::new(item, repr));
            self.inserted = Ghost(self.inserted@ + 1);
            proof {
                lemma_sum_weights_push(c0, c_new);
                assert(weights_pos(self.clusters_centers@)) by {
                    assert(forall|i: int| 0 <= i < c0.len() ==> c0.push(c_new)[i] == #[trigger] c0[i]);
                    assert(c0.push(c_new)[c0.len() as int] == c_new);
                }
                assert(reprs_cached(self.clusters_centers@)) by {
                    assert(forall|i: int| 0 <= i < c0.len() ==> c0.push(c_new)[i] == #[trigger] c0[i]);
                    assert(c0.push(c_new)[c0.len() as int] == c_new);
                }
            }
            return;
        }

        // Past the initialization phase the center set is never empty.
        assert(self.clusters_centers@.len() >= 1);
        let n = self.clusters_centers.len();
        let mut best_index: usize = 0;
        let mut best_distance: u64 = T::distance(&self.clusters_centers[0].repr, &repr);
        proof {
            assert(self.clusters_centers@.take(1) =~= seq![self.clusters_centers@[0]]);
            assert(nearest_index(self.clusters_centers@.take(1), item.repr_spec()) == 0);
            assert(self.clusters_centers@.take(1)[0] == self.clusters_centers@[0]);
        }
        let mut i: usize = 1;
        while i < n
            invariant
                1 <= i <= n,
                n == self.clusters_centers@.len(),
                self.initialization_phase == false,
                self.max_cluster_count == k0,
                self.clusters_centers@ == c0,
                self.phi == phi0,
                self.inserted@ == ins0,
                repr == item.repr_spec(),
                best_index < i,
                best_index as int == nearest_index(
                    self.clusters_centers@.take(i as int),
                    item.repr_spec(),
                ),
                best_distance == T::dist_spec(
                    self.clusters_centers@[best_index as int].repr,
                    item.repr_spec(),
                ),
            decreases n - i,
        {
            let d = T::distance(&self.clusters_centers[i].repr, &repr);
            proof {
                let pre = self.clusters_centers@.take(i as int);
                let cur = self.clusters_centers@.take(i + 1);
                assert(cur.drop_last() =~= pre);
                assert(cur.last() == self.clusters_centers@[i as int]);
                assert(cur[nearest_index(pre, item.repr_spec())] == pre[nearest_index(
                    pre,
                    item.repr_spec(),
                )]);
                lemma_nearest_index_props(pre, item.repr_spec());
            }
            if d < best_distance {
                best_index = i;
                best_distance = d;
            }
            i += 1;
        }
        proof {
            assert(self.clusters_centers@.take(n as int) =~= self.clusters_centers@);
        }

        let radius = merge_radius(self.phi);
        if best_distance <= radius {
            proof {
                lemma_weight_le_sum(self.clusters_centers@, best_index as int);
            }
            let center = &mut self.clusters_centers[best_index];
            center.add_point();
            proof {
                lemma_sum_weights_update(
                    c0,
                    best_index as int,
                    self.clusters_centers@[best_index as int],
                );
                assert(weights_pos(self.clusters_centers@)) by {
                    assert(forall|j: int|
                        0 <= j < c0.len() && j != best_index as int
                            ==> self.clusters_centers@[j] == #[trigger] c0[j]);
                }
                assert(reprs_cached(self.clusters_centers@)) by {
                    assert(forall|j: int|
                        0 <= j < c0.len() && j != best_index as int
                            ==> self.clusters_centers@[j] == #[trigger] c0[j]);
                }
            }
        } else {
            let ghost c_new = ClusterPoint { item, repr: item.repr_spec(), weight: 1 as usize };
            self.clusters_centers.push(ClusterPoint::new(item, repr));
            proof {
                lemma_sum_weights_push(c0, c_new);
                assert(weights_pos(self.clusters_centers@)) by {
                    assert(forall|j: int| 0 <= j < c0.len() ==> c0.push(c_new)[j] == #[trigger] c0[j]);
                    assert(c0.push(c_new)[c0.len() as int] == c_new);
                }
                assert(reprs_cached(self.clusters_centers@)) by {
                    assert(forall|j: int| 0 <= j < c0.len() ==> c0.push(c_new)[j] == #[trigger] c0[j]);
                    assert(c0.push(c_new)[c0.len() as int] == c_new);
                }
            }
        }
        self.inserted = Ghost(self.inserted@ + 1);
        let ghost grown = self.clusters_centers@;
        self.merge_rule();
        proof {
            if grown.len() > k0 {
                lemma_merge_pass_props(
                    grown,
                    Seq::<ClusterPoint<T>>::empty(),
                    merge_threshold(doubled_phi(phi0)),
                );
            }
        }
    }

    /// Drain the engine and return the canonical item of every surviving
    /// center.
    pub fn cluster_points(self) -> (r: Vec<T>)
        ensures
            r@ == extracted_items(self.clusters_centers@),
    {
        let ghost c0 = self.clusters_centers@;
        let mut centers = self.clusters_centers;
        let mut out: Vec<T> = Vec::new();
        while centers.len() > 0
            invariant
                out@.len() + centers@.len() == c0.len(),
                centers@ == c0.skip(out@.len() as int),
                forall|i: int| 0 <= i < out@.len() ==> out@[i] == #[trigger] c0[i].item,
            decreases centers@.len(),
        {
            let ghost done = out@.len() as int;
            let next = centers.remove(0);
            proof {
                assert(centers@ =~= c0.skip(done + 1));
                assert(next == c0[done]);
            }
            out.push(next.item());
        }
        proof {
            assert(out@ =~= extracted_items(c0));
        }
        out
    }

    /// Read the canonical item of every current center without disturbing
    /// the engine; extraction stays available afterwards.
    pub fn current_items(&self) -> (r: Vec<&T>)
        ensures
            r@.len() == self.clusters_centers@.len(),
            forall|i: int| 0 <= i < r@.len() ==> *(#[trigger] r@[i]) == self.clusters_centers@[i].item,
    {
        let mut out: Vec<&T> = Vec::new();
        let mut i: usize = 0;
        let n = self.clusters_centers.len();
        while i < n
            invariant
                i <= n,
                n == self.clusters_centers@.len(),
                out@.len() == i,
                forall|j: int|
                    0 <= j < out@.len() ==> *(#[trigger] out@[j]) == self.clusters_centers@[j].item,
            decreases n - i,
        {
            out.push(&self.clusters_centers[i].item);
            i += 1;
        }
        out
    }

    /// The accumulated weight of every current center, in center order.
    pub fn center_weights(&self) -> (r: Vec<usize>)
        ensures
            r@ == self.clusters_centers@.map_values(|c: ClusterPoint<T>| c.weight),
    {
        let mut out: Vec<usize> = Vec::new();
        let mut i: usize = 0;
        let n = self.clusters_centers.len();
        while i < n
            invariant
                i <= n,
                n == self.clusters_centers@.len(),
                out@.len() == i,
                forall|j: int| 0 <= j < out@.len() ==> out@[j] == #[trigger] self.clusters_centers@[j].weight,
            decreases n - i,
        {
            out.push(self.clusters_centers[i].weight);
            i += 1;
        }
        proof {
            assert(out@ =~= self.clusters_centers@.map_values(|c: ClusterPoint<T>| c.weight));
        }
        out
    }
}

/// The canonical items of a center sequence, one per center, in order.
pub open spec fn extracted_items<T: Metrizable>(centers: Seq<ClusterPoint<T>>) -> Seq<T> {
    centers.map_values(|c: ClusterPoint<T>| c.item)
}

/// Every two distinct centers lie strictly more than `threshold` apart.
pub open spec fn pairwise_separated<T: Metrizable>(
    s: Seq<ClusterPoint<T>>,
    threshold: u64,
) -> bool {
    forall|i: int, j: int|
        #![trigger s[i], s[j]]
        0 <= i < s.len() && 0 <= j < s.len() && i != j ==> T::dist_spec(s[i].repr, s[j].repr)
            > threshold
}

/// Weight conservation: a well-formed engine's centers carry exactly one
/// unit of weight per stream element folded in so far.
pub proof fn lemma_weight_conservation<T: Metrizable>(engine: StreamingCluster<T>)
    requires
        engine.wf(),
    ensures
        sum_weights(engine.clusters_centers@) == engine.inserted@,
{
}

/// Weight conservation, one step at a time: a single insertion adds exactly
/// one to the total center weight, whatever branch it takes.
pub proof fn lemma_add_conserves_weight<T: Metrizable>(
    init: bool,
    k: usize,
    centers: Seq<ClusterPoint<T>>,
    phi: u64,
    item: T,
)
    requires
        init || centers.len() >= 1,
        sum_weights(centers) < usize::MAX,
    ensures
        sum_weights(spec_add_result(init, k, centers, phi, item).1) == sum_weights(centers) + 1,
{
    let q = item.repr_spec();
    let fresh = ClusterPoint { item, repr: q, weight: 1 as usize };
    if init && centers.len() <= k {
        lemma_sum_weights_push(centers, fresh);
    } else {
        let j = nearest_index(centers, q);
        lemma_nearest_index_props(centers, q);
        let grown = if T::dist_spec(centers[j].repr, q) <= merge_threshold(phi) {
            let bumped = ClusterPoint {
                item: centers[j].item,
                repr: centers[j].repr,
                weight: (centers[j].weight + 1) as usize,
            };
            lemma_weight_le_sum(centers, j);
            lemma_sum_weights_update(centers, j, bumped);
            centers.update(j, bumped)
        } else {
            lemma_sum_weights_push(centers, fresh);
            centers.push(fresh)
        };
        if grown.len() > k {
            lemma_merge_pass_props(
                grown,
                Seq::<ClusterPoint<T>>::empty(),
                merge_threshold(doubled_phi(phi)),
            );
        }
    }
}

/// Monotonic phi: once the initialization phase is over the threshold never
/// decreases, and while it lasts the threshold never increases.
pub proof fn lemma_add_phi_monotone<T: Metrizable>(
    init: bool,
    k: usize,
    centers: Seq<ClusterPoint<T>>,
    phi: u64,
    item: T,
)
    ensures
        !init ==> spec_add_result(init, k, centers, phi, item).2 >= phi,
        spec_add_result(init, k, centers, phi, item).0 ==> spec_add_result(
            init,
            k,
            centers,
            phi,
            item,
        ).2 <= phi,
        !init ==> !spec_add_result(init, k, centers, phi, item).0,
{
}

/// Determinism: two engines in equal observable states move to equal states
/// when fed the same item, so equal input sequences into fresh engines with
/// the same capacity yield identical canonical centers and identical `phi`.
pub proof fn lemma_add_deterministic<T: Metrizable>(
    first: StreamingCluster<T>,
    second: StreamingCluster<T>,
    item: T,
)
    requires
        first.initialization_phase == second.initialization_phase,
        first.max_cluster_count == second.max_cluster_count,
        first.clusters_centers@ == second.clusters_centers@,
        first.phi == second.phi,
    ensures
        spec_add_result(
            first.initialization_phase,
            first.max_cluster_count,
            first.clusters_centers@,
            first.phi,
            item,
        ) == spec_add_result(
            second.initialization_phase,
            second.max_cluster_count,
            second.clusters_centers@,
            second.phi,
            item,
        ),
{
}

/// Idempotent extraction: any two results admitted by the non-consuming
/// extraction contract against the same engine state are equal.
pub proof fn lemma_extraction_idempotent<T: Metrizable>(
    engine: &StreamingCluster<T>,
    first: Seq<&T>,
    second: Seq<&T>,
)
    requires
        first.len() == engine.clusters_centers@.len(),
        forall|i: int|
            0 <= i < first.len() ==> *(#[trigger] first[i]) == engine.clusters_centers@[i].item,
        second.len() == engine.clusters_centers@.len(),
        forall|i: int|
            0 <= i < second.len() ==> *(#[trigger] second[i]) == engine.clusters_centers@[i].item,
    ensures
        first == second,
{
    assert(first =~= second);
}

/// One merge pass leaves centers that are pairwise farther apart than the
/// merge radius, provided the accumulated centers already were and every
/// active center is far from every accumulated one.
proof fn lemma_merge_pass_separated<T: Metrizable>(
    active: Seq<ClusterPoint<T>>,
    acc: Seq<ClusterPoint<T>>,
    threshold: u64,
)
    requires
        pairwise_separated(acc, threshold),
        forall|i: int, j: int|
            #![trigger active[i], acc[j]]
            0 <= i < active.len() && 0 <= j < acc.len() ==> T::dist_spec(
                active[i].repr,
                acc[j].repr,
            ) > threshold && T::dist_spec(acc[j].repr, active[i].repr) > threshold,
    ensures
        pairwise_separated(merge_pass(active, acc, threshold), threshold),
    decreases active.len(),
{
    if active.len() == 0 {
    } else {
        let c = active.last();
        let rest = active.drop_last();
        let kept = kept_of(rest, c.repr, threshold);
        let heavier = ClusterPoint {
            item: c.item,
            repr: c.repr,
            weight: (c.weight + absorbed_of(rest, c.repr, threshold)) as usize,
        };
        let acc2 = acc.push(heavier);
        lemma_kept_props(rest, c.repr, threshold);
        assert(forall|i: int| 0 <= i < rest.len() ==> rest[i] == active[i]);
        assert(pairwise_separated(acc2, threshold)) by {
            assert forall|i: int, j: int|
                #![trigger acc2[i], acc2[j]]
                0 <= i < acc2.len() && 0 <= j < acc2.len() && i != j implies T::dist_spec(
                acc2[i].repr,
                acc2[j].repr,
            ) > threshold by {
                if i < acc.len() && j < acc.len() {
                    assert(acc2[i] == acc[i] && acc2[j] == acc[j]);
                } else if i == acc.len() {
                    assert(acc2[i] == heavier && acc2[j] == acc[j]);
                    assert(active[active.len() - 1] == c);
                } else {
                    assert(acc2[j] == heavier && acc2[i] == acc[i]);
                    assert(active[active.len() - 1] == c);
                }
            }
        }
        assert(forall|i: int, j: int|
            #![trigger kept[i], acc2[j]]
            0 <= i < kept.len() && 0 <= j < acc2.len() ==> T::dist_spec(kept[i].repr, acc2[j].repr)
                > threshold && T::dist_spec(acc2[j].repr, kept[i].repr) > threshold) by {
            assert forall|i: int, j: int|
                #![trigger kept[i], acc2[j]]
                0 <= i < kept.len() && 0 <= j < acc2.len() implies T::dist_spec(
                kept[i].repr,
                acc2[j].repr,
            ) > threshold && T::dist_spec(acc2[j].repr, kept[i].repr) > threshold by {
                assert(rest.contains(kept[i]));
                let w = choose|w: int| 0 <= w < rest.len() && rest[w] == kept[i];
                assert(active[w] == kept[i]);
                if j < acc.len() {
                    assert(acc2[j] == acc[j]);
                } else {
                    assert(acc2[j] == heavier);
                    assert(T::dist_spec(c.repr, kept[i].repr) > threshold);
                    T::lemma_distance_symmetric(c.repr, kept[i].repr);
                }
            }
        }
        lemma_merge_pass_separated(kept, acc2, threshold);
    }
}

/// Bound or separation: past the initialization phase, an insertion leaves
/// either at most `k` centers, or a center set whose members are pairwise
/// farther apart than the merge radius `4 * phi` — the one situation in
/// which a single doubling of `phi` cannot fold enough centers together.
pub proof fn lemma_add_bound_or_separated<T: Metrizable>(
    init: bool,
    k: usize,
    centers: Seq<ClusterPoint<T>>,
    phi: u64,
    item: T,
)
    ensures
        ({
            let step = spec_add_result(init, k, centers, phi, item);
            !step.0 ==> step.1.len() <= k || pairwise_separated(step.1, merge_threshold(step.2))
        }),
{
    let step = spec_add_result(init, k, centers, phi, item);
    if !(init && centers.len() <= k) {
        let q = item.repr_spec();
        let j = nearest_index(centers, q);
        let grown = if T::dist_spec(centers[j].repr, q) <= merge_threshold(phi) {
            centers.update(
                j,
                ClusterPoint {
                    item: centers[j].item,
                    repr: centers[j].repr,
                    weight: (centers[j].weight + 1) as usize,
                },
            )
        } else {
            centers.push(ClusterPoint { item, repr: q, weight: 1 as usize })
        };
        if grown.len() > k {
            lemma_merge_pass_separated(
                grown,
                Seq::<ClusterPoint<T>>::empty(),
                merge_threshold(doubled_phi(phi)),
            );
        }
    }
}

/// The merge radius `4 * phi`, saturating so that an effectively infinite
/// threshold stays infinite.
fn merge_radius(phi: u64) -> (r: u64)
    ensures
        r == merge_threshold(phi),
{
    if phi > u64::MAX / 4 {
        u64::MAX
    } else {
        4 * phi
    }
}

/// Doubles `phi`, saturating at the sentinel.
fn grow_phi(phi: u64) -> (r: u64)
    ensures
        r == doubled_phi(phi),
{
    if phi > u64::MAX / 2 {
        u64::MAX
    } else {
        2 * phi
    }
}

} // verus!
