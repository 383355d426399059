use streaming_cluster::example::ThreeDimVec;
use streaming_cluster::{ClusterPoint, Metrizable, StreamingCluster};

#[test]
fn squared_distance_matches_hand_computation() {
    let a = ThreeDimVec(1000, 2000, 2000);
    let b = ThreeDimVec(0, 0, 500);
    let d = <ThreeDimVec as Metrizable>::distance(&a.representation(), &b.representation());
    assert_eq!(d, 1_000_000 + 4_000_000 + 2_250_000);
    let d_rev = <ThreeDimVec as Metrizable>::distance(&b.representation(), &a.representation());
    assert_eq!(d, d_rev);
    let zero = <ThreeDimVec as Metrizable>::distance(&a.representation(), &a.representation());
    assert_eq!(zero, 0);
}

#[test]
fn squared_distance_saturates_at_u64_max() {
    let a = ThreeDimVec(i32::MAX, i32::MAX, i32::MAX);
    let b = ThreeDimVec(i32::MIN, i32::MIN, i32::MIN);
    let d = <ThreeDimVec as Metrizable>::distance(&a.representation(), &b.representation());
    assert_eq!(d, u64::MAX);
}

#[test]
fn cluster_point_bookkeeping() {
    let item = ThreeDimVec(1, 2, 3);
    let mut point = ClusterPoint::new(item, item.representation());
    assert_eq!(point.weight, 1);
    point.add_point();
    assert_eq!(point.weight, 2);
    let mut other = ClusterPoint::new(ThreeDimVec(4, 5, 6), ThreeDimVec(4, 5, 6).representation());
    other.add_point();
    point.merge_point(&other);
    assert_eq!(point.weight, 4);
    assert_eq!(*point.repr(), item);
    assert_eq!(point.item(), item);
}

#[test]
fn fresh_engine_starts_in_initialization_phase() {
    let engine = StreamingCluster::<ThreeDimVec>::new(7);
    assert!(engine.initialization_phase);
    assert_eq!(engine.max_cluster_count, 7);
    assert_eq!(engine.phi, u64::MAX);
    assert!(engine.current_items().is_empty());
}

#[test]
fn fold_and_compaction_follow_the_merge_radius() {
    let mut engine = StreamingCluster::<ThreeDimVec>::new(1);
    engine.add(ThreeDimVec(0, 0, 0));
    assert_eq!(engine.phi, u64::MAX);
    assert!(engine.initialization_phase);
    engine.add(ThreeDimVec(1000, 0, 0));
    // phi drops to the minimum pairwise squared distance seen so far.
    assert_eq!(engine.phi, 1_000_000);
    assert!(engine.initialization_phase);
    // The third insertion leaves the initialization phase, folds into the
    // nearest center, and compaction doubles phi once.
    engine.add(ThreeDimVec(2000, 0, 0));
    assert!(!engine.initialization_phase);
    assert_eq!(engine.phi, 2_000_000);
    assert_eq!(engine.center_weights(), vec![3]);
    let points = engine.cluster_points();
    assert_eq!(points, vec![ThreeDimVec(1000, 0, 0)]);
}

#[test]
fn distant_point_becomes_its_own_center() {
    let mut engine = StreamingCluster::<ThreeDimVec>::new(2);
    engine.add(ThreeDimVec(0, 0, 0));
    engine.add(ThreeDimVec(1000, 0, 0));
    engine.add(ThreeDimVec(2000, 0, 0));
    // Leaves initialization; a far-away point must not fold anywhere.
    engine.add(ThreeDimVec(2_000_000, 0, 0));
    let mut points = engine.cluster_points();
    points.sort_by(|a, b| (a.0, a.1, a.2).cmp(&(b.0, b.1, b.2)));
    assert_eq!(points.len(), 2);
    assert_eq!(points[1], ThreeDimVec(2_000_000, 0, 0));
}
