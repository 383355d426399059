use streaming_cluster::example::{generate_cloud, ThreeDimVec};
use streaming_cluster::{Metrizable, StreamingCluster};

fn sorted(mut points: Vec<ThreeDimVec>) -> Vec<ThreeDimVec> {
    points.sort_by(|a, b| (a.0, a.1, a.2).cmp(&(b.0, b.1, b.2)));
    points
}

#[test]
fn weights_sum_to_insertion_count() {
    let cloud = generate_cloud(5, 20);
    let mut engine = StreamingCluster::<ThreeDimVec>::new(3);
    let mut n: usize = 0;
    for point in cloud {
        engine.add(point);
        n += 1;
        let total: usize = engine.center_weights().iter().sum();
        assert_eq!(total, n);
    }
}

#[test]
fn center_count_stays_bounded_for_clustered_data() {
    // A single doubling of phi followed by one merge pass can leave more
    // than `max_cluster_count` centers when the survivors are pairwise
    // farther apart than the merge radius, so that is the bound the engine
    // keeps: past initialization, after every insertion the center count is
    // within the bound or the centers are pairwise separated beyond
    // `4 * phi`. On well-clustered data the count settles within the bound.
    let cloud = generate_cloud(5, 20);
    let mut engine = StreamingCluster::<ThreeDimVec>::new(10);
    for point in cloud {
        engine.add(point);
        if !engine.initialization_phase {
            let items: Vec<ThreeDimVec> = engine.current_items().into_iter().copied().collect();
            let radius = engine.phi.saturating_mul(4);
            let separated = items.iter().enumerate().all(|(i, a)| {
                items
                    .iter()
                    .enumerate()
                    .all(|(j, b)| i == j || distance_of(a, b) > radius)
            });
            assert!(items.len() <= 10 || separated);
        }
    }
    assert!(engine.cluster_points().len() <= 10);
}

fn distance_of(a: &ThreeDimVec, b: &ThreeDimVec) -> u64 {
    <ThreeDimVec as Metrizable>::distance(&a.representation(), &b.representation())
}

#[test]
fn phi_never_decreases_after_initialization() {
    let cloud = generate_cloud(5, 20);
    let mut engine = StreamingCluster::<ThreeDimVec>::new(10);
    let mut last_phi: Option<u64> = None;
    for point in cloud {
        engine.add(point);
        if !engine.initialization_phase {
            if let Some(previous) = last_phi {
                assert!(engine.phi >= previous);
            }
            last_phi = Some(engine.phi);
        }
    }
    assert!(last_phi.is_some());
}

#[test]
fn phi_never_increases_during_initialization() {
    let cloud = generate_cloud(5, 20);
    let mut engine = StreamingCluster::<ThreeDimVec>::new(10);
    let mut last_phi = u64::MAX;
    for point in cloud {
        engine.add(point);
        if engine.initialization_phase {
            assert!(engine.phi <= last_phi);
            last_phi = engine.phi;
        }
    }
}

#[test]
fn identical_streams_give_identical_clusterings() {
    let cloud_a = generate_cloud(4, 10);
    let cloud_b = generate_cloud(4, 10);
    // The cloud itself is deterministic for the fixed seed.
    assert_eq!(cloud_a, cloud_b);

    let mut engine_a = StreamingCluster::<ThreeDimVec>::new(6);
    let mut engine_b = StreamingCluster::<ThreeDimVec>::new(6);
    for point in cloud_a {
        engine_a.add(point);
    }
    for point in cloud_b {
        engine_b.add(point);
    }
    assert_eq!(engine_a.phi, engine_b.phi);
    assert_eq!(engine_a.center_weights(), engine_b.center_weights());
    assert_eq!(
        sorted(engine_a.cluster_points()),
        sorted(engine_b.cluster_points())
    );
}

#[test]
fn extraction_is_idempotent_without_intervening_adds() {
    let cloud = generate_cloud(3, 8);
    let mut engine = StreamingCluster::<ThreeDimVec>::new(4);
    for point in cloud {
        engine.add(point);
    }
    let first: Vec<ThreeDimVec> = engine.current_items().into_iter().copied().collect();
    let second: Vec<ThreeDimVec> = engine.current_items().into_iter().copied().collect();
    assert_eq!(first, second);
    // And the consuming extraction agrees with the view.
    assert_eq!(engine.cluster_points(), first);
}

#[test]
fn empty_stream_yields_empty_extraction() {
    let engine = StreamingCluster::<ThreeDimVec>::new(4);
    assert!(engine.cluster_points().is_empty());
}

#[test]
fn single_insertion_yields_one_center_with_weight_one() {
    let mut engine = StreamingCluster::<ThreeDimVec>::new(4);
    engine.add(ThreeDimVec(1000, 200, 30));
    assert_eq!(engine.center_weights(), vec![1]);
    let points = engine.cluster_points();
    assert_eq!(points, vec![ThreeDimVec(1000, 200, 30)]);
}

#[test]
fn large_stream_terminates_within_bound() {
    let cloud = generate_cloud(500, 500);
    assert_eq!(cloud.len(), 250_500);
    let mut engine = StreamingCluster::<ThreeDimVec>::new(1000);
    for point in cloud {
        engine.add(point);
    }
    let points = engine.cluster_points();
    assert!(points.len() <= 1000);
}
