use streaming_cluster::example::{generate_cloud, ThreeDimVec};
use streaming_cluster::StreamingCluster;

#[test]
fn cluster_creation_of_three_dim_vec() {
    let to_cluster = generate_cloud(5, 20);
    let mut streaming_cluster = StreamingCluster::<ThreeDimVec>::new(10);
    for point in to_cluster {
        streaming_cluster.add(point);
    }

    let cluster_points = streaming_cluster.cluster_points();
    assert_eq!(cluster_points.len(), 5);
}

#[test]
fn generated_cloud_has_documented_shape() {
    let cloud = generate_cloud(5, 20);
    assert_eq!(cloud.len(), 105);
    let centers: [i32; 5] = [-6000, -3000, 0, 3000, 6000];
    for p in &cloud {
        assert!(centers.contains(&p.0));
        assert!(0 <= p.1 && p.1 < 1500);
        assert!(0 <= p.2 && p.2 < 1500);
    }
    for c in centers {
        assert!(cloud.iter().any(|p| *p == ThreeDimVec(c, 0, 0)));
    }
    // The jitter really varies: a generator that ignored its range would
    // hand back a constant column.
    assert!(cloud.iter().any(|p| p.1 != cloud[0].1));
    // The cloud really is shuffled: in construction order the first cluster
    // block would sit at the front unbroken.
    assert!(cloud[..21].iter().any(|p| p.0 != cloud[0].0));
}

#[test]
fn empty_center_count_yields_empty_cloud() {
    assert!(generate_cloud(0, 7).is_empty());
    assert!(generate_cloud(-3, 7).is_empty());
}

#[test]
fn even_center_count_spreads_around_zero() {
    let cloud = generate_cloud(2, 0);
    assert_eq!(cloud.len(), 2);
    assert!(cloud.iter().any(|p| *p == ThreeDimVec(-3000, 0, 0)));
    assert!(cloud.iter().any(|p| *p == ThreeDimVec(0, 0, 0)));
}
