use particle_sim::particle::{GeoQuery, Particle};
use particle_sim::v2::V2;
use particle_sim::zorder_tree::{z_order, ZOrderTree};

#[test]
fn test_order() {
    assert!(z_order(0, 0, 10) == 0);
    assert!(z_order(1, 0, 10) == 1);
    assert!(z_order(0, 1, 10) == 2);
    assert!(z_order(1, 1, 10) == 3);
    assert!(z_order(2, 0, 10) == 4);
    assert!(z_order(2, 2, 10) == 12);
    assert!(z_order(7, 7, 10) == 63);
}

#[test]
fn bit_shift() {
    println!("1 << 32: {}", 1u64 << 32u64);
}

fn p(x: i64, y: i64) -> Particle {
    Particle::new(V2::new(x, y), V2::new(0, 0))
}

#[test]
fn keys_are_sorted_after_build() {
    let particles = vec![
        p(90_000_000, 10_000_000),
        p(5_000_000, 80_000_000),
        p(40_000_000, 40_000_000),
        p(0, 0),
        p(99_000_000, 99_000_000),
        p(12_345_678, 87_654_321),
    ];
    let tree = ZOrderTree::from_vec(particles, 32, 100_000_000);
    for w in tree.values.windows(2) {
        assert!(w[0].order <= w[1].order);
    }
    assert_eq!(tree.values.len(), 6);
}

#[test]
fn build_keeps_every_value() {
    let particles = vec![p(1_000_000, 2_000_000), p(3_000_000, 4_000_000), p(500, 500)];
    let tree = ZOrderTree::from_vec(particles.clone(), 32, 100_000_000);
    let mut stored = tree.values();
    assert_eq!(stored.len(), particles.len());
    for q in &particles {
        let found = stored.iter().position(|s| s == q).expect("value lost by build");
        stored.remove(found);
    }
}

#[test]
fn query_returns_a_contiguous_key_slice() {
    // Points quantized far apart; a query square around one of them must
    // return it (its key lies between the corner keys of its own square).
    let particles = vec![p(10_000_000, 10_000_000), p(80_000_000, 80_000_000)];
    let tree: ZOrderTree<Particle> = GeoQuery::from_vec(particles, 100_000_000);
    let near = tree.query_distance(&V2::new(10_000_000, 10_000_000), 1_000_000);
    assert!(near.iter().any(|q| q.position.x == 10_000_000 && q.position.y == 10_000_000));
}

#[test]
fn quantization_clamps_out_of_range_positions() {
    // A position far outside [0, max_dim) must clamp, not wrap: building
    // with such a point still succeeds and stores it.
    let particles = vec![p(-50_000_000, 150_000_000), p(1_000_000, 1_000_000)];
    let tree = ZOrderTree::from_vec(particles, 32, 100_000_000);
    assert_eq!(tree.values.len(), 2);
    for w in tree.values.windows(2) {
        assert!(w[0].order <= w[1].order);
    }
}

#[test]
fn morton_query_can_miss_the_corner_key() {
    // The slice between the two corner keys is half-open: an entry whose key
    // equals the upper corner's key is not returned even though its position
    // lies inside the query square. This documents the index's deliberate
    // approximation; the quadtree and the rectangle tree do not share it.
    let particles = vec![p(5_000_000, 5_000_000)];
    let tree: ZOrderTree<Particle> = GeoQuery::from_vec(particles, 100_000_000);
    // A query square whose upper corner quantizes exactly onto the particle.
    let got = tree.query_distance(&V2::new(4_000_000, 4_000_000), 1_000_000);
    assert_eq!(got.len(), 0);
}
