use particle_sim::particle::{GeoQuery, Particle};
use particle_sim::rstar_tree::RStartree;
use particle_sim::v2::V2;

fn p(x: i64, y: i64) -> Particle {
    Particle::new(V2::new(x, y), V2::new(0, 0))
}

fn brute_force_in_square(particles: &[Particle], cx: i64, cy: i64, r: i64) -> Vec<Particle> {
    particles
        .iter()
        .filter(|q| {
            cx - r <= q.position.x && q.position.x <= cx + r && cy - r <= q.position.y
                && q.position.y <= cy + r
        })
        .cloned()
        .collect()
}

#[test]
fn query_equals_brute_force_square() {
    let particles = vec![
        p(10_000_000, 10_000_000),
        p(12_000_000, 9_000_000),
        p(13_000_001, 10_000_000),
        p(10_000_000, 13_000_001),
        p(90_000_000, 90_000_000),
        p(7_000_000, 7_000_000),
        p(7_000_000, 7_000_000),
    ];
    let tree = RStartree::from_vec(particles.clone(), 32, 100_000_000);
    for (cx, cy, r) in [
        (10_000_000i64, 10_000_000i64, 3_000_000i64),
        (0, 0, 8_000_000),
        (50_000_000, 50_000_000, 60_000_000),
        (90_000_000, 90_000_000, 0),
        (1, 1, 0),
    ] {
        let mut got = tree.query_distance(&V2::new(cx, cy), r);
        let mut want = brute_force_in_square(&particles, cx, cy, r);
        let key = |q: &Particle| (q.position.x, q.position.y, q.velocity.x, q.velocity.y);
        got.sort_by_key(key);
        want.sort_by_key(key);
        assert_eq!(got, want);
    }
}

#[test]
fn query_box_edges_are_inclusive() {
    let particles = vec![p(5_000_000, 5_000_000)];
    let tree = RStartree::from_vec(particles, 32, 100_000_000);
    // The point sits exactly on the query square's corner.
    let got = tree.query_distance(&V2::new(4_000_000, 4_000_000), 1_000_000);
    assert_eq!(got.len(), 1);
    // One sub-unit short and the point is outside.
    let miss = tree.query_distance(&V2::new(4_000_000, 4_000_000), 999_999);
    assert_eq!(miss.len(), 0);
}

#[test]
fn boundings_smoke() {
    let mut particles = Vec::new();
    for i in 0..200i64 {
        particles.push(p(i * 400_000, (i * 7 % 200) * 400_000));
    }
    let tree = RStartree::from_vec(particles, 32, 100_000_000);
    for r in tree.boundings() {
        assert!(r.x0 <= r.x1 && r.y0 <= r.y1);
    }
}

#[test]
fn empty_tree_queries_empty() {
    let tree = RStartree::from_vec(Vec::new(), 32, 100_000_000);
    let got = tree.query_distance(&V2::new(0, 0), 10_000_000);
    assert_eq!(got.len(), 0);
}
