use particle_sim::particle::{GeoQuery, Particle};
use particle_sim::quad_tree::QuadTree;
use particle_sim::v2::V2;

#[test]
fn test_insert() {
}

fn p(x: i64, y: i64) -> Particle {
    Particle::new(V2::new(x, y), V2::new(0, 0))
}

#[test]
fn completeness_full_domain_query_visits_all() {
    // Pairwise-separated particles; a query square covering the whole root
    // region must visit exactly all of them.
    let particles = vec![
        p(1_000_000, 1_000_000),
        p(2_000_000, 2_000_000),
        p(50_000_000, 3_000_000),
        p(3_000_000, 70_000_000),
        p(99_000_000, 99_000_000),
        p(0, 0),
        p(42_000_000, 43_000_000),
    ];
    let n = particles.len();
    let tree: QuadTree<Particle> = GeoQuery::from_vec(particles.clone(), 100_000_000);
    let seen = tree.query_distance(&V2::new(50_000_000, 50_000_000), 200_000_000);
    assert_eq!(seen.len(), n);
    let mut rest = seen.clone();
    for q in &particles {
        let found = rest.iter().position(|s| s == q).expect("a particle was not visited");
        rest.remove(found);
    }
}

#[test]
fn query_never_misses_a_particle_within_radius() {
    let particles = vec![
        p(10_000_000, 10_000_000),
        p(12_000_000, 10_000_000),
        p(90_000_000, 90_000_000),
    ];
    let tree: QuadTree<Particle> = GeoQuery::from_vec(particles, 100_000_000);
    // The first two are within 3 units of (11, 10); both must be reported.
    let seen = tree.query_distance(&V2::new(11_000_000, 10_000_000), 3_000_000);
    assert!(seen.iter().any(|q| q.position.x == 10_000_000));
    assert!(seen.iter().any(|q| q.position.x == 12_000_000));
}

#[test]
fn coincident_values_are_nudged_not_lost() {
    // Two identical positions force the degeneracy path; both survive.
    let particles = vec![p(5_000_000, 5_000_000), p(5_000_000, 5_000_000)];
    let tree: QuadTree<Particle> = GeoQuery::from_vec(particles, 100_000_000);
    let seen = tree.query_distance(&V2::new(5_000_000, 5_000_000), 200_000_000);
    assert_eq!(seen.len(), 2);
}

#[test]
fn empty_build_and_zero_radius() {
    let tree: QuadTree<Particle> = GeoQuery::from_vec(Vec::new(), 100_000_000);
    let seen = tree.query_distance(&V2::new(0, 0), 0);
    assert_eq!(seen.len(), 0);

    let one: QuadTree<Particle> = GeoQuery::from_vec(vec![p(7_000_000, 7_000_000)], 100_000_000);
    // Radius zero on the exact point: the coincident point is allowed and
    // here reported, never a crash.
    let hit = one.query_distance(&V2::new(7_000_000, 7_000_000), 0);
    assert_eq!(hit.len(), 1);
}

#[test]
fn for_each_reports_occupied_leaf_rectangles() {
    let particles = vec![p(1_000_000, 1_000_000), p(80_000_000, 80_000_000)];
    let tree: QuadTree<Particle> = GeoQuery::from_vec(particles, 100_000_000);
    let rects = tree.for_each();
    assert_eq!(rects.len(), 2);
    for r in &rects {
        assert!(r.x0 <= r.x1 && r.y0 <= r.y1);
    }
    let root = tree.get_rect();
    assert_eq!(root.x0, -100_000_000);
    assert_eq!(root.x1, 100_000_000);
}

#[test]
fn new_node_has_empty_quadrants() {
    let node: QuadTree<Particle> = QuadTree::new_node(V2::new(0, 0), 1_000_000, 1_000_000);
    let seen = node.query_distance(&V2::new(0, 0), 2_000_000);
    assert_eq!(seen.len(), 0);
}
