use particle_sim::particle::{smoothing_kernel_gradient, Particle, World, STEP};
use particle_sim::quad_tree::QuadTree;
use particle_sim::rstar_tree::RStartree;
use particle_sim::v2::V2;
use particle_sim::zorder_tree::ZOrderTree;

fn units(u: i64) -> i64 {
    u * 1_000_000
}

#[test]
fn boundary_reflection_clamps_and_flips() {
    // One particle at x = -1 with velocity.x = -5, domain width 100, zero
    // gravity, no neighbor force: after one tick the position is clamped to
    // the boundary and the velocity sign is flipped.
    let mut w: World<QuadTree<Particle>> = World::new(V2::new(units(100), units(100)), V2::new(0, 0));
    w.particles.push(Particle::new(V2::new(units(-1), units(50)), V2::new(units(-5), 0)));
    w.evolve(1);
    assert_eq!(w.particles[0].position.x, 0);
    assert_eq!(w.particles[0].velocity.x, units(5));
}

#[test]
fn gravity_only_tick_integrates_exactly() {
    // One particle, no neighbors besides itself (which contributes zero
    // force), gravity (0, 10), dt = 0.01: velocity.y grows by exactly 0.1
    // and position.x is unchanged.
    let mut w: World<QuadTree<Particle>> = World::new(V2::new(units(1000), units(1000)), V2::new(0, units(10)));
    w.step = 10_000;
    w.particles.push(Particle::new(V2::new(units(500), units(500)), V2::new(0, 0)));
    w.evolve(1);
    assert_eq!(w.particles[0].velocity.y, 100_000);
    assert_eq!(w.particles[0].velocity.x, 0);
    assert_eq!(w.particles[0].position.x, units(500));
    assert_eq!(w.particles[0].position.y, units(500) + 1_000);
}

#[test]
fn zero_ticks_change_nothing() {
    let mut w: World<ZOrderTree<Particle>> = World::new(V2::new(units(100), units(100)), V2::new(0, units(10)));
    w.particles.push(Particle::new(V2::new(units(10), units(20)), V2::new(units(3), units(-4))));
    w.particles.push(Particle::new(V2::new(units(11), units(20)), V2::new(0, 0)));
    let before = w.particles.clone();
    w.evolve(0);
    assert_eq!(w.particles, before);
}

fn seeded_world<T: particle_sim::particle::GeoQuery<Particle>>() -> World<T> {
    let mut w: World<T> = World::new(V2::new(units(200), units(150)), V2::new(0, units(100)));
    let mut x: i64 = 7;
    for _ in 0..40 {
        // A fixed linear-congruential placement stands in for a fixed seed.
        x = (x * 1_103_515_245 + 12_345) % units(150);
        let y = (x * 31 + 17) % units(120);
        w.particles.push(Particle::new(V2::new(x.abs(), y.abs()), V2::new(x % units(50), y % units(50))));
    }
    w
}

#[test]
fn evolve_is_deterministic() {
    // Two independent runs from the same initial particle set produce
    // bit-identical positions and velocities.
    let mut a: World<ZOrderTree<Particle>> = seeded_world();
    let mut b: World<ZOrderTree<Particle>> = seeded_world();
    a.evolve(5);
    b.evolve(5);
    assert_eq!(a.particles, b.particles);

    let mut c: World<RStartree> = seeded_world();
    let mut d: World<RStartree> = seeded_world();
    c.evolve(5);
    d.evolve(5);
    assert_eq!(c.particles, d.particles);

    let mut e: World<QuadTree<Particle>> = seeded_world();
    let mut f: World<QuadTree<Particle>> = seeded_world();
    e.evolve(5);
    f.evolve(5);
    assert_eq!(e.particles, f.particles);
}

#[test]
fn particles_stay_inside_the_domain() {
    let mut w: World<RStartree> = seeded_world();
    w.evolve(8);
    assert_eq!(w.particles.len(), 40);
    for q in &w.particles {
        assert!(0 <= q.position.x && q.position.x <= units(200));
        assert!(0 <= q.position.y && q.position.y <= units(150));
    }
}

#[test]
fn add_random_particles_places_in_domain() {
    let mut w: World<RStartree> = World::new(V2::new(units(100), units(100)), V2::new(0, units(10)));
    w.add_random_particles(25, || 0xDEAD_BEEF_0BAD_CAFEu64);
    assert_eq!(w.particles.len(), 25);
    for q in &w.particles {
        assert!(0 <= q.position.x && q.position.x <= units(100));
        assert!(0 <= q.position.y && q.position.y <= units(100));
        assert!(units(-50) <= q.velocity.x && q.velocity.x <= units(50));
        assert!(units(-50) <= q.velocity.y && q.velocity.y <= units(50));
    }
}

#[test]
fn kernel_gradient_has_exact_values() {
    // ((6 - 3) / 6)^2 = 0.25 in fixed point.
    assert_eq!(smoothing_kernel_gradient(units(3)), 250_000);
    // Zero at and beyond the interaction radius.
    assert_eq!(smoothing_kernel_gradient(units(6)), 0);
    assert_eq!(smoothing_kernel_gradient(units(7)), 0);
    // Maximal at distance zero.
    assert_eq!(smoothing_kernel_gradient(0), 1_000_000);
}

#[test]
fn default_step_is_kept() {
    let w: World<QuadTree<Particle>> = World::new(V2::new(units(100), units(100)), V2::new(0, 0));
    assert_eq!(w.step, STEP);
    assert!(w.mouse_pos.is_none());
    assert!(!w.is_pressing_mouse);
}

#[test]
fn pointer_force_attracts_within_range() {
    let mut w: World<QuadTree<Particle>> = World::new(V2::new(units(1000), units(1000)), V2::new(0, 0));
    w.particles.push(Particle::new(V2::new(units(500), units(500)), V2::new(0, 0)));
    w.update_mouse_pos(Some(V2::new(units(510), units(500))));
    w.is_pressing_mouse = true;
    w.evolve(1);
    // The pointer sits 10 units to the right and within range: the particle
    // accelerates toward it.
    assert!(w.particles[0].velocity.x > 0);
    assert_eq!(w.particles[0].velocity.y, 0);

    // Far away, the pointer has no influence.
    let mut far: World<QuadTree<Particle>> = World::new(V2::new(units(1000), units(1000)), V2::new(0, 0));
    far.particles.push(Particle::new(V2::new(units(500), units(500)), V2::new(0, 0)));
    far.update_mouse_pos(Some(V2::new(units(700), units(500))));
    far.is_pressing_mouse = true;
    far.evolve(1);
    assert_eq!(far.particles[0].velocity.x, 0);
}

#[test]
fn neighbors_repel_each_other() {
    // Two particles 2 units apart, inside the 6-unit interaction radius,
    // with gravity off: the pressure term pushes them apart.
    let mut w: World<QuadTree<Particle>> = World::new(V2::new(units(100), units(100)), V2::new(0, 0));
    w.particles.push(Particle::new(V2::new(units(49), units(50)), V2::new(0, 0)));
    w.particles.push(Particle::new(V2::new(units(51), units(50)), V2::new(0, 0)));
    w.evolve(1);
    assert!(w.particles[0].velocity.x < 0);
    assert!(w.particles[1].velocity.x > 0);
}
