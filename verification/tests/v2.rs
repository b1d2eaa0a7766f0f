use particle_sim::v2::{isqrt_u128, rects_intersect, Rect, V2};

#[test]
fn vector_algebra_is_exact() {
    let a = V2::new(3_000_000, 4_000_000);
    let b = V2::new(1_000_000, -2_000_000);
    assert_eq!(a.add(&b), V2::new(4_000_000, 2_000_000));
    assert_eq!(a.sub(&b), V2::new(2_000_000, 6_000_000));
    // |(3, 4)| = 5 in fixed point.
    assert_eq!(a.len(), 5_000_000);
    // Scaling by 0.5.
    assert_eq!(a.scalar_mul(500_000), V2::new(1_500_000, 2_000_000));
}

#[test]
fn normalized_is_a_scaled_unit_vector() {
    let a = V2::new(3_000_000, 4_000_000);
    let n = a.normalized();
    assert_eq!(n, V2::new(600_000, 800_000));
    // Near-zero vectors normalize to zero instead of blowing up.
    let tiny = V2::new(40, -30);
    assert_eq!(tiny.normalized(), V2::new(0, 0));
}

#[test]
fn saturation_clamps_instead_of_wrapping() {
    let big = V2::new(i64::MAX, i64::MIN);
    let more = big.add(&V2::new(1, -1));
    assert_eq!(more.x, i64::MAX);
    assert_eq!(more.y, i64::MIN);
}

#[test]
fn integer_square_root_brackets() {
    assert_eq!(isqrt_u128(0), 0);
    assert_eq!(isqrt_u128(1), 1);
    assert_eq!(isqrt_u128(24), 4);
    assert_eq!(isqrt_u128(25), 5);
    assert_eq!(isqrt_u128(u128::from(u64::MAX) * u128::from(u64::MAX)), u64::MAX);
}

#[test]
fn rectangle_intersection_is_inclusive() {
    let a = Rect { x0: 0, y0: 0, x1: 10, y1: 10 };
    let touching = Rect { x0: 10, y0: 10, x1: 20, y1: 20 };
    let apart = Rect { x0: 11, y0: 0, x1: 20, y1: 10 };
    assert!(rects_intersect(&a, &touching));
    assert!(!rects_intersect(&a, &apart));
}
