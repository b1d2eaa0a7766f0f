use vstd::prelude::*;

verus! {

/// One coordinate unit is split into `SCALE` sub-units. Positions, velocities
/// and forces are `i64` counts of sub-units, so every geometric quantity in
/// the crate is an exact integer.
pub const SCALE: i64 = 1_000_000;

/// Two points closer than this (in sub-units) count as coincident.
pub const DEGENERACY_EPS: i64 = 100;

/// How far `offset_pos` moves a value on each axis, toward the low side of
/// the domain so that points inside a region with that much headroom stay in.
pub const OFFSET_STEP: i64 = 200;

/// Vectors shorter than this normalize to the zero vector.
pub const NORM_EPS: i64 = 100;

/// Clamp a mathematical integer into the `i64` range.
pub open spec fn sat64(v: int) -> int {
    if v < i64::MIN as int {
        i64::MIN as int
    } else if v > i64::MAX as int {
        i64::MAX as int
    } else {
        v
    }
}

/// Division truncating toward zero, for a positive divisor.
pub open spec fn div_trunc(a: int, b: int) -> int
    recommends
        b > 0,
{
    if a >= 0 {
        a / b
    } else {
        -((-a) / b)
    }
}

/// The product of two fixed-point numbers, rescaled and clamped.
pub open spec fn fp_mul_spec(a: int, b: int) -> int {
    sat64(div_trunc(a * b, SCALE as int))
}

/// `a / b` as a fixed-point fraction (numerator pre-scaled), clamped.
pub open spec fn fp_frac_spec(a: int, b: int) -> int
    recommends
        b > 0,
{
    sat64(div_trunc(a * SCALE, b))
}

/// The floor of the square root of a natural number.
pub open spec fn sqrt_floor(n: nat) -> nat
    decreases n,
{
    if n == 0 {
        0
    } else {
        let r = sqrt_floor((n - 1) as nat);
        if (r + 1) * (r + 1) <= n {
            r + 1
        } else {
            r
        }
    }
}

pub proof fn lemma_sqrt_floor_bounds(n: nat)
    ensures
        sqrt_floor(n) * sqrt_floor(n) <= n,
        n < (sqrt_floor(n) + 1) * (sqrt_floor(n) + 1),
    decreases n,
{
    if n == 0 {
        assert(sqrt_floor(0) == 0);
        assert(n < (sqrt_floor(n) + 1) * (sqrt_floor(n) + 1)) by (nonlinear_arith)
            requires
                n == 0,
                sqrt_floor(n) == 0,
        ;
    } else {
        lemma_sqrt_floor_bounds((n - 1) as nat);
        let r = sqrt_floor((n - 1) as nat);
        assert(sqrt_floor(n) == if (r + 1) * (r + 1) <= n {
            r + 1
        } else {
            r
        });
        if (r + 1) * (r + 1) <= n {
            assert(n <= (r + 1) * (r + 1));
            assert(n < (r + 2) * (r + 2)) by (nonlinear_arith)
                requires
                    n <= (r + 1) * (r + 1),
                    r >= 0,
            ;
            assert(sqrt_floor(n) + 1 == r + 2);
            assert((sqrt_floor(n) + 1) * (sqrt_floor(n) + 1) == (r + 2) * (r + 2));
        } else {
            assert(n < (r + 1) * (r + 1));
            assert(sqrt_floor(n) + 1 == r + 1);
            assert((sqrt_floor(n) + 1) * (sqrt_floor(n) + 1) == (r + 1) * (r + 1));
        }
    }
}

/// The square of an `i64`-sized value is non-negative and fits in `i128`.
pub(crate) proof fn lemma_i64_square(a: int)
    by (nonlinear_arith)
    requires
        -0x8000_0000_0000_0000 <= a <= 0x7FFF_FFFF_FFFF_FFFF,
    ensures
        0 <= a * a <= 0x4000_0000_0000_0000_0000_0000_0000_0000,
        (if a >= 0 { a } else { -a }) * (if a >= 0 { a } else { -a }) == a * a,
{
}

/// A product of `u64`-sized values fits in `u128`.
pub(crate) proof fn lemma_u64_mul(a: int, b: int)
    by (nonlinear_arith)
    requires
        0 <= a <= 0xFFFF_FFFF_FFFF_FFFF,
        0 <= b <= 0xFFFF_FFFF_FFFF_FFFF,
    ensures
        0 <= a * b <= 0xFFFF_FFFF_FFFF_FFFF_FFFF_FFFF_FFFF_FFFF,
{
}

/// Sign analysis of a product in terms of its factors' magnitudes.
pub(crate) proof fn lemma_abs_mul(a: int, b: int)
    by (nonlinear_arith)
    ensures
        (if a >= 0 { a } else { -a }) * (if b >= 0 { b } else { -b }) == (if a * b >= 0 { a * b } else { -(a * b) }),
        ((a < 0) != (b < 0)) ==> a * b <= 0,
        !((a < 0) != (b < 0)) ==> a * b >= 0,
{
}

pub proof fn lemma_sqrt_floor_unique(n: nat, r: nat)
    requires
        r * r <= n,
        n < (r + 1) * (r + 1),
    ensures
        r == sqrt_floor(n),
{
    let s = sqrt_floor(n);
    lemma_sqrt_floor_bounds(n);
    if r < s {
        assert((r + 1) * (r + 1) <= s * s) by (nonlinear_arith)
            requires
                r + 1 <= s,
        ;
    }
    if s < r {
        assert((s + 1) * (s + 1) <= r * r) by (nonlinear_arith)
            requires
                s + 1 <= r,
        ;
    }
}

fn clip64(v: i128) -> (r: i64)
    ensures
        r as int == sat64(v as int),
{
    if v > i64::MAX as i128 {
        i64::MAX
    } else if v < i64::MIN as i128 {
        i64::MIN
    } else {
        v as i64
    }
}

pub fn sat_add(a: i64, b: i64) -> (r: i64)
    ensures
        r as int == sat64(a + b),
{
    clip64(a as i128 + b as i128)
}

pub fn sat_sub(a: i64, b: i64) -> (r: i64)
    ensures
        r as int == sat64(a - b),
{
    clip64(a as i128 - b as i128)
}

pub fn sat_neg(a: i64) -> (r: i64)
    ensures
        r as int == sat64(-a),
{
    clip64(-(a as i128))
}

fn abs_u64(a: i64) -> (r: u64)
    ensures
        r as int == if a >= 0 { a as int } else { -(a as int) },
{
    if a >= 0 {
        a as u64
    } else if a == i64::MIN {
        9223372036854775808u64
    } else {
        (-a) as u64
    }
}

/// Clamp a non-negative magnitude with a sign back into `i64`.
fn clip_signed(neg: bool, m: u128) -> (r: i64)
    ensures
        r as int == sat64(if neg { -(m as int) } else { m as int }),
{
    if neg {
        if m >= 9223372036854775808u128 {
            i64::MIN
        } else {
            -(m as i64)
        }
    } else {
        if m > i64::MAX as u128 {
            i64::MAX
        } else {
            m as i64
        }
    }
}

pub fn fp_mul(a: i64, b: i64) -> (r: i64)
    ensures
        r as int == fp_mul_spec(a as int, b as int),
{
    let neg = (a < 0) != (b < 0);
    let ua = abs_u64(a);
    let ub = abs_u64(b);
    proof {
        lemma_u64_mul(ua as int, ub as int);
        lemma_abs_mul(a as int, b as int);
    }
    let p: u128 = ua as u128 * ub as u128;
    let q: u128 = p / (SCALE as u128);
    clip_signed(neg, q)
}

/// `a * SCALE / b`, truncated toward zero and clamped; the divisor must be positive.
pub fn fp_frac(a: i64, b: i64) -> (r: i64)
    requires
        b >= 1,
    ensures
        r as int == fp_frac_spec(a as int, b as int),
{
    let neg = a < 0;
    let ua = abs_u64(a);
    proof {
        lemma_u64_mul(ua as int, SCALE as int);
        lemma_abs_mul(a as int, SCALE as int);
    }
    let p: u128 = ua as u128 * SCALE as u128;
    let q: u128 = p / (b as u128);
    clip_signed(neg, q)
}

/// The floor of the square root, as an exec binary search.
pub fn isqrt_u128(n: u128) -> (r: u64)
    ensures
        r as nat == sqrt_floor(n as nat),
{
    let mut lo: u64 = 0;
    let mut hi: u64 = u64::MAX;
    while lo < hi
        invariant
            (lo as int) * (lo as int) <= n as int,
            (n as int) < (hi as int + 1) * (hi as int + 1),
            lo <= hi,
        decreases hi - lo,
    {
        let mid: u64 = hi - (hi - lo) / 2;
        proof {
            lemma_u64_mul(mid as int, mid as int);
        }
        let sq: u128 = mid as u128 * mid as u128;
        if sq <= n {
            lo = mid;
        } else {
            hi = mid - 1;
        }
    }
    proof {
        lemma_sqrt_floor_unique(n as nat, lo as nat);
    }
    lo
}

/// An immutable two-dimensional vector in fixed-point sub-units.
#[derive(Clone, Copy, PartialEq, Eq, Structural, Debug)]
pub struct V2 {
    pub x: i64,
    pub y: i64,
}

/// The exact squared Euclidean norm, as a mathematical integer.
pub open spec fn norm2_spec(v: V2) -> int {
    (v.x as int) * (v.x as int) + (v.y as int) * (v.y as int)
}

/// The clamped integer length of a vector.
pub open spec fn len_spec(v: V2) -> int {
    sat64(sqrt_floor(norm2_spec(v) as nat) as int)
}

/// The unit vector scaled by `SCALE`, or zero when the vector is too short.
pub open spec fn normalized_spec(v: V2) -> V2 {
    if len_spec(v) <= NORM_EPS as int {
        V2 { x: 0, y: 0 }
    } else {
        V2 {
            x: fp_frac_spec(v.x as int, len_spec(v)) as i64,
            y: fp_frac_spec(v.y as int, len_spec(v)) as i64,
        }
    }
}

impl V2 {
    pub fn new(x: i64, y: i64) -> (r: V2)
        ensures
            r == (V2 { x, y }),
    {
        V2 { x, y }
    }

    pub fn sub(&self, other: &V2) -> (r: V2)
        ensures
            r == v2_sub_spec(*self, *other),
            r.x as int == sat64(self.x - other.x),
            r.y as int == sat64(self.y - other.y),
    {
        V2 { x: sat_sub(self.x, other.x), y: sat_sub(self.y, other.y) }
    }

    pub fn add(&self, other: &V2) -> (r: V2)
        ensures
            r == v2_add_spec(*self, *other),
            r.x as int == sat64(self.x + other.x),
            r.y as int == sat64(self.y + other.y),
    {
        V2 { x: sat_add(self.x, other.x), y: sat_add(self.y, other.y) }
    }

    pub fn len(&self) -> (r: i64)
        ensures
            r as int == len_spec(*self),
            r >= 0,
    {
        let ax = abs_u64(self.x);
        let ay = abs_u64(self.y);
        proof {
            lemma_i64_square(self.x as int);
            lemma_i64_square(self.y as int);
            lemma_u64_mul(ax as int, ax as int);
            lemma_u64_mul(ay as int, ay as int);
        }
        let n: u128 = ax as u128 * ax as u128 + ay as u128 * ay as u128;
        let r = isqrt_u128(n);
        if r > i64::MAX as u64 {
            i64::MAX
        } else {
            r as i64
        }
    }

    pub fn scalar_mul(&self, scalar: i64) -> (r: V2)
        ensures
            r == v2_scale_spec(*self, scalar),
            r.x as int == fp_mul_spec(self.x as int, scalar as int),
            r.y as int == fp_mul_spec(self.y as int, scalar as int),
    {
        V2 { x: fp_mul(self.x, scalar), y: fp_mul(self.y, scalar) }
    }

    pub fn norm_sqr(&self) -> (r: i64)
        ensures
            r as int == sat64(norm2_spec(*self)),
    {
        let ax = abs_u64(self.x);
        let ay = abs_u64(self.y);
        proof {
            lemma_i64_square(self.x as int);
            lemma_i64_square(self.y as int);
            lemma_u64_mul(ax as int, ax as int);
            lemma_u64_mul(ay as int, ay as int);
        }
        let n: u128 = ax as u128 * ax as u128 + ay as u128 * ay as u128;
        if n > i64::MAX as u128 {
            i64::MAX
        } else {
            n as i64
        }
    }

    pub fn normalized(&self) -> (r: V2)
        ensures
            r == normalized_spec(*self),
    {
        let l = self.len();
        if l <= NORM_EPS {
            V2 { x: 0, y: 0 }
        } else {
            V2 { x: fp_frac(self.x, l), y: fp_frac(self.y, l) }
        }
    }
}

/// Componentwise clamped sum.
pub open spec fn v2_add_spec(a: V2, b: V2) -> V2 {
    V2 { x: sat64(a.x + b.x) as i64, y: sat64(a.y + b.y) as i64 }
}

/// Componentwise clamped difference.
pub open spec fn v2_sub_spec(a: V2, b: V2) -> V2 {
    V2 { x: sat64(a.x - b.x) as i64, y: sat64(a.y - b.y) as i64 }
}

/// Componentwise fixed-point scaling.
pub open spec fn v2_scale_spec(a: V2, s: i64) -> V2 {
    V2 { x: fp_mul_spec(a.x as int, s as int) as i64, y: fp_mul_spec(a.y as int, s as int) as i64 }
}

/// A closed axis-aligned rectangle; `x0 <= x1` and `y0 <= y1` when non-empty.
#[derive(Clone, Copy, PartialEq, Eq, Structural, Debug)]
pub struct Rect {
    pub x0: i64,
    pub y0: i64,
    pub x1: i64,
    pub y1: i64,
}

/// Whether two closed rectangles share at least one point.
pub open spec fn rects_intersect_spec(a: Rect, b: Rect) -> bool {
    a.x0 <= b.x1 && b.x0 <= a.x1 && a.y0 <= b.y1 && b.y0 <= a.y1
}

pub fn rects_intersect(a: &Rect, b: &Rect) -> (r: bool)
    ensures
        r == rects_intersect_spec(*a, *b),
{
    a.x0 <= b.x1 && b.x0 <= a.x1 && a.y0 <= b.y1 && b.y0 <= a.y1
}

/// Whether the point `(x, y)` lies in the closed rectangle.
pub open spec fn point_in_rect(x: int, y: int, r: Rect) -> bool {
    r.x0 as int <= x && x <= r.x1 as int && r.y0 as int <= y && y <= r.y1 as int
}

/// A value a spatial index can store: it exposes a position and can be
/// nudged when it coincides with an already-stored value.
pub trait TreeValue: Sized + Copy {
    /// The x coordinate, in sub-units.
    spec fn spec_x(&self) -> int;

    /// The y coordinate, in sub-units.
    spec fn spec_y(&self) -> int;

    /// The value after one degeneracy nudge.
    spec fn offset_spec(&self) -> Self;

    fn position(&self) -> (r: V2)
        ensures
            r.x as int == self.spec_x(),
            r.y as int == self.spec_y(),
    ;

    fn offset_pos(&mut self)
        requires
            old(self).spec_x() - OFFSET_STEP >= i64::MIN as int,
            old(self).spec_y() - OFFSET_STEP >= i64::MIN as int,
        ensures
            *final(self) == old(self).offset_spec(),
            final(self).spec_x() == old(self).spec_x() - OFFSET_STEP,
            final(self).spec_y() == old(self).spec_y() - OFFSET_STEP,
    ;
}

/// The squared distance between two stored values' positions.
pub open spec fn dist2<T: TreeValue>(a: T, b: T) -> int {
    (a.spec_x() - b.spec_x()) * (a.spec_x() - b.spec_x()) + (a.spec_y() - b.spec_y()) * (
    a.spec_y() - b.spec_y())
}

} // verus!
