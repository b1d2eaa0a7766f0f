use vstd::prelude::*;
use vstd::multiset::Multiset;

use crate::quad_tree::{val_in_region, well_separated};
use crate::v2::{
    len_spec, normalized_spec, sat64, sat_neg, v2_add_spec, v2_scale_spec, v2_sub_spec, TreeValue,
    V2, OFFSET_STEP, SCALE,
};

verus! {

/// Scales the pairwise repulsion term.
pub const PRESSURE_MULTIPLIER: i64 = 10_000;

/// The default integration step, 0.006 of a unit of time.
pub const STEP: i64 = 6_000;

/// Velocity-difference damping factor, 0.5 in fixed point.
pub const FRICTION: i64 = 500_000;

/// The neighbor-interaction radius, 6 units.
pub const PARTICLE_RADIUS: i64 = 6_000_000;

/// Pointer force scale, -200 units: the negated value attracts.
pub const MOUSE_FORCE: i64 = -200_000_000;

/// The pointer force reaches no further than 100 units.
pub const MOUSE_RANGE: i64 = 100_000_000;

/// Domain extents may not exceed this, which keeps all index and force
/// arithmetic within range.
pub const MAX_WORLD_DIM: i64 = 1_000_000_000_000;

/// A point particle: a position and a velocity, both in sub-units.
#[derive(Clone, Copy, PartialEq, Eq, Structural, Debug)]
pub struct Particle {
    pub position: V2,
    pub velocity: V2,
}

impl Particle {
    pub fn new(position: V2, velocity: V2) -> (p: Particle)
        ensures
            p == (Particle { position, velocity }),
    {
        Particle { position, velocity }
    }
}

impl TreeValue for Particle {
    open spec fn spec_x(&self) -> int {
        self.position.x as int
    }

    open spec fn spec_y(&self) -> int {
        self.position.y as int
    }

    open spec fn offset_spec(&self) -> Particle {
        Particle {
            position: V2 {
                x: sat64(self.position.x - OFFSET_STEP) as i64,
                y: sat64(self.position.y - OFFSET_STEP) as i64,
            },
            velocity: self.velocity,
        }
    }

    fn position(&self) -> (r: V2) {
        self.position
    }

    fn offset_pos(&mut self) {
        self.position = V2 {
            x: crate::v2::sat_sub(self.position.x, OFFSET_STEP),
            y: crate::v2::sat_sub(self.position.y, OFFSET_STEP),
        };
    }
}

/// A spatial index over a snapshot of values: bulk construction and an
/// axis-aligned bounding-square distance query.
pub trait GeoQuery<T: TreeValue>: Sized {
    /// The index is well formed.
    spec fn inv(&self) -> bool;

    /// The multiset of values the index holds.
    spec fn contents_ms(&self) -> Multiset<T>;

    /// The exact sequence a distance query returns.
    spec fn query_view(&self, cx: int, cy: int, r: int) -> Seq<T>;

    /// Whether this index's construction is a function of the snapshot, so
    /// that query results are pinned by `build_query_view`.
    spec fn pinned_build() -> bool;

    /// For a pinned index: what a query on a freshly built index returns.
    spec fn build_query_view(vec: Seq<T>, max_dim: int, cx: int, cy: int, r: int) -> Seq<T>;

    /// Build the index from a snapshot. Every snapshot of values no two of
    /// which collide within the degeneracy threshold is held exactly.
    fn from_vec(vec: Vec<T>, max_dim: i64) -> (t: Self)
        requires
            1 <= max_dim <= MAX_WORLD_DIM,
            forall|i: int|
                0 <= i < vec@.len() ==> val_in_region(
                    #[trigger] vec@[i],
                    -max_dim as int,
                    max_dim as int,
                    -max_dim as int,
                    max_dim as int,
                ),
        ensures
            t.inv(),
            t.contents_ms().len() <= vec@.len(),
            well_separated(Seq::<T>::empty(), vec@) ==> t.contents_ms() == vec@.to_multiset(),
            Self::pinned_build() ==> forall|cx: int, cy: int, r: int|
                t.query_view(cx, cy, r) == Self::build_query_view(
                    vec@,
                    max_dim as int,
                    cx,
                    cy,
                    r,
                ),
    ;

    /// Report candidate neighbors: every value returned is stored, and which
    /// values come back is the implementation's bounding-square approximation.
    fn query_distance(&self, point: &V2, radius: i64) -> (res: Vec<T>)
        requires
            self.inv(),
            0 <= radius,
        ensures
            res@ == self.query_view(point.x as int, point.y as int, radius as int),
            forall|v: T| res@.to_multiset().count(v) <= self.contents_ms().count(v),
    ;
}

/// The smoothing kernel gradient: `((R - d) / R)^2` in fixed point, zero at
/// and beyond the interaction radius, one (`SCALE`) at distance zero.
pub open spec fn kernel_spec(d: int) -> int {
    let v = if d >= PARTICLE_RADIUS as int {
        0
    } else {
        (PARTICLE_RADIUS - d) * SCALE / (PARTICLE_RADIUS as int)
    };
    v * v / (SCALE as int)
}

/// A nonnegative scaled ratio with the numerator factor at most the divisor
/// stays at most the scale.
proof fn lemma_ratio_bound(c: int, d: int, m: int)
    by (nonlinear_arith)
    requires
        0 <= c <= d,
        1 <= d,
        0 <= m,
    ensures
        0 <= c * m / d <= m,
{
}

pub fn smoothing_kernel_gradient(d: i64) -> (r: i64)
    requires
        0 <= d,
    ensures
        r as int == kernel_spec(d as int),
        0 <= r <= SCALE,
{
    if d >= PARTICLE_RADIUS {
        0
    } else {
        let num: u64 = (PARTICLE_RADIUS - d) as u64;
        proof {
            crate::v2::lemma_u64_mul(num as int, SCALE as int);
        }
        let v: u64 = num * (SCALE as u64) / (PARTICLE_RADIUS as u64);
        proof {
            lemma_ratio_bound(num as int, PARTICLE_RADIUS as int, SCALE as int);
            crate::v2::lemma_u64_mul(v as int, v as int);
            lemma_ratio_bound(v as int, SCALE as int, v as int);
        }
        let r: u64 = v * v / (SCALE as u64);
        r as i64
    }
}

/// The two force terms one candidate neighbor adds: a kernel-weighted push
/// along the line between the two positions, and velocity-difference damping.
pub open spec fn pressure_term(p: Particle, other: Particle) -> V2 {
    let p_vec = v2_sub_spec(other.position, p.position);
    let g = -(kernel_spec(len_spec(p_vec)) * (PRESSURE_MULTIPLIER as int));
    v2_scale_spec(normalized_spec(p_vec), g as i64)
}

pub open spec fn friction_term(p: Particle, other: Particle) -> V2 {
    v2_scale_spec(v2_sub_spec(p.velocity, other.velocity), (-FRICTION) as i64)
}

/// The force a particle accumulates over a candidate-neighbor sequence, in
/// visit order.
pub open spec fn accum_force(p: Particle, others: Seq<Particle>) -> V2
    decreases others.len(),
{
    if others.len() == 0 {
        V2 { x: 0, y: 0 }
    } else {
        let acc = accum_force(p, others.drop_last());
        let other = others.last();
        v2_add_spec(v2_add_spec(acc, pressure_term(p, other)), friction_term(p, other))
    }
}

/// Add the pointer term to an accumulated force: inverse attraction toward
/// the pointer, ignored beyond `MOUSE_RANGE` and for a near-zero distance.
pub open spec fn with_mouse_force(
    base: V2,
    p: Particle,
    mouse_pos: Option<V2>,
    pressing: bool,
) -> V2 {
    match mouse_pos {
        Option::Some(m) => {
            if pressing {
                let md = v2_sub_spec(m, p.position);
                if len_spec(md) > MOUSE_RANGE as int {
                    base
                } else {
                    v2_add_spec(base, v2_scale_spec(normalized_spec(md), (-MOUSE_FORCE) as i64))
                }
            } else {
                base
            }
        },
        Option::None => base,
    }
}

/// Clamp to the boundary and flip the velocity component, per axis.
pub open spec fn reflect_spec(dims: V2, p: Particle) -> Particle {
    let px1 = if p.position.x < 0 {
        0i64
    } else {
        p.position.x
    };
    let vx1 = if p.position.x < 0 {
        sat64(-p.velocity.x) as i64
    } else {
        p.velocity.x
    };
    let px2 = if px1 > dims.x {
        dims.x
    } else {
        px1
    };
    let vx2 = if px1 > dims.x {
        sat64(-vx1) as i64
    } else {
        vx1
    };
    let py1 = if p.position.y < 0 {
        0i64
    } else {
        p.position.y
    };
    let vy1 = if p.position.y < 0 {
        sat64(-p.velocity.y) as i64
    } else {
        p.velocity.y
    };
    let py2 = if py1 > dims.y {
        dims.y
    } else {
        py1
    };
    let vy2 = if py1 > dims.y {
        sat64(-vy1) as i64
    } else {
        vy1
    };
    Particle { position: V2 { x: px2, y: py2 }, velocity: V2 { x: vx2, y: vy2 } }
}

/// One semi-implicit Euler step of one particle: accumulate forces from the
/// candidate neighbors, add the pointer force and gravity, integrate, then
/// reflect at the domain boundary.
pub open spec fn step_particle_spec(
    p: Particle,
    neighbors: Seq<Particle>,
    gravity: V2,
    step: i64,
    dims: V2,
    mouse_pos: Option<V2>,
    pressing: bool,
) -> Particle {
    let acc = v2_add_spec(with_mouse_force(accum_force(p, neighbors), p, mouse_pos, pressing), gravity);
    let vel = v2_add_spec(p.velocity, v2_scale_spec(acc, step));
    let pos = v2_add_spec(p.position, v2_scale_spec(vel, step));
    reflect_spec(dims, Particle { position: pos, velocity: vel })
}


/// The larger domain extent, which sizes the index's addressable region.
pub open spec fn max_dim_of(dims: V2) -> i64 {
    if dims.x >= dims.y {
        dims.x
    } else {
        dims.y
    }
}

/// One tick over a particle snapshot, for an index whose construction is
/// pinned: rebuild, then step every particle against the fresh index.
pub open spec fn tick_spec<T: GeoQuery<Particle>>(
    ps: Seq<Particle>,
    dims: V2,
    gravity: V2,
    step: i64,
    mouse_pos: Option<V2>,
    pressing: bool,
) -> Seq<Particle> {
    ps.map_values(
        |p: Particle|
            step_particle_spec(
                p,
                T::build_query_view(
                    ps,
                    max_dim_of(dims) as int,
                    p.position.x as int,
                    p.position.y as int,
                    PARTICLE_RADIUS as int,
                ),
                gravity,
                step,
                dims,
                mouse_pos,
                pressing,
            ),
    )
}

/// `n` ticks over a particle snapshot.
pub open spec fn evolve_spec<T: GeoQuery<Particle>>(
    ps: Seq<Particle>,
    dims: V2,
    gravity: V2,
    step: i64,
    mouse_pos: Option<V2>,
    pressing: bool,
    n: nat,
) -> Seq<Particle>
    decreases n,
{
    if n == 0 {
        ps
    } else {
        evolve_spec::<T>(
            tick_spec::<T>(ps, dims, gravity, step, mouse_pos, pressing),
            dims,
            gravity,
            step,
            mouse_pos,
            pressing,
            (n - 1) as nat,
        )
    }
}

/// One tick relative to some freshly built index: the index is well formed,
/// holds no more values than the snapshot it was built from (exactly that
/// snapshot when it is pairwise separated), and every particle is stepped
/// against that frozen index.
pub open spec fn tick_rel<T: GeoQuery<Particle>>(
    ps: Seq<Particle>,
    next: Seq<Particle>,
    tree: T,
    dims: V2,
    gravity: V2,
    step: i64,
    mouse_pos: Option<V2>,
    pressing: bool,
) -> bool {
    &&& tree.inv()
    &&& tree.contents_ms().len() <= ps.len()
    &&& well_separated(Seq::<Particle>::empty(), ps) ==> tree.contents_ms() == ps.to_multiset()
    &&& next == ps.map_values(
        |p: Particle|
            step_particle_spec(
                p,
                tree.query_view(
                    p.position.x as int,
                    p.position.y as int,
                    PARTICLE_RADIUS as int,
                ),
                gravity,
                step,
                dims,
                mouse_pos,
                pressing,
            ),
    )
}

/// `ps1` follows from `ps0` by `n` ticks, each against some freshly built
/// index; this chains one-tick steps, so multi-tick runs are constrained
/// even for an index whose construction is not pinned.
pub open spec fn evolve_reachable<T: GeoQuery<Particle>>(
    ps0: Seq<Particle>,
    ps1: Seq<Particle>,
    dims: V2,
    gravity: V2,
    step: i64,
    mouse_pos: Option<V2>,
    pressing: bool,
    n: nat,
) -> bool
    decreases n,
{
    if n == 0 {
        ps1 == ps0
    } else {
        exists|mid: Seq<Particle>, tree: T|
            evolve_reachable::<T>(ps0, mid, dims, gravity, step, mouse_pos, pressing, (n - 1) as nat)
                && #[trigger] tick_rel::<T>(mid, ps1, tree, dims, gravity, step, mouse_pos, pressing)
    }
}

/// The simulation: a particle set in a rectangular domain, gravity, an
/// integration step, the active spatial index, and the pointer state.
pub struct World<T> {
    pub particles: Vec<Particle>,
    pub dimensions: V2,
    pub gravity: V2,
    pub step: i64,
    pub tree: T,
    pub mouse_pos: Option<V2>,
    pub show_quad_tree: bool,
    pub is_pressing_mouse: bool,
}

impl<T: GeoQuery<Particle>> World<T> {
    /// Domain extents are positive and within range.
    pub open spec fn world_wf(&self) -> bool {
        1 <= self.dimensions.x <= MAX_WORLD_DIM && 1 <= self.dimensions.y <= MAX_WORLD_DIM
    }

    /// Every particle is within the index's addressable region.
    pub open spec fn positions_ok(&self) -> bool {
        forall|i: int|
            0 <= i < self.particles@.len() ==> val_in_region(
                #[trigger] self.particles@[i],
                -max_dim_of(self.dimensions) as int,
                max_dim_of(self.dimensions) as int,
                -max_dim_of(self.dimensions) as int,
                max_dim_of(self.dimensions) as int,
            )
    }

    /// An empty world over the given domain, with an empty index built.
    pub fn new(dimensions: V2, gravity: V2) -> (w: World<T>)
        requires
            1 <= dimensions.x <= MAX_WORLD_DIM,
            1 <= dimensions.y <= MAX_WORLD_DIM,
        ensures
            w.particles@ == Seq::<Particle>::empty(),
            w.dimensions == dimensions,
            w.gravity == gravity,
            w.step == STEP,
            w.mouse_pos is None,
            !w.show_quad_tree,
            !w.is_pressing_mouse,
            w.world_wf(),
            w.positions_ok(),
            w.tree.inv(),
            w.tree.contents_ms() == Multiset::<Particle>::empty(),
            T::pinned_build() ==> forall|cx: int, cy: int, r: int|
                w.tree.query_view(cx, cy, r) == T::build_query_view(
                    Seq::<Particle>::empty(),
                    max_dim_of(dimensions) as int,
                    cx,
                    cy,
                    r,
                ),
    {
        let md = if dimensions.x >= dimensions.y {
            dimensions.x
        } else {
            dimensions.y
        };
        let empty: Vec<Particle> = Vec::new();
        let tree = T::from_vec(empty, md);
        proof {
            broadcast use vstd::seq_lib::group_seq_properties;

            assert(well_separated(Seq::<Particle>::empty(), Seq::<Particle>::empty()));
            Seq::<Particle>::empty().to_multiset_ensures();
            assert(Seq::<Particle>::empty().to_multiset() =~= Multiset::<Particle>::empty());
        }
        World {
            particles: Vec::new(),
            tree,
            dimensions,
            gravity,
            step: STEP,
            mouse_pos: Option::None,
            show_quad_tree: false,
            is_pressing_mouse: false,
        }
    }

    /// Replace the pointer position.
    pub fn update_mouse_pos(&mut self, mouse_pos: Option<V2>)
        ensures
            (*final(self) == World { mouse_pos, ..*old(self) }),
    {
        self.mouse_pos = mouse_pos;
    }

    fn clone_particles(v: &Vec<Particle>) -> (r: Vec<Particle>)
        ensures
            r@ == v@,
    {
        let mut r: Vec<Particle> = Vec::new();
        let mut i: usize = 0;
        while i < v.len()
            invariant
                i <= v@.len(),
                r@ == v@.take(i as int),
            decreases v@.len() - i,
        {
            r.push(v[i]);
            proof {
                assert(r@ =~= v@.take(i as int + 1));
            }
            i = i + 1;
        }
        proof {
            assert(v@.take(v@.len() as int) =~= v@);
        }
        r
    }

    /// Rebuild the index from the current particle snapshot.
    fn update_tree(&mut self)
        requires
            old(self).world_wf(),
            old(self).positions_ok(),
        ensures
            (*final(self) == World { tree: final(self).tree, ..*old(self) }),
            final(self).tree.inv(),
            final(self).tree.contents_ms().len() <= old(self).particles@.len(),
            well_separated(Seq::<Particle>::empty(), old(self).particles@)
                ==> final(self).tree.contents_ms() == old(self).particles@.to_multiset(),
            T::pinned_build() ==> forall|cx: int, cy: int, r: int|
                final(self).tree.query_view(cx, cy, r) == T::build_query_view(
                    old(self).particles@,
                    max_dim_of(old(self).dimensions) as int,
                    cx,
                    cy,
                    r,
                ),
    {
        let md = if self.dimensions.x >= self.dimensions.y {
            self.dimensions.x
        } else {
            self.dimensions.y
        };
        let ps = Self::clone_particles(&self.particles);
        self.tree = T::from_vec(ps, md);
    }

    /// The neighbor-interaction force on one particle, accumulated over the
    /// index's candidates in visit order.
    pub fn calc_force(&self, particle: &Particle) -> (r: V2)
        requires
            self.tree.inv(),
        ensures
            r == accum_force(
                *particle,
                self.tree.query_view(
                    particle.position.x as int,
                    particle.position.y as int,
                    PARTICLE_RADIUS as int,
                ),
            ),
    {
        let neighbors = self.tree.query_distance(&particle.position, PARTICLE_RADIUS);
        let ghost nseq = neighbors@;
        let mut gradient = V2::new(0, 0);
        let mut i: usize = 0;
        while i < neighbors.len()
            invariant
                i <= nseq.len(),
                neighbors@ == nseq,
                gradient == accum_force(*particle, nseq.take(i as int)),
            decreases nseq.len() - i,
        {
            let other = neighbors[i];
            let p_vec = other.position.sub(&particle.position);
            let p_norm = p_vec.normalized();
            let d = p_vec.len();
            let k = smoothing_kernel_gradient(d);
            let g = -(k * PRESSURE_MULTIPLIER);
            let ghost before = gradient;
            gradient = gradient.add(&p_norm.scalar_mul(g));
            let collision_penalty = particle.velocity.sub(&other.velocity).scalar_mul(-FRICTION);
            gradient = gradient.add(&collision_penalty);
            proof {
                assert(nseq.take(i as int + 1).drop_last() =~= nseq.take(i as int));
                assert(nseq.take(i as int + 1).last() == other);
                assert(g as int == -(kernel_spec(len_spec(v2_sub_spec(other.position, particle.position))) * (PRESSURE_MULTIPLIER as int)));
                assert(gradient == v2_add_spec(
                    v2_add_spec(before, pressure_term(*particle, other)),
                    friction_term(*particle, other),
                ));
                assert(gradient == accum_force(*particle, nseq.take(i as int + 1)));
            }
            i = i + 1;
        }
        proof {
            assert(nseq.take(nseq.len() as int) =~= nseq);
        }
        gradient
    }

    /// The full acceleration on one particle before gravity: neighbor forces
    /// plus the pointer force when the pointer is active and near enough.
    pub fn calc_particle_acc(&self, particle: &Particle) -> (r: V2)
        requires
            self.tree.inv(),
        ensures
            r == with_mouse_force(
                accum_force(
                    *particle,
                    self.tree.query_view(
                        particle.position.x as int,
                        particle.position.y as int,
                        PARTICLE_RADIUS as int,
                    ),
                ),
                *particle,
                self.mouse_pos,
                self.is_pressing_mouse,
            ),
    {
        let acc = self.calc_force(particle);
        match &self.mouse_pos {
            Option::Some(mouse_pos) => {
                if self.is_pressing_mouse {
                    let mouse_distance = mouse_pos.sub(&particle.position);
                    let l = mouse_distance.len();
                    if l > MOUSE_RANGE {
                        return acc;
                    }
                    let mouse_acc = mouse_distance.normalized().scalar_mul(-MOUSE_FORCE);
                    return acc.add(&mouse_acc);
                }
                acc
            },
            Option::None => acc,
        }
    }

    /// One tick: rebuild the index, step every particle against the frozen
    /// index, then install the stepped snapshot.
    fn _evolve(&mut self)
        requires
            old(self).world_wf(),
            old(self).positions_ok(),
        ensures
            final(self).dimensions == old(self).dimensions,
            final(self).gravity == old(self).gravity,
            final(self).step == old(self).step,
            final(self).mouse_pos == old(self).mouse_pos,
            final(self).show_quad_tree == old(self).show_quad_tree,
            final(self).is_pressing_mouse == old(self).is_pressing_mouse,
            final(self).tree.inv(),
            final(self).world_wf(),
            final(self).particles@.len() == old(self).particles@.len(),
            forall|k: int|
                0 <= k < final(self).particles@.len() ==> 0 <= (
                #[trigger] final(self).particles@[k]).position.x
                    <= final(self).dimensions.x && 0 <= final(self).particles@[k].position.y
                    <= final(self).dimensions.y,
            final(self).positions_ok(),
            forall|k: int|
                0 <= k < final(self).particles@.len() ==> #[trigger] final(self).particles@[k]
                    == step_particle_spec(
                    old(self).particles@[k],
                    final(self).tree.query_view(
                        old(self).particles@[k].position.x as int,
                        old(self).particles@[k].position.y as int,
                        PARTICLE_RADIUS as int,
                    ),
                    old(self).gravity,
                    old(self).step,
                    old(self).dimensions,
                    old(self).mouse_pos,
                    old(self).is_pressing_mouse,
                ),
            tick_rel::<T>(
                old(self).particles@,
                final(self).particles@,
                final(self).tree,
                old(self).dimensions,
                old(self).gravity,
                old(self).step,
                old(self).mouse_pos,
                old(self).is_pressing_mouse,
            ),
            T::pinned_build() ==> final(self).particles@ == tick_spec::<T>(
                old(self).particles@,
                old(self).dimensions,
                old(self).gravity,
                old(self).step,
                old(self).mouse_pos,
                old(self).is_pressing_mouse,
            ),
    {
        let ghost ps0 = self.particles@;
        self.update_tree();
        let mut next: Vec<Particle> = Vec::new();
        let n = self.particles.len();
        let mut i: usize = 0;
        while i < n
            invariant
                self.particles@ == ps0,
                (*self == World { particles: self.particles, tree: self.tree, ..*old(self) }),
                self.tree.inv(),
                self.world_wf(),
                n == ps0.len(),
                i <= n,
                next@.len() == i as int,
                forall|k: int|
                    0 <= k < i ==> #[trigger] next@[k] == step_particle_spec(
                        ps0[k],
                        self.tree.query_view(
                            ps0[k].position.x as int,
                            ps0[k].position.y as int,
                            PARTICLE_RADIUS as int,
                        ),
                        self.gravity,
                        self.step,
                        self.dimensions,
                        self.mouse_pos,
                        self.is_pressing_mouse,
                    ),
                forall|k: int|
                    0 <= k < i ==> 0 <= (#[trigger] next@[k]).position.x <= self.dimensions.x && 0
                        <= next@[k].position.y <= self.dimensions.y,
            decreases n - i,
        {
            let p = self.particles[i];
            let acc = self.calc_particle_acc(&p).add(&self.gravity);
            let mut particle = p;
            particle.velocity = particle.velocity.add(&acc.scalar_mul(self.step));
            particle.position = particle.position.add(&particle.velocity.scalar_mul(self.step));
            let ghost integrated = particle;
            if particle.position.x < 0 {
                particle.position.x = 0;
                particle.velocity.x = sat_neg(particle.velocity.x);
            }
            if particle.position.x > self.dimensions.x {
                particle.position.x = self.dimensions.x;
                particle.velocity.x = sat_neg(particle.velocity.x);
            }
            if particle.position.y < 0 {
                particle.position.y = 0;
                particle.velocity.y = sat_neg(particle.velocity.y);
            }
            if particle.position.y > self.dimensions.y {
                particle.position.y = self.dimensions.y;
                particle.velocity.y = sat_neg(particle.velocity.y);
            }
            proof {
                assert(particle == reflect_spec(self.dimensions, integrated));
                assert(particle == step_particle_spec(
                    p,
                    self.tree.query_view(
                        p.position.x as int,
                        p.position.y as int,
                        PARTICLE_RADIUS as int,
                    ),
                    self.gravity,
                    self.step,
                    self.dimensions,
                    self.mouse_pos,
                    self.is_pressing_mouse,
                ));
            }
            next.push(particle);
            i = i + 1;
        }
        self.particles = next;
        proof {
            assert(self.particles@ =~= ps0.map_values(
                |p: Particle|
                    step_particle_spec(
                        p,
                        self.tree.query_view(
                            p.position.x as int,
                            p.position.y as int,
                            PARTICLE_RADIUS as int,
                        ),
                        old(self).gravity,
                        old(self).step,
                        old(self).dimensions,
                        old(self).mouse_pos,
                        old(self).is_pressing_mouse,
                    ),
            ));
            if T::pinned_build() {
                assert(self.particles@ =~= tick_spec::<T>(
                    ps0,
                    old(self).dimensions,
                    old(self).gravity,
                    old(self).step,
                    old(self).mouse_pos,
                    old(self).is_pressing_mouse,
                ));
            }
            assert(forall|k: int|
                0 <= k < self.particles@.len() ==> val_in_region(
                    #[trigger] self.particles@[k],
                    -max_dim_of(self.dimensions) as int,
                    max_dim_of(self.dimensions) as int,
                    -max_dim_of(self.dimensions) as int,
                    max_dim_of(self.dimensions) as int,
                ));
        }
    }

    /// Advance the simulation by `n` ticks; zero ticks change nothing.
    pub fn evolve(&mut self, n: usize)
        requires
            old(self).world_wf(),
            old(self).positions_ok(),
        ensures
            final(self).dimensions == old(self).dimensions,
            final(self).gravity == old(self).gravity,
            final(self).step == old(self).step,
            final(self).mouse_pos == old(self).mouse_pos,
            final(self).show_quad_tree == old(self).show_quad_tree,
            final(self).is_pressing_mouse == old(self).is_pressing_mouse,
            final(self).world_wf(),
            final(self).positions_ok(),
            final(self).particles@.len() == old(self).particles@.len(),
            n == 0 ==> *final(self) == *old(self),
            n >= 1 ==> final(self).tree.inv(),
            n >= 1 ==> forall|k: int|
                0 <= k < final(self).particles@.len() ==> 0 <= (
                #[trigger] final(self).particles@[k]).position.x <= final(self).dimensions.x && 0
                    <= final(self).particles@[k].position.y <= final(self).dimensions.y,
            evolve_reachable::<T>(
                old(self).particles@,
                final(self).particles@,
                old(self).dimensions,
                old(self).gravity,
                old(self).step,
                old(self).mouse_pos,
                old(self).is_pressing_mouse,
                n as nat,
            ),
            n == 1 ==> forall|k: int|
                0 <= k < final(self).particles@.len() ==> #[trigger] final(self).particles@[k]
                    == step_particle_spec(
                    old(self).particles@[k],
                    final(self).tree.query_view(
                        old(self).particles@[k].position.x as int,
                        old(self).particles@[k].position.y as int,
                        PARTICLE_RADIUS as int,
                    ),
                    old(self).gravity,
                    old(self).step,
                    old(self).dimensions,
                    old(self).mouse_pos,
                    old(self).is_pressing_mouse,
                ),
            T::pinned_build() ==> final(self).particles@ == evolve_spec::<T>(
                old(self).particles@,
                old(self).dimensions,
                old(self).gravity,
                old(self).step,
                old(self).mouse_pos,
                old(self).is_pressing_mouse,
                n as nat,
            ),
    {
        let mut k: usize = 0;
        while k < n
            invariant
                k <= n,
                self.dimensions == old(self).dimensions,
                self.gravity == old(self).gravity,
                self.step == old(self).step,
                self.mouse_pos == old(self).mouse_pos,
                self.show_quad_tree == old(self).show_quad_tree,
                self.is_pressing_mouse == old(self).is_pressing_mouse,
                self.world_wf(),
                self.positions_ok(),
                self.particles@.len() == old(self).particles@.len(),
                k == 0 ==> *self == *old(self),
                k >= 1 ==> self.tree.inv(),
                k >= 1 ==> forall|j: int|
                    0 <= j < self.particles@.len() ==> 0 <= (
                    #[trigger] self.particles@[j]).position.x <= self.dimensions.x && 0
                        <= self.particles@[j].position.y <= self.dimensions.y,
                evolve_reachable::<T>(
                    old(self).particles@,
                    self.particles@,
                    old(self).dimensions,
                    old(self).gravity,
                    old(self).step,
                    old(self).mouse_pos,
                    old(self).is_pressing_mouse,
                    k as nat,
                ),
                k == 1 ==> forall|j: int|
                    0 <= j < self.particles@.len() ==> #[trigger] self.particles@[j]
                        == step_particle_spec(
                        old(self).particles@[j],
                        self.tree.query_view(
                            old(self).particles@[j].position.x as int,
                            old(self).particles@[j].position.y as int,
                            PARTICLE_RADIUS as int,
                        ),
                        old(self).gravity,
                        old(self).step,
                        old(self).dimensions,
                        old(self).mouse_pos,
                        old(self).is_pressing_mouse,
                    ),
                T::pinned_build() ==> evolve_spec::<T>(
                    self.particles@,
                    old(self).dimensions,
                    old(self).gravity,
                    old(self).step,
                    old(self).mouse_pos,
                    old(self).is_pressing_mouse,
                    (n - k) as nat,
                ) == evolve_spec::<T>(
                    old(self).particles@,
                    old(self).dimensions,
                    old(self).gravity,
                    old(self).step,
                    old(self).mouse_pos,
                    old(self).is_pressing_mouse,
                    n as nat,
                ),
            decreases n - k,
        {
            let ghost pre_ps = self.particles@;
            self._evolve();
            proof {
                assert(tick_rel::<T>(
                    pre_ps,
                    self.particles@,
                    self.tree,
                    old(self).dimensions,
                    old(self).gravity,
                    old(self).step,
                    old(self).mouse_pos,
                    old(self).is_pressing_mouse,
                ));
                assert(evolve_reachable::<T>(
                    old(self).particles@,
                    self.particles@,
                    old(self).dimensions,
                    old(self).gravity,
                    old(self).step,
                    old(self).mouse_pos,
                    old(self).is_pressing_mouse,
                    (k + 1) as nat,
                ));
            }
            k = k + 1;
        }
    }

    /// Append `n` particles with positions drawn into the domain and
    /// velocities into a fixed range from the given randomness source, then
    /// rebuild the index.
    pub fn add_random_particles(&mut self, n: usize, rng: impl Fn() -> u64)
        requires
            old(self).world_wf(),
            old(self).positions_ok(),
            rng.requires(()),
            old(self).particles@.len() + n <= usize::MAX,
        ensures
            final(self).dimensions == old(self).dimensions,
            final(self).gravity == old(self).gravity,
            final(self).step == old(self).step,
            final(self).mouse_pos == old(self).mouse_pos,
            final(self).show_quad_tree == old(self).show_quad_tree,
            final(self).is_pressing_mouse == old(self).is_pressing_mouse,
            final(self).world_wf(),
            final(self).positions_ok(),
            final(self).particles@.len() == old(self).particles@.len() + n,
            final(self).particles@.take(old(self).particles@.len() as int) == old(self).particles@,
            forall|k: int|
                old(self).particles@.len() <= k < final(self).particles@.len() ==> 0 <= (
                #[trigger] final(self).particles@[k]).position.x <= final(self).dimensions.x && 0
                    <= final(self).particles@[k].position.y <= final(self).dimensions.y,
            forall|k: int|
                old(self).particles@.len() <= k < final(self).particles@.len()
                    ==> -50_000_000 <= (#[trigger] final(self).particles@[k]).velocity.x
                    <= 50_000_000 && -50_000_000 <= final(self).particles@[k].velocity.y
                    <= 50_000_000,
            final(self).tree.inv(),
            final(self).tree.contents_ms().len() <= final(self).particles@.len(),
            well_separated(Seq::<Particle>::empty(), final(self).particles@)
                ==> final(self).tree.contents_ms() == final(self).particles@.to_multiset(),
            T::pinned_build() ==> forall|cx: int, cy: int, r: int|
                final(self).tree.query_view(cx, cy, r) == T::build_query_view(
                    final(self).particles@,
                    max_dim_of(final(self).dimensions) as int,
                    cx,
                    cy,
                    r,
                ),
    {
        let ghost ps0 = self.particles@;
        let mut k: usize = 0;
        while k < n
            invariant
                k <= n,
                (*self == World { particles: self.particles, ..*old(self) }),
                self.world_wf(),
                rng.requires(()),
                self.particles@.len() == ps0.len() + k,
                ps0.len() + n <= usize::MAX,
                self.particles@.take(ps0.len() as int) == ps0,
                forall|j: int|
                    ps0.len() <= j < self.particles@.len() ==> 0 <= (
                    #[trigger] self.particles@[j]).position.x <= self.dimensions.x && 0
                        <= self.particles@[j].position.y <= self.dimensions.y,
                forall|j: int|
                    ps0.len() <= j < self.particles@.len() ==> -50_000_000 <= (
                    #[trigger] self.particles@[j]).velocity.x <= 50_000_000 && -50_000_000
                        <= self.particles@[j].velocity.y <= 50_000_000,
                self.positions_ok(),
            decreases n - k,
        {
            let rx = rng();
            let ry = rng();
            let rvx = rng();
            let rvy = rng();
            let x = (rx % (self.dimensions.x as u64 + 1)) as i64;
            let y = (ry % (self.dimensions.y as u64 + 1)) as i64;
            let vx = (rvx % 100_000_001) as i64 - 50_000_000;
            let vy = (rvy % 100_000_001) as i64 - 50_000_000;
            let particle = Particle::new(V2::new(x, y), V2::new(vx, vy));
            self.particles.push(particle);
            proof {
                assert(self.particles@.take(ps0.len() as int) =~= ps0);
            }
            k = k + 1;
        }
        self.update_tree();
    }
}


/// Integration determinism: with an index whose construction is pinned by
/// the snapshot, the outcome of `n` ticks is a function of the starting
/// state alone, so two runs from equal starting states end identically.
/// `World::evolve` ties each actual run to this function.
pub proof fn lemma_evolve_deterministic<T: GeoQuery<Particle>>(
    ps1: Seq<Particle>,
    ps2: Seq<Particle>,
    dims: V2,
    gravity: V2,
    step: i64,
    mouse_pos: Option<V2>,
    pressing: bool,
    n: nat,
)
    requires
        ps1 == ps2,
    ensures
        evolve_spec::<T>(ps1, dims, gravity, step, mouse_pos, pressing, n) == evolve_spec::<T>(
            ps2,
            dims,
            gravity,
            step,
            mouse_pos,
            pressing,
            n,
        ),
{
}

} // verus!
