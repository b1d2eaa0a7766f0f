use vstd::prelude::*;
use vstd::multiset::Multiset;

use crate::particle::{GeoQuery, Particle};
use crate::v2::{sat64, sat_add, sat_sub, Rect, V2};

verus! {

/// Holds the rstar R-tree. The tree is opaque to verification; what it holds
/// and what its box query yields are described by the named results below.
#[verifier::external_body]
pub struct StarSet {
    tree: rstar::RTree<rstar::primitives::GeomWithData<[i64; 2], (i64, i64)>>,
}

/// What the R-tree holds: one `(x, y, vx, vy)` tuple per stored particle.
pub uninterp spec fn star_contents(s: &StarSet) -> Multiset<(i64, i64, i64, i64)>;

/// The exact sequence a closed-box query yields: a deterministic traversal of
/// the built tree, so a function of the tree value and the box alone.
pub uninterp spec fn star_query_seq(s: &StarSet, x0: i64, y0: i64, x1: i64, y1: i64) -> Seq<
    (i64, i64, i64, i64),
>;

/// Relies on rstar::RTree::bulk_load: the built tree holds exactly the given
/// elements.
#[verifier::external_body]
fn star_bulk_load(pts: Vec<(i64, i64, i64, i64)>) -> (s: StarSet)
    ensures
        star_contents(&s) == pts@.to_multiset(),
{
    let objs: Vec<rstar::primitives::GeomWithData<[i64; 2], (i64, i64)>> = pts
        .into_iter()
        .map(|p| rstar::primitives::GeomWithData::new([p.0, p.1], (p.2, p.3)))
        .collect();
    StarSet { tree: rstar::RTree::bulk_load(objs) }
}

/// Relies on rstar::RTree::locate_in_envelope: for point geometries it yields
/// exactly the stored elements whose point lies in the closed box
/// `[x0, x1] x [y0, y1]`, in an order determined by the tree and the box.
/// The corners must be ordered: rstar would normalize inverted corners with
/// min/max, which the filter clause below does not describe.
#[verifier::external_body]
fn star_locate(s: &StarSet, x0: i64, y0: i64, x1: i64, y1: i64) -> (r: Vec<(i64, i64, i64, i64)>)
    requires
        x0 <= x1,
        y0 <= y1,
    ensures
        r@ == star_query_seq(s, x0, y0, x1, y1),
        r@.to_multiset() == star_contents(s).filter(
            |t: (i64, i64, i64, i64)| x0 <= t.0 && t.0 <= x1 && y0 <= t.1 && t.1 <= y1,
        ),
{
    s.tree.locate_in_envelope(rstar::AABB::from_corners([x0, y0], [x1, y1])).map(
        |g| (g.geom()[0], g.geom()[1], g.data.0, g.data.1),
    ).collect()
}

/// The rectangles a bounding-box walk of the tree yields: one per internal
/// node strictly below the root, in a traversal order determined by the tree
/// value alone.
pub uninterp spec fn star_bound_rects(s: &StarSet) -> Seq<Rect>;

/// Relies on rstar's tree accessors (root, children, envelope): one rectangle
/// per internal node strictly below the root, each being the merge of its
/// children's envelopes and therefore ordered on both axes.
#[verifier::external_body]
fn star_boundings(s: &StarSet) -> (r: Vec<Rect>)
    ensures
        r@ == star_bound_rects(s),
        forall|i: int|
            0 <= i < r@.len() ==> (#[trigger] r@[i]).x0 <= r@[i].x1 && r@[i].y0 <= r@[i].y1,
{
    let mut out = Vec::new();
    let mut stack = vec![s.tree.root()];
    while let Some(node) = stack.pop() {
        for child in node.children() {
            if let rstar::RTreeNode::Parent(p) = child {
                let env = p.envelope();
                let (lo, hi) = (env.lower(), env.upper());
                out.push(Rect { x0: lo[0], y0: lo[1], x1: hi[0], y1: hi[1] });
                stack.push(p);
            }
        }
    }
    out
}

/// A particle as the plain tuple the R-tree stores.
pub open spec fn tuple_of(p: Particle) -> (i64, i64, i64, i64) {
    (p.position.x, p.position.y, p.velocity.x, p.velocity.y)
}

/// The particle a stored tuple stands for; inverse of `tuple_of`.
pub open spec fn particle_of(t: (i64, i64, i64, i64)) -> Particle {
    Particle { position: V2 { x: t.0, y: t.1 }, velocity: V2 { x: t.2, y: t.3 } }
}

/// A particle sequence as stored tuples.
pub open spec fn tuples_of(s: Seq<Particle>) -> Seq<(i64, i64, i64, i64)> {
    s.map_values(|p: Particle| tuple_of(p))
}

/// A stored-tuple sequence as particles.
pub open spec fn particles_of(s: Seq<(i64, i64, i64, i64)>) -> Seq<Particle> {
    s.map_values(|t: (i64, i64, i64, i64)| particle_of(t))
}

/// Mapping tuples back to particles preserves per-value counts, because the
/// two conversions invert each other.
pub proof fn lemma_particles_of_count(s: Seq<(i64, i64, i64, i64)>, v: Particle)
    ensures
        particles_of(s).to_multiset().count(v) == s.to_multiset().count(tuple_of(v)),
    decreases s.len(),
{
    broadcast use vstd::seq_lib::group_seq_properties;

    if s.len() == 0 {
        assert(particles_of(s) =~= Seq::<Particle>::empty());
        assert(!particles_of(s).contains(v));
        assert(!s.contains(tuple_of(v)));
        particles_of(s).to_multiset_ensures();
        s.to_multiset_ensures();
    } else {
        lemma_particles_of_count(s.drop_last(), v);
        assert(particles_of(s) =~= particles_of(s.drop_last()).push(particle_of(s.last())));
        assert(s =~= s.drop_last().push(s.last()));
        assert(particles_of(s).to_multiset() =~= particles_of(s.drop_last()).to_multiset().insert(
            particle_of(s.last()),
        ));
        assert(s.to_multiset() =~= s.drop_last().to_multiset().insert(s.last()));
        assert(particle_of(s.last()) == v <==> s.last() == tuple_of(v));
    }
}

/// Mapping particles to tuples preserves per-value counts.
pub proof fn lemma_tuples_of_count(s: Seq<Particle>, v: Particle)
    ensures
        tuples_of(s).to_multiset().count(tuple_of(v)) == s.to_multiset().count(v),
    decreases s.len(),
{
    broadcast use vstd::seq_lib::group_seq_properties;

    if s.len() == 0 {
        assert(tuples_of(s) =~= Seq::<(i64, i64, i64, i64)>::empty());
        assert(!tuples_of(s).contains(tuple_of(v)));
        assert(!s.contains(v));
        tuples_of(s).to_multiset_ensures();
        s.to_multiset_ensures();
    } else {
        lemma_tuples_of_count(s.drop_last(), v);
        assert(tuples_of(s) =~= tuples_of(s.drop_last()).push(tuple_of(s.last())));
        assert(s =~= s.drop_last().push(s.last()));
        assert(tuples_of(s).to_multiset() =~= tuples_of(s.drop_last()).to_multiset().insert(
            tuple_of(s.last()),
        ));
        assert(s.to_multiset() =~= s.drop_last().to_multiset().insert(s.last()));
        assert(tuple_of(s.last()) == tuple_of(v) <==> s.last() == v);
    }
}

/// A balanced bounding-rectangle tree over a particle snapshot, bulk-loaded
/// by rstar. Unlike the other two indices, its box query is exact: it
/// reports precisely the stored particles inside the query box.
pub struct RStartree {
    pub tree: StarSet,
    pub src: Ghost<Seq<Particle>>,
}

impl RStartree {
    /// The opaque tree holds exactly the remembered snapshot.
    pub open spec fn linked(&self) -> bool {
        star_contents(&self.tree) == tuples_of(self.src@).to_multiset()
    }

    /// Bulk-load a tree from a snapshot; the depth hint and the domain bound
    /// are not needed, the tree infers its extents from the data.
    pub fn from_vec(vec: Vec<Particle>, order: u64, max_dim: i64) -> (t: RStartree)
        ensures
            t.linked(),
            t.src@ == vec@,
    {
        let mut pts: Vec<(i64, i64, i64, i64)> = Vec::new();
        let mut i: usize = 0;
        while i < vec.len()
            invariant
                i <= vec@.len(),
                pts@ == tuples_of(vec@.take(i as int)),
            decreases vec@.len() - i,
        {
            let p = vec[i];
            pts.push((p.position.x, p.position.y, p.velocity.x, p.velocity.y));
            proof {
                assert(pts@ =~= tuples_of(vec@.take(i as int + 1)));
            }
            i = i + 1;
        }
        proof {
            assert(vec@.take(vec@.len() as int) =~= vec@);
        }
        let star = star_bulk_load(pts);
        RStartree { tree: star, src: Ghost(vec@) }
    }

    /// The internal nodes' bounding rectangles (leaves excluded), for
    /// diagnostic drawing.
    pub fn boundings(&self) -> (r: Vec<Rect>)
        ensures
            r@ == star_bound_rects(&self.tree),
            forall|i: int|
                0 <= i < r@.len() ==> (#[trigger] r@[i]).x0 <= r@[i].x1 && r@[i].y0 <= r@[i].y1,
    {
        star_boundings(&self.tree)
    }
}


impl GeoQuery<Particle> for RStartree {
    open spec fn inv(&self) -> bool {
        self.linked()
    }

    open spec fn contents_ms(&self) -> Multiset<Particle> {
        self.src@.to_multiset()
    }

    open spec fn query_view(&self, cx: int, cy: int, r: int) -> Seq<Particle> {
        particles_of(
            star_query_seq(
                &self.tree,
                sat64(cx - r) as i64,
                sat64(cy - r) as i64,
                sat64(cx + r) as i64,
                sat64(cy + r) as i64,
            ),
        )
    }

    open spec fn pinned_build() -> bool {
        false
    }

    open spec fn build_query_view(
        vec: Seq<Particle>,
        max_dim: int,
        cx: int,
        cy: int,
        r: int,
    ) -> Seq<Particle> {
        arbitrary()
    }

    fn from_vec(vec: Vec<Particle>, max_dim: i64) -> (t: Self) {
        let ghost vs = vec@;
        let t = RStartree::from_vec(vec, 32, max_dim);
        proof {
            vs.to_multiset_ensures();
        }
        t
    }

    /// The rectangle-tree query is exact for its box: it reports, with
    /// multiplicity, precisely the stored particles whose position lies in
    /// the query's closed bounding square.
    fn query_distance(&self, point: &V2, radius: i64) -> (res: Vec<Particle>)
        ensures
            forall|v: Particle|
                #[trigger] res@.to_multiset().count(v) == (if point.x - radius <= v.position.x
                    <= point.x + radius && point.y - radius <= v.position.y <= point.y + radius {
                    self.src@.to_multiset().count(v)
                } else {
                    0nat
                }),
    {
        let x0 = sat_sub(point.x, radius);
        let y0 = sat_sub(point.y, radius);
        let x1 = sat_add(point.x, radius);
        let y1 = sat_add(point.y, radius);
        let tuples = star_locate(&self.tree, x0, y0, x1, y1);
        let ghost ts = tuples@;
        let mut res: Vec<Particle> = Vec::new();
        let mut i: usize = 0;
        while i < tuples.len()
            invariant
                i <= ts.len(),
                tuples@ == ts,
                res@ == particles_of(ts.take(i as int)),
            decreases ts.len() - i,
        {
            let t = tuples[i];
            res.push(Particle { position: V2 { x: t.0, y: t.1 }, velocity: V2 { x: t.2, y: t.3 } });
            proof {
                assert(res@ =~= particles_of(ts.take(i as int + 1)));
            }
            i = i + 1;
        }
        proof {
            broadcast use vstd::multiset::group_multiset_axioms;

            assert(ts.take(ts.len() as int) =~= ts);
            assert forall|v: Particle|
                res@.to_multiset().count(v) <= self.src@.to_multiset().count(v) && res@.to_multiset().count(v) == (if point.x - radius <= v.position.x
                    <= point.x + radius && point.y - radius <= v.position.y <= point.y + radius {
                    self.src@.to_multiset().count(v)
                } else {
                    0nat
                }) by {
                lemma_particles_of_count(ts, v);
                lemma_tuples_of_count(self.src@, v);
                assert(ts.to_multiset().count(tuple_of(v)) == (if x0 <= tuple_of(v).0 <= x1
                    && y0 <= tuple_of(v).1 <= y1 {
                    star_contents(&self.tree).count(tuple_of(v))
                } else {
                    0nat
                }));
            }
        }
        res
    }
}

} // verus!
