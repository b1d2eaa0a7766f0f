use vstd::prelude::*;
use vstd::multiset::Multiset;

use crate::particle::GeoQuery;
use crate::v2::{dist2, point_in_rect, Rect, TreeValue, V2, rects_intersect_spec, sat64, sat_add, sat_sub};

verus! {

/// Squared degeneracy threshold: two values at squared distance below this
/// are treated as coincident when a leaf would have to split.
pub const DEGENERACY_EPS2: i64 = 10_000;

/// All region coordinates stay within this bound, which keeps every midpoint
/// and distance computation inside `i64`.
pub const REGION_BOUND: i64 = 4_000_000_000_000;

/// How many degeneracy nudges one insertion may take before the value is
/// given up; unreachable for inputs that respect the degeneracy threshold.
pub const PERTURB_LIMIT: u64 = 16;

/// One of the four sub-regions of a node, split at the node's center.
pub enum Quadrant {
    NW,
    NE,
    SW,
    SE,
}

/// A node is empty, holds exactly one value, or has split into four children.
pub enum QuadTreeNode<T> {
    Empty,
    Leaf { value: T },
    Node { nw: Box<QuadTree<T>>, ne: Box<QuadTree<T>>, sw: Box<QuadTree<T>>, se: Box<QuadTree<T>> },
}

/// A region quadtree over the closed integer rectangle
/// `[x_lo, x_hi] x [y_lo, y_hi]`. Children split the region at its midpoints
/// and tile it exactly, so a position determines one descent path.
pub struct QuadTree<T> {
    pub node: QuadTreeNode<T>,
    pub x_lo: i64,
    pub x_hi: i64,
    pub y_lo: i64,
    pub y_hi: i64,
}

/// Whether a value's position lies in the closed region.
pub open spec fn val_in_region<T: TreeValue>(v: T, x_lo: int, x_hi: int, y_lo: int, y_hi: int) -> bool {
    x_lo <= v.spec_x() && v.spec_x() <= x_hi && y_lo <= v.spec_y() && v.spec_y() <= y_hi
}

impl<T: TreeValue> QuadTree<T> {
    /// The number of integer x coordinates in the region.
    pub open spec fn xsize(&self) -> int {
        self.x_hi - self.x_lo + 1
    }

    /// The number of integer y coordinates in the region.
    pub open spec fn ysize(&self) -> int {
        self.y_hi - self.y_lo + 1
    }

    /// The x midpoint: x coordinates below it go west, the rest east.
    pub open spec fn mid_x(&self) -> int {
        self.x_lo + self.xsize() / 2
    }

    /// The y midpoint: y coordinates below it go north, the rest south.
    pub open spec fn mid_y(&self) -> int {
        self.y_lo + self.ysize() / 2
    }

    /// The node's region as a rectangle.
    pub open spec fn spec_rect(&self) -> Rect {
        Rect { x0: self.x_lo, y0: self.y_lo, x1: self.x_hi, y1: self.y_hi }
    }

    /// The region's bounds are ordered (up to emptiness) and within range.
    pub open spec fn region_ok(&self) -> bool {
        &&& -REGION_BOUND <= self.x_lo as int
        &&& self.x_hi as int <= REGION_BOUND as int
        &&& self.x_hi as int >= self.x_lo as int - 1
        &&& -REGION_BOUND <= self.y_lo as int
        &&& self.y_hi as int <= REGION_BOUND as int
        &&& self.y_hi as int >= self.y_lo as int - 1
    }

    pub open spec fn contains_pos(&self, v: T) -> bool {
        val_in_region(v, self.x_lo as int, self.x_hi as int, self.y_lo as int, self.y_hi as int)
    }

    /// The geometry the four children of this node must have.
    pub open spec fn child_regions_ok(&self, nw: QuadTree<T>, ne: QuadTree<T>, sw: QuadTree<T>, se: QuadTree<T>) -> bool {
        &&& nw.x_lo == self.x_lo && nw.x_hi as int == self.mid_x() - 1
        &&& nw.y_lo == self.y_lo && nw.y_hi as int == self.mid_y() - 1
        &&& ne.x_lo as int == self.mid_x() && ne.x_hi == self.x_hi
        &&& ne.y_lo == self.y_lo && ne.y_hi as int == self.mid_y() - 1
        &&& sw.x_lo == self.x_lo && sw.x_hi as int == self.mid_x() - 1
        &&& sw.y_lo as int == self.mid_y() && sw.y_hi == self.y_hi
        &&& se.x_lo as int == self.mid_x() && se.x_hi == self.x_hi
        &&& se.y_lo as int == self.mid_y() && se.y_hi == self.y_hi
    }

    /// Well-formedness: regions are ordered and nested, a leaf's value lies in
    /// its region, a leaf region is non-empty, and an internal node is big
    /// enough to have been worth splitting.
    pub open spec fn wf(&self) -> bool
        decreases self,
    {
        match self.node {
            QuadTreeNode::Empty => self.region_ok(),
            QuadTreeNode::Leaf { value } => {
                &&& self.region_ok()
                &&& self.xsize() >= 1
                &&& self.ysize() >= 1
                &&& self.contains_pos(value)
            },
            QuadTreeNode::Node { nw, ne, sw, se } => {
                &&& self.region_ok()
                &&& self.xsize() >= 1
                &&& self.ysize() >= 1
                &&& self.xsize() >= 2 || self.ysize() >= 2
                &&& self.child_regions_ok(*nw, *ne, *sw, *se)
                &&& nw.wf()
                &&& ne.wf()
                &&& sw.wf()
                &&& se.wf()
            },
        }
    }

    /// Every value stored in the subtree, in depth-first order.
    pub open spec fn contents(&self) -> Seq<T>
        decreases self,
    {
        match self.node {
            QuadTreeNode::Empty => Seq::empty(),
            QuadTreeNode::Leaf { value } => seq![value],
            QuadTreeNode::Node { nw, ne, sw, se } => nw.contents() + ne.contents() + sw.contents()
                + se.contents(),
        }
    }

    /// What a rectangle query visits: subtrees whose rectangle misses the
    /// query are pruned, every leaf of a visited subtree is reported.
    pub open spec fn query_spec(&self, qr: Rect) -> Seq<T>
        decreases self,
    {
        if !rects_intersect_spec(self.spec_rect(), qr) {
            Seq::empty()
        } else {
            match self.node {
                QuadTreeNode::Empty => Seq::empty(),
                QuadTreeNode::Leaf { value } => seq![value],
                QuadTreeNode::Node { nw, ne, sw, se } => nw.query_spec(qr) + ne.query_spec(qr)
                    + sw.query_spec(qr) + se.query_spec(qr),
            }
        }
    }

    /// The rectangles of the occupied leaves, in depth-first order.
    pub open spec fn leaf_rects(&self) -> Seq<Rect>
        decreases self,
    {
        match self.node {
            QuadTreeNode::Empty => Seq::empty(),
            QuadTreeNode::Leaf { value } => seq![self.spec_rect()],
            QuadTreeNode::Node { nw, ne, sw, se } => nw.leaf_rects() + ne.leaf_rects()
                + sw.leaf_rects() + se.leaf_rects(),
        }
    }
}

/// A region that is empty on some axis stores nothing.
pub proof fn lemma_empty_axis_no_contents<T: TreeValue>(t: QuadTree<T>)
    requires
        t.wf(),
        t.xsize() <= 0 || t.ysize() <= 0,
    ensures
        t.contents() =~= Seq::<T>::empty(),
    decreases t,
{
    match t.node {
        QuadTreeNode::Empty => {},
        QuadTreeNode::Leaf { value } => {},
        QuadTreeNode::Node { nw, ne, sw, se } => {
            assert(nw.xsize() <= 0 || nw.ysize() <= 0);
            assert(ne.xsize() <= 0 || ne.ysize() <= 0);
            assert(sw.xsize() <= 0 || sw.ysize() <= 0);
            assert(se.xsize() <= 0 || se.ysize() <= 0);
            lemma_empty_axis_no_contents(*nw);
            lemma_empty_axis_no_contents(*ne);
            lemma_empty_axis_no_contents(*sw);
            lemma_empty_axis_no_contents(*se);
        },
    }
}

/// Every stored value lies in its subtree's region.
pub proof fn lemma_contents_in_region<T: TreeValue>(t: QuadTree<T>)
    requires
        t.wf(),
    ensures
        forall|j: int| 0 <= j < t.contents().len() ==> t.contains_pos(#[trigger] t.contents()[j]),
    decreases t,
{
    match t.node {
        QuadTreeNode::Empty => {},
        QuadTreeNode::Leaf { value } => {},
        QuadTreeNode::Node { nw, ne, sw, se } => {
            lemma_contents_in_region(*nw);
            lemma_contents_in_region(*ne);
            lemma_contents_in_region(*sw);
            lemma_contents_in_region(*se);
            assert forall|j: int| 0 <= j < t.contents().len() implies t.contains_pos(
                #[trigger] t.contents()[j],
            ) by {
                let a = nw.contents().len() as int;
                let b = ne.contents().len() as int;
                let c = sw.contents().len() as int;
                if j < a {
                    assert(t.contents()[j] == nw.contents()[j]);
                } else if j < a + b {
                    assert(t.contents()[j] == ne.contents()[j - a]);
                } else if j < a + b + c {
                    assert(t.contents()[j] == sw.contents()[j - a - b]);
                } else {
                    assert(t.contents()[j] == se.contents()[j - a - b - c]);
                }
            }
        },
    }
}


/// Every value of `s` is at least the degeneracy threshold away from `v`.
pub open spec fn clear_of<T: TreeValue>(s: Seq<T>, v: T) -> bool {
    forall|j: int| 0 <= j < s.len() ==> dist2(#[trigger] s[j], v) >= DEGENERACY_EPS2 as int
}

/// Squared distance does not depend on the order of its arguments.
pub proof fn lemma_dist2_sym<T: TreeValue>(a: T, b: T)
    by (nonlinear_arith)
    ensures
        dist2(a, b) == dist2(b, a),
{
}

/// A sequence whose multiset is one value is that one-value sequence.
proof fn lemma_singleton_contents<T>(s: Seq<T>, v: T)
    requires
        s.to_multiset() == Multiset::<T>::empty().insert(v),
    ensures
        s =~= seq![v],
{
    broadcast use vstd::seq_lib::group_seq_properties;

    s.to_multiset_ensures();
    assert(s.len() == 1);
    assert(s.contains(s[0]));
    assert(s.to_multiset().count(s[0]) > 0);
    if s[0] != v {
        assert(Multiset::<T>::empty().insert(v).count(s[0]) == 0);
    }
}

/// Leaves rank above other nodes, so a split's re-insertions may target a
/// freshly built internal node of the same region.
pub open spec fn node_rank<T>(n: QuadTreeNode<T>) -> int {
    match n {
        QuadTreeNode::Leaf { value } => 1,
        _ => 0,
    }
}

/// The midpoint coordinate a region splits at.
pub open spec fn region_mid(lo: i64, hi: i64) -> int {
    lo + (hi - lo + 1) / 2
}

/// An empty tree over a region.
pub open spec fn spec_empty_at<T: TreeValue>(x_lo: i64, x_hi: i64, y_lo: i64, y_hi: i64) -> QuadTree<T> {
    QuadTree { node: QuadTreeNode::Empty, x_lo, x_hi, y_lo, y_hi }
}

/// An internal node over a region with four empty children.
pub open spec fn spec_internal_at<T: TreeValue>(
    x_lo: i64,
    x_hi: i64,
    y_lo: i64,
    y_hi: i64,
) -> QuadTree<T> {
    let mx = region_mid(x_lo, x_hi);
    let my = region_mid(y_lo, y_hi);
    QuadTree {
        node: QuadTreeNode::Node {
            nw: Box::new(spec_empty_at(x_lo, (mx - 1) as i64, y_lo, (my - 1) as i64)),
            ne: Box::new(spec_empty_at(mx as i64, x_hi, y_lo, (my - 1) as i64)),
            sw: Box::new(spec_empty_at(x_lo, (mx - 1) as i64, my as i64, y_hi)),
            se: Box::new(spec_empty_at(mx as i64, x_hi, my as i64, y_hi)),
        },
        x_lo,
        x_hi,
        y_lo,
        y_hi,
    }
}

/// Replace the node of the quadrant child a value routes to with a leaf
/// holding the value; meaningful on an internal node with empty children.
pub open spec fn spec_place<T: TreeValue>(t: QuadTree<T>, w: T) -> QuadTree<T> {
    match t.node {
        QuadTreeNode::Node { nw, ne, sw, se } => {
            let west = w.spec_x() < region_mid(t.x_lo, t.x_hi);
            let north = w.spec_y() < region_mid(t.y_lo, t.y_hi);
            if west && north {
                QuadTree {
                    node: QuadTreeNode::Node {
                        nw: Box::new(QuadTree { node: QuadTreeNode::Leaf { value: w }, ..*nw }),
                        ne,
                        sw,
                        se,
                    },
                    ..t
                }
            } else if !west && north {
                QuadTree {
                    node: QuadTreeNode::Node {
                        nw,
                        ne: Box::new(QuadTree { node: QuadTreeNode::Leaf { value: w }, ..*ne }),
                        sw,
                        se,
                    },
                    ..t
                }
            } else if west {
                QuadTree {
                    node: QuadTreeNode::Node {
                        nw,
                        ne,
                        sw: Box::new(QuadTree { node: QuadTreeNode::Leaf { value: w }, ..*sw }),
                        se,
                    },
                    ..t
                }
            } else {
                QuadTree {
                    node: QuadTreeNode::Node {
                        nw,
                        ne,
                        sw,
                        se: Box::new(QuadTree { node: QuadTreeNode::Leaf { value: w }, ..*se }),
                    },
                    ..t
                }
            }
        },
        _ => t,
    }
}

/// The guard under which an internal node may recurse: a well-formed shape
/// and a value inside the region.
pub open spec fn spec_step_guard<T: TreeValue>(t: QuadTree<T>, v: T) -> bool {
    match t.node {
        QuadTreeNode::Node { nw, ne, sw, se } => {
            &&& t.xsize() >= 1
            &&& t.ysize() >= 1
            &&& t.xsize() >= 2 || t.ysize() >= 2
            &&& t.child_regions_ok(*nw, *ne, *sw, *se)
            &&& t.contains_pos(v)
        },
        _ => false,
    }
}

/// What one routed insertion does to the tree: the exact new tree and, on a
/// degeneracy conflict, the nudged value handed back to the caller.
pub open spec fn spec_insert_step<T: TreeValue>(t: QuadTree<T>, v: T) -> (QuadTree<T>, Option<T>)
    decreases t.x_hi - t.x_lo + t.y_hi - t.y_lo + 2, node_rank(t.node),
{
    match t.node {
        QuadTreeNode::Empty => (QuadTree { node: QuadTreeNode::Leaf { value: v }, ..t }, Option::None),
        QuadTreeNode::Leaf { value: w } => {
            if dist2(v, w) < DEGENERACY_EPS2 as int {
                (t, Option::Some(v.offset_spec()))
            } else if t.xsize() >= 1 && t.ysize() >= 1 && (t.xsize() >= 2 || t.ysize() >= 2) {
                let t1 = spec_place(spec_internal_at(t.x_lo, t.x_hi, t.y_lo, t.y_hi), w);
                spec_insert_step(t1, v)
            } else {
                (t, Option::Some(v.offset_spec()))
            }
        },
        QuadTreeNode::Node { nw, ne, sw, se } => {
            if spec_step_guard(t, v) {
                let west = v.spec_x() < region_mid(t.x_lo, t.x_hi);
                let north = v.spec_y() < region_mid(t.y_lo, t.y_hi);
                if west && north {
                    let r = spec_insert_step(*nw, v);
                    (QuadTree { node: QuadTreeNode::Node { nw: Box::new(r.0), ne, sw, se }, ..t }, r.1)
                } else if !west && north {
                    let r = spec_insert_step(*ne, v);
                    (QuadTree { node: QuadTreeNode::Node { nw, ne: Box::new(r.0), sw, se }, ..t }, r.1)
                } else if west {
                    let r = spec_insert_step(*sw, v);
                    (QuadTree { node: QuadTreeNode::Node { nw, ne, sw: Box::new(r.0), se }, ..t }, r.1)
                } else {
                    let r = spec_insert_step(*se, v);
                    (QuadTree { node: QuadTreeNode::Node { nw, ne, sw, se: Box::new(r.0) }, ..t }, r.1)
                }
            } else {
                (t, Option::Some(v.offset_spec()))
            }
        },
    }
}

impl<T: TreeValue> QuadTree<T> {
    /// An empty tree over the closed region `center +- half extents`.
    pub fn new(center: V2, half_width: i64, half_height: i64) -> (t: QuadTree<T>)
        requires
            0 <= half_width,
            0 <= half_height,
            -REGION_BOUND <= center.x - half_width,
            center.x + half_width <= REGION_BOUND,
            -REGION_BOUND <= center.y - half_height,
            center.y + half_height <= REGION_BOUND,
        ensures
            t.wf(),
            t.contents() == Seq::<T>::empty(),
            t.x_lo == center.x - half_width,
            t.x_hi == center.x + half_width,
            t.y_lo == center.y - half_height,
            t.y_hi == center.y + half_height,
            t.node is Empty,
    {
        QuadTree {
            node: QuadTreeNode::Empty,
            x_lo: center.x - half_width,
            x_hi: center.x + half_width,
            y_lo: center.y - half_height,
            y_hi: center.y + half_height,
        }
    }

    /// The node's region.
    pub fn get_rect(&self) -> (r: Rect)
        ensures
            r == self.spec_rect(),
    {
        Rect { x0: self.x_lo, y0: self.y_lo, x1: self.x_hi, y1: self.y_hi }
    }

    /// An internal node with four empty children tiling the given region.
    fn new_internal(x_lo: i64, x_hi: i64, y_lo: i64, y_hi: i64) -> (t: QuadTree<T>)
        requires
            -REGION_BOUND <= x_lo,
            x_hi <= REGION_BOUND,
            -REGION_BOUND <= y_lo,
            y_hi <= REGION_BOUND,
            x_hi >= x_lo,
            y_hi >= y_lo,
            x_hi - x_lo + 1 >= 2 || y_hi - y_lo + 1 >= 2,
        ensures
            t.wf(),
            t.contents() == Seq::<T>::empty(),
            t.x_lo == x_lo,
            t.x_hi == x_hi,
            t.y_lo == y_lo,
            t.y_hi == y_hi,
            t.node is Node,
            t == spec_internal_at::<T>(x_lo, x_hi, y_lo, y_hi),
    {
        let span_x: u64 = (x_hi - x_lo + 1) as u64;
        let span_y: u64 = (y_hi - y_lo + 1) as u64;
        let mx: i64 = x_lo + (span_x / 2) as i64;
        let my: i64 = y_lo + (span_y / 2) as i64;
        let nw = QuadTree {
            node: QuadTreeNode::Empty,
            x_lo,
            x_hi: mx - 1,
            y_lo,
            y_hi: my - 1,
        };
        let ne = QuadTree { node: QuadTreeNode::Empty, x_lo: mx, x_hi, y_lo, y_hi: my - 1 };
        let sw = QuadTree { node: QuadTreeNode::Empty, x_lo, x_hi: mx - 1, y_lo: my, y_hi };
        let se = QuadTree { node: QuadTreeNode::Empty, x_lo: mx, x_hi, y_lo: my, y_hi };
        let ghost gnw = nw;
        let ghost gne = ne;
        let ghost gsw = sw;
        let ghost gse = se;
        let t = QuadTree {
            node: QuadTreeNode::Node {
                nw: Box::new(nw),
                ne: Box::new(ne),
                sw: Box::new(sw),
                se: Box::new(se),
            },
            x_lo,
            x_hi,
            y_lo,
            y_hi,
        };
        proof {
            assert(gnw.wf() && gnw.contents() =~= Seq::<T>::empty());
            assert(gne.wf() && gne.contents() =~= Seq::<T>::empty());
            assert(gsw.wf() && gsw.contents() =~= Seq::<T>::empty());
            assert(gse.wf() && gse.contents() =~= Seq::<T>::empty());
            assert(t.wf());
            assert(t.contents() =~= Seq::<T>::empty());
        }
        t
    }

    /// An internal node with four empty quadrants, split at `center`.
    pub fn new_node(center: V2, half_width: i64, half_height: i64) -> (t: QuadTree<T>)
        requires
            0 <= half_width,
            0 <= half_height,
            1 <= half_width || 1 <= half_height,
            -REGION_BOUND <= center.x - half_width,
            center.x + half_width <= REGION_BOUND,
            -REGION_BOUND <= center.y - half_height,
            center.y + half_height <= REGION_BOUND,
        ensures
            t.wf(),
            t.contents() == Seq::<T>::empty(),
            t.x_lo == center.x - half_width,
            t.x_hi == center.x + half_width,
            t.y_lo == center.y - half_height,
            t.y_hi == center.y + half_height,
            t == spec_internal_at::<T>(
                (center.x - half_width) as i64,
                (center.x + half_width) as i64,
                (center.y - half_height) as i64,
                (center.y + half_height) as i64,
            ),
    {
        Self::new_internal(
            center.x - half_width,
            center.x + half_width,
            center.y - half_height,
            center.y + half_height,
        )
    }

    /// Which quadrant a point falls into, splitting at the region midpoints;
    /// points on a midpoint go to the greater side.
    fn quadrant(&self, point: &V2) -> (q: Quadrant)
        requires
            self.region_ok(),
        ensures
            (q is NW) <==> ((point.x as int) < self.mid_x() && (point.y as int) < self.mid_y()),
            (q is NE) <==> (self.mid_x() <= point.x as int && (point.y as int) < self.mid_y()),
            (q is SW) <==> ((point.x as int) < self.mid_x() && self.mid_y() <= point.y as int),
            (q is SE) <==> (self.mid_x() <= point.x as int && self.mid_y() <= point.y as int),
    {
        let span_x: u64 = (self.x_hi - self.x_lo + 1) as u64;
        let span_y: u64 = (self.y_hi - self.y_lo + 1) as u64;
        let mx: i64 = self.x_lo + (span_x / 2) as i64;
        let my: i64 = self.y_lo + (span_y / 2) as i64;
        if point.x < mx {
            if point.y < my {
                Quadrant::NW
            } else {
                Quadrant::SW
            }
        } else {
            if point.y < my {
                Quadrant::NE
            } else {
                Quadrant::SE
            }
        }
    }

    /// Place a value in the subtree. A conflict of two values closer than the
    /// degeneracy threshold does not split; the incoming value is nudged and
    /// handed back for the caller to route again from the root.
    fn insert_inner(&mut self, value: T) -> (rejected: Option<T>)
        requires
            old(self).wf(),
            old(self).contains_pos(value),
        ensures
            final(self).wf(),
            final(self).x_lo == old(self).x_lo,
            final(self).x_hi == old(self).x_hi,
            final(self).y_lo == old(self).y_lo,
            final(self).y_hi == old(self).y_hi,
            ((old(self).node is Node) ==> (final(self).node is Node)),
            (match rejected {
                Option::None => final(self).contents().to_multiset() == old(
                    self,
                ).contents().to_multiset().insert(value),
                Option::Some(v) => final(self).contents() == old(self).contents() && v
                    == value.offset_spec(),
            }),
            clear_of(old(self).contents(), value) ==> (rejected is None),
            *final(self) == spec_insert_step(*old(self), value).0,
            rejected == spec_insert_step(*old(self), value).1,
        decreases self.xsize() + self.ysize(), node_rank(self.node),
    {
        broadcast use vstd::seq_lib::lemma_multiset_commutative;
        broadcast use vstd::seq_lib::group_seq_properties;

        let mut node = QuadTreeNode::Empty;
        core::mem::swap(&mut self.node, &mut node);
        match node {
            QuadTreeNode::Empty => {
                self.node = QuadTreeNode::Leaf { value };
                proof {
                    assert(self.contents() =~= seq![value]);
                    assert(seq![value] =~= Seq::<T>::empty().push(value));
                    assert(seq![value].to_multiset() =~= Seq::<T>::empty().to_multiset().insert(
                        value,
                    ));
                    assert(*self == spec_insert_step(*old(self), value).0);
                }
                Option::None
            },
            QuadTreeNode::Leaf { value: this_value } => {
                let pn = value.position();
                let po = this_value.position();
                let d = pn.sub(&po);
                let d2 = d.norm_sqr();
                proof {
                    assert(old(self).contains_pos(this_value));
                    assert(-REGION_BOUND <= value.spec_x() <= REGION_BOUND);
                    assert(-REGION_BOUND <= value.spec_y() <= REGION_BOUND);
                    assert(-REGION_BOUND <= this_value.spec_x() <= REGION_BOUND);
                    assert(-REGION_BOUND <= this_value.spec_y() <= REGION_BOUND);
                    assert(d.x as int == value.spec_x() - this_value.spec_x());
                    assert(d.y as int == value.spec_y() - this_value.spec_y());
                    lemma_dist2_sym(this_value, value);
                    assert(crate::v2::norm2_spec(d) == dist2(value, this_value)) by (nonlinear_arith)
                        requires
                            d.x as int == value.spec_x() - this_value.spec_x(),
                            d.y as int == value.spec_y() - this_value.spec_y(),
                    ;
                    assert((d2 as int) < DEGENERACY_EPS2 as int <==> dist2(this_value, value)
                        < DEGENERACY_EPS2 as int);
                }
                if d2 < DEGENERACY_EPS2 {
                    self.node = QuadTreeNode::Leaf { value: this_value };
                    let mut nudged = value;
                    nudged.offset_pos();
                    proof {
                        assert(old(self).contents() =~= seq![this_value]);
                        assert(self.contents() =~= seq![this_value]);
                        assert(old(self).contents()[0] == this_value);
                        assert(dist2(old(self).contents()[0], value) < DEGENERACY_EPS2 as int);
                        assert(*self == *old(self));
                        assert(dist2(value, this_value) < DEGENERACY_EPS2 as int);
                        assert(*self == spec_insert_step(*old(self), value).0);
                        assert(nudged == spec_insert_step(*old(self), value).1.unwrap());
                    }
                    Option::Some(nudged)
                } else {
                    proof {
                        if old(self).xsize() == 1 && old(self).ysize() == 1 {
                            assert(value.spec_x() == this_value.spec_x());
                            assert(value.spec_y() == this_value.spec_y());
                            assert(dist2(this_value, value) == 0) by (nonlinear_arith)
                                requires
                                    value.spec_x() == this_value.spec_x(),
                                    value.spec_y() == this_value.spec_y(),
                            ;
                        }
                    }
                    proof {
                        assert(old(self).xsize() >= 2 || old(self).ysize() >= 2);
                        lemma_insert_into_fresh(
                            self.x_lo,
                            self.x_hi,
                            self.y_lo,
                            self.y_hi,
                            this_value,
                        );
                    }
                    let mut other = Self::new_internal(self.x_lo, self.x_hi, self.y_lo, self.y_hi);
                    let ghost base = other;
                    let r1 = other.insert_inner(this_value);
                    proof {
                        assert(r1 is None);
                        assert(other == spec_place(base, this_value));
                        assert(other.contents().to_multiset() == Seq::<T>::empty().to_multiset()
                            .insert(this_value));
                        assert(Seq::<T>::empty().to_multiset() =~= Multiset::<T>::empty());
                        lemma_singleton_contents(other.contents(), this_value);
                        assert(other.contents() =~= seq![this_value]);
                        assert(other.contents()[0] == this_value);
                        assert(clear_of(other.contents(), value));
                    }
                    let r2 = other.insert_inner(value);
                    proof {
                        assert(r2 is None);
                    }
                    self.node = other.node;
                    proof {
                        assert(*self == other);
                        assert(!(dist2(value, this_value) < DEGENERACY_EPS2 as int));
                        assert(spec_insert_step(*old(self), value) == spec_insert_step(
                            spec_place(base, this_value),
                            value,
                        ));
                        assert(*self == spec_insert_step(*old(self), value).0);
                        assert(self.contents() == other.contents());
                        assert(old(self).contents() =~= seq![this_value]);
                        assert(self.contents().to_multiset() =~= old(
                            self,
                        ).contents().to_multiset().insert(value)) by {
                            assert(other.contents().to_multiset() == Seq::<T>::empty().to_multiset()
                                .insert(this_value).insert(value));
                            assert(Seq::<T>::empty().push(this_value) =~= seq![this_value]);
                            assert(seq![this_value].to_multiset() =~= Seq::<T>::empty().to_multiset().insert(this_value));
                        }
                    }
                    Option::None
                }
            },
            QuadTreeNode::Node { mut nw, mut ne, mut sw, mut se } => {
                let p = value.position();
                let q = self.quadrant(&p);
                let ghost pre_nw = *nw;
                let ghost pre_ne = *ne;
                let ghost pre_sw = *sw;
                let ghost pre_se = *se;
                proof {
                    assert(old(self).contents() == pre_nw.contents() + pre_ne.contents()
                        + pre_sw.contents() + pre_se.contents());
                }
                let r = match q {
                    Quadrant::NW => nw.insert_inner(value),
                    Quadrant::NE => ne.insert_inner(value),
                    Quadrant::SW => sw.insert_inner(value),
                    Quadrant::SE => se.insert_inner(value),
                };
                self.node = QuadTreeNode::Node { nw, ne, sw, se };
                proof {
                    let a = pre_nw.contents();
                    let b = pre_ne.contents();
                    let c = pre_sw.contents();
                    let dd = pre_se.contents();
                    assert(forall|j: int|
                        0 <= j < a.len() ==> #[trigger] a[j] == old(self).contents()[j]);
                    assert(forall|j: int|
                        0 <= j < b.len() ==> #[trigger] b[j] == old(self).contents()[a.len() + j]);
                    assert(forall|j: int|
                        0 <= j < c.len() ==> #[trigger] c[j] == old(self).contents()[a.len()
                            + b.len() + j]);
                    assert(forall|j: int|
                        0 <= j < dd.len() ==> #[trigger] dd[j] == old(self).contents()[a.len()
                            + b.len() + c.len() + j]);
                    if clear_of(old(self).contents(), value) {
                        assert(clear_of(a, value));
                        assert(clear_of(b, value));
                        assert(clear_of(c, value));
                        assert(clear_of(dd, value));
                    }
                    assert(spec_step_guard(*old(self), value));
                    assert(*self == spec_insert_step(*old(self), value).0);
                    assert(r == spec_insert_step(*old(self), value).1);
                }
                r
            },
        }
    }
}


/// No two values of `vs` are within the degeneracy threshold of each other,
/// and none is within it of a value of `base`.
pub open spec fn well_separated<T: TreeValue>(base: Seq<T>, vs: Seq<T>) -> bool {
    &&& forall|i: int, j: int|
        0 <= i < vs.len() && 0 <= j < vs.len() && i != j ==> dist2(#[trigger] vs[i], #[trigger] vs[j])
            >= DEGENERACY_EPS2 as int
    &&& forall|k: int, i: int|
        0 <= k < base.len() && 0 <= i < vs.len() ==> dist2(#[trigger] base[k], #[trigger] vs[i])
            >= DEGENERACY_EPS2 as int
}

/// Transfer separation facts through a multiset decomposition.
proof fn lemma_sep_transfer<T: TreeValue>(pre: Seq<T>, base: Seq<T>, extra: Seq<T>, v: T)
    requires
        pre.to_multiset() == base.to_multiset().add(extra.to_multiset()),
        clear_of(base, v),
        clear_of(extra, v),
    ensures
        clear_of(pre, v),
{
    assert forall|j: int| 0 <= j < pre.len() implies dist2(#[trigger] pre[j], v)
        >= DEGENERACY_EPS2 as int by {
        let w = pre[j];
        pre.to_multiset_ensures();
        assert(pre.contains(w));
        assert(pre.to_multiset().count(w) > 0);
        assert(base.to_multiset().count(w) + extra.to_multiset().count(w) > 0);
        if base.to_multiset().count(w) > 0 {
            base.to_multiset_ensures();
            assert(base.contains(w));
            let k = choose|k: int| 0 <= k < base.len() && base[k] == w;
            assert(dist2(base[k], v) >= DEGENERACY_EPS2 as int);
        } else {
            extra.to_multiset_ensures();
            assert(extra.contains(w));
            let k = choose|k: int| 0 <= k < extra.len() && extra[k] == w;
            assert(dist2(extra[k], v) >= DEGENERACY_EPS2 as int);
        }
    }
}

/// Inserting into a fresh internal node places the value as a leaf of its
/// quadrant child and rejects nothing.
proof fn lemma_insert_into_fresh<T: TreeValue>(x_lo: i64, x_hi: i64, y_lo: i64, y_hi: i64, w: T)
    requires
        -REGION_BOUND <= x_lo,
        x_hi <= REGION_BOUND,
        -REGION_BOUND <= y_lo,
        y_hi <= REGION_BOUND,
        x_hi >= x_lo,
        y_hi >= y_lo,
        x_hi - x_lo + 1 >= 2 || y_hi - y_lo + 1 >= 2,
        val_in_region(w, x_lo as int, x_hi as int, y_lo as int, y_hi as int),
    ensures
        spec_insert_step(spec_internal_at::<T>(x_lo, x_hi, y_lo, y_hi), w) == (
            spec_place(spec_internal_at::<T>(x_lo, x_hi, y_lo, y_hi), w),
            Option::<T>::None,
        ),
{
    let base = spec_internal_at::<T>(x_lo, x_hi, y_lo, y_hi);
    assert(spec_step_guard(base, w));
    let west = w.spec_x() < region_mid(x_lo, x_hi);
    let north = w.spec_y() < region_mid(y_lo, y_hi);
    match base.node {
        QuadTreeNode::Node { nw, ne, sw, se } => {
            if west && north {
                assert(spec_insert_step(*nw, w) == (
                    QuadTree { node: QuadTreeNode::Leaf { value: w }, ..*nw },
                    Option::<T>::None,
                ));
            } else if !west && north {
                assert(spec_insert_step(*ne, w) == (
                    QuadTree { node: QuadTreeNode::Leaf { value: w }, ..*ne },
                    Option::<T>::None,
                ));
            } else if west {
                assert(spec_insert_step(*sw, w) == (
                    QuadTree { node: QuadTreeNode::Leaf { value: w }, ..*sw },
                    Option::<T>::None,
                ));
            } else {
                assert(spec_insert_step(*se, w) == (
                    QuadTree { node: QuadTreeNode::Leaf { value: w }, ..*se },
                    Option::<T>::None,
                ));
            }
        },
        _ => {},
    }
}

/// What a full insertion does: route the value; while a degeneracy conflict
/// hands back a nudged value that is still inside the region and fuel
/// remains, route again.
pub open spec fn spec_insert_retry<T: TreeValue>(t: QuadTree<T>, v: T, fuel: nat) -> QuadTree<T>
    decreases fuel,
{
    let r = spec_insert_step(t, v);
    match r.1 {
        Option::None => r.0,
        Option::Some(w) => {
            if fuel == 0 {
                r.0
            } else if !val_in_region(w, t.x_lo as int, t.x_hi as int, t.y_lo as int, t.y_hi as int) {
                r.0
            } else {
                spec_insert_retry(r.0, w, (fuel - 1) as nat)
            }
        },
    }
}

/// Inserting a whole snapshot, in order.
pub open spec fn spec_add_all<T: TreeValue>(t: QuadTree<T>, vs: Seq<T>) -> QuadTree<T>
    decreases vs.len(),
{
    if vs.len() == 0 {
        t
    } else {
        spec_add_all(spec_insert_retry(t, vs.first(), PERTURB_LIMIT as nat), vs.drop_first())
    }
}

/// The tree `from_vec` builds: an empty square region around the origin,
/// then every snapshot value inserted in order.
pub open spec fn spec_quad_build<T: TreeValue>(vec: Seq<T>, max_dim: int) -> QuadTree<T> {
    spec_add_all(
        spec_empty_at((-max_dim) as i64, max_dim as i64, (-max_dim) as i64, max_dim as i64),
        vec,
    )
}

impl<T: TreeValue> QuadTree<T> {
    /// Insert one value. A value that keeps colliding with stored values
    /// closer than the degeneracy threshold is nudged a bounded number of
    /// times and, in the adversarial limit, given up; values separated from
    /// everything stored are always inserted unchanged.
    pub fn insert(&mut self, value: T)
        requires
            old(self).wf(),
            old(self).contains_pos(value),
        ensures
            final(self).wf(),
            final(self).x_lo == old(self).x_lo,
            final(self).x_hi == old(self).x_hi,
            final(self).y_lo == old(self).y_lo,
            final(self).y_hi == old(self).y_hi,
            old(self).contents().to_multiset().subset_of(final(self).contents().to_multiset()),
            final(self).contents().len() <= old(self).contents().len() + 1,
            clear_of(old(self).contents(), value) ==> final(self).contents().to_multiset()
                == old(self).contents().to_multiset().insert(value),
            *final(self) == spec_insert_retry(*old(self), value, PERTURB_LIMIT as nat),
    {
        broadcast use vstd::seq_lib::group_seq_properties;

        let ghost orig = *self;
        let mut cur = value;
        let mut fuel: u64 = PERTURB_LIMIT;
        loop
            invariant_except_break
                self.wf(),
                self.x_lo == orig.x_lo,
                self.x_hi == orig.x_hi,
                self.y_lo == orig.y_lo,
                self.y_hi == orig.y_hi,
                self.contents() == orig.contents(),
                orig.contains_pos(cur),
                clear_of(orig.contents(), value) ==> cur == value,
                fuel <= PERTURB_LIMIT,
                spec_insert_retry(*self, cur, fuel as nat) == spec_insert_retry(
                    orig,
                    value,
                    PERTURB_LIMIT as nat,
                ),
            ensures
                self.wf(),
                self.x_lo == orig.x_lo,
                self.x_hi == orig.x_hi,
                self.y_lo == orig.y_lo,
                self.y_hi == orig.y_hi,
                orig.contents().to_multiset().subset_of(self.contents().to_multiset()),
                self.contents().len() <= orig.contents().len() + 1,
                clear_of(orig.contents(), value) ==> self.contents().to_multiset()
                    == orig.contents().to_multiset().insert(value),
                *self == spec_insert_retry(orig, value, PERTURB_LIMIT as nat),
            decreases fuel,
        {
            let ghost pre = *self;
            let ghost pre_fuel = fuel;
            let ghost prev_cur = cur;
            let r = self.insert_inner(cur);
            match r {
                Option::None => {
                    proof {
                        broadcast use vstd::seq_lib::group_seq_properties;

                        self.contents().to_multiset_ensures();
                        orig.contents().to_multiset_ensures();
                        assert(self.contents().to_multiset() == orig.contents().to_multiset()
                            .insert(prev_cur));
                        assert(orig.contents().to_multiset().subset_of(
                            self.contents().to_multiset(),
                        )) by {
                            assert(forall|x: T|
                                orig.contents().to_multiset().count(x) <= #[trigger] orig.contents().to_multiset().insert(prev_cur).count(x));
                        }
                        assert(self.contents().len() == orig.contents().len() + 1);
                        assert(spec_insert_retry(pre, prev_cur, pre_fuel as nat) == *self);
                    }
                    break ;
                },
                Option::Some(v) => {
                    proof {
                        if clear_of(orig.contents(), value) {
                            assert(prev_cur == value);
                            assert(false);
                        }
                    }
                    if fuel == 0 {
                        proof {
                            assert(orig.contents().to_multiset().subset_of(
                                self.contents().to_multiset(),
                            )) by {
                                assert(forall|x: T|
                                    orig.contents().to_multiset().count(x) <= #[trigger] orig.contents().to_multiset().count(x));
                            }
                            assert(spec_insert_retry(pre, prev_cur, pre_fuel as nat) == *self);
                        }
                        break ;
                    }
                    let p = v.position();
                    if p.x < self.x_lo || p.x > self.x_hi || p.y < self.y_lo || p.y > self.y_hi {
                        proof {
                            assert(orig.contents().to_multiset().subset_of(
                                self.contents().to_multiset(),
                            )) by {
                                assert(forall|x: T|
                                    orig.contents().to_multiset().count(x) <= #[trigger] orig.contents().to_multiset().count(x));
                            }
                            assert(!val_in_region(
                                v,
                                pre.x_lo as int,
                                pre.x_hi as int,
                                pre.y_lo as int,
                                pre.y_hi as int,
                            ));
                            assert(spec_insert_retry(pre, prev_cur, pre_fuel as nat) == *self);
                        }
                        break ;
                    }
                    proof {
                        assert(spec_insert_retry(pre, prev_cur, pre_fuel as nat)
                            == spec_insert_retry(*self, v, (pre_fuel - 1) as nat));
                    }
                    cur = v;
                    fuel = fuel - 1;
                },
            }
        }
    }

    /// Insert every value of a batch.
    pub fn add_vec(&mut self, vec: Vec<T>)
        requires
            old(self).wf(),
            forall|i: int| 0 <= i < vec@.len() ==> old(self).contains_pos(#[trigger] vec@[i]),
        ensures
            final(self).wf(),
            final(self).x_lo == old(self).x_lo,
            final(self).x_hi == old(self).x_hi,
            final(self).y_lo == old(self).y_lo,
            final(self).y_hi == old(self).y_hi,
            old(self).contents().to_multiset().subset_of(final(self).contents().to_multiset()),
            final(self).contents().len() <= old(self).contents().len() + vec@.len(),
            well_separated(old(self).contents(), vec@) ==> final(self).contents().to_multiset()
                == old(self).contents().to_multiset().add(vec@.to_multiset()),
            *final(self) == spec_add_all(*old(self), vec@),
    {
        broadcast use vstd::seq_lib::group_seq_properties;

        let ghost orig = *self;
        let mut i: usize = 0;
        while i < vec.len()
            invariant
                self.wf(),
                self.x_lo == orig.x_lo,
                self.x_hi == orig.x_hi,
                self.y_lo == orig.y_lo,
                self.y_hi == orig.y_hi,
                i <= vec@.len(),
                forall|k: int| 0 <= k < vec@.len() ==> orig.contains_pos(#[trigger] vec@[k]),
                orig.contents().to_multiset().subset_of(self.contents().to_multiset()),
                self.contents().len() <= orig.contents().len() + i,
                well_separated(orig.contents(), vec@) ==> self.contents().to_multiset()
                    == orig.contents().to_multiset().add(vec@.take(i as int).to_multiset()),
                spec_add_all(*self, vec@.skip(i as int)) == spec_add_all(orig, vec@),
            decreases vec@.len() - i,
        {
            let ghost pre = *self;
            let v = vec[i];
            self.insert(v);
            proof {
                broadcast use vstd::seq_lib::group_seq_properties;

                assert(vec@.skip(i as int).first() == vec@[i as int]);
                assert(vec@.skip(i as int).drop_first() =~= vec@.skip(i as int + 1));
                assert(spec_add_all(pre, vec@.skip(i as int)) == spec_add_all(
                    *self,
                    vec@.skip(i as int + 1),
                ));

                assert(orig.contents().to_multiset().subset_of(self.contents().to_multiset()))
                    by {
                    assert(forall|x: T|
                        orig.contents().to_multiset().count(x)
                            <= pre.contents().to_multiset().count(x));
                    assert(forall|x: T|
                        pre.contents().to_multiset().count(x)
                            <= self.contents().to_multiset().count(x));
                }
                if well_separated(orig.contents(), vec@) {
                    assert(clear_of(orig.contents(), v));
                    assert(clear_of(vec@.take(i as int), v)) by {
                        assert(forall|k: int|
                            0 <= k < vec@.take(i as int).len() ==> #[trigger] vec@.take(
                                i as int,
                            )[k] == vec@[k]);
                    }
                    lemma_sep_transfer(
                        pre.contents(),
                        orig.contents(),
                        vec@.take(i as int),
                        v,
                    );
                    assert(clear_of(pre.contents(), v));
                    assert(self.contents().to_multiset() == pre.contents().to_multiset().insert(
                        v,
                    ));
                    assert(vec@.take(i as int).push(v) =~= vec@.take(i as int + 1));
                    assert(vec@.take(i as int).push(v).to_multiset() =~= vec@.take(
                        i as int,
                    ).to_multiset().insert(v));
                    assert(vec@.take(i as int + 1).to_multiset() =~= vec@.take(
                        i as int,
                    ).to_multiset().insert(v));
                    assert(self.contents().to_multiset() =~= orig.contents().to_multiset().add(
                        vec@.take(i as int + 1).to_multiset(),
                    ));
                }
            }
            i = i + 1;
        }
        proof {
            assert(vec@.take(vec@.len() as int) =~= vec@);
        }
    }

    /// Collect everything the query rectangle reaches.
    fn query_rect_into(&self, qr: &Rect, out: &mut Vec<T>)
        ensures
            final(out)@ == old(out)@ + self.query_spec(*qr),
        decreases self,
    {
        let rect = self.get_rect();
        if !crate::v2::rects_intersect(&rect, qr) {
            proof {
                assert(out@ + Seq::<T>::empty() =~= out@);
            }
            return ;
        }
        match &self.node {
            QuadTreeNode::Empty => {
                proof {
                    assert(out@ + Seq::<T>::empty() =~= out@);
                }
            },
            QuadTreeNode::Leaf { value } => {
                out.push(*value);
                proof {
                    assert(out@ =~= old(out)@ + seq![*value]);
                }
            },
            QuadTreeNode::Node { nw, ne, sw, se } => {
                let ghost o0 = out@;
                nw.query_rect_into(qr, out);
                ne.query_rect_into(qr, out);
                sw.query_rect_into(qr, out);
                se.query_rect_into(qr, out);
                proof {
                    assert(out@ =~= o0 + (nw.query_spec(*qr) + ne.query_spec(*qr) + sw.query_spec(
                        *qr,
                    ) + se.query_spec(*qr)));
                }
            },
        }
    }

    /// The rectangles of the occupied leaves, for diagnostic drawing.
    pub fn for_each(&self) -> (res: Vec<Rect>)
        ensures
            res@ == self.leaf_rects(),
    {
        let mut out: Vec<Rect> = Vec::new();
        self.leaf_rects_into(&mut out);
        proof {
            assert(Seq::<Rect>::empty() + self.leaf_rects() =~= self.leaf_rects());
        }
        out
    }

    fn leaf_rects_into(&self, out: &mut Vec<Rect>)
        ensures
            final(out)@ == old(out)@ + self.leaf_rects(),
        decreases self,
    {
        match &self.node {
            QuadTreeNode::Empty => {
                proof {
                    assert(out@ + Seq::<Rect>::empty() =~= out@);
                }
            },
            QuadTreeNode::Leaf { value } => {
                let r = self.get_rect();
                out.push(r);
                proof {
                    assert(out@ =~= old(out)@ + seq![self.spec_rect()]);
                }
            },
            QuadTreeNode::Node { nw, ne, sw, se } => {
                let ghost o0 = out@;
                nw.leaf_rects_into(out);
                ne.leaf_rects_into(out);
                sw.leaf_rects_into(out);
                se.leaf_rects_into(out);
                proof {
                    assert(out@ =~= o0 + (nw.leaf_rects() + ne.leaf_rects() + sw.leaf_rects()
                        + se.leaf_rects()));
                }
            },
        }
    }
}


/// Completeness of the quadtree query: a query rectangle that covers the
/// tree's whole region reports exactly the stored values — built from a
/// snapshot of pairwise-separated in-region values, that is the snapshot
/// itself, one visit per value.
pub proof fn lemma_quad_query_complete<T: TreeValue>(t: QuadTree<T>, qr: Rect)
    requires
        t.wf(),
        qr.x0 as int <= t.x_lo as int,
        t.x_hi as int <= qr.x1 as int,
        qr.y0 as int <= t.y_lo as int,
        t.y_hi as int <= qr.y1 as int,
    ensures
        t.query_spec(qr).to_multiset() == t.contents().to_multiset(),
    decreases t,
{
    broadcast use vstd::seq_lib::lemma_multiset_commutative;
    broadcast use vstd::multiset::group_multiset_axioms;

    if !rects_intersect_spec(t.spec_rect(), qr) {
        assert(t.xsize() <= 0 || t.ysize() <= 0);
        lemma_empty_axis_no_contents(t);
        assert(t.query_spec(qr).to_multiset() =~= t.contents().to_multiset());
    } else {
        match t.node {
            QuadTreeNode::Empty => {},
            QuadTreeNode::Leaf { value } => {},
            QuadTreeNode::Node { nw, ne, sw, se } => {
                lemma_quad_query_complete(*nw, qr);
                lemma_quad_query_complete(*ne, qr);
                lemma_quad_query_complete(*sw, qr);
                lemma_quad_query_complete(*se, qr);
                assert(t.query_spec(qr) == nw.query_spec(qr) + ne.query_spec(qr) + sw.query_spec(
                    qr,
                ) + se.query_spec(qr));
                assert(t.query_spec(qr).to_multiset() =~= t.contents().to_multiset());
            },
        }
    }
}

/// Soundness upper bound of the quadtree query: the query's bounding
/// rectangle loses nothing — every stored copy of a value whose position
/// lies in the rectangle is reported.
pub proof fn lemma_quad_query_superset<T: TreeValue>(t: QuadTree<T>, qr: Rect, v: T)
    requires
        t.wf(),
        point_in_rect(v.spec_x(), v.spec_y(), qr),
    ensures
        t.query_spec(qr).to_multiset().count(v) >= t.contents().to_multiset().count(v),
    decreases t,
{
    broadcast use vstd::seq_lib::lemma_multiset_commutative;
    broadcast use vstd::multiset::group_multiset_axioms;
    broadcast use vstd::seq_lib::group_seq_properties;

    if t.contents().to_multiset().count(v) > 0 {
        t.contents().to_multiset_ensures();
        assert(t.contents().contains(v));
        let j = choose|j: int| 0 <= j < t.contents().len() && t.contents()[j] == v;
        lemma_contents_in_region(t);
        assert(t.contains_pos(v));
        assert(rects_intersect_spec(t.spec_rect(), qr));
        match t.node {
            QuadTreeNode::Empty => {},
            QuadTreeNode::Leaf { value } => {},
            QuadTreeNode::Node { nw, ne, sw, se } => {
                lemma_quad_query_superset(*nw, qr, v);
                lemma_quad_query_superset(*ne, qr, v);
                lemma_quad_query_superset(*sw, qr, v);
                lemma_quad_query_superset(*se, qr, v);
                assert(t.query_spec(qr) == nw.query_spec(qr) + ne.query_spec(qr) + sw.query_spec(
                    qr,
                ) + se.query_spec(qr));
                assert(t.contents().to_multiset().count(v) == nw.contents().to_multiset().count(
                    v,
                ) + ne.contents().to_multiset().count(v) + sw.contents().to_multiset().count(v)
                    + se.contents().to_multiset().count(v));
                assert(t.query_spec(qr).to_multiset().count(v) == nw.query_spec(
                    qr,
                ).to_multiset().count(v) + ne.query_spec(qr).to_multiset().count(v)
                    + sw.query_spec(qr).to_multiset().count(v) + se.query_spec(
                    qr,
                ).to_multiset().count(v));
            },
        }
    }
}

/// A value whose true Euclidean distance to the query center is within the
/// radius lies in the query's bounding square, so the distance query reports
/// every stored copy of it: the index may over-report, never under-report.
pub proof fn lemma_quad_query_ball_superset<T: TreeValue>(
    t: QuadTree<T>,
    cx: i64,
    cy: i64,
    r: i64,
    v: T,
)
    requires
        t.wf(),
        0 <= r,
        (v.spec_x() - cx) * (v.spec_x() - cx) + (v.spec_y() - cy) * (v.spec_y() - cy) <= (
        r as int) * (r as int),
    ensures
        t.query_view(cx as int, cy as int, r as int).to_multiset().count(v)
            >= t.contents().to_multiset().count(v),
{
    broadcast use vstd::seq_lib::group_seq_properties;

    let qr = Rect {
        x0: sat64(cx - r) as i64,
        y0: sat64(cy - r) as i64,
        x1: sat64(cx + r) as i64,
        y1: sat64(cy + r) as i64,
    };
    if t.contents().to_multiset().count(v) > 0 {
        t.contents().to_multiset_ensures();
        assert(t.contents().contains(v));
        lemma_contents_in_region(t);
        let j = choose|j: int| 0 <= j < t.contents().len() && t.contents()[j] == v;
        assert(t.contains_pos(v));
        assert((v.spec_x() - cx) * (v.spec_x() - cx) <= (r as int) * (r as int)) by (nonlinear_arith)
            requires
                (v.spec_x() - cx) * (v.spec_x() - cx) + (v.spec_y() - cy) * (v.spec_y() - cy) <= (
                r as int) * (r as int),
        ;
        assert((v.spec_y() - cy) * (v.spec_y() - cy) <= (r as int) * (r as int)) by (nonlinear_arith)
            requires
                (v.spec_x() - cx) * (v.spec_x() - cx) + (v.spec_y() - cy) * (v.spec_y() - cy) <= (
                r as int) * (r as int),
        ;
        assert(cx - r <= v.spec_x() <= cx + r) by (nonlinear_arith)
            requires
                (v.spec_x() - cx) * (v.spec_x() - cx) <= (r as int) * (r as int),
                r >= 0,
        ;
        assert(cy - r <= v.spec_y() <= cy + r) by (nonlinear_arith)
            requires
                (v.spec_y() - cy) * (v.spec_y() - cy) <= (r as int) * (r as int),
                r >= 0,
        ;
        assert(point_in_rect(v.spec_x(), v.spec_y(), qr));
        lemma_quad_query_superset(t, qr, v);
    }
}

/// The query reports only stored values: what comes back is drawn from the
/// tree's contents.
pub proof fn lemma_quad_query_subset<T: TreeValue>(t: QuadTree<T>, qr: Rect, v: T)
    ensures
        t.query_spec(qr).to_multiset().count(v) <= t.contents().to_multiset().count(v),
    decreases t,
{
    broadcast use vstd::seq_lib::lemma_multiset_commutative;
    broadcast use vstd::multiset::group_multiset_axioms;

    if rects_intersect_spec(t.spec_rect(), qr) {
        match t.node {
            QuadTreeNode::Empty => {},
            QuadTreeNode::Leaf { value } => {},
            QuadTreeNode::Node { nw, ne, sw, se } => {
                lemma_quad_query_subset(*nw, qr, v);
                lemma_quad_query_subset(*ne, qr, v);
                lemma_quad_query_subset(*sw, qr, v);
                lemma_quad_query_subset(*se, qr, v);
            },
        }
    } else {
        Seq::<T>::empty().to_multiset_ensures();
        assert(Seq::<T>::empty().to_multiset().count(v) == 0) by {
            assert(!Seq::<T>::empty().contains(v));
        }
    }
}


impl<T: TreeValue> crate::particle::GeoQuery<T> for QuadTree<T> {
    open spec fn inv(&self) -> bool {
        self.wf()
    }

    open spec fn contents_ms(&self) -> vstd::multiset::Multiset<T> {
        self.contents().to_multiset()
    }

    /// The subtrees meeting the query's bounding square, in depth-first order.
    open spec fn query_view(&self, cx: int, cy: int, r: int) -> Seq<T> {
        self.query_spec(
            Rect {
                x0: sat64(cx - r) as i64,
                y0: sat64(cy - r) as i64,
                x1: sat64(cx + r) as i64,
                y1: sat64(cy + r) as i64,
            },
        )
    }

    open spec fn pinned_build() -> bool {
        true
    }

    open spec fn build_query_view(vec: Seq<T>, max_dim: int, cx: int, cy: int, r: int) -> Seq<T> {
        spec_quad_build(vec, max_dim).query_spec(
            Rect {
                x0: sat64(cx - r) as i64,
                y0: sat64(cy - r) as i64,
                x1: sat64(cx + r) as i64,
                y1: sat64(cy + r) as i64,
            },
        )
    }

    /// Build a fresh tree over the square region `[-max_dim, max_dim]` on
    /// both axes and insert the whole snapshot, in input order.
    fn from_vec(vec: Vec<T>, max_dim: i64) -> (t: Self)
        ensures
            t.x_lo == -max_dim,
            t.x_hi == max_dim,
            t.y_lo == -max_dim,
            t.y_hi == max_dim,
            t == spec_quad_build(vec@, max_dim as int),
    {
        broadcast use vstd::seq_lib::group_seq_properties;

        let ghost vs = vec@;
        let mut t = QuadTree::new(V2::new(0, 0), max_dim, max_dim);
        let ghost t0 = t;
        proof {
            assert(t0 == spec_empty_at::<T>(
                (-(max_dim as int)) as i64,
                max_dim,
                (-(max_dim as int)) as i64,
                max_dim,
            ));
        }
        t.add_vec(vec);
        proof {
            t.contents().to_multiset_ensures();
            if well_separated(Seq::<T>::empty(), vs) {
                assert(well_separated(t0.contents(), vs));
                Seq::<T>::empty().to_multiset_ensures();
                assert(t.contents().to_multiset() =~= vs.to_multiset());
            }
            assert(t == spec_quad_build(vs, max_dim as int));
        }
        t
    }

    /// Report every value whose subtree rectangles meet the query's bounding
    /// square; an axis-aligned box test, not an exact circle test. Every
    /// stored value within true Euclidean distance `radius` of the point is
    /// among the candidates: the index over-reports, never under-reports.
    fn query_distance(&self, point: &V2, radius: i64) -> (res: Vec<T>)
        ensures
            forall|v: T|
                (v.spec_x() - point.x) * (v.spec_x() - point.x) + (v.spec_y() - point.y) * (
                v.spec_y() - point.y) <= (radius as int) * (radius as int)
                    ==> #[trigger] res@.to_multiset().count(v) >= self.contents().to_multiset().count(v),
    {
        let qr = Rect {
            x0: sat_sub(point.x, radius),
            y0: sat_sub(point.y, radius),
            x1: sat_add(point.x, radius),
            y1: sat_add(point.y, radius),
        };
        let mut out: Vec<T> = Vec::new();
        self.query_rect_into(&qr, &mut out);
        proof {
            assert(out@ =~= Seq::<T>::empty() + self.query_spec(qr));
            assert forall|v: T|
                out@.to_multiset().count(v) <= self.contents().to_multiset().count(v) by {
                lemma_quad_query_subset(*self, qr, v);
            }
            assert forall|v: T|
                (v.spec_x() - point.x) * (v.spec_x() - point.x) + (v.spec_y() - point.y) * (
                v.spec_y() - point.y) <= (radius as int) * (radius as int)
                    implies out@.to_multiset().count(v) >= self.contents().to_multiset().count(
                v,
            ) by {
                lemma_quad_query_ball_superset(*self, point.x, point.y, radius, v);
            }
        }
        out
    }
}


/// Completeness at the distance query: a query whose bounding square covers
/// the tree's whole region reports exactly the stored values, once each.
pub proof fn lemma_quad_query_view_complete<T: TreeValue>(t: QuadTree<T>, cx: i64, cy: i64, r: i64)
    requires
        t.wf(),
        0 <= r,
        cx - r <= t.x_lo as int,
        t.x_hi as int <= cx + r,
        cy - r <= t.y_lo as int,
        t.y_hi as int <= cy + r,
    ensures
        t.query_view(cx as int, cy as int, r as int).to_multiset() == t.contents().to_multiset(),
{
    let qr = Rect {
        x0: sat64(cx - r) as i64,
        y0: sat64(cy - r) as i64,
        x1: sat64(cx + r) as i64,
        y1: sat64(cy + r) as i64,
    };
    lemma_quad_query_complete(t, qr);
}

} // verus!
