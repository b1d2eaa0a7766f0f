use vstd::prelude::*;

use crate::v2::{sat64, sat_add, sat_sub, lemma_u64_mul, TreeValue, Rect, V2};

verus! {

/// A stored value paired with its Morton order key.
#[derive(Clone, Copy, PartialEq, Eq, Debug)]
pub struct OrderStore<T> {
    pub value: T,
    pub order: u64,
}

/// A spatial index that linearizes positions along a Morton (Z-order) curve:
/// positions are quantized onto a power-of-two grid, their grid coordinates
/// are bit-interleaved into one key, and entries are kept sorted by key.
///
/// A range query returns one contiguous run of the sorted sequence, between
/// the keys of the query rectangle's two corners. The Morton curve is not
/// monotone in both axes at once, so that run can include points outside the
/// rectangle and can miss points inside it near curve discontinuities; this
/// index deliberately keeps that approximation.
pub struct ZOrderTree<T> {
    pub values: Vec<OrderStore<T>>,
    pub order: u64,
    pub max_order_value: u64,
    pub max_dim: i64,
}

/// The Morton key of grid point `(x, y)`: the low `order` bits of `x` on even
/// positions, interleaved with the low `order` bits of `y` on odd positions.
pub open spec fn z_order_spec(x: u64, y: u64, order: u64) -> u64
    recommends
        order <= 32,
    decreases order,
{
    if order == 0 {
        0u64
    } else {
        let i = (order - 1) as u64;
        z_order_spec(x, y, i) | (((x & (1u64 << i)) << i) | ((y & (1u64 << i)) << ((i + 1) as u64)))
    }
}

/// Bit-interleave the low `order` bits of two grid coordinates.
pub fn z_order(x: u64, y: u64, order: u64) -> (z: u64)
    requires
        order <= 32,
    ensures
        z == z_order_spec(x, y, order),
{
    let mut z: u64 = 0;
    let mut i: u64 = 0;
    while i < order
        invariant
            i <= order,
            order <= 32,
            z == z_order_spec(x, y, i),
        decreases order - i,
    {
        z = z | (((x & (1u64 << i)) << i) | ((y & (1u64 << i)) << ((i + 1) as u64)));
        i = i + 1;
    }
    z
}

/// Quantize a coordinate onto `[0, m]`: out-of-range coordinates clamp to the
/// grid's edges, in-range ones scale linearly.
pub open spec fn grid_spec(c: int, max_dim: int, m: int) -> int
    recommends
        max_dim >= 1,
        m >= 0,
{
    if c <= 0 {
        0
    } else if c >= max_dim {
        m
    } else {
        (c * m) / max_dim
    }
}

/// The Morton key of a position, after quantization.
pub open spec fn order_of_spec(x: int, y: int, order: u64, max_dim: int) -> u64
    recommends
        1 <= order <= 32,
        max_dim >= 1,
{
    let m = (1u64 << ((order - 1) as u64)) as int;
    z_order_spec(grid_spec(x, max_dim, m) as u64, grid_spec(y, max_dim, m) as u64, order)
}

/// Entries are in non-decreasing key order.
pub open spec fn sorted_by_order<T>(s: Seq<OrderStore<T>>) -> bool {
    forall|i: int, j: int| 0 <= i < j < s.len() ==> s[i].order <= s[j].order
}

/// Insert an entry into a key-sorted sequence, after any equal keys.
pub open spec fn insert_sorted<T>(s: Seq<OrderStore<T>>, e: OrderStore<T>) -> Seq<OrderStore<T>>
    decreases s.len(),
{
    if s.len() == 0 {
        seq![e]
    } else if s.last().order <= e.order {
        s.push(e)
    } else {
        insert_sorted(s.drop_last(), e).push(s.last())
    }
}

/// Stable insertion sort by key.
pub open spec fn sort_by_order<T>(s: Seq<OrderStore<T>>) -> Seq<OrderStore<T>>
    decreases s.len(),
{
    if s.len() == 0 {
        Seq::empty()
    } else {
        insert_sorted(sort_by_order(s.drop_last()), s.last())
    }
}

/// The index of the first entry whose key is at least `k`.
pub open spec fn lower_bound<T>(s: Seq<OrderStore<T>>, k: u64) -> int
    decreases s.len(),
{
    if s.len() == 0 {
        0
    } else if s[0].order < k {
        1 + lower_bound(s.drop_first(), k)
    } else {
        0
    }
}

pub proof fn lemma_lower_bound_props<T>(s: Seq<OrderStore<T>>, k: u64)
    requires
        sorted_by_order(s),
    ensures
        0 <= lower_bound(s, k) <= s.len(),
        forall|i: int| 0 <= i < lower_bound(s, k) ==> s[i].order < k,
        forall|i: int| lower_bound(s, k) <= i < s.len() ==> s[i].order >= k,
    decreases s.len(),
{
    if s.len() > 0 {
        assert(forall|i: int, j: int|
            0 <= i < j < s.drop_first().len() ==> s.drop_first()[i].order
                <= s.drop_first()[j].order) by {
            assert(forall|i: int|
                0 <= i < s.drop_first().len() ==> #[trigger] s.drop_first()[i] == s[i + 1]);
        }
        lemma_lower_bound_props(s.drop_first(), k);
        if s[0].order >= k {
            assert(forall|i: int| 0 <= i < s.len() ==> s[0].order <= #[trigger] s[i].order);
        } else {
            assert(lower_bound(s, k) == 1 + lower_bound(s.drop_first(), k));
            assert forall|i: int| 0 <= i < lower_bound(s, k) implies s[i].order < k by {
                if i >= 1 {
                    assert(s.drop_first()[i - 1] == s[i]);
                }
            }
            assert forall|i: int| lower_bound(s, k) <= i < s.len() implies s[i].order >= k by {
                assert(s.drop_first()[i - 1] == s[i]);
            }
        }
    }
}

pub proof fn lemma_lower_bound_unique<T>(s: Seq<OrderStore<T>>, k: u64, r: int)
    requires
        sorted_by_order(s),
        0 <= r <= s.len(),
        forall|i: int| 0 <= i < r ==> s[i].order < k,
        forall|i: int| r <= i < s.len() ==> s[i].order >= k,
    ensures
        r == lower_bound(s, k),
{
    lemma_lower_bound_props(s, k);
    let l = lower_bound(s, k);
    if r < l {
        assert(s[r].order < k);
        assert(s[r].order >= k);
    }
    if l < r {
        assert(s[l].order < k);
        assert(s[l].order >= k);
    }
}

pub proof fn lemma_insert_sorted_props<T>(s: Seq<OrderStore<T>>, e: OrderStore<T>)
    requires
        sorted_by_order(s),
    ensures
        sorted_by_order(insert_sorted(s, e)),
        insert_sorted(s, e).to_multiset() == s.to_multiset().insert(e),
        insert_sorted(s, e).len() == s.len() + 1,
    decreases s.len(),
{
    broadcast use vstd::seq_lib::group_seq_properties;

    if s.len() == 0 {
        assert(seq![e].drop_last() =~= Seq::<OrderStore<T>>::empty());
        assert(seq![e].to_multiset() =~= s.to_multiset().insert(e));
    } else if s.last().order <= e.order {
        assert(s.push(e).to_multiset() =~= s.to_multiset().insert(e));
    } else {
        assert(sorted_by_order(s.drop_last())) by {
            assert(forall|i: int|
                0 <= i < s.drop_last().len() ==> #[trigger] s.drop_last()[i] == s[i]);
        }
        lemma_insert_sorted_props(s.drop_last(), e);
        let t = insert_sorted(s.drop_last(), e);
        assert(insert_sorted(s, e) == t.push(s.last()));
        assert(sorted_by_order(t.push(s.last()))) by {
            assert(forall|x: OrderStore<T>|
                t.to_multiset().contains(x) ==> s.drop_last().to_multiset().insert(e)
                    .contains(x));
            assert(forall|i: int| 0 <= i < t.len() ==> t.to_multiset().contains(#[trigger] t[i]))
                by {
                t.to_multiset_ensures();
            }
            assert(forall|i: int| 0 <= i < t.len() ==> #[trigger] t[i].order <= s.last().order)
                by {
                s.drop_last().to_multiset_ensures();
                assert(forall|x: OrderStore<T>|
                    s.drop_last().to_multiset().contains(x) ==> #[trigger] x.order
                        <= s.last().order) by {
                    assert(forall|j: int|
                        0 <= j < s.drop_last().len() ==> #[trigger] s.drop_last()[j].order
                            <= s.last().order);
                }
            }
        }
        assert(t.push(s.last()).to_multiset() =~= s.to_multiset().insert(e)) by {
            t.to_multiset_ensures();
            s.drop_last().to_multiset_ensures();
            assert(t.push(s.last()).to_multiset() =~= t.to_multiset().insert(s.last()));
            assert(s.drop_last().push(s.last()) =~= s);
            assert(s.to_multiset() =~= s.drop_last().to_multiset().insert(s.last()));
        }
    }
}

pub proof fn lemma_sort_props<T>(s: Seq<OrderStore<T>>)
    ensures
        sorted_by_order(sort_by_order(s)),
        sort_by_order(s).to_multiset() == s.to_multiset(),
        sort_by_order(s).len() == s.len(),
    decreases s.len(),
{
    broadcast use vstd::seq_lib::group_seq_properties;

    if s.len() == 0 {
    } else {
        lemma_sort_props(s.drop_last());
        lemma_insert_sorted_props(sort_by_order(s.drop_last()), s.last());
        assert(s.drop_last().push(s.last()) =~= s);
        assert(s.to_multiset() =~= s.drop_last().to_multiset().insert(s.last()));
    }
}

/// The entries of a snapshot, each paired with its Morton key.
pub open spec fn keyed_spec<T: TreeValue>(s: Seq<T>, order: u64, max_dim: int) -> Seq<
    OrderStore<T>,
> {
    s.map_values(
        |v: T| OrderStore { value: v, order: order_of_spec(v.spec_x(), v.spec_y(), order, max_dim) },
    )
}

/// How `insert_sorted` splits a sorted sequence at the insertion point.
proof fn lemma_insert_sorted_at<T>(s: Seq<OrderStore<T>>, e: OrderStore<T>, j: int)
    requires
        sorted_by_order(s),
        0 <= j <= s.len(),
        forall|k: int| j <= k < s.len() ==> s[k].order > e.order,
        j > 0 ==> s[j - 1].order <= e.order,
    ensures
        insert_sorted(s, e) == s.subrange(0, j) + seq![e] + s.subrange(j, s.len() as int),
    decreases s.len(),
{
    if j == s.len() {
        if s.len() == 0 {
            assert(insert_sorted(s, e) =~= s.subrange(0, j) + seq![e] + s.subrange(
                j,
                s.len() as int,
            ));
        } else {
            assert(s.last().order <= e.order);
            assert(s.push(e) =~= s.subrange(0, j) + seq![e] + s.subrange(j, s.len() as int));
        }
    } else {
        assert(s.last().order > e.order);
        let s2 = s.drop_last();
        assert(sorted_by_order(s2)) by {
            assert(forall|i: int| 0 <= i < s2.len() ==> #[trigger] s2[i] == s[i]);
        }
        assert(forall|k: int| j <= k < s2.len() ==> #[trigger] s2[k].order > e.order) by {
            assert(forall|i: int| 0 <= i < s2.len() ==> #[trigger] s2[i] == s[i]);
        }
        if j > 0 {
            assert(s2[j - 1] == s[j - 1]);
        }
        lemma_insert_sorted_at(s2, e, j);
        assert(insert_sorted(s2, e).push(s.last()) =~= s.subrange(0, j) + seq![e] + s.subrange(
            j,
            s.len() as int,
        ));
    }
}

/// Stable insertion sort of the entries, in place, by key.
fn sort_values<T: TreeValue>(v: &mut Vec<OrderStore<T>>)
    ensures
        final(v)@ == sort_by_order(old(v)@),
{
    let ghost orig = v@;
    let mut i: usize = 0;
    while i < v.len()
        invariant
            v@.len() == orig.len(),
            i <= orig.len(),
            forall|k: int| i <= k < orig.len() ==> v@[k] == orig[k],
            v@.take(i as int) == sort_by_order(orig.take(i as int)),
        decreases orig.len() - i,
    {
        let ghost s = sort_by_order(orig.take(i as int));
        proof {
            lemma_sort_props(orig.take(i as int));
            assert(forall|k: int| 0 <= k < i ==> v@[k] == #[trigger] v@.take(i as int)[k]);
        }
        let e = v[i];
        let mut j: usize = i;
        while j > 0 && v[j - 1].order > v[j].order
            invariant
                j <= i,
                i < orig.len(),
                v@.len() == orig.len(),
                sorted_by_order(s),
                s.len() == i,
                forall|k: int| 0 <= k < j ==> v@[k] == s[k],
                v@[j as int] == e,
                forall|k: int| j < k <= i ==> v@[k] == s[k - 1],
                forall|k: int| j <= k < i ==> (#[trigger] s[k]).order > e.order,
                forall|k: int| i < k < orig.len() ==> v@[k] == orig[k],
            decreases j,
        {
            let a = v[j - 1];
            v.set(j - 1, e);
            v.set(j, a);
            j = j - 1;
        }
        proof {
            lemma_insert_sorted_at(s, e, j as int);
            assert(v@.take(i as int + 1) =~= s.subrange(0, j as int) + seq![e] + s.subrange(
                j as int,
                i as int,
            ));
            assert(orig.take(i as int + 1).drop_last() =~= orig.take(i as int));
            assert(orig.take(i as int + 1).last() == orig[i as int]);
            assert(e == orig[i as int]);
            assert(v@.take(i as int + 1) == sort_by_order(orig.take(i as int + 1)));
        }
        i = i + 1;
    }
    proof {
        assert(v@ =~= v@.take(orig.len() as int));
        assert(orig.take(orig.len() as int) =~= orig);
    }
}


/// The stored values of a keyed sequence, in order.
pub open spec fn values_of<T>(s: Seq<OrderStore<T>>) -> Seq<T> {
    s.map_values(|o: OrderStore<T>| o.value)
}

/// Inserting an entry adds exactly its value to the projected multiset.
pub proof fn lemma_insert_sorted_values<T>(s: Seq<OrderStore<T>>, e: OrderStore<T>)
    requires
        sorted_by_order(s),
    ensures
        values_of(insert_sorted(s, e)).to_multiset() == values_of(s).to_multiset().insert(e.value),
    decreases s.len(),
{
    broadcast use vstd::seq_lib::group_seq_properties;

    if s.len() == 0 {
        assert(values_of(seq![e]) =~= Seq::<T>::empty().push(e.value));
        assert(values_of(seq![e]).to_multiset() =~= values_of(s).to_multiset().insert(e.value));
    } else if s.last().order <= e.order {
        assert(values_of(s.push(e)) =~= values_of(s).push(e.value));
        assert(values_of(s.push(e)).to_multiset() =~= values_of(s).to_multiset().insert(e.value));
    } else {
        assert(sorted_by_order(s.drop_last())) by {
            assert(forall|i: int|
                0 <= i < s.drop_last().len() ==> #[trigger] s.drop_last()[i] == s[i]);
        }
        lemma_insert_sorted_values(s.drop_last(), e);
        let t = insert_sorted(s.drop_last(), e);
        assert(values_of(t.push(s.last())) =~= values_of(t).push(s.last().value));
        assert(values_of(s) =~= values_of(s.drop_last()).push(s.last().value));
        assert(values_of(t.push(s.last())).to_multiset() =~= values_of(t).to_multiset().insert(
            s.last().value,
        ));
        assert(values_of(s).to_multiset() =~= values_of(s.drop_last()).to_multiset().insert(
            s.last().value,
        ));
        assert(values_of(s.drop_last()).to_multiset().insert(e.value).insert(s.last().value)
            =~= values_of(s.drop_last()).to_multiset().insert(s.last().value).insert(e.value));
    }
}

/// Sorting permutes the entries, so the projected value multiset is kept.
pub proof fn lemma_sort_values<T>(s: Seq<OrderStore<T>>)
    ensures
        values_of(sort_by_order(s)).to_multiset() == values_of(s).to_multiset(),
    decreases s.len(),
{
    broadcast use vstd::seq_lib::group_seq_properties;

    if s.len() > 0 {
        lemma_sort_values(s.drop_last());
        lemma_sort_props(s.drop_last());
        lemma_insert_sorted_values(sort_by_order(s.drop_last()), s.last());
        assert(values_of(s) =~= values_of(s.drop_last()).push(s.last().value));
        assert(values_of(s).to_multiset() =~= values_of(s.drop_last()).to_multiset().insert(
            s.last().value,
        ));
    }
}

/// Scaling a coordinate that is strictly inside the domain stays below the
/// grid bound.
proof fn lemma_quantize_bound(c: int, max_dim: int, m: int)
    by (nonlinear_arith)
    requires
        0 < c < max_dim,
        0 <= m,
    ensures
        0 <= (c * m) / max_dim <= m,
        m >= 1 ==> (c * m) / max_dim < m,
{
}

/// Quantize one coordinate onto the grid, clamping out-of-range input.
pub(crate) fn quantize_coord(c: i64, max_dim: i64, bound: u64) -> (res: u64)
    requires
        max_dim >= 1,
        bound <= 2147483648,
    ensures
        res <= bound,
        res as int == grid_spec(c as int, max_dim as int, bound as int),
{
    if c <= 0 {
        0
    } else if c >= max_dim {
        bound
    } else {
        proof {
            lemma_u64_mul(c as int, bound as int);
            lemma_quantize_bound(c as int, max_dim as int, bound as int);
        }
        let p: u128 = c as u128 * bound as u128;
        let q: u128 = p / (max_dim as u128);
        q as u64
    }
}

impl<T: TreeValue> ZOrderTree<T> {
    /// The grid depth and dimensions are in range and the key bound matches.
    pub open spec fn params_ok(&self) -> bool {
        &&& 1 <= self.order <= 32
        &&& self.max_dim >= 1
        &&& self.max_order_value == 1u64 << ((self.order - 1) as u64)
    }

    /// A well-formed index: valid parameters and a key-sorted store.
    pub open spec fn wf(&self) -> bool {
        self.params_ok() && sorted_by_order(self.values@)
    }

    /// Build the index: key every value, then sort by key.
    pub fn from_vec(vec: Vec<T>, order: u64, max_dim: i64) -> (t: ZOrderTree<T>)
        requires
            1 <= order <= 32,
            max_dim >= 1,
        ensures
            t.wf(),
            t.order == order,
            t.max_dim == max_dim,
            t.values@ == sort_by_order(keyed_spec(vec@, order, max_dim as int)),
            values_of(t.values@).to_multiset() == vec@.to_multiset(),
    {
        let mut tree = ZOrderTree {
            values: Vec::new(),
            order,
            max_order_value: 1u64 << (order - 1),
            max_dim,
        };
        let mut keyed: Vec<OrderStore<T>> = Vec::new();
        let mut k: usize = 0;
        while k < vec.len()
            invariant
                tree.params_ok(),
                tree.order == order,
                tree.max_dim == max_dim,
                k <= vec.len(),
                keyed@ == keyed_spec(vec@.take(k as int), order, max_dim as int),
            decreases vec.len() - k,
        {
            let val = vec[k];
            let p = val.position();
            let key = tree.order_of(p.x, p.y);
            keyed.push(OrderStore { value: val, order: key });
            proof {
                assert(keyed@ =~= keyed_spec(vec@.take(k as int + 1), order, max_dim as int));
            }
            k = k + 1;
        }
        proof {
            assert(vec@.take(vec@.len() as int) =~= vec@);
        }
        sort_values(&mut keyed);
        tree.values = keyed;
        proof {
            lemma_sort_props(keyed_spec(vec@, order, max_dim as int));
            lemma_sort_values(keyed_spec(vec@, order, max_dim as int));
            assert(values_of(keyed_spec(vec@, order, max_dim as int)) =~= vec@);
        }
        tree
    }

    /// The stored values, in key order.
    pub fn values(&self) -> (res: Vec<T>)
        ensures
            res@ == values_of(self.values@),
    {
        let mut res: Vec<T> = Vec::new();
        let mut k: usize = 0;
        while k < self.values.len()
            invariant
                k <= self.values@.len(),
                res@ == values_of(self.values@.take(k as int)),
            decreases self.values@.len() - k,
        {
            res.push(self.values[k].value);
            proof {
                assert(res@ =~= values_of(self.values@.take(k as int + 1)));
            }
            k = k + 1;
        }
        proof {
            assert(self.values@.take(self.values@.len() as int) =~= self.values@);
        }
        res
    }

    /// One contiguous slice of the sorted store, between the lower bounds of
    /// the two corner keys.
    pub fn query_rect(&self, rect: &Rect) -> (res: Vec<T>)
        requires
            self.wf(),
        ensures
            res@ == query_store_rect(
                self.values@,
                self.order,
                self.max_dim as int,
                rect.x0 as int,
                rect.y0 as int,
                rect.x1 as int,
                rect.y1 as int,
            ),
    {
        let start_order = self.order_of(rect.x0, rect.y0);
        let start = self.find_order_index(start_order);
        let end_order = self.order_of(rect.x1, rect.y1);
        let end = self.find_order_index(end_order);
        let mut res: Vec<T> = Vec::new();
        if start <= end {
            proof {
                lemma_lower_bound_props(self.values@, end_order);
                assert(values_of(self.values@.subrange(start as int, start as int))
                    =~= Seq::<T>::empty());
            }
            let mut idx: usize = start;
            while idx < end
                invariant
                    start <= idx <= end <= self.values@.len(),
                    res@ == values_of(self.values@.subrange(start as int, idx as int)),
                decreases end - idx,
            {
                res.push(self.values[idx].value);
                proof {
                    assert(self.values@.subrange(start as int, idx as int + 1) =~= self.values@
                        .subrange(start as int, idx as int).push(self.values@[idx as int]));
                    assert(res@ =~= values_of(
                        self.values@.subrange(start as int, idx as int + 1),
                    ));
                }
                idx = idx + 1;
            }
        }
        res
    }

    /// The first stored index whose key is at least `order`.
    fn find_order_index(&self, order: u64) -> (r: usize)
        requires
            sorted_by_order(self.values@),
        ensures
            r as int == lower_bound(self.values@, order),
            r <= self.values@.len(),
    {
        let mut lo: usize = 0;
        let mut hi: usize = self.values.len();
        while lo < hi
            invariant
                lo <= hi <= self.values@.len(),
                sorted_by_order(self.values@),
                forall|i: int| 0 <= i < lo ==> (#[trigger] self.values@[i]).order < order,
                forall|i: int|
                    hi <= i < self.values@.len() ==> (#[trigger] self.values@[i]).order >= order,
            decreases hi - lo,
        {
            let mid = lo + (hi - lo) / 2;
            if self.values[mid].order < order {
                proof {
                    assert(forall|i: int|
                        0 <= i <= mid ==> (#[trigger] self.values@[i]).order
                            <= self.values@[mid as int].order);
                }
                lo = mid + 1;
            } else {
                proof {
                    assert(forall|i: int|
                        mid <= i < self.values@.len() ==> self.values@[mid as int].order
                            <= (#[trigger] self.values@[i]).order);
                }
                hi = mid;
            }
        }
        proof {
            lemma_lower_bound_unique(self.values@, order, lo as int);
        }
        lo
    }

    /// The Morton key of a position under this index's grid.
    fn order_of(&self, x: i64, y: i64) -> (r: u64)
        requires
            self.params_ok(),
        ensures
            r == order_of_spec(x as int, y as int, self.order, self.max_dim as int),
    {
        proof {
            let k = (self.order - 1) as u64;
            assert(k <= 31 ==> 1u64 << k <= 2147483648u64) by (bit_vector);
        }
        let gx = quantize_coord(x, self.max_dim, self.max_order_value);
        let gy = quantize_coord(y, self.max_dim, self.max_order_value);
        z_order(gx, gy, self.order)
    }
}


/// The contiguous key-range slice a rectangle query returns on a keyed store.
pub open spec fn query_store_rect<T: TreeValue>(
    store: Seq<OrderStore<T>>,
    order: u64,
    max_dim: int,
    x0: int,
    y0: int,
    x1: int,
    y1: int,
) -> Seq<T> {
    let s = lower_bound(store, order_of_spec(x0, y0, order, max_dim));
    let e = lower_bound(store, order_of_spec(x1, y1, order, max_dim));
    if s <= e {
        values_of(store.subrange(s, e))
    } else {
        Seq::empty()
    }
}

/// What a distance query returns: the slice for the query's bounding square.
pub open spec fn query_store_view<T: TreeValue>(
    store: Seq<OrderStore<T>>,
    order: u64,
    max_dim: int,
    cx: int,
    cy: int,
    r: int,
) -> Seq<T> {
    query_store_rect(
        store,
        order,
        max_dim,
        sat64(cx - r),
        sat64(cy - r),
        sat64(cx + r),
        sat64(cy + r),
    )
}

/// A slice of the store contributes no more copies of a value than the whole.
pub proof fn lemma_subrange_values_count<T>(s: Seq<OrderStore<T>>, a: int, b: int, v: T)
    requires
        0 <= a <= b <= s.len(),
    ensures
        values_of(s.subrange(a, b)).to_multiset().count(v) <= values_of(s).to_multiset().count(v),
{
    broadcast use vstd::seq_lib::lemma_multiset_commutative;
    broadcast use vstd::multiset::group_multiset_axioms;

    assert(values_of(s) =~= values_of(s.subrange(0, a)) + values_of(s.subrange(a, b)) + values_of(
        s.subrange(b, s.len() as int),
    ));
}

impl<T: TreeValue> crate::particle::GeoQuery<T> for ZOrderTree<T> {
    open spec fn inv(&self) -> bool {
        self.wf()
    }

    open spec fn contents_ms(&self) -> vstd::multiset::Multiset<T> {
        values_of(self.values@).to_multiset()
    }

    open spec fn query_view(&self, cx: int, cy: int, r: int) -> Seq<T> {
        query_store_view(self.values@, self.order, self.max_dim as int, cx, cy, r)
    }

    open spec fn pinned_build() -> bool {
        true
    }

    open spec fn build_query_view(vec: Seq<T>, max_dim: int, cx: int, cy: int, r: int) -> Seq<T> {
        query_store_view(sort_by_order(keyed_spec(vec, 32, max_dim)), 32, max_dim, cx, cy, r)
    }

    fn from_vec(vec: Vec<T>, max_dim: i64) -> (t: Self) {
        let ghost vs = vec@;
        let t = ZOrderTree::from_vec(vec, 32, max_dim);
        proof {
            broadcast use vstd::seq_lib::group_seq_properties;

            lemma_sort_props(keyed_spec(vs, 32, max_dim as int));
            assert(values_of(t.values@).len() == t.values@.len());
            values_of(t.values@).to_multiset_ensures();
            vs.to_multiset_ensures();
        }
        t
    }

    fn query_distance(&self, point: &V2, radius: i64) -> (res: Vec<T>) {
        let rect = Rect {
            x0: sat_sub(point.x, radius),
            y0: sat_sub(point.y, radius),
            x1: sat_add(point.x, radius),
            y1: sat_add(point.y, radius),
        };
        let res = self.query_rect(&rect);
        proof {
            let so = order_of_spec(rect.x0 as int, rect.y0 as int, self.order, self.max_dim as int);
            let eo = order_of_spec(rect.x1 as int, rect.y1 as int, self.order, self.max_dim as int);
            lemma_lower_bound_props(self.values@, so);
            lemma_lower_bound_props(self.values@, eo);
            let a = lower_bound(self.values@, so);
            let b = lower_bound(self.values@, eo);
            assert forall|v: T|
                res@.to_multiset().count(v) <= values_of(self.values@).to_multiset().count(
                    v,
                ) by {
                if a <= b {
                    lemma_subrange_values_count(self.values@, a, b, v);
                } else {
                    Seq::<T>::empty().to_multiset_ensures();
                    assert(!Seq::<T>::empty().contains(v));
                }
            }
        }
        res
    }
}


/// What the Morton range query does guarantee: every stored entry whose key
/// lies in the half-open key range between the two corner keys is returned.
/// Because the Morton curve is not monotone in both axes, a point inside the
/// query rectangle can carry a key outside that range and be missed; the
/// slice is a key-range guarantee, not a rectangle guarantee.
pub proof fn lemma_key_range_complete<T: TreeValue>(
    store: Seq<OrderStore<T>>,
    order: u64,
    max_dim: int,
    x0: int,
    y0: int,
    x1: int,
    y1: int,
    j: int,
)
    requires
        sorted_by_order(store),
        0 <= j < store.len(),
        order_of_spec(x0, y0, order, max_dim) <= store[j].order,
        store[j].order < order_of_spec(x1, y1, order, max_dim),
    ensures
        query_store_rect(store, order, max_dim, x0, y0, x1, y1).contains(store[j].value),
{
    let so = order_of_spec(x0, y0, order, max_dim);
    let eo = order_of_spec(x1, y1, order, max_dim);
    lemma_lower_bound_props(store, so);
    lemma_lower_bound_props(store, eo);
    let a = lower_bound(store, so);
    let b = lower_bound(store, eo);
    assert(a <= j) by {
        if j < a {
            assert(store[j].order < so);
        }
    }
    assert(j < b) by {
        if b <= j {
            assert(store[j].order >= eo);
        }
    }
    assert(store.subrange(a, b)[j - a] == store[j]);
    assert(query_store_rect(store, order, max_dim, x0, y0, x1, y1)[j - a] == store[j].value);
}


/// The high bit of the smaller masked value cannot exceed the larger's.
proof fn bv_top_le(a: u64, b: u64, i: u64)
    by (bit_vector)
    requires
        i <= 31,
        a & (((1u64 << ((i + 1) as u64)) - 1) as u64) <= b & (((1u64 << ((i + 1) as u64)) - 1) as u64),
    ensures
        (a & (1u64 << i)) <= (b & (1u64 << i)),
{
}

/// With equal high bits, masking the high bit away keeps the order.
proof fn bv_low_le(a: u64, b: u64, i: u64)
    by (bit_vector)
    requires
        i <= 31,
        a & (((1u64 << ((i + 1) as u64)) - 1) as u64) <= b & (((1u64 << ((i + 1) as u64)) - 1) as u64),
        (a & (1u64 << i)) == (b & (1u64 << i)),
    ensures
        a & (((1u64 << i) - 1) as u64) <= b & (((1u64 << i) - 1) as u64),
{
}

/// One interleaving step preserves the order of the accumulated keys.
proof fn bv_mono_step(zl1: u64, zl2: u64, x1: u64, y1: u64, x2: u64, y2: u64, i: u64)
    by (bit_vector)
    requires
        i <= 31,
        zl1 < (1u64 << ((2 * i) as u64)),
        zl2 < (1u64 << ((2 * i) as u64)),
        (x1 & (1u64 << i)) <= (x2 & (1u64 << i)),
        (y1 & (1u64 << i)) <= (y2 & (1u64 << i)),
        ((x1 & (1u64 << i)) == (x2 & (1u64 << i)) && (y1 & (1u64 << i)) == (y2 & (1u64 << i)))
            ==> zl1 <= zl2,
    ensures
        (zl1 | (((x1 & (1u64 << i)) << i) | ((y1 & (1u64 << i)) << ((i + 1) as u64)))) <= (zl2 | (((x2 & (
        1u64 << i)) << i) | ((y2 & (1u64 << i)) << ((i + 1) as u64)))),
{
}

/// One interleaving step keeps the key below the next power of four.
proof fn bv_bound_step(zl: u64, x: u64, y: u64, i: u64)
    by (bit_vector)
    requires
        i <= 30,
        zl < (1u64 << ((2 * i) as u64)),
    ensures
        (zl | (((x & (1u64 << i)) << i) | ((y & (1u64 << i)) << ((i + 1) as u64)))) < (1u64 << ((2 * i + 2) as u64)),
{
}

/// A Morton key of `order` bit pairs stays below `4^order`.
pub proof fn lemma_z_order_bound(x: u64, y: u64, order: u64)
    requires
        order <= 31,
    ensures
        z_order_spec(x, y, order) < (1u64 << ((2 * order) as u64)),
    decreases order,
{
    if order == 0 {
        assert(z_order_spec(x, y, 0) == 0);
        assert(0u64 < (1u64 << 0)) by (bit_vector);
    } else {
        let i = (order - 1) as u64;
        lemma_z_order_bound(x, y, i);
        bv_bound_step(z_order_spec(x, y, i), x, y, i);
    }
}

/// The Morton key is monotone in each masked grid coordinate.
proof fn lemma_z_order_monotone_masked(x1: u64, y1: u64, x2: u64, y2: u64, order: u64)
    requires
        order <= 32,
        x1 & (((1u64 << order) - 1) as u64) <= x2 & (((1u64 << order) - 1) as u64),
        y1 & (((1u64 << order) - 1) as u64) <= y2 & (((1u64 << order) - 1) as u64),
    ensures
        z_order_spec(x1, y1, order) <= z_order_spec(x2, y2, order),
    decreases order,
{
    if order > 0 {
        let i = (order - 1) as u64;
        bv_top_le(x1, x2, i);
        bv_top_le(y1, y2, i);
        if (x1 & (1u64 << i)) == (x2 & (1u64 << i)) && (y1 & (1u64 << i)) == (y2 & (1u64 << i)) {
            bv_low_le(x1, x2, i);
            bv_low_le(y1, y2, i);
            lemma_z_order_monotone_masked(x1, y1, x2, y2, i);
        }
        lemma_z_order_bound(x1, y1, i);
        lemma_z_order_bound(x2, y2, i);
        bv_mono_step(z_order_spec(x1, y1, i), z_order_spec(x2, y2, i), x1, y1, x2, y2, i);
    }
}

/// Quantization is monotone and stays on the grid.
proof fn lemma_grid_monotone(c1: int, c2: int, max_dim: int, m: int)
    requires
        c1 <= c2,
        max_dim >= 1,
        0 <= m,
    ensures
        grid_spec(c1, max_dim, m) <= grid_spec(c2, max_dim, m),
        0 <= grid_spec(c1, max_dim, m) <= m,
        0 <= grid_spec(c2, max_dim, m) <= m,
{
    if 0 < c1 < max_dim {
        lemma_quantize_bound(c1, max_dim, m);
    }
    if 0 < c2 < max_dim {
        lemma_quantize_bound(c2, max_dim, m);
    }
    if 0 < c1 && c2 < max_dim {
        assert(c1 * m <= c2 * m) by (nonlinear_arith)
            requires
                c1 <= c2,
                0 <= m,
        ;
        vstd::arithmetic::div_mod::lemma_div_is_ordered(c1 * m, c2 * m, max_dim);
    }
}

/// The Morton key of a position is monotone in both coordinates: the key of
/// any point of a rectangle lies between the keys of its two corners.
pub proof fn lemma_order_of_monotone(
    x1: int,
    y1: int,
    x2: int,
    y2: int,
    order: u64,
    max_dim: int,
)
    requires
        1 <= order <= 32,
        max_dim >= 1,
        x1 <= x2,
        y1 <= y2,
    ensures
        order_of_spec(x1, y1, order, max_dim) <= order_of_spec(x2, y2, order, max_dim),
{
    let m = (1u64 << ((order - 1) as u64)) as int;
    assert(0 <= m) by {
        assert(1u64 << ((order - 1) as u64) >= 0);
    }
    lemma_grid_monotone(x1, x2, max_dim, m);
    lemma_grid_monotone(y1, y2, max_dim, m);
    let gx1 = grid_spec(x1, max_dim, m) as u64;
    let gy1 = grid_spec(y1, max_dim, m) as u64;
    let gx2 = grid_spec(x2, max_dim, m) as u64;
    let gy2 = grid_spec(y2, max_dim, m) as u64;
    assert(m < (1u64 << order) as int) by {
        let k = (order - 1) as u64;
        assert(k <= 31 ==> (1u64 << k) < (1u64 << ((k + 1) as u64))) by (bit_vector);
    }
    assert(gx1 < (1u64 << order) && gy1 < (1u64 << order) && gx2 < (1u64 << order) && gy2 < (
    1u64 << order));
    assert(order <= 32 && gx1 < (1u64 << order) ==> gx1 & (((1u64 << order) - 1) as u64) == gx1)
        by (bit_vector);
    assert(order <= 32 && gy1 < (1u64 << order) ==> gy1 & (((1u64 << order) - 1) as u64) == gy1)
        by (bit_vector);
    assert(order <= 32 && gx2 < (1u64 << order) ==> gx2 & (((1u64 << order) - 1) as u64) == gx2)
        by (bit_vector);
    assert(order <= 32 && gy2 < (1u64 << order) ==> gy2 & (((1u64 << order) - 1) as u64) == gy2)
        by (bit_vector);
    lemma_z_order_monotone_masked(gx1, gy1, gx2, gy2, order);
}

/// Soundness upper bound of the Morton range query, short of one caveat:
/// a stored entry whose position lies in the query rectangle is returned
/// whenever its key is below the upper corner's key. The slice is half-open,
/// so an entry whose key equals the upper corner's key is missed even inside
/// the rectangle; that caveat is deliberate and kept.
pub proof fn lemma_zorder_rect_superset<T: TreeValue>(
    store: Seq<OrderStore<T>>,
    order: u64,
    max_dim: int,
    x0: int,
    y0: int,
    x1: int,
    y1: int,
    px: int,
    py: int,
    j: int,
)
    requires
        sorted_by_order(store),
        1 <= order <= 32,
        max_dim >= 1,
        0 <= j < store.len(),
        x0 <= px <= x1,
        y0 <= py <= y1,
        store[j].order == order_of_spec(px, py, order, max_dim),
        store[j].order < order_of_spec(x1, y1, order, max_dim),
    ensures
        query_store_rect(store, order, max_dim, x0, y0, x1, y1).contains(store[j].value),
{
    lemma_order_of_monotone(x0, y0, px, py, order, max_dim);
    lemma_key_range_complete(store, order, max_dim, x0, y0, x1, y1, j);
}


/// In a built store, every entry carries the Morton key of its own value's
/// position: sorting permutes the keyed pairs and never re-keys them.
pub proof fn lemma_built_keys_consistent<T: TreeValue>(
    vec: Seq<T>,
    order: u64,
    max_dim: int,
    i: int,
)
    requires
        0 <= i < sort_by_order(keyed_spec(vec, order, max_dim)).len(),
    ensures
        sort_by_order(keyed_spec(vec, order, max_dim))[i].order == order_of_spec(
            sort_by_order(keyed_spec(vec, order, max_dim))[i].value.spec_x(),
            sort_by_order(keyed_spec(vec, order, max_dim))[i].value.spec_y(),
            order,
            max_dim,
        ),
{
    broadcast use vstd::seq_lib::group_seq_properties;

    let keyed = keyed_spec(vec, order, max_dim);
    let sorted = sort_by_order(keyed);
    lemma_sort_props(keyed);
    sorted.to_multiset_ensures();
    keyed.to_multiset_ensures();
    assert(sorted.contains(sorted[i]));
    assert(sorted.to_multiset().count(sorted[i]) > 0);
    assert(keyed.contains(sorted[i]));
    let j = choose|j: int| 0 <= j < keyed.len() && keyed[j] == sorted[i];
    assert(keyed[j].order == order_of_spec(
        keyed[j].value.spec_x(),
        keyed[j].value.spec_y(),
        order,
        max_dim,
    ));
}

} // verus!
