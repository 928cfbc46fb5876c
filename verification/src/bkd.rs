//! Range search over numeric points.
//!
//! A point is a list of coordinates, one per dimension. Each coordinate is
//! held as an order key: an unsigned integer whose order is the order of
//! the numeric values it stands for.

use vstd::prelude::*;

verus! {

broadcast use vstd::seq_lib::group_to_multiset_ensures;

/// Whether a coordinate lies within the bounds of one dimension: at or
/// above (or, exclusive, above) the lower bound, at or below (or below)
/// the upper bound; a missing bound holds every value.
pub open spec fn within(
    v: u64,
    min: Option<u64>,
    max: Option<u64>,
    include_min: bool,
    include_max: bool,
) -> bool {
    &&& match min {
        None => true,
        Some(m) => if include_min {
            v >= m
        } else {
            v > m
        },
    }
    &&& match max {
        None => true,
        Some(m) => if include_max {
            v <= m
        } else {
            v < m
        },
    }
}

/// Whether a point lies within the bounds of each of the first `num_dims`
/// dimensions.
pub open spec fn point_matches(
    p: Seq<u64>,
    num_dims: nat,
    mins: Seq<Option<u64>>,
    maxs: Seq<Option<u64>>,
    include_min: bool,
    include_max: bool,
) -> bool {
    forall|d: int|
        0 <= d < num_dims ==> within(#[trigger] p[d], mins[d], maxs[d], include_min, include_max)
}

/// The points of a list of entries, with their document ids.
pub open spec fn entries_view(v: Seq<(Vec<u64>, u64)>) -> Seq<(Seq<u64>, u64)> {
    v.map_values(|e: (Vec<u64>, u64)| (e.0@, e.1))
}

/// Whether the ids of `r` are strictly ascending.
pub open spec fn strictly_ascending(r: Seq<u64>) -> bool {
    forall|i: int, j: int| 0 <= i < j < r.len() ==> r[i] < r[j]
}

/// Two strictly ascending sequences with the same elements are equal.
pub proof fn lemma_ascending_unique(a: Seq<u64>, b: Seq<u64>)
    requires
        strictly_ascending(a),
        strictly_ascending(b),
        forall|x: u64| a.contains(x) <==> b.contains(x),
    ensures
        a == b,
    decreases a.len(),
{
    if a.len() == 0 {
        if b.len() > 0 {
            assert(b.contains(b[0]));
        }
        assert(a =~= b);
    } else {
        if b.len() == 0 {
            assert(a.contains(a[0]));
        }
        assert(a.contains(a[0]));
        assert(b.contains(b[0]));
        let j = choose|j: int| 0 <= j < b.len() && b[j] == a[0];
        let i = choose|i: int| 0 <= i < a.len() && a[i] == b[0];
        if i > 0 {
            assert(a[0] < a[i]);
        }
        if j > 0 {
            assert(b[0] < b[j]);
        }
        assert(a[0] == b[0]);
        let ra = a.drop_first();
        let rb = b.drop_first();
        assert forall|x: u64| ra.contains(x) <==> rb.contains(x) by {
            if ra.contains(x) {
                let k = choose|k: int| 0 <= k < ra.len() && ra[k] == x;
                assert(a[k + 1] == x && a[0] < a[k + 1]);
                assert(a.contains(x));
                let m = choose|m: int| 0 <= m < b.len() && b[m] == x;
                assert(m != 0);
                assert(rb[m - 1] == x);
            }
            if rb.contains(x) {
                let k = choose|k: int| 0 <= k < rb.len() && rb[k] == x;
                assert(b[k + 1] == x && b[0] < b[k + 1]);
                assert(b.contains(x));
                let m = choose|m: int| 0 <= m < a.len() && a[m] == x;
                assert(m != 0);
                assert(ra[m - 1] == x);
            }
        }
        lemma_ascending_unique(ra, rb);
        assert(a =~= seq![a[0]] + ra);
        assert(b =~= seq![b[0]] + rb);
    }
}

/// Whether some entry of `es` with document id `id` matches the bounds.
pub open spec fn has_match(
    es: Seq<(Seq<u64>, u64)>,
    id: u64,
    num_dims: nat,
    mins: Seq<Option<u64>>,
    maxs: Seq<Option<u64>>,
    include_min: bool,
    include_max: bool,
) -> bool {
    exists|i: int|
        0 <= i < es.len() && (#[trigger] es[i]).1 == id && point_matches(
            es[i].0,
            num_dims,
            mins,
            maxs,
            include_min,
            include_max,
        )
}

/// The first coordinates of the points of `es` are ascending, where every
/// point has one.
pub open spec fn sorted_by_first(es: Seq<(Seq<u64>, u64)>) -> bool {
    (forall|i: int| 0 <= i < es.len() ==> (#[trigger] es[i]).0.len() > 0) ==> forall|
        i: int,
        j: int,
    | 0 <= i < j < es.len() ==> es[i].0[0] <= es[j].0[0]
}

/// Every point of `es` has a first coordinate.
pub open spec fn all_have_first(es: Seq<(Seq<u64>, u64)>) -> bool {
    forall|i: int| 0 <= i < es.len() ==> (#[trigger] es[i]).0.len() > 0
}

/// Whether an entry's first coordinate is `k`.
pub open spec fn first_is(k: u64) -> spec_fn((Seq<u64>, u64)) -> bool {
    |e: (Seq<u64>, u64)| e.0.len() > 0 && e.0[0] == k
}

/// The entries of `es` whose first coordinate is `k`, in order.
pub open spec fn with_first(es: Seq<(Seq<u64>, u64)>, k: u64) -> Seq<(Seq<u64>, u64)> {
    es.filter(first_is(k))
}

proof fn lemma_stable_insert(ov: Seq<(Seq<u64>, u64)>, p: int, x: (Seq<u64>, u64), k: u64)
    requires
        all_have_first(ov),
        x.0.len() > 0,
        sorted_by_first(ov),
        0 <= p <= ov.len(),
        forall|q: int| 0 <= q < p ==> ov[q].0[0] <= x.0[0],
        p < ov.len() ==> ov[p].0[0] > x.0[0],
    ensures
        with_first(ov.insert(p, x), k) == if x.0[0] == k {
            with_first(ov, k).push(x)
        } else {
            with_first(ov, k)
        },
{
    let pred = first_is(k);
    let a = ov.subrange(0, p);
    let c = ov.subrange(p, ov.len() as int);
    assert(ov =~= a + c);
    assert(ov.insert(p, x) =~= a.push(x) + c);
    a.lemma_filter_push(x, pred);
    Seq::filter_distributes_over_add(a.push(x), c, pred);
    Seq::filter_distributes_over_add(a, c, pred);
    if x.0[0] == k {
        assert forall|i: int| 0 <= i < c.len() implies !pred(#[trigger] c[i]) by {
            assert(c[i] == ov[p + i]);
            if i > 0 {
                assert(ov[p].0[0] <= ov[p + i].0[0]);
            }
        }
        crate::seqs::lemma_filter_none(c, pred);
        assert(a.filter(pred) + c.filter(pred) =~= a.filter(pred));
        assert(a.filter(pred).push(x) + c.filter(pred) =~= a.filter(pred).push(x));
    }
}

/// Every point of `es` has at least `num_dims` coordinates.
pub open spec fn points_cover(es: Seq<(Seq<u64>, u64)>, num_dims: nat) -> bool {
    forall|i: int| 0 <= i < es.len() ==> (#[trigger] es[i]).0.len() >= num_dims
}

fn first_greater(a: &Vec<u64>, b: &Vec<u64>) -> (r: bool)
    ensures
        r == (a@.len() > 0 && b@.len() > 0 && a@[0] > b@[0]),
{
    a.len() > 0 && b.len() > 0 && a[0] > b[0]
}

/// Inserts `id` into the strictly ascending `r`, unless it is there.
pub(crate) fn insert_sorted_unique(r: &mut Vec<u64>, id: u64)
    requires
        strictly_ascending(old(r)@),
    ensures
        strictly_ascending(final(r)@),
        forall|x: u64| final(r)@.contains(x) <==> (old(r)@.contains(x) || x == id),
{
    let ghost o = r@;
    let mut p: usize = 0;
    while p < r.len() && r[p] < id
        invariant
            p <= r@.len(),
            r@ == o,
            forall|q: int| 0 <= q < p ==> o[q] < id,
        decreases r.len() - p,
    {
        p = p + 1;
    }
    if p < r.len() && r[p] == id {
        return;
    }
    r.insert(p, id);
    proof {
        let n = r@;
        assert(n =~= o.insert(p as int, id));
        assert forall|a: int, b: int| 0 <= a < b < n.len() implies n[a] < n[b] by {
            if b < p {
            } else if b == p {
            } else if a < p {
                assert(n[b] == o[b - 1]);
                assert(o[p as int] > id);
                if b - 1 > p {
                    assert(o[p as int] < o[b - 1]);
                }
            } else if a == p {
                assert(n[b] == o[b - 1]);
                assert(o[p as int] > id);
                if b - 1 > p {
                    assert(o[p as int] < o[b - 1]);
                }
            } else {
                assert(n[a] == o[a - 1] && n[b] == o[b - 1]);
            }
        }
        assert forall|x: u64| n.contains(x) <==> (o.contains(x) || x == id) by {
            if n.contains(x) {
                let k = choose|k: int| 0 <= k < n.len() && n[k] == x;
                if k < p {
                    assert(o[k] == x);
                } else if k > p {
                    assert(o[k - 1] == x);
                }
            }
            if o.contains(x) {
                let k = choose|k: int| 0 <= k < o.len() && o[k] == x;
                if k < p {
                    assert(n[k] == x);
                } else {
                    assert(n[k + 1] == x);
                }
            }
            if x == id {
                assert(n[p as int] == x);
            }
        }
    }
}

/// A range-searchable set of points, each with a document id, for one
/// field, kept in ascending order of their first coordinate.
#[derive(Debug)]
pub struct SimpleBKDTree {
    entries: Vec<(Vec<u64>, u64)>,
    num_dims: u32,
    field_name: String,
}

impl SimpleBKDTree {
    /// The points with their document ids, in the tree's order.
    pub closed spec fn spec_entries(&self) -> Seq<(Seq<u64>, u64)> {
        entries_view(self.entries@)
    }

    /// The number of dimensions searched.
    pub closed spec fn spec_num_dims(&self) -> u32 {
        self.num_dims
    }

    /// The field the tree is built for.
    pub closed spec fn spec_field_name(&self) -> Seq<char> {
        self.field_name@
    }

    /// The tree of the given points: the same entries, ordered by their
    /// first coordinate (entries with equal first coordinates keep their
    /// order).
    pub fn new(field_name: String, num_dims: u32, entries: Vec<(Vec<u64>, u64)>) -> (t: Self)
        ensures
            t.spec_entries().to_multiset() == entries_view(entries@).to_multiset(),
            sorted_by_first(t.spec_entries()),
            all_have_first(entries_view(entries@)) ==> forall|k: u64|
                #[trigger] with_first(t.spec_entries(), k) == with_first(entries_view(entries@), k),
            t.spec_num_dims() == num_dims,
            t.spec_field_name() == field_name@,
    {
        let ghost ev = entries_view(entries@);
        let mut out: Vec<(Vec<u64>, u64)> = Vec::new();
        let mut i: usize = 0;
        assert(entries_view(out@) =~= ev.take(0));
        while i < entries.len()
            invariant
                i <= entries@.len(),
                ev == entries_view(entries@),
                entries_view(out@).to_multiset() == ev.take(i as int).to_multiset(),
                sorted_by_first(entries_view(out@)),
                all_have_first(ev) ==> all_have_first(entries_view(out@)),
                all_have_first(ev) ==> forall|k: u64|
                    #[trigger] with_first(entries_view(out@), k) == with_first(ev.take(i as int), k),
            decreases entries.len() - i,
        {
            let point = entries[i].0.clone();
            assert(point@ =~= entries@[i as int].0@);
            let e = (point, entries[i].1);
            let ghost ov = entries_view(out@);
            let ghost x = (e.0@, e.1);
            assert(x == ev[i as int]);
            let mut p: usize = 0;
            while p < out.len() && !first_greater(&out[p].0, &e.0)
                invariant
                    p <= out@.len(),
                    ov == entries_view(out@),
                    x == (e.0@, e.1),
                    forall|q: int|
                        0 <= q < p ==> !(ov[q].0.len() > 0 && x.0.len() > 0 && ov[q].0[0] > x.0[0]),
                decreases out.len() - p,
            {
                p = p + 1;
            }
            out.insert(p, e);
            proof {
                let nv = entries_view(out@);
                assert(nv =~= ov.insert(p as int, x));
                assert(ev.take(i + 1) =~= ev.take(i as int).push(x));
                if all_have_first(ev) {
                    assert(x.0.len() > 0);
                    assert forall|a: int| 0 <= a < nv.len() implies (#[trigger] nv[a]).0.len() > 0 by {
                        if a < p {
                            assert(nv[a] == ov[a]);
                        } else if a > p {
                            assert(nv[a] == ov[a - 1]);
                        }
                    }
                    assert forall|q: int| 0 <= q < p implies ov[q].0[0] <= x.0[0] by {
                        assert(!(ov[q].0.len() > 0 && x.0.len() > 0 && ov[q].0[0] > x.0[0]));
                    }
                    assert forall|k: u64| #[trigger] with_first(nv, k) == with_first(ev.take(i + 1), k) by {
                        lemma_stable_insert(ov, p as int, x, k);
                        ev.take(i as int).lemma_filter_push(x, first_is(k));
                    }
                }
                if forall|a: int| 0 <= a < nv.len() ==> (#[trigger] nv[a]).0.len() > 0 {
                    assert forall|a: int| 0 <= a < ov.len() implies (#[trigger] ov[a]).0.len()
                        > 0 by {
                        if a < p {
                            assert(nv[a] == ov[a]);
                        } else {
                            assert(nv[a + 1] == ov[a]);
                        }
                    }
                    assert(x.0.len() > 0) by {
                        assert(nv[p as int] == x);
                    }
                    assert forall|a: int, b: int| 0 <= a < b < nv.len() implies nv[a].0[0]
                        <= nv[b].0[0] by {
                        if b < p {
                        } else if b == p {
                            assert(!(ov[a].0[0] > x.0[0]));
                        } else if a < p {
                            assert(nv[b] == ov[b - 1]);
                            if p < ov.len() {
                                assert(ov[p as int].0[0] > x.0[0]);
                                assert(!(ov[a].0[0] > x.0[0]));
                            }
                        } else if a == p {
                            assert(nv[b] == ov[b - 1]);
                            assert(ov[p as int].0[0] > x.0[0]);
                            if b - 1 > p {
                                assert(ov[p as int].0[0] <= ov[b - 1].0[0]);
                            }
                        } else {
                            assert(nv[a] == ov[a - 1] && nv[b] == ov[b - 1]);
                        }
                    }
                }
            }
            i = i + 1;
        }
        assert(ev.take(entries@.len() as int) =~= ev);
        SimpleBKDTree { entries: out, num_dims, field_name }
    }

    /// A tree with no points.
    pub fn empty(field_name: String, num_dims: u32) -> (t: Self)
        ensures
            t.spec_entries() == Seq::<(Seq<u64>, u64)>::empty(),
            t.spec_num_dims() == num_dims,
            t.spec_field_name() == field_name@,
    {
        let t = SimpleBKDTree { entries: Vec::new(), num_dims, field_name };
        assert(t.spec_entries() =~= Seq::<(Seq<u64>, u64)>::empty());
        t
    }

    /// The field the tree is built for.
    pub fn field_name(&self) -> (s: &str)
        ensures
            s@ == self.spec_field_name(),
    {
        self.field_name.as_str()
    }

    /// The points with their document ids, in the tree's order.
    pub fn entries(&self) -> (v: &Vec<(Vec<u64>, u64)>)
        ensures
            entries_view(v@) == self.spec_entries(),
    {
        &self.entries
    }

    /// The number of points.
    pub fn size(&self) -> (n: usize)
        ensures
            n == self.spec_entries().len(),
    {
        self.entries.len()
    }

    /// Whether the tree has no points.
    pub fn is_empty(&self) -> (b: bool)
        ensures
            b == (self.spec_entries().len() == 0),
    {
        self.entries.len() == 0
    }

    /// The ids of the documents with a point within the bounds in each of
    /// the tree's dimensions, ascending and each once.
    pub fn range_search(
        &self,
        mins: &[Option<u64>],
        maxs: &[Option<u64>],
        include_min: bool,
        include_max: bool,
    ) -> (r: Vec<u64>)
        requires
            mins@.len() >= self.spec_num_dims(),
            maxs@.len() >= self.spec_num_dims(),
            points_cover(self.spec_entries(), self.spec_num_dims() as nat),
        ensures
            strictly_ascending(r@),
            forall|id: u64|
                r@.contains(id) <==> has_match(
                    self.spec_entries(),
                    id,
                    self.spec_num_dims() as nat,
                    mins@,
                    maxs@,
                    include_min,
                    include_max,
                ),
    {
        let ghost es = self.spec_entries();
        let ghost nd = self.num_dims as nat;
        let mut r: Vec<u64> = Vec::new();
        let mut i: usize = 0;
        while i < self.entries.len()
            invariant
                i <= self.entries@.len(),
                es == self.spec_entries(),
                nd == self.num_dims,
                mins@.len() >= nd,
                maxs@.len() >= nd,
                points_cover(es, nd),
                strictly_ascending(r@),
                forall|id: u64|
                    r@.contains(id) <==> has_match(
                        es.take(i as int),
                        id,
                        nd,
                        mins@,
                        maxs@,
                        include_min,
                        include_max,
                    ),
            decreases self.entries.len() - i,
        {
            let vals = &self.entries[i].0;
            let doc_id = self.entries[i].1;
            assert(vals@ == es[i as int].0);
            assert(vals@.len() >= nd);
            let mut matches = true;
            let mut d: usize = 0;
            while d < self.num_dims as usize
                invariant
                    d <= nd,
                    nd == self.num_dims,
                    vals@.len() >= nd,
                    mins@.len() >= nd,
                    maxs@.len() >= nd,
                    matches == forall|k: int|
                        0 <= k < d ==> within(
                            #[trigger] vals@[k],
                            mins@[k],
                            maxs@[k],
                            include_min,
                            include_max,
                        ),
                decreases nd - d,
            {
                let val = vals[d];
                let gte_min = match mins[d] {
                    None => true,
                    Some(m) => if include_min {
                        val >= m
                    } else {
                        val > m
                    },
                };
                let lte_max = match maxs[d] {
                    None => true,
                    Some(m) => if include_max {
                        val <= m
                    } else {
                        val < m
                    },
                };
                if !gte_min || !lte_max {
                    matches = false;
                }
                d = d + 1;
            }
            let ghost before = r@;
            if matches {
                insert_sorted_unique(&mut r, doc_id);
            }
            proof {
                let pre = es.take(i as int);
                let post = es.take(i + 1);
                assert(post =~= pre.push(es[i as int]));
                assert(matches == point_matches(es[i as int].0, nd, mins@, maxs@, include_min, include_max));
                assert forall|id: u64|
                    r@.contains(id) <==> has_match(
                        post,
                        id,
                        nd,
                        mins@,
                        maxs@,
                        include_min,
                        include_max,
                    ) by {
                    if has_match(post, id, nd, mins@, maxs@, include_min, include_max) {
                        let k = choose|k: int|
                            0 <= k < post.len() && (#[trigger] post[k]).1 == id && point_matches(
                                post[k].0,
                                nd,
                                mins@,
                                maxs@,
                                include_min,
                                include_max,
                            );
                        if k < i {
                            assert(pre[k] == post[k]);
                            assert(has_match(pre, id, nd, mins@, maxs@, include_min, include_max));
                        }
                    }
                    if has_match(pre, id, nd, mins@, maxs@, include_min, include_max) {
                        let k = choose|k: int|
                            0 <= k < pre.len() && (#[trigger] pre[k]).1 == id && point_matches(
                                pre[k].0,
                                nd,
                                mins@,
                                maxs@,
                                include_min,
                                include_max,
                            );
                        assert(post[k] == pre[k]);
                    }
                    if matches && id == doc_id {
                        assert(post[i as int] == es[i as int]);
                    }
                }
            }
            i = i + 1;
        }
        assert(es.take(es.len() as int) =~= es);
        r
    }
}

} // verus!
