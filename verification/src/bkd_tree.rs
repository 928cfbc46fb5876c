//! The shape of a BKD tree: leaf blocks of points, and nodes that split the
//! points of their subtree at the median of one dimension.

use vstd::prelude::*;
use crate::bkd::{entries_view, has_match, point_matches, within};
use crate::bkd_file::{goes_left, goes_right};

verus! {

broadcast use vstd::seq_lib::group_to_multiset_ensures;

/// A point with its document id.
pub type Entry = (Vec<u64>, u64);

/// A BKD tree: a leaf block of points, or a node splitting on one dimension
/// at a key, with the points up to the key on the left and the points from
/// the key on the right.
#[derive(Debug)]
pub enum BkdNode {
    Leaf(Vec<Entry>),
    Inner(u32, u64, Box<BkdNode>, Box<BkdNode>),
}

/// The points of a tree, leaves from left to right.
pub open spec fn tree_entries(t: BkdNode) -> Seq<(Seq<u64>, u64)>
    decreases t,
{
    match t {
        BkdNode::Leaf(es) => entries_view(es@),
        BkdNode::Inner(_, _, l, r) => tree_entries(*l) + tree_entries(*r),
    }
}

/// Whether every point of `es` has key at most `s` in dimension `d`.
pub open spec fn all_at_most(es: Seq<(Seq<u64>, u64)>, d: int, s: u64) -> bool {
    forall|i: int| 0 <= i < es.len() ==> (#[trigger] es[i]).0[d] <= s
}

/// Whether every point of `es` has key at least `s` in dimension `d`.
pub open spec fn all_at_least(es: Seq<(Seq<u64>, u64)>, d: int, s: u64) -> bool {
    forall|i: int| 0 <= i < es.len() ==> (#[trigger] es[i]).0[d] >= s
}

/// Whether each node of the tree splits within the first `nd` dimensions
/// and keeps its points on the right side of its key.
pub open spec fn tree_sound(t: BkdNode, nd: nat) -> bool
    decreases t,
{
    match t {
        BkdNode::Leaf(_) => true,
        BkdNode::Inner(d, s, l, r) => {
            &&& d < nd
            &&& all_at_most(tree_entries(*l), d as int, s)
            &&& all_at_least(tree_entries(*r), d as int, s)
            &&& tree_sound(*l, nd)
            &&& tree_sound(*r, nd)
        },
    }
}

/// The ids, in order, of the points of `es` within the bounds.
pub open spec fn matching_ids(
    es: Seq<(Seq<u64>, u64)>,
    nd: nat,
    mins: Seq<Option<u64>>,
    maxs: Seq<Option<u64>>,
    include_min: bool,
    include_max: bool,
) -> Seq<u64>
    decreases es.len(),
{
    if es.len() == 0 {
        Seq::empty()
    } else {
        let rest = matching_ids(es.drop_last(), nd, mins, maxs, include_min, include_max);
        if point_matches(es.last().0, nd, mins, maxs, include_min, include_max) {
            rest.push(es.last().1)
        } else {
            rest
        }
    }
}

/// Searching a tree: the ids found in the leaves the bounds lead to, from
/// left to right.
pub open spec fn tree_search(
    t: BkdNode,
    nd: nat,
    mins: Seq<Option<u64>>,
    maxs: Seq<Option<u64>>,
    include_min: bool,
    include_max: bool,
) -> Seq<u64>
    decreases t,
{
    match t {
        BkdNode::Leaf(es) => matching_ids(entries_view(es@), nd, mins, maxs, include_min, include_max),
        BkdNode::Inner(d, s, l, r) => {
            let left = if goes_left(mins[d as int], s, include_min) {
                tree_search(*l, nd, mins, maxs, include_min, include_max)
            } else {
                Seq::empty()
            };
            let right = if goes_right(maxs[d as int], s, include_max) {
                tree_search(*r, nd, mins, maxs, include_min, include_max)
            } else {
                Seq::empty()
            };
            left + right
        },
    }
}

/// The ids that `matching_ids` finds are those of matching points.
pub proof fn lemma_matching_ids(
    es: Seq<(Seq<u64>, u64)>,
    nd: nat,
    mins: Seq<Option<u64>>,
    maxs: Seq<Option<u64>>,
    include_min: bool,
    include_max: bool,
)
    ensures
        forall|x: u64|
            matching_ids(es, nd, mins, maxs, include_min, include_max).contains(x) <==> has_match(
                es,
                x,
                nd,
                mins,
                maxs,
                include_min,
                include_max,
            ),
    decreases es.len(),
{
    if es.len() > 0 {
        let t = es.drop_last();
        lemma_matching_ids(t, nd, mins, maxs, include_min, include_max);
        let rest = matching_ids(t, nd, mins, maxs, include_min, include_max);
        assert forall|x: u64|
            matching_ids(es, nd, mins, maxs, include_min, include_max).contains(x) <==> has_match(
                es,
                x,
                nd,
                mins,
                maxs,
                include_min,
                include_max,
            ) by {
            vstd::seq_lib::lemma_seq_contains_after_push(rest, es.last().1, x);
            if has_match(es, x, nd, mins, maxs, include_min, include_max) {
                let k = choose|k: int|
                    0 <= k < es.len() && (#[trigger] es[k]).1 == x && point_matches(
                        es[k].0,
                        nd,
                        mins,
                        maxs,
                        include_min,
                        include_max,
                    );
                if k < t.len() {
                    assert(t[k] == es[k]);
                    assert(has_match(t, x, nd, mins, maxs, include_min, include_max));
                }
            }
            if has_match(t, x, nd, mins, maxs, include_min, include_max) {
                let k = choose|k: int|
                    0 <= k < t.len() && (#[trigger] t[k]).1 == x && point_matches(
                        t[k].0,
                        nd,
                        mins,
                        maxs,
                        include_min,
                        include_max,
                    );
                assert(es[k] == t[k]);
            }
            if point_matches(es.last().0, nd, mins, maxs, include_min, include_max) && x
                == es.last().1 {
                assert(es[es.len() - 1] == es.last());
            }
        }
    }
}

/// Whether a match exists depends only on which points there are.
pub proof fn lemma_has_match_multiset(
    a: Seq<(Seq<u64>, u64)>,
    b: Seq<(Seq<u64>, u64)>,
    x: u64,
    nd: nat,
    mins: Seq<Option<u64>>,
    maxs: Seq<Option<u64>>,
    include_min: bool,
    include_max: bool,
)
    requires
        a.to_multiset() == b.to_multiset(),
    ensures
        has_match(a, x, nd, mins, maxs, include_min, include_max) == has_match(
            b,
            x,
            nd,
            mins,
            maxs,
            include_min,
            include_max,
        ),
{
    if has_match(a, x, nd, mins, maxs, include_min, include_max) {
        let k = choose|k: int|
            0 <= k < a.len() && (#[trigger] a[k]).1 == x && point_matches(
                a[k].0,
                nd,
                mins,
                maxs,
                include_min,
                include_max,
            );
        assert(a.contains(a[k]));
        vstd::seq_lib::to_multiset_contains(a, a[k]);
        vstd::seq_lib::to_multiset_contains(b, a[k]);
        assert(b.contains(a[k]));
        let j = choose|j: int| 0 <= j < b.len() && b[j] == a[k];
        assert(has_match(b, x, nd, mins, maxs, include_min, include_max));
    }
    if has_match(b, x, nd, mins, maxs, include_min, include_max) {
        let k = choose|k: int|
            0 <= k < b.len() && (#[trigger] b[k]).1 == x && point_matches(
                b[k].0,
                nd,
                mins,
                maxs,
                include_min,
                include_max,
            );
        assert(b.contains(b[k]));
        vstd::seq_lib::to_multiset_contains(a, b[k]);
        vstd::seq_lib::to_multiset_contains(b, b[k]);
        assert(a.contains(b[k]));
        let j = choose|j: int| 0 <= j < a.len() && a[j] == b[k];
        assert(has_match(a, x, nd, mins, maxs, include_min, include_max));
    }
}

/// Searching a sound tree finds exactly the ids of its points within the
/// bounds.
pub proof fn lemma_tree_search(
    t: BkdNode,
    nd: nat,
    mins: Seq<Option<u64>>,
    maxs: Seq<Option<u64>>,
    include_min: bool,
    include_max: bool,
)
    requires
        tree_sound(t, nd),
        mins.len() >= nd,
        maxs.len() >= nd,
    ensures
        forall|x: u64|
            tree_search(t, nd, mins, maxs, include_min, include_max).contains(x) <==> has_match(
                tree_entries(t),
                x,
                nd,
                mins,
                maxs,
                include_min,
                include_max,
            ),
    decreases t,
{
    match t {
        BkdNode::Leaf(es) => {
            lemma_matching_ids(entries_view(es@), nd, mins, maxs, include_min, include_max);
        },
        BkdNode::Inner(d, s, l, r) => {
            lemma_tree_search(*l, nd, mins, maxs, include_min, include_max);
            lemma_tree_search(*r, nd, mins, maxs, include_min, include_max);
            let le = tree_entries(*l);
            let re = tree_entries(*r);
            let all = tree_entries(t);
            assert(all == le + re);
            let gl = goes_left(mins[d as int], s, include_min);
            let gr = goes_right(maxs[d as int], s, include_max);
            let ls = if gl {
                tree_search(*l, nd, mins, maxs, include_min, include_max)
            } else {
                Seq::<u64>::empty()
            };
            let rs = if gr {
                tree_search(*r, nd, mins, maxs, include_min, include_max)
            } else {
                Seq::<u64>::empty()
            };
            assert forall|x: u64|
                tree_search(t, nd, mins, maxs, include_min, include_max).contains(x) <==> has_match(
                    all,
                    x,
                    nd,
                    mins,
                    maxs,
                    include_min,
                    include_max,
                ) by {
                assert(tree_search(t, nd, mins, maxs, include_min, include_max) == ls + rs);
                vstd::seq_lib::lemma_seq_concat_contains_all_elements(ls, rs, x);
                if (ls + rs).contains(x) {
                    let k = choose|k: int| 0 <= k < (ls + rs).len() && (ls + rs)[k] == x;
                    if k < ls.len() {
                        assert(ls.contains(x));
                    } else {
                        assert(rs[k - ls.len()] == x);
                        assert(rs.contains(x));
                    }
                }
                if has_match(all, x, nd, mins, maxs, include_min, include_max) {
                    let k = choose|k: int|
                        0 <= k < all.len() && (#[trigger] all[k]).1 == x && point_matches(
                            all[k].0,
                            nd,
                            mins,
                            maxs,
                            include_min,
                            include_max,
                        );
                    assert(within(all[k].0[d as int], mins[d as int], maxs[d as int], include_min, include_max));
                    if k < le.len() {
                        assert(all[k] == le[k]);
                        assert(has_match(le, x, nd, mins, maxs, include_min, include_max));
                        assert(le[k].0[d as int] <= s);
                        assert(gl);
                    } else {
                        assert(all[k] == re[k - le.len()]);
                        assert(has_match(re, x, nd, mins, maxs, include_min, include_max));
                        assert(re[k - le.len()].0[d as int] >= s);
                        assert(gr);
                    }
                }
                if has_match(le, x, nd, mins, maxs, include_min, include_max) {
                    let k = choose|k: int|
                        0 <= k < le.len() && (#[trigger] le[k]).1 == x && point_matches(
                            le[k].0,
                            nd,
                            mins,
                            maxs,
                            include_min,
                            include_max,
                        );
                    assert(all[k] == le[k]);
                }
                if has_match(re, x, nd, mins, maxs, include_min, include_max) {
                    let k = choose|k: int|
                        0 <= k < re.len() && (#[trigger] re[k]).1 == x && point_matches(
                            re[k].0,
                            nd,
                            mins,
                            maxs,
                            include_min,
                            include_max,
                        );
                    assert(all[le.len() + k] == re[k]);
                }
            }
        },
    }
}


/// Whether every point of `es` has exactly `nd` coordinates.
pub open spec fn points_have_dims(es: Seq<(Seq<u64>, u64)>, nd: nat) -> bool {
    forall|i: int| 0 <= i < es.len() ==> (#[trigger] es[i]).0.len() == nd
}

/// Whether every leaf of the tree holds at least one point.
pub open spec fn leaves_nonempty(t: BkdNode) -> bool
    decreases t,
{
    match t {
        BkdNode::Leaf(es) => es@.len() > 0,
        BkdNode::Inner(_, _, l, r) => leaves_nonempty(*l) && leaves_nonempty(*r),
    }
}

/// Whether every leaf of the tree holds at most `m` points.
pub open spec fn leaves_within(t: BkdNode, m: nat) -> bool
    decreases t,
{
    match t {
        BkdNode::Leaf(es) => es@.len() <= m,
        BkdNode::Inner(_, _, l, r) => leaves_within(*l, m) && leaves_within(*r, m),
    }
}

/// The entries of `entries`, stably ordered by their key in dimension `d`.
fn sort_by_dim(entries: &Vec<Entry>, d: usize) -> (out: Vec<Entry>)
    requires
        forall|i: int| 0 <= i < entries@.len() ==> (#[trigger] entries@[i]).0@.len() > d,
    ensures
        entries_view(out@).to_multiset() == entries_view(entries@).to_multiset(),
        out@.len() == entries@.len(),
        forall|i: int, j: int|
            0 <= i < j < out@.len() ==> out@[i].0@[d as int] <= out@[j].0@[d as int],
        forall|i: int| 0 <= i < out@.len() ==> (#[trigger] out@[i]).0@.len() > d,
{
    let ghost ev = entries_view(entries@);
    let mut out: Vec<Entry> = Vec::new();
    let mut i: usize = 0;
    while i < entries.len()
        invariant
            i <= entries@.len(),
            ev == entries_view(entries@),
            forall|k: int| 0 <= k < entries@.len() ==> (#[trigger] entries@[k]).0@.len() > d,
            entries_view(out@).to_multiset() == ev.take(i as int).to_multiset(),
            out@.len() == i,
            forall|a: int, b: int|
                0 <= a < b < out@.len() ==> out@[a].0@[d as int] <= out@[b].0@[d as int],
            forall|k: int| 0 <= k < out@.len() ==> (#[trigger] out@[k]).0@.len() > d,
        decreases entries.len() - i,
    {
        let point = entries[i].0.clone();
        assert(point@ =~= entries@[i as int].0@);
        let key = point[d];
        let e = (point, entries[i].1);
        let ghost o = out@;
        let ghost x = (e.0@, e.1);
        assert(x == ev[i as int]);
        let mut p: usize = 0;
        while p < out.len() && out[p].0[d] <= key
            invariant
                p <= out@.len(),
                o == out@,
                forall|k: int| 0 <= k < out@.len() ==> (#[trigger] out@[k]).0@.len() > d,
                forall|q: int| 0 <= q < p ==> out@[q].0@[d as int] <= key,
            decreases out.len() - p,
        {
            p = p + 1;
        }
        out.insert(p, e);
        proof {
            let n = out@;
            assert(n =~= o.insert(p as int, e));
            assert(entries_view(n) =~= entries_view(o).insert(p as int, x));
            assert(ev.take(i + 1) =~= ev.take(i as int).push(x));
            assert forall|a: int, b: int| 0 <= a < b < n.len() implies n[a].0@[d as int]
                <= n[b].0@[d as int] by {
                if b < p {
                } else if b == p {
                } else if a < p {
                    assert(n[b] == o[b - 1]);
                    if b - 1 > a {
                        assert(o[a].0@[d as int] <= o[b - 1].0@[d as int]);
                    }
                } else if a == p {
                    assert(n[b] == o[b - 1]);
                    assert(o[p as int].0@[d as int] > key);
                    if b - 1 > p {
                        assert(o[p as int].0@[d as int] <= o[b - 1].0@[d as int]);
                    }
                } else {
                    assert(n[a] == o[a - 1] && n[b] == o[b - 1]);
                }
            }
            assert forall|k: int| 0 <= k < n.len() implies (#[trigger] n[k]).0@.len() > d by {
                if k < p {
                    assert(n[k] == o[k]);
                } else if k > p {
                    assert(n[k] == o[k - 1]);
                }
            }
        }
        i = i + 1;
    }
    assert(ev.take(entries@.len() as int) =~= ev);
    out
}

/// The number of leaf blocks of a tree.
pub open spec fn leaf_count(t: BkdNode) -> nat
    decreases t,
{
    match t {
        BkdNode::Leaf(_) => 1,
        BkdNode::Inner(_, _, l, r) => leaf_count(*l) + leaf_count(*r),
    }
}

/// The number of leaf blocks that `n` points take with at most
/// `block_size` in a block, halving the points (the lower half rounded
/// down) until they fit.
pub open spec fn block_count(n: nat, block_size: nat) -> nat
    decreases n,
{
    if n <= block_size || n < 2 {
        1
    } else {
        block_count(n / 2, block_size) + block_count((n - n / 2) as nat, block_size)
    }
}

/// The BKD tree of `entries`: a leaf block where at most `block_size`
/// points remain, else a node splitting them at the median key of
/// dimension `depth % nd`, the lower half (by that key, in a stable order)
/// going left.
pub fn build_tree(entries: Vec<Entry>, depth: u64, block_size: usize, nd: u32) -> (t: BkdNode)
    requires
        block_size >= 1,
        entries@.len() > 0,
        nd > 0 || entries@.len() <= block_size,
        points_have_dims(entries_view(entries@), nd as nat),
        depth + entries@.len() <= u64::MAX,
    ensures
        tree_entries(t).to_multiset() == entries_view(entries@).to_multiset(),
        tree_sound(t, nd as nat),
        leaves_within(t, block_size as nat),
        leaves_within(t, entries@.len()),
        leaves_nonempty(t),
        points_have_dims(tree_entries(t), nd as nat),
        leaf_count(t) == block_count(entries@.len() as nat, block_size as nat),
    decreases entries@.len(),
{
    let n = entries.len();
    if n <= block_size {
        return BkdNode::Leaf(entries);
    }
    let d: usize = (depth % (nd as u64)) as usize;
    proof {
        assert forall|i: int| 0 <= i < entries@.len() implies (#[trigger] entries@[i]).0@.len() > d by {
            assert(entries_view(entries@)[i].0.len() == nd);
        }
    }
    let mut sorted = sort_by_dim(&entries, d);
    let mid = n / 2;
    let split = sorted[mid].0[d];
    let ghost all = sorted@;
    let right = sorted.split_off(mid);
    let left = sorted;
    proof {
        let av = entries_view(all);
        assert(all =~= left@ + right@);
        assert(av =~= entries_view(left@) + entries_view(right@));
        vstd::seq_lib::lemma_multiset_commutative(entries_view(left@), entries_view(right@));
        assert forall|i: int| 0 <= i < entries_view(left@).len() implies (#[trigger] entries_view(
            left@,
        )[i]).0.len() == nd by {
            assert(entries_view(left@)[i] == av[i]);
            vstd::seq_lib::to_multiset_contains(av, av[i]);
            vstd::seq_lib::to_multiset_contains(entries_view(entries@), av[i]);
            assert(entries_view(entries@).contains(av[i]));
        }
        assert forall|i: int| 0 <= i < entries_view(right@).len() implies (#[trigger] entries_view(
            right@,
        )[i]).0.len() == nd by {
            assert(entries_view(right@)[i] == av[mid + i]);
            vstd::seq_lib::to_multiset_contains(av, av[mid + i]);
            vstd::seq_lib::to_multiset_contains(entries_view(entries@), av[mid + i]);
            assert(entries_view(entries@).contains(av[mid + i]));
        }
    }
    let ghost lv = entries_view(left@);
    let ghost rv = entries_view(right@);
    let l = build_tree(left, depth + 1, block_size, nd);
    let r = build_tree(right, depth + 1, block_size, nd);
    proof {
        let av = entries_view(all);
        assert forall|i: int| 0 <= i < tree_entries(l).len() implies (#[trigger] tree_entries(l)[i]).0[d as int]
            <= split by {
            let e = tree_entries(l)[i];
            vstd::seq_lib::to_multiset_contains(tree_entries(l), e);
            vstd::seq_lib::to_multiset_contains(lv, e);
            assert(lv.contains(e));
            let k = choose|k: int| 0 <= k < lv.len() && lv[k] == e;
            assert(lv[k] == av[k]);
            assert(av[k].0[d as int] <= av[mid as int].0[d as int]);
        }
        assert forall|i: int| 0 <= i < tree_entries(r).len() implies (#[trigger] tree_entries(r)[i]).0[d as int]
            >= split by {
            let e = tree_entries(r)[i];
            vstd::seq_lib::to_multiset_contains(tree_entries(r), e);
            vstd::seq_lib::to_multiset_contains(rv, e);
            assert(rv.contains(e));
            let k = choose|k: int| 0 <= k < rv.len() && rv[k] == e;
            assert(rv[k] == av[mid + k]);
            if k > 0 {
                assert(av[mid as int].0[d as int] <= av[mid + k].0[d as int]);
            }
        }
        vstd::seq_lib::lemma_multiset_commutative(tree_entries(l), tree_entries(r));
    }
    let t = BkdNode::Inner(d as u32, split, Box::new(l), Box::new(r));
    proof {
        assert(tree_entries(t) == tree_entries(l) + tree_entries(r));
        assert forall|i: int| 0 <= i < tree_entries(t).len() implies (#[trigger] tree_entries(t)[i]).0.len()
            == nd by {
            if i < tree_entries(l).len() {
                assert(tree_entries(t)[i] == tree_entries(l)[i]);
            } else {
                assert(tree_entries(t)[i] == tree_entries(r)[i - tree_entries(l).len()]);
            }
        }
        assert(leaves_within(l, n as nat)) by {
            lemma_leaves_within_mono(l, mid as nat, n as nat);
        }
        assert(leaves_within(r, n as nat)) by {
            lemma_leaves_within_mono(r, (n - mid) as nat, n as nat);
        }
    }
    t
}

/// A bound on leaf sizes holds of any larger bound.
pub proof fn lemma_leaves_within_mono(t: BkdNode, m: nat, k: nat)
    requires
        leaves_within(t, m),
        m <= k,
    ensures
        leaves_within(t, k),
    decreases t,
{
    match t {
        BkdNode::Leaf(_) => {},
        BkdNode::Inner(_, _, l, r) => {
            lemma_leaves_within_mono(*l, m, k);
            lemma_leaves_within_mono(*r, m, k);
        },
    }
}

} // verus!
