//! Writing BKD tree files, and why range search over a written file finds
//! exactly the points within the bounds.

use vstd::prelude::*;
use vstd::bytes::{
    spec_u32_from_le_bytes, spec_u32_to_le_bytes, spec_u64_from_le_bytes, spec_u64_to_le_bytes,
    u32_to_le_bytes, u64_to_le_bytes, lemma_auto_spec_u32_to_from_le_bytes,
    lemma_auto_spec_u64_to_from_le_bytes,
};
use crate::bkd::{entries_view, has_match, lemma_ascending_unique, point_matches, strictly_ascending};
use crate::bkd_file::{
    bits_from_key, bits_of_key, goes_left, goes_right, key_at, lemma_key_bits, leaf_hits, leaf_point,
    leaf_result, u32_at, u64_at, visit, visit_child, BkdError,
};
use crate::bkd_tree::{
    build_tree, lemma_has_match_multiset, lemma_tree_search, leaf_count, block_count, leaves_nonempty, leaves_within,
    matching_ids, points_have_dims, tree_entries, tree_search, tree_sound, BkdNode,
};
use crate::bkd_file::{file_search, header_of, header_size, BKDFileHeader, BKD_MAGIC, BKD_VERSION};

verus! {

/// The bytes of a run of `u64`s, one after another.
pub open spec fn u64s_bytes(s: Seq<u64>) -> Seq<u8>
    decreases s.len(),
{
    if s.len() == 0 {
        Seq::empty()
    } else {
        u64s_bytes(s.drop_last()) + spec_u64_to_le_bytes(s.last())
    }
}

/// The bytes of a run of coordinates given as order keys: each stored as
/// the bits of its double.
pub open spec fn keys_bytes(s: Seq<u64>) -> Seq<u8>
    decreases s.len(),
{
    if s.len() == 0 {
        Seq::empty()
    } else {
        keys_bytes(s.drop_last()) + spec_u64_to_le_bytes(bits_of_key(s.last()))
    }
}

pub proof fn lemma_keys_bytes(s: Seq<u64>)
    ensures
        keys_bytes(s).len() == 8 * s.len(),
        forall|k: int|
            0 <= k < s.len() ==> #[trigger] keys_bytes(s).subrange(8 * k, 8 * k + 8)
                == spec_u64_to_le_bytes(bits_of_key(s[k])),
    decreases s.len(),
{
    lemma_auto_spec_u64_to_from_le_bytes();
    if s.len() > 0 {
        let t = s.drop_last();
        lemma_keys_bytes(t);
        let bt = keys_bytes(t);
        let b = keys_bytes(s);
        assert(spec_u64_to_le_bytes(bits_of_key(s.last())).len() == 8);
        assert forall|k: int| 0 <= k < s.len() implies #[trigger] keys_bytes(s).subrange(
            8 * k,
            8 * k + 8,
        ) == spec_u64_to_le_bytes(bits_of_key(s[k])) by {
            if k < t.len() {
                assert(b.subrange(8 * k, 8 * k + 8) =~= bt.subrange(8 * k, 8 * k + 8));
                assert(t[k] == s[k]);
            } else {
                assert(b.subrange(8 * k, 8 * k + 8) =~= spec_u64_to_le_bytes(bits_of_key(s.last())));
            }
        }
    }
}

/// Where the bytes of the keys `s` stand at `off` in `b`, the key read at
/// `off + 8k` is `s[k]`.
pub proof fn lemma_key_at_run(b: Seq<u8>, off: int, s: Seq<u64>, k: int)
    requires
        0 <= off,
        off + 8 * s.len() <= b.len(),
        b.subrange(off, off + 8 * s.len()) == keys_bytes(s),
        0 <= k < s.len(),
    ensures
        key_at(b, off + 8 * k) == s[k],
{
    lemma_keys_bytes(s);
    lemma_auto_spec_u64_to_from_le_bytes();
    lemma_key_bits(s[k]);
    assert(b.subrange(off + 8 * k, off + 8 * k + 8) =~= keys_bytes(s).subrange(8 * k, 8 * k + 8));
    assert(keys_bytes(s).subrange(8 * k, 8 * k + 8) == spec_u64_to_le_bytes(bits_of_key(s[k])));
}

/// The coordinates of the points of `es`, point after point.
pub open spec fn flat_coords(es: Seq<(Seq<u64>, u64)>) -> Seq<u64>
    decreases es.len(),
{
    if es.len() == 0 {
        Seq::empty()
    } else {
        flat_coords(es.drop_last()) + es.last().0
    }
}

/// The document ids of the points of `es`, in order.
pub open spec fn ids_of(es: Seq<(Seq<u64>, u64)>) -> Seq<u64> {
    es.map_values(|e: (Seq<u64>, u64)| e.1)
}

/// The bytes of a leaf block holding the points `es`.
pub open spec fn leaf_block(es: Seq<(Seq<u64>, u64)>) -> Seq<u8> {
    spec_u32_to_le_bytes(es.len() as u32) + keys_bytes(flat_coords(es)) + u64s_bytes(ids_of(es))
}

pub proof fn lemma_u64s_bytes(s: Seq<u64>)
    ensures
        u64s_bytes(s).len() == 8 * s.len(),
        forall|k: int|
            0 <= k < s.len() ==> #[trigger] u64s_bytes(s).subrange(8 * k, 8 * k + 8)
                == spec_u64_to_le_bytes(s[k]),
    decreases s.len(),
{
    lemma_auto_spec_u64_to_from_le_bytes();
    if s.len() > 0 {
        let t = s.drop_last();
        lemma_u64s_bytes(t);
        let bt = u64s_bytes(t);
        let b = u64s_bytes(s);
        assert(spec_u64_to_le_bytes(s.last()).len() == 8);
        assert forall|k: int| 0 <= k < s.len() implies #[trigger] u64s_bytes(s).subrange(
            8 * k,
            8 * k + 8,
        ) == spec_u64_to_le_bytes(s[k]) by {
            if k < t.len() {
                assert(b.subrange(8 * k, 8 * k + 8) =~= bt.subrange(8 * k, 8 * k + 8));
                assert(t[k] == s[k]);
            } else {
                assert(b.subrange(8 * k, 8 * k + 8) =~= spec_u64_to_le_bytes(s.last()));
            }
        }
    }
}

/// Where the bytes of `s` stand at `off` in `b`, the `u64` at `off + 8k`
/// is `s[k]`.
pub proof fn lemma_u64_at_run(b: Seq<u8>, off: int, s: Seq<u64>, k: int)
    requires
        0 <= off,
        off + 8 * s.len() <= b.len(),
        b.subrange(off, off + 8 * s.len()) == u64s_bytes(s),
        0 <= k < s.len(),
    ensures
        u64_at(b, off + 8 * k) == s[k],
{
    lemma_u64s_bytes(s);
    lemma_auto_spec_u64_to_from_le_bytes();
    assert(b.subrange(off + 8 * k, off + 8 * k + 8) =~= u64s_bytes(s).subrange(8 * k, 8 * k + 8));
    assert(u64s_bytes(s).subrange(8 * k, 8 * k + 8) == spec_u64_to_le_bytes(s[k]));
}

pub proof fn lemma_flat_coords(es: Seq<(Seq<u64>, u64)>, nd: nat)
    requires
        points_have_dims(es, nd),
    ensures
        flat_coords(es).len() == es.len() * nd,
        forall|j: int, d: int|
            0 <= j < es.len() && 0 <= d < nd ==> flat_coords(es)[j * nd + d] == #[trigger] es[j].0[d],
    decreases es.len(),
{
    if es.len() == 0 {
        assert(es.len() * nd == 0) by (nonlinear_arith)
            requires
                es.len() == 0,
        ;
    } else {
        let t = es.drop_last();
        assert(points_have_dims(t, nd)) by {
            assert forall|i: int| 0 <= i < t.len() implies (#[trigger] t[i]).0.len() == nd by {
                assert(t[i] == es[i]);
            }
        }
        lemma_flat_coords(t, nd);
        assert(es.last().0.len() == nd) by {
            assert(es[es.len() - 1] == es.last());
        }
        assert(flat_coords(es) == flat_coords(t) + es.last().0);
        assert(es.len() * nd == t.len() * nd + nd) by (nonlinear_arith)
            requires
                es.len() == t.len() + 1,
        ;
        assert forall|j: int, d: int| 0 <= j < es.len() && 0 <= d < nd implies flat_coords(es)[j
            * nd + d] == #[trigger] es[j].0[d] by {
            if j < t.len() {
                assert(j * nd + d < t.len() * nd) by (nonlinear_arith)
                    requires
                        0 <= j < t.len(),
                        0 <= d < nd,
                ;
                assert(t[j] == es[j]);
            } else {
                assert(j * nd == t.len() * nd);
                assert(es[j] == es.last());
            }
        }
    }
}

/// Reading a leaf block written for the points `es` gives the ids of those
/// within the bounds, in order.
pub proof fn lemma_leaf_result(
    b: Seq<u8>,
    off: int,
    es: Seq<(Seq<u64>, u64)>,
    nd: nat,
    mins: Seq<Option<u64>>,
    maxs: Seq<Option<u64>>,
    include_min: bool,
    include_max: bool,
)
    requires
        0 <= off,
        off + leaf_block(es).len() <= b.len(),
        b.subrange(off, off + leaf_block(es).len()) == leaf_block(es),
        es.len() <= u32::MAX,
        points_have_dims(es, nd),
    ensures
        leaf_block(es).len() == 4 + 8 * es.len() * nd + 8 * es.len(),
        leaf_result(b, off, nd as int, mins, maxs, include_min, include_max) == Ok::<
            Seq<u64>,
            crate::bkd_file::BkdError,
        >(matching_ids(es, nd, mins, maxs, include_min, include_max)),
{
    lemma_auto_spec_u32_to_from_le_bytes();
    let n = es.len() as int;
    let flat = flat_coords(es);
    let ids = ids_of(es);
    lemma_flat_coords(es, nd);
    lemma_keys_bytes(flat);
    lemma_u64s_bytes(ids);
    let blk = leaf_block(es);
    assert(spec_u32_to_le_bytes(es.len() as u32).len() == 4);
    assert(blk.len() == 4 + 8 * flat.len() + 8 * ids.len());
    assert(8 * flat.len() == 8 * es.len() * nd) by (nonlinear_arith)
        requires
            flat.len() == es.len() * nd,
    ;
    assert(b.subrange(off, off + 4) =~= blk.subrange(0, 4));
    assert(blk.subrange(0, 4) =~= spec_u32_to_le_bytes(es.len() as u32));
    assert(u32_at(b, off) == es.len());
    let vals = off + 4;
    let idsp = vals + n * nd * 8;
    assert(n * nd * 8 == 8 * flat.len()) by (nonlinear_arith)
        requires
            flat.len() == n * nd,
    ;
    assert(b.subrange(vals, vals + 8 * flat.len()) =~= keys_bytes(flat)) by {
        assert forall|k: int| 0 <= k < 8 * flat.len() implies b.subrange(
            vals,
            vals + 8 * flat.len(),
        )[k] == keys_bytes(flat)[k] by {
            assert(b.subrange(off, off + blk.len())[4 + k] == b[off + 4 + k]);
            assert(blk[4 + k] == keys_bytes(flat)[k]);
        }
    }
    assert(b.subrange(idsp, idsp + 8 * ids.len()) =~= u64s_bytes(ids)) by {
        assert forall|k: int| 0 <= k < 8 * ids.len() implies b.subrange(
            idsp,
            idsp + 8 * ids.len(),
        )[k] == u64s_bytes(ids)[k] by {
            assert(b.subrange(off, off + blk.len())[4 + 8 * flat.len() + k] == b[idsp + k]);
            assert(blk[4 + 8 * flat.len() + k] == u64s_bytes(ids)[k]);
        }
    }
    // Each point read back is the point written.
    assert forall|j: int| 0 <= j < n implies #[trigger] leaf_point(b, vals, nd as int, j) == es[j].0
        by {
        assert(es[j].0.len() == nd);
        assert forall|d: int| 0 <= d < nd implies leaf_point(b, vals, nd as int, j)[d] == es[j].0[d]
            by {
            assert(0 <= j * nd + d < flat.len()) by (nonlinear_arith)
                requires
                    0 <= j < n,
                    0 <= d < nd,
                    flat.len() == n * nd,
            ;
            assert(vals + (j * nd + d) * 8 == vals + 8 * (j * nd + d)) by (nonlinear_arith);
            lemma_key_at_run(b, vals, flat, j * nd + d);
        }
        assert(leaf_point(b, vals, nd as int, j) =~= es[j].0);
    }
    assert forall|j: int| 0 <= j < n implies #[trigger] u64_at(b, idsp + j * 8) == es[j].1 by {
        assert(idsp + j * 8 == idsp + 8 * j);
        lemma_u64_at_run(b, idsp, ids, j);
    }
    lemma_leaf_hits(b, vals, idsp, es, nd, n, mins, maxs, include_min, include_max);
    assert(es.take(n) =~= es);
}

proof fn lemma_leaf_hits(
    b: Seq<u8>,
    vals: int,
    idsp: int,
    es: Seq<(Seq<u64>, u64)>,
    nd: nat,
    k: int,
    mins: Seq<Option<u64>>,
    maxs: Seq<Option<u64>>,
    include_min: bool,
    include_max: bool,
)
    requires
        0 <= k <= es.len(),
        forall|j: int| 0 <= j < es.len() ==> #[trigger] leaf_point(b, vals, nd as int, j) == es[j].0,
        forall|j: int| 0 <= j < es.len() ==> #[trigger] u64_at(b, idsp + j * 8) == es[j].1,
    ensures
        leaf_hits(b, vals, idsp, nd as int, k, mins, maxs, include_min, include_max) == matching_ids(
            es.take(k),
            nd,
            mins,
            maxs,
            include_min,
            include_max,
        ),
    decreases k,
{
    if k > 0 {
        lemma_leaf_hits(b, vals, idsp, es, nd, k - 1, mins, maxs, include_min, include_max);
        assert(es.take(k).drop_last() =~= es.take(k - 1));
        assert(es.take(k).last() == es[k - 1]);
        assert(leaf_point(b, vals, nd as int, k - 1) == es[k - 1].0);
        assert(u64_at(b, idsp + (k - 1) * 8) == es[k - 1].1);
    } else {
        assert(es.take(0) =~= Seq::<(Seq<u64>, u64)>::empty());
    }
}


/// The bytes of the leaf blocks of a tree, leaves from left to right.
pub open spec fn tree_leaf_bytes(t: BkdNode) -> Seq<u8>
    decreases t,
{
    match t {
        BkdNode::Leaf(es) => leaf_block(entries_view(es@)),
        BkdNode::Inner(_, _, l, r) => tree_leaf_bytes(*l) + tree_leaf_bytes(*r),
    }
}

/// The number of nodes of a tree.
pub open spec fn node_count(t: BkdNode) -> nat
    decreases t,
{
    match t {
        BkdNode::Leaf(_) => 0,
        BkdNode::Inner(_, _, l, r) => 1 + node_count(*l) + node_count(*r),
    }
}

/// An index node as kept while writing: split dimension, split key, and
/// for each child its leaf offset (for a leaf) or its node index.
pub type NodeView = (u32, u64, u64, Option<usize>, u64, Option<usize>);

/// The leaf offset by which a node refers to the subtree `t` whose leaves
/// start at `lo` (0 for a node).
pub open spec fn ref_offset(t: BkdNode, lo: int) -> u64 {
    match t {
        BkdNode::Leaf(_) => lo as u64,
        BkdNode::Inner(..) => 0,
    }
}

/// The node index by which a node refers to the subtree `t` whose first
/// node has index `i` (none for a leaf).
pub open spec fn ref_index(t: BkdNode, i: int) -> Option<usize> {
    match t {
        BkdNode::Leaf(_) => None,
        BkdNode::Inner(..) => Some(i as usize),
    }
}

/// The nodes of a tree in the order they are written (each node before its
/// left subtree's, which come before its right subtree's), the first with
/// index `i0`, the first leaf at offset `lo`.
pub open spec fn node_views(t: BkdNode, i0: int, lo: int) -> Seq<NodeView>
    decreases t,
{
    match t {
        BkdNode::Leaf(_) => Seq::empty(),
        BkdNode::Inner(d, s, l, r) => {
            let li = i0 + 1;
            let ri = i0 + 1 + node_count(*l);
            let rlo = lo + tree_leaf_bytes(*l).len();
            seq![(d, s, ref_offset(*l, lo), ref_index(*l, li), ref_offset(*r, rlo), ref_index(*r, ri))]
                + node_views(*l, li, lo) + node_views(*r, ri, rlo)
        },
    }
}

/// The file offset of a child: its node's position for a node, else its
/// leaf offset.
pub open spec fn resolve_child(off: u64, idx: Option<usize>, index_start: int) -> u64 {
    match idx {
        Some(i) => (index_start + 28 * i) as u64,
        None => off,
    }
}

/// The 28 bytes of an index node.
pub open spec fn node_bytes(n: NodeView, index_start: int) -> Seq<u8> {
    spec_u32_to_le_bytes(n.0) + spec_u64_to_le_bytes(bits_of_key(n.1)) + spec_u64_to_le_bytes(
        resolve_child(n.2, n.3, index_start),
    ) + spec_u64_to_le_bytes(resolve_child(n.4, n.5, index_start))
}

/// The bytes of a run of index nodes.
pub open spec fn nodes_bytes(ns: Seq<NodeView>, index_start: int) -> Seq<u8>
    decreases ns.len(),
{
    if ns.len() == 0 {
        Seq::empty()
    } else {
        nodes_bytes(ns.drop_last(), index_start) + node_bytes(ns.last(), index_start)
    }
}

/// The file offset at which a search reaches the subtree `t` placed with
/// its first node at index `i0` and its first leaf at `lo`.
pub open spec fn subtree_offset(t: BkdNode, i0: int, lo: int, index_start: int) -> int {
    match t {
        BkdNode::Leaf(_) => lo,
        BkdNode::Inner(..) => index_start + 28 * i0,
    }
}

pub proof fn lemma_node_views_len(t: BkdNode, i0: int, lo: int)
    ensures
        node_views(t, i0, lo).len() == node_count(t),
    decreases t,
{
    match t {
        BkdNode::Leaf(_) => {},
        BkdNode::Inner(d, s, l, r) => {
            lemma_node_views_len(*l, i0 + 1, lo);
            lemma_node_views_len(
                *r,
                i0 + 1 + node_count(*l),
                lo + tree_leaf_bytes(*l).len(),
            );
        },
    }
}

pub proof fn lemma_nodes_bytes_concat(a: Seq<NodeView>, b: Seq<NodeView>, index_start: int)
    ensures
        nodes_bytes(a + b, index_start) == nodes_bytes(a, index_start) + nodes_bytes(b, index_start),
        nodes_bytes(a, index_start).len() == 28 * a.len(),
    decreases b.len(), a.len(),
{
    lemma_auto_spec_u32_to_from_le_bytes();
    lemma_auto_spec_u64_to_from_le_bytes();
    if b.len() == 0 {
        assert(a + b =~= a);
        if a.len() > 0 {
            lemma_nodes_bytes_concat(a.drop_last(), Seq::empty(), index_start);
            assert(spec_u32_to_le_bytes(a.last().0).len() == 4);
        }
        assert(nodes_bytes(a, index_start) + nodes_bytes(b, index_start) =~= nodes_bytes(
            a,
            index_start,
        ));
    } else {
        lemma_nodes_bytes_concat(a, b.drop_last(), index_start);
        assert((a + b).drop_last() =~= a + b.drop_last());
        assert((a + b).last() == b.last());
        assert(nodes_bytes(a + b, index_start) =~= nodes_bytes(a, index_start) + nodes_bytes(
            b,
            index_start,
        ));
    }
}

/// Where a node's bytes stand at `off`, reading its fields gives them back.
pub proof fn lemma_read_node(b: Seq<u8>, off: int, n: NodeView, index_start: int)
    requires
        0 <= off,
        off + 28 <= b.len(),
        b.subrange(off, off + 28) == node_bytes(n, index_start),
    ensures
        u32_at(b, off) == n.0,
        key_at(b, off + 4) == n.1,
        u64_at(b, off + 12) == resolve_child(n.2, n.3, index_start),
        u64_at(b, off + 20) == resolve_child(n.4, n.5, index_start),
{
    lemma_auto_spec_u32_to_from_le_bytes();
    lemma_auto_spec_u64_to_from_le_bytes();
    let nb = node_bytes(n, index_start);
    assert(spec_u32_to_le_bytes(n.0).len() == 4);
    assert(b.subrange(off, off + 4) =~= nb.subrange(0, 4));
    assert(nb.subrange(0, 4) =~= spec_u32_to_le_bytes(n.0));
    assert(b.subrange(off + 4, off + 12) =~= nb.subrange(4, 12));
    assert(nb.subrange(4, 12) =~= spec_u64_to_le_bytes(bits_of_key(n.1)));
    lemma_key_bits(n.1);
    assert(b.subrange(off + 12, off + 20) =~= nb.subrange(12, 20));
    assert(nb.subrange(12, 20) =~= spec_u64_to_le_bytes(resolve_child(n.2, n.3, index_start)));
    assert(b.subrange(off + 20, off + 28) =~= nb.subrange(20, 28));
    assert(nb.subrange(20, 28) =~= spec_u64_to_le_bytes(resolve_child(n.4, n.5, index_start)));
}


/// Whether the tree `t` is written in `b` with its first node at index
/// `i0` of the index (which starts at `index_start`) and its first leaf
/// block at `lo`.
pub open spec fn placed(b: Seq<u8>, t: BkdNode, i0: int, lo: int, index_start: int) -> bool {
    &&& 0 <= lo
    &&& 0 <= i0
    &&& lo + tree_leaf_bytes(t).len() <= index_start
    &&& b.subrange(lo, lo + tree_leaf_bytes(t).len()) == tree_leaf_bytes(t)
    &&& index_start + 28 * (i0 + node_count(t)) <= b.len()
    &&& index_start + 28 * (i0 + node_count(t)) <= u64::MAX
    &&& i0 + node_count(t) <= usize::MAX
    &&& b.subrange(index_start + 28 * i0, index_start + 28 * (i0 + node_count(t))) == nodes_bytes(
        node_views(t, i0, lo),
        index_start,
    )
}

proof fn lemma_leaf_bytes_nonempty(t: BkdNode)
    ensures
        tree_leaf_bytes(t).len() >= 4,
    decreases t,
{
    lemma_auto_spec_u32_to_from_le_bytes();
    match t {
        BkdNode::Leaf(es) => {
            assert(spec_u32_to_le_bytes(entries_view(es@).len() as u32).len() == 4);
        },
        BkdNode::Inner(_, _, l, r) => {
            lemma_leaf_bytes_nonempty(*l);
        },
    }
}

/// The root node of a written tree is read back with its children's
/// offsets, and its subtrees are written in place.
proof fn lemma_inner_placed(b: Seq<u8>, t: BkdNode, i0: int, lo: int, index_start: int)
    requires
        placed(b, t, i0, lo, index_start),
        t is Inner,
    ensures
        ({
            let (d, s, l, r) = (t->Inner_0, t->Inner_1, *t->Inner_2, *t->Inner_3);
            let off = index_start + 28 * i0;
            let li = i0 + 1;
            let ri = i0 + 1 + node_count(l);
            let rlo = lo + tree_leaf_bytes(l).len();
            &&& off + 28 <= b.len()
            &&& u32_at(b, off) == d
            &&& key_at(b, off + 4) == s
            &&& u64_at(b, off + 12) as int == subtree_offset(l, li, lo, index_start)
            &&& u64_at(b, off + 20) as int == subtree_offset(r, ri, rlo, index_start)
            &&& placed(b, l, li, lo, index_start)
            &&& placed(b, r, ri, rlo, index_start)
        }),
{
    let (d, s, l, r) = (t->Inner_0, t->Inner_1, *t->Inner_2, *t->Inner_3);
    let off = index_start + 28 * i0;
    let li = i0 + 1;
    let ri = i0 + 1 + node_count(l);
    let lb = tree_leaf_bytes(l);
    let rb = tree_leaf_bytes(r);
    let rlo = lo + lb.len();
    let root: NodeView = (d, s, ref_offset(l, lo), ref_index(l, li), ref_offset(r, rlo), ref_index(r, ri));
    let vl = node_views(l, li, lo);
    let vr = node_views(r, ri, rlo);
    lemma_node_views_len(l, li, lo);
    lemma_node_views_len(r, ri, rlo);
    assert(node_views(t, i0, lo) == seq![root] + vl + vr);
    lemma_nodes_bytes_concat(seq![root] + vl, vr, index_start);
    lemma_nodes_bytes_concat(seq![root], vl, index_start);
    lemma_nodes_bytes_concat(Seq::<NodeView>::empty(), seq![root], index_start);
    lemma_nodes_bytes_concat(vl, Seq::<NodeView>::empty(), index_start);
    lemma_nodes_bytes_concat(vr, Seq::<NodeView>::empty(), index_start);
    assert(seq![root].drop_last() =~= Seq::<NodeView>::empty());
    assert(nodes_bytes(seq![root], index_start) =~= node_bytes(root, index_start));
    let all = nodes_bytes(node_views(t, i0, lo), index_start);
    let end = index_start + 28 * (i0 + node_count(t));
    assert(all =~= node_bytes(root, index_start) + nodes_bytes(vl, index_start) + nodes_bytes(vr, index_start));
    assert(b.subrange(off, off + 28) =~= node_bytes(root, index_start)) by {
        assert forall|k: int| 0 <= k < 28 implies b.subrange(off, off + 28)[k] == node_bytes(root, index_start)[k] by {
            assert(b.subrange(off, end)[k] == b[off + k]);
            assert(all[k] == node_bytes(root, index_start)[k]);
        }
    }
    lemma_read_node(b, off, root, index_start);
    assert(b.subrange(index_start + 28 * li, index_start + 28 * (li + node_count(l))) =~= nodes_bytes(vl, index_start)) by {
        assert forall|k: int| 0 <= k < 28 * node_count(l) implies b.subrange(index_start + 28 * li, index_start + 28 * (li + node_count(l)))[k] == nodes_bytes(vl, index_start)[k] by {
            assert(b.subrange(off, end)[28 + k] == b[off + 28 + k]);
            assert(all[28 + k] == nodes_bytes(vl, index_start)[k]);
        }
    }
    assert(b.subrange(index_start + 28 * ri, index_start + 28 * (ri + node_count(r))) =~= nodes_bytes(vr, index_start)) by {
        assert forall|k: int| 0 <= k < 28 * node_count(r) implies b.subrange(index_start + 28 * ri, index_start + 28 * (ri + node_count(r)))[k] == nodes_bytes(vr, index_start)[k] by {
            assert(b.subrange(off, end)[28 + 28 * node_count(l) + k] == b[off + 28 + 28 * node_count(l) + k]);
            assert(all[28 + 28 * node_count(l) + k] == nodes_bytes(vr, index_start)[k]);
        }
    }
    assert(tree_leaf_bytes(t) == lb + rb);
    assert(b.subrange(lo, lo + lb.len()) =~= lb) by {
        assert forall|k: int| 0 <= k < lb.len() implies b.subrange(lo, lo + lb.len())[k] == lb[k] by {
            assert(b.subrange(lo, lo + tree_leaf_bytes(t).len())[k] == b[lo + k]);
            assert(tree_leaf_bytes(t)[k] == lb[k]);
        }
    }
    assert(b.subrange(rlo, rlo + rb.len()) =~= rb) by {
        assert forall|k: int| 0 <= k < rb.len() implies b.subrange(rlo, rlo + rb.len())[k] == rb[k] by {
            assert(b.subrange(lo, lo + tree_leaf_bytes(t).len())[lb.len() + k] == b[rlo + k]);
            assert(tree_leaf_bytes(t)[lb.len() + k] == rb[k]);
        }
    }
}

proof fn lemma_children_dims(t: BkdNode, nd: nat)
    requires
        t is Inner,
        points_have_dims(tree_entries(t), nd),
    ensures
        points_have_dims(tree_entries(*t->Inner_2), nd),
        points_have_dims(tree_entries(*t->Inner_3), nd),
{
    let l = *t->Inner_2;
    let r = *t->Inner_3;
    assert(tree_entries(t) == tree_entries(l) + tree_entries(r));
    assert forall|i: int| 0 <= i < tree_entries(l).len() implies (#[trigger] tree_entries(l)[i]).0.len() == nd by {
        assert(tree_entries(t)[i] == tree_entries(l)[i]);
    }
    assert forall|i: int| 0 <= i < tree_entries(r).len() implies (#[trigger] tree_entries(r)[i]).0.len() == nd by {
        assert(tree_entries(t)[tree_entries(l).len() + i] == tree_entries(r)[i]);
    }
}

/// Searching a written tree from where a search reaches it finds what
/// searching the tree itself finds.
pub proof fn lemma_visit_placed(
    b: Seq<u8>,
    t: BkdNode,
    i0: int,
    lo: int,
    index_start: int,
    nd: nat,
    mins: Seq<Option<u64>>,
    maxs: Seq<Option<u64>>,
    include_min: bool,
    include_max: bool,
)
    requires
        placed(b, t, i0, lo, index_start),
        tree_sound(t, nd),
        leaves_within(t, u32::MAX as nat),
        points_have_dims(tree_entries(t), nd),
        mins.len() >= nd,
        maxs.len() >= nd,
    ensures
        visit(b, index_start, subtree_offset(t, i0, lo, index_start), nd as int, mins, maxs, include_min, include_max)
            == Ok::<Seq<u64>, BkdError>(tree_search(t, nd, mins, maxs, include_min, include_max)),
    decreases t,
{
    lemma_leaf_bytes_nonempty(t);
    match t {
        BkdNode::Leaf(es) => {
            lemma_leaf_result(b, lo, entries_view(es@), nd, mins, maxs, include_min, include_max);
        },
        BkdNode::Inner(d, s, l, r) => {
            let off = index_start + 28 * i0;
            let li = i0 + 1;
            let ri = i0 + 1 + node_count(*l);
            let rlo = lo + tree_leaf_bytes(*l).len();
            lemma_inner_placed(b, t, i0, lo, index_start);
            lemma_children_dims(t, nd);
            lemma_visit_placed(b, *l, li, lo, index_start, nd, mins, maxs, include_min, include_max);
            lemma_visit_placed(b, *r, ri, rlo, index_start, nd, mins, maxs, include_min, include_max);
            lemma_leaf_bytes_nonempty(*l);
            lemma_leaf_bytes_nonempty(*r);
            let left = subtree_offset(*l, li, lo, index_start);
            let right = subtree_offset(*r, ri, rlo, index_start);
            assert(visit_child(b, index_start, off, left, nd as int, mins, maxs, include_min, include_max)
                == visit(b, index_start, left, nd as int, mins, maxs, include_min, include_max));
            assert(visit_child(b, index_start, off, right, nd as int, mins, maxs, include_min, include_max)
                == visit(b, index_start, right, nd as int, mins, maxs, include_min, include_max));
        },
    }
}


/// An index node while the file is written: split dimension and key, and
/// each child's leaf offset or node index.
#[derive(Debug)]
struct IndexNode {
    split_dim: u32,
    split_value: u64,
    left_offset: u64,
    right_offset: u64,
    left_child_idx: Option<usize>,
    right_child_idx: Option<usize>,
}

spec fn index_node_view(n: IndexNode) -> NodeView {
    (n.split_dim, n.split_value, n.left_offset, n.left_child_idx, n.right_offset, n.right_child_idx)
}

spec fn index_nodes_view(v: Seq<IndexNode>) -> Seq<NodeView> {
    v.map_values(|n: IndexNode| index_node_view(n))
}

fn push_u64(out: &mut Vec<u8>, x: u64)
    ensures
        final(out)@ == old(out)@ + spec_u64_to_le_bytes(x),
{
    let mut b = u64_to_le_bytes(x);
    out.append(&mut b);
}

fn push_u32(out: &mut Vec<u8>, x: u32)
    ensures
        final(out)@ == old(out)@ + spec_u32_to_le_bytes(x),
{
    let mut b = u32_to_le_bytes(x);
    out.append(&mut b);
}

/// Appends the leaf block of the points `es`: their count, their
/// coordinates point after point, and their document ids.
fn write_leaf_block(es: &Vec<(Vec<u64>, u64)>, out: &mut Vec<u8>)
    requires
        es@.len() <= u32::MAX,
    ensures
        final(out)@ == old(out)@ + leaf_block(entries_view(es@)),
{
    let ghost ev = entries_view(es@);
    let ghost base = old(out)@;
    push_u32(out, es.len() as u32);
    let ghost head = out@;
    let mut i: usize = 0;
    while i < es.len()
        invariant
            i <= es@.len(),
            ev == entries_view(es@),
            out@ == head + keys_bytes(flat_coords(ev.take(i as int))),
        decreases es.len() - i,
    {
        let point = &es[i].0;
        let ghost pre = flat_coords(ev.take(i as int));
        let mut d: usize = 0;
        while d < point.len()
            invariant
                d <= point@.len(),
                point@ == ev[i as int].0,
                out@ == head + keys_bytes(pre + point@.take(d as int)),
            decreases point.len() - d,
        {
            let ghost cur = pre + point@.take(d as int);
            push_u64(out, bits_from_key(point[d]));
            proof {
                let nxt = pre + point@.take(d + 1);
                assert(nxt =~= cur.push(point@[d as int]));
                assert(nxt.drop_last() =~= cur);
            }
            d = d + 1;
        }
        proof {
            assert(point@.take(point@.len() as int) =~= point@);
            assert(ev.take(i + 1).drop_last() =~= ev.take(i as int));
            assert(ev.take(i + 1).last() == ev[i as int]);
        }
        i = i + 1;
    }
    assert(ev.take(es@.len() as int) =~= ev);
    let ghost mid = out@;
    let mut j: usize = 0;
    while j < es.len()
        invariant
            j <= es@.len(),
            ev == entries_view(es@),
            out@ == mid + u64s_bytes(ids_of(ev).take(j as int)),
        decreases es.len() - j,
    {
        let ghost cur = ids_of(ev).take(j as int);
        push_u64(out, es[j].1);
        proof {
            let nxt = ids_of(ev).take(j + 1);
            assert(nxt =~= cur.push(es@[j as int].1));
            assert(nxt.drop_last() =~= cur);
        }
        j = j + 1;
    }
    assert(ids_of(ev).take(es@.len() as int) =~= ids_of(ev));
    assert(out@ =~= base + leaf_block(ev));
}

/// Writes the leaf blocks of `t` to `leaves` (whose first byte stands at
/// offset `header_size` of the file) and its nodes to `nodes`; returns the
/// index of its root node, or nothing where `t` is a leaf.
fn write_subtree(
    t: &BkdNode,
    header_size: u64,
    leaves: &mut Vec<u8>,
    nodes: &mut Vec<IndexNode>,
    num_blocks: &mut u64,
) -> (r: Option<usize>)
    requires
        header_size + old(leaves)@.len() + tree_leaf_bytes(*t).len() <= u64::MAX,
        old(nodes)@.len() + node_count(*t) <= usize::MAX,
        *old(num_blocks) + leaf_count(*t) <= u64::MAX,
        leaves_within(*t, u32::MAX as nat),
    ensures
        final(leaves)@ == old(leaves)@ + tree_leaf_bytes(*t),
        index_nodes_view(final(nodes)@) == index_nodes_view(old(nodes)@) + node_views(
            *t,
            old(nodes)@.len() as int,
            header_size + old(leaves)@.len(),
        ),
        r == ref_index(*t, old(nodes)@.len() as int),
        *final(num_blocks) == *old(num_blocks) + leaf_count(*t),
    decreases t,
{
    let ghost i0 = nodes@.len() as int;
    let ghost lo = header_size + leaves@.len();
    match t {
        BkdNode::Leaf(es) => {
            write_leaf_block(es, leaves);
            *num_blocks = *num_blocks + 1;
            assert(index_nodes_view(nodes@) =~= index_nodes_view(nodes@) + Seq::<NodeView>::empty());
            None
        },
        BkdNode::Inner(d, s, l, r) => {
            let idx = nodes.len();
            nodes.push(
                IndexNode {
                    split_dim: *d,
                    split_value: *s,
                    left_offset: 0,
                    right_offset: 0,
                    left_child_idx: None,
                    right_child_idx: None,
                },
            );
            let ghost after_root = index_nodes_view(nodes@);
            let left_pos = header_size + leaves.len() as u64;
            let left_idx = write_subtree(l, header_size, leaves, nodes, num_blocks);
            proof {
                lemma_node_views_len(**l, i0 + 1, lo);
                assert(index_nodes_view(nodes@).len() == nodes@.len());
                assert(nodes@.len() == i0 + 1 + node_count(**l));
            }
            let right_pos = header_size + leaves.len() as u64;
            let right_idx = write_subtree(r, header_size, leaves, nodes, num_blocks);
            proof {
                lemma_node_views_len(**r, i0 + 1 + node_count(**l), lo + tree_leaf_bytes(**l).len());
                assert(index_nodes_view(nodes@).len() == nodes@.len());
            }
            let node = IndexNode {
                split_dim: *d,
                split_value: *s,
                left_offset: if left_idx.is_none() {
                    left_pos
                } else {
                    0
                },
                right_offset: if right_idx.is_none() {
                    right_pos
                } else {
                    0
                },
                left_child_idx: left_idx,
                right_child_idx: right_idx,
            };
            let ghost before_set = index_nodes_view(nodes@);
            nodes.set(idx, node);
            proof {
                let li = i0 + 1;
                let ri = i0 + 1 + node_count(**l);
                let rlo = lo + tree_leaf_bytes(**l).len();
                let root: NodeView = (*d, *s, ref_offset(**l, lo), ref_index(**l, li), ref_offset(**r, rlo), ref_index(**r, ri));
                assert(index_node_view(node) == root);
                lemma_node_views_len(**l, li, lo);
                assert(index_nodes_view(nodes@) =~= before_set.update(i0, root));
                assert(node_views(*t, i0, lo) == seq![root] + node_views(**l, li, lo) + node_views(**r, ri, rlo));
                assert(index_nodes_view(nodes@) =~= index_nodes_view(old(nodes)@) + node_views(*t, i0, lo));
            }
            Some(idx)
        },
    }
}


/// The sizes of a written tree: its leaf blocks take 4 bytes each plus 8
/// per coordinate and per id, and it has one node fewer than leaves, and
/// no more leaves than points.
pub proof fn lemma_tree_sizes(t: BkdNode, nd: nat)
    requires
        points_have_dims(tree_entries(t), nd),
        leaves_within(t, u32::MAX as nat),
        leaves_nonempty(t),
    ensures
        tree_leaf_bytes(t).len() == 4 * leaf_count(t) + (8 * nd + 8) * tree_entries(t).len(),
        node_count(t) + 1 == leaf_count(t),
        leaf_count(t) <= tree_entries(t).len(),
    decreases t,
{
    match t {
        BkdNode::Leaf(es) => {
            let ev = entries_view(es@);
            assert(leaf_block(ev).subrange(0, leaf_block(ev).len() as int) =~= leaf_block(ev));
            lemma_leaf_result(leaf_block(ev), 0, ev, nd, Seq::empty(), Seq::empty(), true, true);
            assert(8 * ev.len() * nd + 8 * ev.len() == (8 * nd + 8) * ev.len()) by (nonlinear_arith);
        },
        BkdNode::Inner(_, _, l, r) => {
            lemma_children_dims(t, nd);
            lemma_tree_sizes(*l, nd);
            lemma_tree_sizes(*r, nd);
            assert(tree_entries(t) == tree_entries(*l) + tree_entries(*r));
            assert((8 * nd + 8) * tree_entries(*l).len() + (8 * nd + 8) * tree_entries(*r).len() == (8
                * nd + 8) * (tree_entries(*l).len() + tree_entries(*r).len())) by (nonlinear_arith);
        },
    }
}

/// The lowest key of dimension `i` among the points of `es` (the largest
/// key where there are none).
pub open spec fn min_key(es: Seq<(Seq<u64>, u64)>, i: int) -> u64
    decreases es.len(),
{
    if es.len() == 0 {
        u64::MAX
    } else if es.last().0[i] < min_key(es.drop_last(), i) {
        es.last().0[i]
    } else {
        min_key(es.drop_last(), i)
    }
}

/// The highest key of dimension `i` among the points of `es` (0 where
/// there are none).
pub open spec fn max_key(es: Seq<(Seq<u64>, u64)>, i: int) -> u64
    decreases es.len(),
{
    if es.len() == 0 {
        0
    } else if es.last().0[i] > max_key(es.drop_last(), i) {
        es.last().0[i]
    } else {
        max_key(es.drop_last(), i)
    }
}

/// The bytes of a file header.
pub open spec fn header_bytes(
    nd: u32,
    total: u64,
    num_blocks: u64,
    mins: Seq<u64>,
    maxs: Seq<u64>,
    index_start: u64,
    root: u64,
) -> Seq<u8> {
    spec_u32_to_le_bytes(BKD_MAGIC) + spec_u32_to_le_bytes(BKD_VERSION) + spec_u32_to_le_bytes(nd)
        + spec_u32_to_le_bytes(8) + spec_u64_to_le_bytes(total) + spec_u64_to_le_bytes(num_blocks)
        + keys_bytes(mins) + keys_bytes(maxs) + spec_u64_to_le_bytes(index_start)
        + spec_u64_to_le_bytes(root)
}

/// Searching the file `b` by what its header says: nothing for a tree
/// without points, else the search from the root.
pub open spec fn bytes_search(
    b: Seq<u8>,
    mins: Seq<Option<u64>>,
    maxs: Seq<Option<u64>>,
    include_min: bool,
    include_max: bool,
) -> Result<Seq<u64>, BkdError> {
    let nd = u32_at(b, 8) as int;
    if u64_at(b, 16) == 0 {
        Ok(Seq::empty())
    } else {
        visit(
            b,
            u64_at(b, 32 + 16 * nd) as int,
            u64_at(b, 40 + 16 * nd) as int,
            nd,
            mins,
            maxs,
            include_min,
            include_max,
        )
    }
}

/// Whether `b` is a BKD tree file of the points `es` in `nd` dimensions:
/// its header gives the magic number, the version, the dimensions, 8 bytes
/// per dimension, the number of points and each dimension's lowest and
/// highest key; and a search by any bounds finds exactly the documents
/// with a point within them.
pub open spec fn written_file(b: Seq<u8>, es: Seq<(Seq<u64>, u64)>, nd: u32) -> bool {
    &&& b.len() >= header_size(nd as int)
    &&& u32_at(b, 0) == BKD_MAGIC
    &&& u32_at(b, 4) == BKD_VERSION
    &&& u32_at(b, 8) == nd
    &&& u32_at(b, 12) == 8
    &&& u64_at(b, 16) == es.len()
    &&& forall|i: int| 0 <= i < nd ==> #[trigger] key_at(b, 32 + 8 * i) == min_key(es, i)
    &&& forall|i: int| 0 <= i < nd ==> #[trigger] key_at(b, 32 + 8 * nd + 8 * i) == max_key(es, i)
    &&& forall|mins: Seq<Option<u64>>, maxs: Seq<Option<u64>>, include_min: bool, include_max: bool|
        mins.len() >= nd && maxs.len() >= nd ==> match #[trigger] bytes_search(
            b,
            mins,
            maxs,
            include_min,
            include_max,
        ) {
            Ok(ids) => forall|x: u64|
                ids.contains(x) <==> has_match(es, x, nd as nat, mins, maxs, include_min, include_max),
            Err(_) => false,
        }
}

proof fn lemma_read_header(
    b: Seq<u8>,
    nd: u32,
    total: u64,
    num_blocks: u64,
    mins: Seq<u64>,
    maxs: Seq<u64>,
    index_start: u64,
    root: u64,
)
    requires
        mins.len() == nd,
        maxs.len() == nd,
        b.len() >= header_size(nd as int),
        b.subrange(0, header_size(nd as int)) == header_bytes(nd, total, num_blocks, mins, maxs, index_start, root),
    ensures
        u32_at(b, 0) == BKD_MAGIC,
        u32_at(b, 4) == BKD_VERSION,
        u32_at(b, 8) == nd,
        u32_at(b, 12) == 8,
        u64_at(b, 16) == total,
        u64_at(b, 24) == num_blocks,
        forall|i: int| 0 <= i < nd ==> #[trigger] key_at(b, 32 + 8 * i) == mins[i],
        forall|i: int| 0 <= i < nd ==> #[trigger] key_at(b, 32 + 8 * nd + 8 * i) == maxs[i],
        u64_at(b, 32 + 16 * nd) == index_start,
        u64_at(b, 40 + 16 * nd) == root,
{
    lemma_auto_spec_u32_to_from_le_bytes();
    lemma_auto_spec_u64_to_from_le_bytes();
    lemma_keys_bytes(mins);
    lemma_keys_bytes(maxs);
    let n = nd as int;
    let hs = header_size(n);
    let hb = header_bytes(nd, total, num_blocks, mins, maxs, index_start, root);
    let p0 = spec_u32_to_le_bytes(BKD_MAGIC);
    let p1 = spec_u32_to_le_bytes(BKD_VERSION);
    let p2 = spec_u32_to_le_bytes(nd);
    let p3 = spec_u32_to_le_bytes(8);
    let p4 = spec_u64_to_le_bytes(total);
    let p5 = spec_u64_to_le_bytes(num_blocks);
    let p6 = keys_bytes(mins);
    let p7 = keys_bytes(maxs);
    let p8 = spec_u64_to_le_bytes(index_start);
    let p9 = spec_u64_to_le_bytes(root);
    assert(p0.len() == 4 && p1.len() == 4 && p2.len() == 4 && p3.len() == 4);
    assert(p4.len() == 8 && p5.len() == 8 && p8.len() == 8 && p9.len() == 8);
    assert(hb == p0 + p1 + p2 + p3 + p4 + p5 + p6 + p7 + p8 + p9);
    assert(hb.len() == hs);
    assert forall|a: int, c: int| 0 <= a <= c <= hs implies #[trigger] b.subrange(a, c) == hb.subrange(a, c) by {
        assert(b.subrange(a, c) =~= b.subrange(0, hs).subrange(a, c));
    }
    assert(hb.subrange(0, 4) =~= p0);
    assert(hb.subrange(4, 8) =~= p1);
    assert(hb.subrange(8, 12) =~= p2);
    assert(hb.subrange(12, 16) =~= p3);
    assert(hb.subrange(16, 24) =~= p4);
    assert(hb.subrange(24, 32) =~= p5);
    assert(hb.subrange(32, 32 + 8 * n) =~= p6);
    assert(hb.subrange(32 + 8 * n, 32 + 16 * n) =~= p7);
    assert(hb.subrange(32 + 16 * n, 40 + 16 * n) =~= p8);
    assert(hb.subrange(40 + 16 * n, 48 + 16 * n) =~= p9);
    assert(b.subrange(0, 4) == hb.subrange(0, 4));
    assert(b.subrange(4, 8) == hb.subrange(4, 8));
    assert(b.subrange(8, 12) == hb.subrange(8, 12));
    assert(b.subrange(12, 16) == hb.subrange(12, 16));
    assert(b.subrange(16, 24) == hb.subrange(16, 24));
    assert(b.subrange(24, 32) == hb.subrange(24, 32));
    assert(b.subrange(32, 32 + 8 * n) == hb.subrange(32, 32 + 8 * n));
    assert(b.subrange(32 + 8 * n, 32 + 16 * n) == hb.subrange(32 + 8 * n, 32 + 16 * n));
    assert(b.subrange(32 + 16 * n, 40 + 16 * n) == hb.subrange(32 + 16 * n, 40 + 16 * n));
    assert(b.subrange(40 + 16 * n, 48 + 16 * n) == hb.subrange(40 + 16 * n, 48 + 16 * n));
    assert forall|i: int| 0 <= i < nd implies #[trigger] key_at(b, 32 + 8 * i) == mins[i] by {
        lemma_key_at_run(b, 32, mins, i);
    }
    assert forall|i: int| 0 <= i < nd implies #[trigger] key_at(b, 32 + 8 * nd + 8 * i) == maxs[i] by {
        lemma_key_at_run(b, 32 + 8 * n, maxs, i);
    }
}


/// Appends the bytes of the index nodes, each child given by its file
/// offset.
fn write_index(nodes: &Vec<IndexNode>, index_start: u64, out: &mut Vec<u8>)
    requires
        index_start + 28 * nodes@.len() <= u64::MAX,
        forall|i: int|
            0 <= i < nodes@.len() ==> ((#[trigger] nodes@[i]).left_child_idx matches Some(c) ==> c
                < nodes@.len()) && (nodes@[i].right_child_idx matches Some(c) ==> c < nodes@.len()),
    ensures
        final(out)@ == old(out)@ + nodes_bytes(index_nodes_view(nodes@), index_start as int),
{
    let ghost nv = index_nodes_view(nodes@);
    let ghost base = out@;
    let mut i: usize = 0;
    while i < nodes.len()
        invariant
            i <= nodes@.len(),
            nv == index_nodes_view(nodes@),
            index_start + 28 * nodes@.len() <= u64::MAX,
            forall|k: int|
                0 <= k < nodes@.len() ==> ((#[trigger] nodes@[k]).left_child_idx matches Some(c) ==> c
                    < nodes@.len()) && (nodes@[k].right_child_idx matches Some(c) ==> c
                    < nodes@.len()),
            out@ == base + nodes_bytes(nv.take(i as int), index_start as int),
        decreases nodes.len() - i,
    {
        let node = &nodes[i];
        assert(node == nodes@[i as int]);
        let left: u64 = match node.left_child_idx {
            Some(c) => index_start + 28 * (c as u64),
            None => node.left_offset,
        };
        let right: u64 = match node.right_child_idx {
            Some(c) => index_start + 28 * (c as u64),
            None => node.right_offset,
        };
        let ghost before = out@;
        push_u32(out, node.split_dim);
        push_u64(out, bits_from_key(node.split_value));
        push_u64(out, left);
        push_u64(out, right);
        proof {
            let n = nv[i as int];
            assert(left == resolve_child(n.2, n.3, index_start as int));
            assert(right == resolve_child(n.4, n.5, index_start as int));
            assert(out@ =~= before + node_bytes(n, index_start as int));
            assert(nv.take(i + 1).drop_last() =~= nv.take(i as int));
            assert(nv.take(i + 1).last() == n);
        }
        i = i + 1;
    }
    assert(nv.take(nodes@.len() as int) =~= nv);
}

proof fn lemma_node_views_children(t: BkdNode, i0: int, lo: int)
    requires
        0 <= i0,
        i0 + node_count(t) <= usize::MAX,
    ensures
        forall|k: int|
            0 <= k < node_views(t, i0, lo).len() ==> ((#[trigger] node_views(t, i0, lo)[k]).3 matches Some(
                c,
            ) ==> i0 < c < i0 + node_count(t)) && (node_views(t, i0, lo)[k].5 matches Some(c) ==> i0 < c
                < i0 + node_count(t)),
    decreases t,
{
    lemma_node_views_len(t, i0, lo);
    match t {
        BkdNode::Leaf(_) => {},
        BkdNode::Inner(d, s, l, r) => {
            let li = i0 + 1;
            let ri = i0 + 1 + node_count(*l);
            let rlo = lo + tree_leaf_bytes(*l).len();
            lemma_node_views_children(*l, li, lo);
            lemma_node_views_children(*r, ri, rlo);
            lemma_node_views_len(*l, li, lo);
            lemma_node_views_len(*r, ri, rlo);
            let root: NodeView = (d, s, ref_offset(*l, lo), ref_index(*l, li), ref_offset(*r, rlo), ref_index(*r, ri));
            let vl = node_views(*l, li, lo);
            let vr = node_views(*r, ri, rlo);
            let all = node_views(t, i0, lo);
            assert(all == seq![root] + vl + vr);
            assert forall|k: int| 0 <= k < all.len() implies ((#[trigger] all[k]).3 matches Some(c) ==> i0
                < c < i0 + node_count(t)) && (all[k].5 matches Some(c) ==> i0 < c < i0 + node_count(
                t,
            )) by {
                if k == 0 {
                    assert(all[k] == root);
                } else if k < 1 + vl.len() {
                    assert(all[k] == vl[k - 1]);
                } else {
                    assert(all[k] == vr[k - 1 - vl.len()]);
                }
            }
        },
    }
}

/// Writes BKD tree files.
#[derive(Debug)]
pub struct BKDWriter {
    block_size: usize,
    num_dims: u32,
}

impl BKDWriter {
    /// The most points a leaf block holds.
    pub closed spec fn spec_block_size(&self) -> usize {
        self.block_size
    }

    /// The number of dimensions of the points.
    pub closed spec fn spec_num_dims(&self) -> u32 {
        self.num_dims
    }

    /// A writer of points in `num_dims` dimensions, with leaf blocks of at
    /// most 512 points.
    pub fn new(num_dims: u32) -> (w: Self)
        ensures
            w.spec_block_size() == 512,
            w.spec_num_dims() == num_dims,
    {
        BKDWriter { block_size: 512, num_dims }
    }

    /// The writer with leaf blocks of at most `block_size` points.
    pub fn with_block_size(self, block_size: usize) -> (w: Self)
        ensures
            w.spec_block_size() == block_size,
            w.spec_num_dims() == self.spec_num_dims(),
    {
        BKDWriter { block_size, num_dims: self.num_dims }
    }

    /// The bytes of the BKD tree file of `entries` (each a point and its
    /// document id). Points are split at the median of one dimension after
    /// another (round robin by depth) until at most the block size remain
    /// in a leaf block.
    pub fn write(&self, entries: &Vec<(Vec<u64>, u64)>) -> (file: Vec<u8>)
        requires
            entries@.len() > 0 ==> self.spec_block_size() >= 1,
            entries@.len() > self.spec_block_size() ==> self.spec_num_dims() > 0,
            entries@.len() <= u32::MAX || self.spec_block_size() <= u32::MAX,
            points_have_dims(entries_view(entries@), self.spec_num_dims() as nat),
            48 + 16 * self.spec_num_dims() + (8 * self.spec_num_dims() + 40) * entries@.len()
                <= u64::MAX,
        ensures
            written_file(file@, entries_view(entries@), self.spec_num_dims()),
            u64_at(file@, 24) == if entries@.len() == 0 {
                0
            } else {
                block_count(entries@.len() as nat, self.spec_block_size() as nat)
            },
            file@.len() == header_size(self.spec_num_dims() as int) + if entries@.len() == 0 {
                0
            } else {
                32 * block_count(entries@.len() as nat, self.spec_block_size() as nat) - 28 + (8
                    * self.spec_num_dims() + 8) * entries@.len()
            },
    {
        let nd = self.num_dims;
        let ghost ev = entries_view(entries@);
        let n = entries.len();
        let mut mins: Vec<u64> = Vec::new();
        let mut maxs: Vec<u64> = Vec::new();
        let mut i: u32 = 0;
        while i < nd
            invariant
                i <= nd,
                mins@.len() == i,
                maxs@.len() == i,
                forall|k: int| 0 <= k < i ==> #[trigger] mins@[k] == min_key(ev.take(0), k),
                forall|k: int| 0 <= k < i ==> #[trigger] maxs@[k] == max_key(ev.take(0), k),
            decreases nd - i,
        {
            mins.push(u64::MAX);
            maxs.push(0);
            i = i + 1;
        }
        let mut j: usize = 0;
        while j < n
            invariant
                j <= n,
                n == entries@.len(),
                ev == entries_view(entries@),
                points_have_dims(ev, nd as nat),
                mins@.len() == nd,
                maxs@.len() == nd,
                forall|k: int| 0 <= k < nd ==> #[trigger] mins@[k] == min_key(ev.take(j as int), k),
                forall|k: int| 0 <= k < nd ==> #[trigger] maxs@[k] == max_key(ev.take(j as int), k),
            decreases n - j,
        {
            let point = &entries[j].0;
            assert(point@ == ev[j as int].0);
            assert(point@.len() == nd);
            let ghost pre = ev.take(j as int);
            let ghost nxt = ev.take(j + 1);
            assert(nxt.drop_last() =~= pre);
            assert(nxt.last() == ev[j as int]);
            let mut k: usize = 0;
            while k < nd as usize
                invariant
                    k <= nd,
                    point@.len() == nd,
                    point@ == nxt.last().0,
                    nxt.drop_last() == pre,
                    nxt.len() > 0,
                    mins@.len() == nd,
                    maxs@.len() == nd,
                    forall|q: int| 0 <= q < k ==> #[trigger] mins@[q] == min_key(nxt, q),
                    forall|q: int| 0 <= q < k ==> #[trigger] maxs@[q] == max_key(nxt, q),
                    forall|q: int| k <= q < nd ==> #[trigger] mins@[q] == min_key(pre, q),
                    forall|q: int| k <= q < nd ==> #[trigger] maxs@[q] == max_key(pre, q),
                decreases nd - k,
            {
                let v = point[k];
                if v < mins[k] {
                    mins.set(k, v);
                }
                if v > maxs[k] {
                    maxs.set(k, v);
                }
                assert(mins@[k as int] == min_key(nxt, k as int));
                assert(maxs@[k as int] == max_key(nxt, k as int));
                k = k + 1;
            }
            j = j + 1;
        }
        assert(ev.take(n as int) =~= ev);
        let hs: u64 = 48 + 16 * (nd as u64);
        let mut file: Vec<u8> = Vec::new();
        if n == 0 {
            write_header(&mut file, nd, 0, 0, &mins, &maxs, 0, 0);
            proof {
                lemma_auto_spec_u32_to_from_le_bytes();
                lemma_auto_spec_u64_to_from_le_bytes();
                lemma_keys_bytes(mins@);
                lemma_keys_bytes(maxs@);
                assert(spec_u32_to_le_bytes(nd).len() == 4);
                assert(spec_u64_to_le_bytes(0).len() == 8);
                assert(file@.len() == header_size(nd as int));
                assert(file@.subrange(0, header_size(nd as int)) =~= file@);
                lemma_read_header(file@, nd, 0, 0, mins@, maxs@, 0, 0);
                assert forall|mn: Seq<Option<u64>>, mx: Seq<Option<u64>>, a: bool, c: bool|
                    mn.len() >= nd && mx.len() >= nd implies match #[trigger] bytes_search(file@, mn, mx, a, c) {
                        Ok(ids) => forall|x: u64| ids.contains(x) <==> has_match(ev, x, nd as nat, mn, mx, a, c),
                        Err(_) => false,
                    } by {
                    assert(bytes_search(file@, mn, mx, a, c) == Ok::<Seq<u64>, BkdError>(Seq::empty()));
                }
            }
            return file;
        }
        let copy = copy_entries(entries);
        let tree = build_tree(copy, 0, self.block_size, nd);
        proof {
            if n <= u32::MAX {
                crate::bkd_tree::lemma_leaves_within_mono(tree, n as nat, u32::MAX as nat);
            } else {
                crate::bkd_tree::lemma_leaves_within_mono(tree, self.block_size as nat, u32::MAX as nat);
            }
            lemma_tree_sizes(tree, nd as nat);
            assert(tree_entries(tree).len() == n) by {
                vstd::seq_lib::to_multiset_len(tree_entries(tree));
                vstd::seq_lib::to_multiset_len(ev);
            }
            assert((8 * nd + 8) * n + 4 * n + 28 * n == (8 * nd + 40) * n) by (nonlinear_arith);
            assert(4 * leaf_count(tree) + (8 * nd + 8) * n + 28 * node_count(tree) <= (8 * nd + 40) * n) by (nonlinear_arith)
                requires
                    leaf_count(tree) <= n,
                    node_count(tree) + 1 == leaf_count(tree),
                    (8 * nd + 8) * n + 4 * n + 28 * n == (8 * nd + 40) * n,
            ;
        }
        let mut leaves: Vec<u8> = Vec::new();
        let mut nodes: Vec<IndexNode> = Vec::new();
        let mut num_blocks: u64 = 0;
        let root = write_subtree(&tree, hs, &mut leaves, &mut nodes, &mut num_blocks);
        let index_start: u64 = hs + leaves.len() as u64;
        proof {
            lemma_node_views_len(tree, 0, hs as int);
            lemma_node_views_children(tree, 0, hs as int);
            assert(index_nodes_view(nodes@) =~= node_views(tree, 0, hs as int));
            assert forall|i: int| 0 <= i < nodes@.len() implies ((#[trigger] nodes@[i]).left_child_idx matches Some(c) ==> c
                < nodes@.len()) && (nodes@[i].right_child_idx matches Some(c) ==> c < nodes@.len()) by {
                assert(index_nodes_view(nodes@)[i] == index_node_view(nodes@[i]));
            }
        }
        let root_offset: u64 = match root {
            Some(idx) => index_start + 28 * (idx as u64),
            None => hs,
        };
        write_header(&mut file, nd, n as u64, num_blocks, &mins, &maxs, index_start, root_offset);
        let ghost header_part = file@;
        file.append(&mut leaves);
        write_index(&nodes, index_start, &mut file);
        proof {
            let b = file@;
            let lb = tree_leaf_bytes(tree);
            let nb = nodes_bytes(node_views(tree, 0, hs as int), index_start as int);
            lemma_nodes_bytes_concat(node_views(tree, 0, hs as int), Seq::empty(), index_start as int);
            assert(b == header_part + lb + nb);
            lemma_auto_spec_u32_to_from_le_bytes();
            lemma_auto_spec_u64_to_from_le_bytes();
            lemma_keys_bytes(mins@);
            lemma_keys_bytes(maxs@);
            assert(spec_u32_to_le_bytes(nd).len() == 4);
            assert(spec_u64_to_le_bytes(index_start).len() == 8);
            assert(header_part.len() == hs);
            assert(b.subrange(0, hs as int) =~= header_part);
            lemma_read_header(b, nd, n as u64, num_blocks, mins@, maxs@, index_start, root_offset);
            assert(num_blocks == leaf_count(tree));
            assert(b.len() == hs + lb.len() + nb.len());
            assert(b.subrange(hs as int, hs + lb.len()) =~= lb);
            assert(b.subrange(index_start as int, index_start + 28 * node_count(tree)) =~= nb);
            assert(placed(b, tree, 0, hs as int, index_start as int));
            assert(root_offset == subtree_offset(tree, 0, hs as int, index_start as int));
            assert forall|mn: Seq<Option<u64>>, mx: Seq<Option<u64>>, a: bool, c: bool|
                mn.len() >= nd && mx.len() >= nd implies match #[trigger] bytes_search(b, mn, mx, a, c) {
                    Ok(ids) => forall|x: u64| ids.contains(x) <==> has_match(ev, x, nd as nat, mn, mx, a, c),
                    Err(_) => false,
                } by {
                lemma_visit_placed(b, tree, 0, hs as int, index_start as int, nd as nat, mn, mx, a, c);
                lemma_tree_search(tree, nd as nat, mn, mx, a, c);
                assert forall|x: u64| tree_search(tree, nd as nat, mn, mx, a, c).contains(x) <==> has_match(ev, x, nd as nat, mn, mx, a, c) by {
                    lemma_has_match_multiset(tree_entries(tree), ev, x, nd as nat, mn, mx, a, c);
                }
            }
        }
        file
    }
}

/// Appends a file header.
fn write_header(
    out: &mut Vec<u8>,
    nd: u32,
    total: u64,
    num_blocks: u64,
    mins: &Vec<u64>,
    maxs: &Vec<u64>,
    index_start: u64,
    root: u64,
)
    ensures
        final(out)@ == old(out)@ + header_bytes(nd, total, num_blocks, mins@, maxs@, index_start, root),
{
    let ghost base = out@;
    push_u32(out, BKD_MAGIC);
    push_u32(out, BKD_VERSION);
    push_u32(out, nd);
    push_u32(out, 8);
    push_u64(out, total);
    push_u64(out, num_blocks);
    push_keys(out, mins);
    push_keys(out, maxs);
    push_u64(out, index_start);
    push_u64(out, root);
}

fn push_keys(out: &mut Vec<u8>, s: &Vec<u64>)
    ensures
        final(out)@ == old(out)@ + keys_bytes(s@),
{
    let ghost base = out@;
    let mut i: usize = 0;
    while i < s.len()
        invariant
            i <= s@.len(),
            out@ == base + keys_bytes(s@.take(i as int)),
        decreases s.len() - i,
    {
        push_u64(out, bits_from_key(s[i]));
        proof {
            assert(s@.take(i + 1).drop_last() =~= s@.take(i as int));
            assert(s@.take(i + 1).last() == s@[i as int]);
        }
        i = i + 1;
    }
    assert(s@.take(s@.len() as int) =~= s@);
}

/// A copy of the entries.
fn copy_entries(entries: &Vec<(Vec<u64>, u64)>) -> (r: Vec<(Vec<u64>, u64)>)
    ensures
        entries_view(r@) == entries_view(entries@),
{
    let mut r: Vec<(Vec<u64>, u64)> = Vec::new();
    let mut i: usize = 0;
    while i < entries.len()
        invariant
            i <= entries@.len(),
            entries_view(r@) == entries_view(entries@).take(i as int),
        decreases entries.len() - i,
    {
        let p = entries[i].0.clone();
        assert(p@ =~= entries@[i as int].0@);
        let ghost before = entries_view(r@);
        r.push((p, entries[i].1));
        assert(entries_view(r@) =~= before.push((p@, entries@[i as int].1)));
        assert(entries_view(entries@).take(i + 1) =~= entries_view(entries@).take(i as int).push(
            (p@, entries@[i as int].1),
        ));
        i = i + 1;
    }
    assert(entries_view(entries@).take(entries@.len() as int) =~= entries_view(entries@));
    r
}


/// A file the writer wrote opens (its header is read back with the
/// dimensions and the number of points written), and a range search over
/// it finds exactly the documents with a point within the bounds.
pub proof fn lemma_written_file_search(
    b: Seq<u8>,
    es: Seq<(Seq<u64>, u64)>,
    nd: u32,
    h: BKDFileHeader,
    mins: Seq<Option<u64>>,
    maxs: Seq<Option<u64>>,
    include_min: bool,
    include_max: bool,
)
    requires
        written_file(b, es, nd),
        header_of(b, h),
        mins.len() >= nd,
        maxs.len() >= nd,
    ensures
        h.magic == BKD_MAGIC,
        h.num_dims == nd,
        h.total_point_count == es.len(),
        file_search(b, h, mins, maxs, include_min, include_max) matches Ok(ids) && forall|x: u64|
            ids.contains(x) <==> has_match(es, x, nd as nat, mins, maxs, include_min, include_max),
{
    assert(file_search(b, h, mins, maxs, include_min, include_max) == bytes_search(
        b,
        mins,
        maxs,
        include_min,
        include_max,
    ));
}

/// A written file answers a range search as the in-memory tree of the
/// same points does: given what `BKDReader::range_search` returns on the
/// file (`from_file`) and what `SimpleBKDTree::range_search` returns on a
/// tree of the same entries (`from_tree`), the two are the same ids in the
/// same order.
pub proof fn lemma_file_search_matches_tree(
    b: Seq<u8>,
    es: Seq<(Seq<u64>, u64)>,
    nd: u32,
    h: BKDFileHeader,
    tree_entries: Seq<(Seq<u64>, u64)>,
    mins: Seq<Option<u64>>,
    maxs: Seq<Option<u64>>,
    include_min: bool,
    include_max: bool,
    from_file: Seq<u64>,
    from_tree: Seq<u64>,
)
    requires
        written_file(b, es, nd),
        header_of(b, h),
        mins.len() >= nd,
        maxs.len() >= nd,
        tree_entries.to_multiset() == es.to_multiset(),
        strictly_ascending(from_file),
        file_search(b, h, mins, maxs, include_min, include_max) matches Ok(ids) && forall|x: u64|
            from_file.contains(x) <==> ids.contains(x),
        strictly_ascending(from_tree),
        forall|x: u64|
            from_tree.contains(x) <==> has_match(
                tree_entries,
                x,
                nd as nat,
                mins,
                maxs,
                include_min,
                include_max,
            ),
    ensures
        from_file == from_tree,
{
    lemma_written_file_search(b, es, nd, h, mins, maxs, include_min, include_max);
    assert forall|x: u64| from_file.contains(x) <==> from_tree.contains(x) by {
        lemma_has_match_multiset(tree_entries, es, x, nd as nat, mins, maxs, include_min, include_max);
    }
    lemma_ascending_unique(from_file, from_tree);
}

} // verus!
