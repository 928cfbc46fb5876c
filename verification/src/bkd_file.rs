//! BKD tree files: a tree of numeric points written as one file, and
//! range search over such a file.
//!
//! Layout (all integers little-endian):
//!
//! - header: magic `u32`, version `u32`, dimensions `u32`, bytes per
//!   dimension `u32`, point count `u64`, leaf block count `u64`, the lowest
//!   and the highest coordinate of each dimension, the offset where the
//!   index nodes start `u64`, the root's offset `u64`;
//! - leaf blocks: a count `u32`, the coordinates of each point in turn,
//!   then the document id of each point (`u64`);
//! - index nodes, 28 bytes each: split dimension `u32`, split coordinate,
//!   left child offset `u64`, right child offset `u64`.
//!
//! Coordinates are stored as the bits of IEEE 754 doubles. In memory they
//! are order keys ([`key_of_bits`]): keys compare as the numbers do, so
//! search compares keys.
//!
//! An offset below the index start is a leaf block; one at or after it is an
//! index node.

use vstd::prelude::*;
use vstd::bytes::{
    spec_u32_from_le_bytes, spec_u32_to_le_bytes, spec_u64_from_le_bytes, spec_u64_to_le_bytes,
    u32_from_le_bytes, u32_to_le_bytes, u64_from_le_bytes, u64_to_le_bytes,
    lemma_auto_spec_u32_to_from_le_bytes, lemma_auto_spec_u64_to_from_le_bytes,
};
use vstd::slice::slice_subrange;
use crate::bkd::{insert_sorted_unique, point_matches, strictly_ascending, within};

verus! {

/// The magic number at the start of a BKD tree file ("BKDT").
pub const BKD_MAGIC: u32 = 0x54444B42;

/// The version of the file layout.
pub const BKD_VERSION: u32 = 1;

/// The size of an index node.
pub const NODE_SIZE: u64 = 28;

/// The `u32` at `off` in `b`.
pub open spec fn u32_at(b: Seq<u8>, off: int) -> u32 {
    spec_u32_from_le_bytes(b.subrange(off, off + 4))
}

/// The `u64` at `off` in `b`.
pub open spec fn u64_at(b: Seq<u8>, off: int) -> u64 {
    spec_u64_from_le_bytes(b.subrange(off, off + 8))
}

/// The order key of the bits of an IEEE 754 double: a negative number's
/// bits flipped, a positive number's with the sign bit set, so that keys
/// of numbers other than NaN compare as the numbers do.
pub open spec fn key_of_bits(b: u64) -> u64 {
    if b >= 0x8000_0000_0000_0000 {
        !b
    } else {
        b | 0x8000_0000_0000_0000
    }
}

/// The bits of the IEEE 754 double whose order key is `k`.
pub open spec fn bits_of_key(k: u64) -> u64 {
    if k >= 0x8000_0000_0000_0000 {
        k & 0x7FFF_FFFF_FFFF_FFFF
    } else {
        !k
    }
}

/// Order keys and double bits correspond one to one.
pub proof fn lemma_key_bits(k: u64)
    ensures
        key_of_bits(bits_of_key(k)) == k,
        bits_of_key(key_of_bits(k)) == k,
{
    assert(key_of_bits(bits_of_key(k)) == k) by (bit_vector);
    assert(bits_of_key(key_of_bits(k)) == k) by (bit_vector);
}

/// The order key of the double stored at `off` in `b`.
pub open spec fn key_at(b: Seq<u8>, off: int) -> u64 {
    key_of_bits(u64_at(b, off))
}

/// The order key of the double with bits `b`.
pub fn key_from_bits(b: u64) -> (k: u64)
    ensures
        k == key_of_bits(b),
{
    if b >= 0x8000_0000_0000_0000 {
        !b
    } else {
        b | 0x8000_0000_0000_0000
    }
}

/// The bits of the double with order key `k`.
pub fn bits_from_key(k: u64) -> (b: u64)
    ensures
        b == bits_of_key(k),
{
    if k >= 0x8000_0000_0000_0000 {
        k & 0x7FFF_FFFF_FFFF_FFFF
    } else {
        !k
    }
}

/// The size of the header of a file with `nd` dimensions.
pub open spec fn header_size(nd: int) -> int {
    48 + 16 * nd
}

/// The coordinates of point `j` of a leaf block whose coordinates start at
/// `vals`.
pub open spec fn leaf_point(b: Seq<u8>, vals: int, nd: int, j: int) -> Seq<u64> {
    Seq::new(nd as nat, |d: int| key_at(b, vals + (j * nd + d) * 8))
}

/// The document ids, in order, of the first `k` points of a leaf block that
/// lie within the bounds.
pub open spec fn leaf_hits(
    b: Seq<u8>,
    vals: int,
    ids: int,
    nd: int,
    k: int,
    mins: Seq<Option<u64>>,
    maxs: Seq<Option<u64>>,
    include_min: bool,
    include_max: bool,
) -> Seq<u64>
    decreases k,
{
    if k <= 0 {
        Seq::empty()
    } else {
        let rest = leaf_hits(b, vals, ids, nd, k - 1, mins, maxs, include_min, include_max);
        if point_matches(leaf_point(b, vals, nd, k - 1), nd as nat, mins, maxs, include_min, include_max) {
            rest.push(u64_at(b, ids + (k - 1) * 8))
        } else {
            rest
        }
    }
}

/// Reading the leaf block at `off`: the ids of its points within the
/// bounds, in order; `None` where the block runs past the end of `b`.
pub open spec fn leaf_result(
    b: Seq<u8>,
    off: int,
    nd: int,
    mins: Seq<Option<u64>>,
    maxs: Seq<Option<u64>>,
    include_min: bool,
    include_max: bool,
) -> Result<Seq<u64>, BkdError> {
    if off < 0 || off + 4 > b.len() {
        Err(BkdError::Truncated)
    } else {
        let count = u32_at(b, off) as int;
        let vals = off + 4;
        let ids = vals + count * nd * 8;
        if ids + count * 8 > b.len() {
            Err(BkdError::Truncated)
        } else {
            Ok(leaf_hits(b, vals, ids, nd, count, mins, maxs, include_min, include_max))
        }
    }
}

/// Whether a search goes down the left side of a node splitting at `split`.
pub open spec fn goes_left(min: Option<u64>, split: u64, include_min: bool) -> bool {
    match min {
        None => true,
        Some(m) => if include_min {
            m <= split
        } else {
            m < split
        },
    }
}

/// Whether a search goes down the right side of a node splitting at `split`.
pub open spec fn goes_right(max: Option<u64>, split: u64, include_max: bool) -> bool {
    match max {
        None => true,
        Some(m) => if include_max {
            m >= split
        } else {
            m > split
        },
    }
}

/// Searching from the child at `child` of the node at `off`: a leaf block,
/// or a node after `off`.
pub open spec fn visit_child(
    b: Seq<u8>,
    index_start: int,
    off: int,
    child: int,
    nd: int,
    mins: Seq<Option<u64>>,
    maxs: Seq<Option<u64>>,
    include_min: bool,
    include_max: bool,
) -> Result<Seq<u64>, BkdError>
    decreases b.len() - off, 0int,
{
    if child < index_start {
        leaf_result(b, child, nd, mins, maxs, include_min, include_max)
    } else if child <= off {
        Err(BkdError::Corrupt)
    } else if child + 28 > b.len() {
        Err(BkdError::Truncated)
    } else {
        visit(b, index_start, child, nd, mins, maxs, include_min, include_max)
    }
}

/// Searching the subtree at `off`: the ids found, leaves in order from left
/// to right; an error where the file is cut short, or a node names a
/// dimension outside the bounds given or a child node that does not lie
/// after it.
pub open spec fn visit(
    b: Seq<u8>,
    index_start: int,
    off: int,
    nd: int,
    mins: Seq<Option<u64>>,
    maxs: Seq<Option<u64>>,
    include_min: bool,
    include_max: bool,
) -> Result<Seq<u64>, BkdError>
    decreases b.len() - off, 1int,
{
    if off < index_start {
        leaf_result(b, off, nd, mins, maxs, include_min, include_max)
    } else if off < 0 || off + 28 > b.len() {
        Err(BkdError::Truncated)
    } else {
        let dim = u32_at(b, off) as int;
        let split = key_at(b, off + 4);
        let left = u64_at(b, off + 12) as int;
        let right = u64_at(b, off + 20) as int;
        if dim >= mins.len() || dim >= maxs.len() {
            Err(BkdError::Corrupt)
        } else {
            let lres = if goes_left(mins[dim], split, include_min) {
                visit_child(b, index_start, off, left, nd, mins, maxs, include_min, include_max)
            } else {
                Ok(Seq::empty())
            };
            match lres {
                Err(e) => Err(e),
                Ok(l) => {
                    let rres = if goes_right(maxs[dim], split, include_max) {
                        visit_child(
                            b,
                            index_start,
                            off,
                            right,
                            nd,
                            mins,
                            maxs,
                            include_min,
                            include_max,
                        )
                    } else {
                        Ok(Seq::empty())
                    };
                    match rres {
                        Err(e) => Err(e),
                        Ok(r) => Ok(l + r),
                    }
                },
            }
        }
    }
}

/// Why a BKD tree file could not be read.
#[derive(Debug, Clone, Copy, PartialEq, Eq, Structural)]
pub enum BkdError {
    /// The file does not start with the magic number.
    BadMagic,
    /// The file ends before what it describes.
    Truncated,
    /// A node names a dimension outside the bounds given, or a child that
    /// does not lie after it.
    Corrupt,
}

/// The header of a BKD tree file.
#[derive(Debug, Clone)]
pub struct BKDFileHeader {
    pub magic: u32,
    pub version: u32,
    pub num_dims: u32,
    pub bytes_per_dim: u32,
    pub total_point_count: u64,
    pub num_blocks: u64,
    pub min_values: Vec<u64>,
    pub max_values: Vec<u64>,
    pub index_start_offset: u64,
    pub root_node_offset: u64,
}

/// Whether `h` is the header at the start of `b`.
pub open spec fn header_of(b: Seq<u8>, h: BKDFileHeader) -> bool {
    let nd = h.num_dims as int;
    &&& b.len() >= header_size(nd)
    &&& h.magic == u32_at(b, 0)
    &&& h.version == u32_at(b, 4)
    &&& h.num_dims == u32_at(b, 8)
    &&& h.bytes_per_dim == u32_at(b, 12)
    &&& h.total_point_count == u64_at(b, 16)
    &&& h.num_blocks == u64_at(b, 24)
    &&& h.min_values@.len() == nd
    &&& h.max_values@.len() == nd
    &&& forall|i: int| 0 <= i < nd ==> #[trigger] h.min_values@[i] == key_at(b, 32 + 8 * i)
    &&& forall|i: int| 0 <= i < nd ==> #[trigger] h.max_values@[i] == key_at(b, 32 + 8 * nd + 8 * i)
    &&& h.index_start_offset == u64_at(b, 32 + 16 * nd)
    &&& h.root_node_offset == u64_at(b, 40 + 16 * nd)
}

/// The search of a whole file with header `h`, before sorting: nothing for
/// an empty tree, else the search from the root.
pub open spec fn file_search(
    b: Seq<u8>,
    h: BKDFileHeader,
    mins: Seq<Option<u64>>,
    maxs: Seq<Option<u64>>,
    include_min: bool,
    include_max: bool,
) -> Result<Seq<u64>, BkdError> {
    if h.total_point_count == 0 {
        Ok(Seq::empty())
    } else {
        visit(
            b,
            h.index_start_offset as int,
            h.root_node_offset as int,
            h.num_dims as int,
            mins,
            maxs,
            include_min,
            include_max,
        )
    }
}

fn read_u32(b: &[u8], off: usize) -> (v: u32)
    requires
        off + 4 <= b@.len(),
    ensures
        v == u32_at(b@, off as int),
{
    let n = b.len();
    assert(n == b@.len());
    u32_from_le_bytes(slice_subrange(b, off, off + 4))
}

fn read_u64(b: &[u8], off: usize) -> (v: u64)
    requires
        off + 8 <= b@.len(),
    ensures
        v == u64_at(b@, off as int),
{
    let n = b.len();
    assert(n == b@.len());
    u64_from_le_bytes(slice_subrange(b, off, off + 8))
}


/// Whether a coordinate lies within one dimension's bounds.
fn coordinate_within(v: u64, min: Option<u64>, max: Option<u64>, include_min: bool, include_max: bool) -> (b: bool)
    ensures
        b == within(v, min, max, include_min, include_max),
{
    let gte_min = match min {
        None => true,
        Some(m) => if include_min {
            v >= m
        } else {
            v > m
        },
    };
    let lte_max = match max {
        None => true,
        Some(m) => if include_max {
            v <= m
        } else {
            v < m
        },
    };
    gte_min && lte_max
}

proof fn lemma_product_bound(a: int, b: int)
    requires
        0 <= a <= 0xFFFF_FFFF,
        0 <= b <= 0xFFFF_FFFF,
    ensures
        0 <= a * b <= 0xFFFF_FFFE_0000_0001,
{
    assert(0 <= a * b <= 0xFFFF_FFFF * 0xFFFF_FFFF) by (nonlinear_arith)
        requires
            0 <= a <= 0xFFFF_FFFF,
            0 <= b <= 0xFFFF_FFFF,
    ;
}

proof fn lemma_cell_bound(j: int, d: int, count: int, nd: int)
    requires
        0 <= j < count,
        0 <= d < nd,
    ensures
        0 <= j * nd,
        j * nd + d + 1 <= count * nd,
{
    assert(0 <= j * nd && j * nd + d + 1 <= count * nd) by (nonlinear_arith)
        requires
            0 <= j < count,
            0 <= d < nd,
    ;
}

/// Reads the leaf block at `off` and collects the ids of its points within
/// the bounds.
fn read_leaf(
    b: &[u8],
    off: u64,
    nd: u32,
    mins: &[Option<u64>],
    maxs: &[Option<u64>],
    include_min: bool,
    include_max: bool,
) -> (r: Result<Vec<u64>, BkdError>)
    requires
        mins@.len() >= nd,
        maxs@.len() >= nd,
    ensures
        match r {
            Ok(v) => leaf_result(b@, off as int, nd as int, mins@, maxs@, include_min, include_max)
                == Ok::<Seq<u64>, BkdError>(v@),
            Err(e) => leaf_result(b@, off as int, nd as int, mins@, maxs@, include_min, include_max)
                == Err::<Seq<u64>, BkdError>(e),
        },
{
    let len = b.len();
    if off >= len as u64 || len - (off as usize) < 4 {
        return Err(BkdError::Truncated);
    }
    let o = off as usize;
    let count = read_u32(b, o);
    proof {
        lemma_product_bound(count as int, nd as int);
    }
    let vals: u128 = (o as u128) + 4;
    let cells: u128 = (count as u128) * (nd as u128);
    let ids: u128 = vals + cells * 8;
    let end: u128 = ids + (count as u128) * 8;
    if end > len as u128 {
        return Err(BkdError::Truncated);
    }
    let ghost g_vals = vals as int;
    let ghost g_ids = ids as int;
    let mut hits: Vec<u64> = Vec::new();
    let mut j: u32 = 0;
    while j < count
        invariant
            j <= count,
            mins@.len() >= nd,
            maxs@.len() >= nd,
            g_vals == o + 4,
            g_ids == g_vals + count * nd * 8,
            g_ids + count * 8 <= b@.len(),
            vals == g_vals,
            ids == g_ids,
            len == b@.len(),
            hits@ == leaf_hits(b@, g_vals, g_ids, nd as int, j as int, mins@, maxs@, include_min, include_max),
        decreases count - j,
    {
        let mut matches = true;
        let mut d: u32 = 0;
        let ghost p = leaf_point(b@, g_vals, nd as int, j as int);
        while d < nd
            invariant
                d <= nd,
                j < count,
                mins@.len() >= nd,
                maxs@.len() >= nd,
                g_vals == o + 4,
                g_ids == g_vals + count * nd * 8,
                g_ids + count * 8 <= b@.len(),
                vals == g_vals,
                ids == g_ids,
                len == b@.len(),
                p == leaf_point(b@, g_vals, nd as int, j as int),
                matches == forall|k: int|
                    0 <= k < d ==> within(#[trigger] p[k], mins@[k], maxs@[k], include_min, include_max),
            decreases nd - d,
        {
            proof {
                lemma_cell_bound(j as int, d as int, count as int, nd as int);
            }
            let cell: u128 = (j as u128) * (nd as u128) + (d as u128);
            let at: usize = ((vals + cell * 8) as usize);
            assert(at + 8 <= b@.len());
            let v = key_from_bits(read_u64(b, at));
            assert(v == p[d as int]);
            if !coordinate_within(v, mins[d as usize], maxs[d as usize], include_min, include_max) {
                matches = false;
            }
            d = d + 1;
        }
        let id_at: usize = ((ids + (j as u128) * 8) as usize);
        assert(id_at + 8 <= b@.len());
        let id = read_u64(b, id_at);
        if matches {
            hits.push(id);
        }
        j = j + 1;
    }
    Ok(hits)
}


/// Searches the subtree at `off`.
fn visit_node(
    b: &[u8],
    index_start: u64,
    off: u64,
    nd: u32,
    mins: &[Option<u64>],
    maxs: &[Option<u64>],
    include_min: bool,
    include_max: bool,
) -> (r: Result<Vec<u64>, BkdError>)
    requires
        mins@.len() >= nd,
        maxs@.len() >= nd,
    ensures
        match r {
            Ok(v) => visit(b@, index_start as int, off as int, nd as int, mins@, maxs@, include_min, include_max)
                == Ok::<Seq<u64>, BkdError>(v@),
            Err(e) => visit(b@, index_start as int, off as int, nd as int, mins@, maxs@, include_min, include_max)
                == Err::<Seq<u64>, BkdError>(e),
        },
    decreases b@.len() - off,
{
    if off < index_start {
        return read_leaf(b, off, nd, mins, maxs, include_min, include_max);
    }
    let len = b.len();
    if off >= len as u64 || len - (off as usize) < 28 {
        return Err(BkdError::Truncated);
    }
    let o = off as usize;
    let dim = read_u32(b, o) as usize;
    let split = key_from_bits(read_u64(b, o + 4));
    let left = read_u64(b, o + 12);
    let right = read_u64(b, o + 20);
    if dim >= mins.len() || dim >= maxs.len() {
        return Err(BkdError::Corrupt);
    }
    let go_left = match mins[dim] {
        None => true,
        Some(m) => if include_min {
            m <= split
        } else {
            m < split
        },
    };
    let mut found: Vec<u64> = if go_left {
        match visit_child_node(b, index_start, off, left, nd, mins, maxs, include_min, include_max) {
            Err(e) => {
                return Err(e);
            },
            Ok(v) => v,
        }
    } else {
        Vec::new()
    };
    let go_right = match maxs[dim] {
        None => true,
        Some(m) => if include_max {
            m >= split
        } else {
            m > split
        },
    };
    if go_right {
        match visit_child_node(b, index_start, off, right, nd, mins, maxs, include_min, include_max) {
            Err(e) => {
                return Err(e);
            },
            Ok(mut v) => {
                found.append(&mut v);
            },
        }
    }
    Ok(found)
}

/// Searches from the child at `child` of the node at `off`.
fn visit_child_node(
    b: &[u8],
    index_start: u64,
    off: u64,
    child: u64,
    nd: u32,
    mins: &[Option<u64>],
    maxs: &[Option<u64>],
    include_min: bool,
    include_max: bool,
) -> (r: Result<Vec<u64>, BkdError>)
    requires
        mins@.len() >= nd,
        maxs@.len() >= nd,
        off + 28 <= b@.len(),
    ensures
        match r {
            Ok(v) => visit_child(b@, index_start as int, off as int, child as int, nd as int, mins@, maxs@, include_min, include_max)
                == Ok::<Seq<u64>, BkdError>(v@),
            Err(e) => visit_child(b@, index_start as int, off as int, child as int, nd as int, mins@, maxs@, include_min, include_max)
                == Err::<Seq<u64>, BkdError>(e),
        },
    decreases b@.len() - off, 0int,
{
    if child < index_start {
        return read_leaf(b, child, nd, mins, maxs, include_min, include_max);
    }
    if child <= off {
        return Err(BkdError::Corrupt);
    }
    let len = b.len();
    if child >= len as u64 || len - (child as usize) < 28 {
        return Err(BkdError::Truncated);
    }
    visit_node(b, index_start, child, nd, mins, maxs, include_min, include_max)
}

/// Reads BKD tree files: the header, and range searches over the file.
#[derive(Debug)]
pub struct BKDReader {
    header: BKDFileHeader,
    data: Vec<u8>,
}

impl BKDReader {
    /// The file's header.
    pub closed spec fn spec_header(&self) -> BKDFileHeader {
        self.header
    }

    /// The file's bytes.
    pub closed spec fn spec_data(&self) -> Seq<u8> {
        self.data@
    }

    /// A reader of the BKD tree file `bytes`. Fails where the file does not
    /// start with the magic number, or ends inside its header.
    pub fn open(bytes: Vec<u8>) -> (r: Result<Self, BkdError>)
        ensures
            bytes@.len() < 4 ==> (r matches Err(BkdError::Truncated)),
            bytes@.len() >= 4 && u32_at(bytes@, 0) != BKD_MAGIC ==> (r matches Err(
                BkdError::BadMagic,
            )),
            bytes@.len() >= 4 && u32_at(bytes@, 0) == BKD_MAGIC && (bytes@.len() < 12
                || bytes@.len() < header_size(u32_at(bytes@, 8) as int)) ==> (r matches Err(
                BkdError::Truncated,
            )),
            bytes@.len() >= 12 && u32_at(bytes@, 0) == BKD_MAGIC && bytes@.len() >= header_size(
                u32_at(bytes@, 8) as int,
            ) ==> r is Ok,
            r matches Ok(reader) ==> reader.spec_data() == bytes@ && header_of(
                bytes@,
                reader.spec_header(),
            ),
    {
        let len = bytes.len();
        if len < 4 {
            return Err(BkdError::Truncated);
        }
        let b = bytes.as_slice();
        let magic = read_u32(b, 0);
        if magic != BKD_MAGIC {
            return Err(BkdError::BadMagic);
        }
        if len < 12 {
            return Err(BkdError::Truncated);
        }
        let num_dims = read_u32(b, 8);
        let hsize: u64 = 48 + 16 * (num_dims as u64);
        if (len as u64) < hsize {
            return Err(BkdError::Truncated);
        }
        let version = read_u32(b, 4);
        let bytes_per_dim = read_u32(b, 12);
        let total_point_count = read_u64(b, 16);
        let num_blocks = read_u64(b, 24);
        let nd = num_dims as usize;
        let mut min_values: Vec<u64> = Vec::new();
        let mut i: usize = 0;
        while i < nd
            invariant
                i <= nd,
                nd == num_dims,
                48 + 16 * nd <= b@.len(),
                len == b@.len(),
                min_values@.len() == i,
                forall|k: int| 0 <= k < i ==> #[trigger] min_values@[k] == key_at(b@, 32 + 8 * k),
            decreases nd - i,
        {
            min_values.push(key_from_bits(read_u64(b, 32 + 8 * i)));
            i = i + 1;
        }
        let mut max_values: Vec<u64> = Vec::new();
        let mut i: usize = 0;
        while i < nd
            invariant
                i <= nd,
                nd == num_dims,
                48 + 16 * nd <= b@.len(),
                len == b@.len(),
                max_values@.len() == i,
                forall|k: int|
                    0 <= k < i ==> #[trigger] max_values@[k] == key_at(b@, 32 + 8 * nd + 8 * k),
            decreases nd - i,
        {
            max_values.push(key_from_bits(read_u64(b, 32 + 8 * nd + 8 * i)));
            i = i + 1;
        }
        let index_start_offset = read_u64(b, 32 + 16 * nd);
        let root_node_offset = read_u64(b, 40 + 16 * nd);
        let header = BKDFileHeader {
            magic,
            version,
            num_dims,
            bytes_per_dim,
            total_point_count,
            num_blocks,
            min_values,
            max_values,
            index_start_offset,
            root_node_offset,
        };
        Ok(BKDReader { header, data: bytes })
    }

    /// The file's header.
    pub fn header(&self) -> (h: &BKDFileHeader)
        ensures
            *h == self.spec_header(),
    {
        &self.header
    }

    /// The ids of the documents with a point within the bounds in each
    /// dimension, ascending and each once: nothing for a tree without
    /// points, else what the search from the root finds. Fails where the
    /// file is cut short or a node is malformed.
    pub fn range_search(
        &self,
        mins: &[Option<u64>],
        maxs: &[Option<u64>],
        include_min: bool,
        include_max: bool,
    ) -> (r: Result<Vec<u64>, BkdError>)
        requires
            mins@.len() >= self.spec_header().num_dims,
            maxs@.len() >= self.spec_header().num_dims,
        ensures
            match file_search(self.spec_data(), self.spec_header(), mins@, maxs@, include_min, include_max) {
                Ok(ids) => (r matches Ok(v) && strictly_ascending(v@) && forall|x: u64|
                    v@.contains(x) <==> ids.contains(x)),
                Err(e) => r == Err::<Vec<u64>, BkdError>(e),
            },
    {
        if self.header.total_point_count == 0 {
            return Ok(Vec::new());
        }
        let found = visit_node(
            self.data.as_slice(),
            self.header.index_start_offset,
            self.header.root_node_offset,
            self.header.num_dims,
            mins,
            maxs,
            include_min,
            include_max,
        );
        let found = match found {
            Err(e) => {
                return Err(e);
            },
            Ok(v) => v,
        };
        let mut r: Vec<u64> = Vec::new();
        let mut i: usize = 0;
        while i < found.len()
            invariant
                i <= found@.len(),
                strictly_ascending(r@),
                forall|x: u64| r@.contains(x) <==> found@.take(i as int).contains(x),
            decreases found.len() - i,
        {
            let ghost old_r = r@;
            insert_sorted_unique(&mut r, found[i]);
            proof {
                assert(found@.take(i + 1) =~= found@.take(i as int).push(found@[i as int]));
                assert forall|x: u64| found@.take(i + 1).contains(x) <==> (found@.take(
                    i as int,
                ).contains(x) || x == found@[i as int]) by {
                    vstd::seq_lib::lemma_seq_contains_after_push(
                        found@.take(i as int),
                        found@[i as int],
                        x,
                    );
                }
                assert forall|x: u64| r@.contains(x) <==> found@.take(i + 1).contains(x) by {
                    assert(r@.contains(x) <==> (old_r.contains(x) || x == found@[i as int]));
                    assert(old_r.contains(x) <==> found@.take(i as int).contains(x));
                }
            }
            i = i + 1;
        }
        assert(found@.take(found@.len() as int) =~= found@);
        Ok(r)
    }
}

} // verus!
