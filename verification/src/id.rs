//! Shard-prefixed stable document identifiers.
//!
//! Bits 48-63 hold the shard ID (16 bits), bits 0-47 the local ID (48 bits).

use vstd::prelude::*;

verus! {

/// Number of bits that hold the shard ID.
pub const SHARD_ID_BITS: u32 = 16;

/// Number of bits that hold the local ID.
pub const LOCAL_ID_BITS: u32 = 48;

/// Mask that selects the local ID bits.
pub const LOCAL_ID_MASK: u64 = 0xFFFF_FFFF_FFFFu64;

/// Largest local ID that fits in a document ID.
pub const MAX_LOCAL_ID: u64 = 0xFFFF_FFFF_FFFFu64;

/// 2^48: the number of distinct local IDs.
pub open spec fn local_id_space() -> int {
    0x1_0000_0000_0000int
}

/// The document ID whose shard part is `shard_id` and whose local part is
/// `local_id` reduced to its low 48 bits.
pub open spec fn spec_doc_id(shard_id: u16, local_id: u64) -> int {
    shard_id as int * local_id_space() + local_id as int % local_id_space()
}

/// Create a 64-bit ID from a shard ID and a local ID.
///
/// Bits of `local_id` above bit 47 are dropped.
pub fn create_doc_id(shard_id: u16, local_id: u64) -> (doc_id: u64)
    ensures
        doc_id == spec_doc_id(shard_id, local_id),
{
    let r = ((shard_id as u64) << 48u64) | (local_id & LOCAL_ID_MASK);
    assert(r == (shard_id as u64) * 0x1_0000_0000_0000u64 + local_id % 0x1_0000_0000_0000u64)
        by (bit_vector)
        requires
            r == ((shard_id as u64) << 48u64) | (local_id & 0xFFFF_FFFF_FFFFu64),
            shard_id <= 0xFFFFu64,
    ;
    r
}

/// Extract the shard ID from a 64-bit doc ID.
pub fn get_shard_id(doc_id: u64) -> (shard_id: u16)
    ensures
        shard_id == doc_id as int / local_id_space(),
{
    let s = doc_id >> 48u64;
    assert(s == doc_id / 0x1_0000_0000_0000u64 && s <= 0xFFFFu64) by (bit_vector)
        requires
            s == doc_id >> 48u64,
    ;
    s as u16
}

/// Extract the local ID from a 64-bit doc ID.
pub fn get_local_id(doc_id: u64) -> (local_id: u64)
    ensures
        local_id == doc_id as int % local_id_space(),
{
    let l = doc_id & LOCAL_ID_MASK;
    assert(l == doc_id % 0x1_0000_0000_0000u64) by (bit_vector)
        requires
            l == doc_id & 0xFFFF_FFFF_FFFFu64,
    ;
    l
}

/// Check if a doc ID belongs to a specific shard.
pub fn is_id_in_shard(doc_id: u64, shard_id: u16) -> (b: bool)
    ensures
        b == (doc_id as int / local_id_space() == shard_id as int),
{
    get_shard_id(doc_id) == shard_id
}

/// An ID built from a shard and a local ID gives that shard back, and the
/// local ID reduced to 48 bits; a local ID up to `MAX_LOCAL_ID` comes back
/// unchanged.
pub proof fn lemma_doc_id_roundtrip(shard_id: u16, local_id: u64)
    ensures
        spec_doc_id(shard_id, local_id) / local_id_space() == shard_id as int,
        spec_doc_id(shard_id, local_id) % local_id_space() == local_id as int % local_id_space(),
        local_id <= MAX_LOCAL_ID ==> spec_doc_id(shard_id, local_id) % local_id_space()
            == local_id,
{
    let q = shard_id as int;
    let r = local_id as int % local_id_space();
    vstd::arithmetic::div_mod::lemma_fundamental_div_mod_converse(
        q * local_id_space() + r,
        local_id_space(),
        q,
        r,
    );
}

/// Every doc ID is rebuilt exactly from its shard and local parts.
pub proof fn lemma_doc_id_split_rebuild(doc_id: u64)
    ensures
        doc_id as int / local_id_space() <= 0xFFFF,
        spec_doc_id((doc_id as int / local_id_space()) as u16, (doc_id as int % local_id_space()) as u64)
            == doc_id,
{
    vstd::arithmetic::div_mod::lemma_fundamental_div_mod(doc_id as int, local_id_space());
    assert(doc_id as int / local_id_space() <= 0xFFFF) by (nonlinear_arith)
        requires
            0 <= doc_id < 0x1_0000_0000_0000_0000int,
            local_id_space() == 0x1_0000_0000_0000int,
    ;
}

/// IDs created in different shards never collide, and an ID belongs to
/// exactly the shard it was created in.
pub proof fn lemma_shard_isolation(s1: u16, l1: u64, s2: u16, l2: u64)
    ensures
        s1 != s2 ==> spec_doc_id(s1, l1) != spec_doc_id(s2, l2),
        spec_doc_id(s1, l1) / local_id_space() == s2 <==> s1 == s2,
{
    lemma_doc_id_roundtrip(s1, l1);
    lemma_doc_id_roundtrip(s2, l2);
}

} // verus!
