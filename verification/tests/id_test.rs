use laurus::id::{create_doc_id, get_local_id, get_shard_id, is_id_in_shard, LOCAL_ID_MASK};

#[test]
fn test_id_roundtrip() {
    let shard_id = 42u16;
    let local_id = 12345u64;
    let doc_id = create_doc_id(shard_id, local_id);

    assert_eq!(get_shard_id(doc_id), shard_id);
    assert_eq!(get_local_id(doc_id), local_id);
}

#[test]
fn test_max_local_id() {
    let shard_id = 1u16;
    let local_id = LOCAL_ID_MASK;
    let doc_id = create_doc_id(shard_id, local_id);

    assert_eq!(get_shard_id(doc_id), shard_id);
    assert_eq!(get_local_id(doc_id), local_id);
}

#[test]
fn test_shard_isolation() {
    let id1 = create_doc_id(1, 100);
    let id2 = create_doc_id(2, 100);
    assert_ne!(id1, id2);
    assert!(is_id_in_shard(id1, 1));
    assert!(!is_id_in_shard(id1, 2));
}

#[test]
fn doc_id_layout_exact_values() {
    assert_eq!(create_doc_id(1, 0), 1u64 << 48);
    assert_eq!(create_doc_id(0xFFFF, 7), 0xFFFF_0000_0000_0007);
    // local bits above 48 are dropped
    assert_eq!(create_doc_id(3, (1u64 << 48) | 5), (3u64 << 48) | 5);
    assert_eq!(get_shard_id(u64::MAX), 0xFFFF);
    assert_eq!(get_local_id(u64::MAX), LOCAL_ID_MASK);
}

#[test]
fn doc_id_split_rebuilds_every_id() {
    for d in [0u64, 1, 0x1234_5678_9ABC_DEF0, u64::MAX, 1u64 << 48] {
        assert_eq!(create_doc_id(get_shard_id(d), get_local_id(d)), d);
    }
}
