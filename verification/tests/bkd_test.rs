use laurus::bkd::SimpleBKDTree;

/// The order key of a number: keys compare as the numbers do.
fn key(v: f64) -> u64 {
    let b = if v == 0.0 { 0.0f64.to_bits() } else { v.to_bits() };
    if b >> 63 == 1 {
        !b
    } else {
        b | (1u64 << 63)
    }
}

fn point(vals: &[f64]) -> Vec<u64> {
    vals.iter().map(|v| key(*v)).collect()
}

fn create_test_tree() -> SimpleBKDTree {
    let entries = vec![
        (point(&[1.0]), 10), // doc 10, value 1.0
        (point(&[3.0]), 20), // doc 20, value 3.0
        (point(&[2.0]), 30), // doc 30, value 2.0
        (point(&[5.0]), 40), // doc 40, value 5.0
        (point(&[4.0]), 50), // doc 50, value 4.0
        (point(&[1.5]), 60), // doc 60, value 1.5
    ];
    SimpleBKDTree::new("test_field".to_string(), 1, entries)
}

#[test]
fn test_bkd_tree_creation() {
    let tree = create_test_tree();

    assert_eq!(tree.size(), 6);
    assert_eq!(tree.field_name(), "test_field");
    assert!(!tree.is_empty());

    // Verify entries are sorted by value
    let expected_order = vec![
        (point(&[1.0]), 10),
        (point(&[1.5]), 60),
        (point(&[2.0]), 30),
        (point(&[3.0]), 20),
        (point(&[4.0]), 50),
        (point(&[5.0]), 40),
    ];
    assert_eq!(tree.entries(), &expected_order);
}

#[test]
fn equal_first_keys_keep_their_order() {
    let entries = vec![
        (point(&[2.0, 9.0]), 1),
        (point(&[1.0, 5.0]), 2),
        (point(&[2.0, 1.0]), 3),
        (point(&[1.0, 0.0]), 4),
        (point(&[2.0, 4.0]), 5),
    ];
    let tree = SimpleBKDTree::new("f".to_string(), 2, entries);
    let ids: Vec<u64> = tree.entries().iter().map(|e| e.1).collect();
    assert_eq!(ids, vec![2, 4, 1, 3, 5]);
}

#[test]
fn test_empty_tree() {
    let tree = SimpleBKDTree::empty("empty_field".to_string(), 1);

    assert_eq!(tree.size(), 0);
    assert!(tree.is_empty());
    assert_eq!(
        tree.range_search(&[Some(key(1.0))], &[Some(key(5.0))], true, true),
        Vec::<u64>::new()
    );
}

#[test]
fn test_range_search_exact_bounds() {
    let tree = create_test_tree();

    // Range [2.0, 4.0] should match docs 30, 20, 50
    let results = tree.range_search(&[Some(key(2.0))], &[Some(key(4.0))], true, true);
    let mut expected = vec![30, 20, 50]; // docs with values 2.0, 3.0, 4.0
    expected.sort();

    assert_eq!(results, expected);
}

#[test]
fn exclusive_and_open_bounds() {
    let tree = create_test_tree();
    assert_eq!(tree.range_search(&[Some(key(2.0))], &[Some(key(4.0))], false, false), vec![20]);
    assert_eq!(tree.range_search(&[None], &[Some(key(1.5))], true, true), vec![10, 60]);
    assert_eq!(tree.range_search(&[Some(key(4.0))], &[None], false, true), vec![40]);
    assert_eq!(tree.range_search(&[None], &[None], true, true), vec![10, 20, 30, 40, 50, 60]);
}

#[test]
fn duplicate_documents_are_reported_once() {
    let entries = vec![
        (point(&[1.0, 5.0]), 7),
        (point(&[2.0, 6.0]), 7),
        (point(&[-3.0, 9.0]), 2),
        (point(&[2.0, 1.0]), 4),
    ];
    let tree = SimpleBKDTree::new("f".to_string(), 2, entries);
    assert_eq!(tree.entries()[0].1, 2);
    assert_eq!(
        tree.range_search(&[Some(key(-5.0)), Some(key(5.0))], &[None, None], true, true),
        vec![2, 7]
    );
    assert_eq!(
        tree.range_search(&[Some(key(1.5)), None], &[Some(key(2.0)), Some(key(2.0))], true, true),
        vec![4]
    );
}

use laurus::bkd_file::{bits_from_key, key_from_bits, BKDReader, BkdError, BKD_MAGIC};
use laurus::bkd_writer::BKDWriter;

#[test]
fn test_bkd_writer_reader_2d() {
    let entries = vec![
        (point(&[10.0, 20.0]), 1),
        (point(&[15.0, 25.0]), 2),
        (point(&[20.0, 30.0]), 3),
    ];

    // Write
    let bytes = {
        let writer = BKDWriter::new(2);
        writer.write(&entries)
    };

    // Read
    {
        let reader = BKDReader::open(bytes).unwrap();
        assert_eq!(reader.header().num_dims, 2);

        // Search [10, 10] to [15, 25]
        let results = reader
            .range_search(
                &[Some(key(10.0)), Some(key(10.0))],
                &[Some(key(15.0)), Some(key(25.0))],
                true,
                true,
            )
            .unwrap();
        assert_eq!(results, vec![1, 2]);
    }
}

#[test]
fn written_trees_answer_like_a_scan() {
    let mut entries = Vec::new();
    for i in 0..200u64 {
        let x = ((i * 37) % 101) as f64 - 50.0;
        let y = ((i * 53) % 89) as f64 / 4.0;
        entries.push((point(&[x, y]), i % 150));
    }
    let bytes = BKDWriter::new(2).with_block_size(7).write(&entries);
    // 32 leaf blocks of 6 or 7 points, 31 nodes, 24 bytes per point.
    assert_eq!(bytes.len(), 80 + 32 * 4 + 31 * 28 + 200 * 24);
    let reader = BKDReader::open(bytes).unwrap();
    let header = reader.header();
    assert_eq!(header.magic, BKD_MAGIC);
    assert_eq!(header.total_point_count, 200);
    assert_eq!(header.num_blocks, 32);
    assert_eq!(header.min_values[0], key(-50.0));
    assert_eq!(header.max_values[0], key(50.0));
    let scan = SimpleBKDTree::new("f".to_string(), 2, entries.clone());
    let bounds = [
        (Some(-10.0), Some(10.0), Some(2.0), Some(15.0)),
        (None, Some(0.0), None, None),
        (Some(49.0), None, Some(0.0), Some(0.0)),
        (Some(100.0), None, None, None),
        (None, None, None, None),
    ];
    for (lo_x, hi_x, lo_y, hi_y) in bounds {
        let mins = [lo_x.map(key), lo_y.map(key)];
        let maxs = [hi_x.map(key), hi_y.map(key)];
        for (a, b) in [(true, true), (false, false), (true, false)] {
            assert_eq!(reader.range_search(&mins, &maxs, a, b).unwrap(), scan.range_search(&mins, &maxs, a, b));
        }
    }
}

#[test]
fn empty_and_damaged_files() {
    let bytes = BKDWriter::new(3).write(&Vec::new());
    assert_eq!(bytes.len(), 48 + 16 * 3);
    let reader = BKDReader::open(bytes.clone()).unwrap();
    assert_eq!(reader.header().total_point_count, 0);
    assert_eq!(reader.range_search(&[None, None, None], &[None, None, None], true, true), Ok(vec![]));

    let mut bad = bytes.clone();
    bad[0] ^= 1;
    assert!(matches!(BKDReader::open(bad), Err(BkdError::BadMagic)));
    assert!(matches!(BKDReader::open(bytes[..20].to_vec()), Err(BkdError::Truncated)));
    assert!(matches!(BKDReader::open(vec![1, 2]), Err(BkdError::Truncated)));

    let entries: Vec<(Vec<u64>, u64)> = (0..20u64).map(|i| (point(&[i as f64]), i)).collect();
    let full = BKDWriter::new(1).with_block_size(4).write(&entries);
    assert_eq!(full.len(), 64 + 8 * 4 + 7 * 28 + 20 * 16);
    let cut = full[..full.len() - 10].to_vec();
    let reader = BKDReader::open(cut).unwrap();
    assert_eq!(reader.range_search(&[None], &[None], true, true), Err(BkdError::Truncated));
}

#[test]
fn files_store_coordinates_as_double_bits() {
    let bytes = BKDWriter::new(1).write(&vec![(point(&[1.5]), 7), (point(&[-2.25]), 8)]);
    let at = |off: usize| u64::from_le_bytes(bytes[off..off + 8].try_into().unwrap());
    // header: the lowest and the highest coordinate
    assert_eq!(at(32), (-2.25f64).to_bits());
    assert_eq!(at(40), 1.5f64.to_bits());
    // the one leaf block after the 64-byte header: count, coordinates, ids
    assert_eq!(at(68), 1.5f64.to_bits());
    assert_eq!(at(76), (-2.25f64).to_bits());
    assert_eq!(at(84), 7);
    for v in [0.0f64, 1.0, -1.0, 3.5e300, -7.25e-300] {
        assert_eq!(key_from_bits(v.to_bits()), key(v));
        assert_eq!(bits_from_key(key(v)), v.to_bits());
    }
}
