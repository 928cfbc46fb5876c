use laurus::segment::{
    all_with_external_id, decode_segment, encode_segment, first_with_external_id, DocumentSegment,
    DocumentSegmentReader, DocumentSegmentWriter, SegmentError, UnifiedDocumentStore,
};

fn docs(items: &[(u64, &str)]) -> Vec<(u64, Vec<u8>)> {
    items.iter().map(|(id, s)| (*id, s.as_bytes().to_vec())).collect()
}

#[test]
fn segment_file_names_are_zero_padded() {
    let seg = DocumentSegment { id: 7, start_doc_id: 1, end_doc_id: 5, doc_count: 5 };
    assert_eq!(seg.file_name(), "doc_segment_000007.docs");
    let seg = DocumentSegment { id: 0, start_doc_id: 1, end_doc_id: 1, doc_count: 1 };
    assert_eq!(seg.file_name(), "doc_segment_000000.docs");
    let seg = DocumentSegment { id: 1234567, start_doc_id: 1, end_doc_id: 1, doc_count: 1 };
    assert_eq!(seg.file_name(), "doc_segment_1234567.docs");
    let seg = DocumentSegment { id: u32::MAX, start_doc_id: 1, end_doc_id: 1, doc_count: 1 };
    assert_eq!(seg.file_name(), "doc_segment_4294967295.docs");
}

#[test]
fn segment_contains_its_id_range() {
    let seg = DocumentSegment { id: 1, start_doc_id: 10, end_doc_id: 20, doc_count: 3 };
    assert!(seg.contains(10));
    assert!(seg.contains(15));
    assert!(seg.contains(20));
    assert!(!seg.contains(9));
    assert!(!seg.contains(21));
}

#[test]
fn writing_sorts_documents_and_covers_their_ids() {
    let writer = DocumentSegmentWriter::new();
    let batch = docs(&[(30, "c"), (10, "a"), (20, "bb")]);
    let (seg, bytes) = writer.write_segment(4, &batch).unwrap();
    assert_eq!(seg, DocumentSegment { id: 4, start_doc_id: 10, end_doc_id: 30, doc_count: 3 });
    let mut expected = vec![3u8, 0, 0, 0];
    for (id, payload) in [(10u64, "a"), (20, "bb"), (30, "c")] {
        expected.extend_from_slice(&id.to_le_bytes());
        expected.extend_from_slice(&(payload.len() as u64).to_le_bytes());
        expected.extend_from_slice(payload.as_bytes());
    }
    assert_eq!(bytes, expected);
    assert_eq!(decode_segment(&bytes).unwrap(), docs(&[(10, "a"), (20, "bb"), (30, "c")]));
}

#[test]
fn empty_batches_are_refused() {
    let writer = DocumentSegmentWriter::new();
    assert_eq!(writer.write_segment(0, &Vec::new()), Err(SegmentError::EmptySegment));
}

#[test]
fn reading_back_a_written_segment() {
    let writer = DocumentSegmentWriter::new();
    let batch = docs(&[(5, "five"), (3, "three"), (9, "")]);
    let (seg, bytes) = writer.write_segment(2, &batch).unwrap();
    let reader = DocumentSegmentReader::new(seg);
    assert_eq!(reader.segment(), seg);
    assert_eq!(reader.get_document(&bytes, 3), Ok(Some(b"three".to_vec())));
    assert_eq!(reader.get_document(&bytes, 5), Ok(Some(b"five".to_vec())));
    assert_eq!(reader.get_document(&bytes, 9), Ok(Some(Vec::new())));
    assert_eq!(reader.get_document(&bytes, 4), Ok(None));
    assert_eq!(reader.get_document(&bytes, 100), Ok(None));
    assert_eq!(reader.read_all(&bytes).unwrap().len(), 3);
}

#[test]
fn truncated_files_are_reported() {
    let writer = DocumentSegmentWriter::new();
    let (seg, bytes) = writer.write_segment(0, &docs(&[(1, "x"), (2, "yy")])).unwrap();
    let reader = DocumentSegmentReader::new(seg);
    let cut = &bytes[..bytes.len() - 1];
    assert_eq!(decode_segment(cut), Err(SegmentError::Truncated));
    assert_eq!(reader.get_document(cut, 1), Ok(Some(b"x".to_vec())));
    assert_eq!(reader.get_document(cut, 2), Err(SegmentError::Truncated));
    assert_eq!(decode_segment(&[1, 0]), Err(SegmentError::Truncated));
    let mut longer = bytes.clone();
    longer.push(0xFF);
    assert_eq!(decode_segment(&longer).unwrap().len(), 2);
}

#[test]
fn encode_then_decode_gives_the_records_back() {
    let records = docs(&[(9, "z"), (1, "a"), (9, "again")]);
    let bytes = encode_segment(&records);
    assert_eq!(decode_segment(&bytes).unwrap(), records);
}

#[test]
fn store_hands_out_ids_and_flushes_pending_documents() {
    let mut store = UnifiedDocumentStore::new();
    assert_eq!(store.next_doc_id(), 1);
    assert_eq!(store.add_document(b"one".to_vec()), 1);
    assert_eq!(store.add_document(b"two".to_vec()), 2);
    store.put_document_with_id(10, b"ten".to_vec());
    assert_eq!(store.next_doc_id(), 11);
    store.put_document_with_id(5, b"five".to_vec());
    assert_eq!(store.next_doc_id(), 11);
    assert_eq!(store.pending_document(2), Some(b"two".to_vec()));
    store.put_document_with_id(2, b"TWO".to_vec());
    assert_eq!(store.pending_document(2), Some(b"TWO".to_vec()));
    assert_eq!(store.pending_documents().len(), 4);

    let (seg, bytes) = store.flush_pending().unwrap().unwrap();
    assert_eq!(seg, DocumentSegment { id: 0, start_doc_id: 1, end_doc_id: 10, doc_count: 4 });
    assert_eq!(store.next_segment_id(), 1);
    assert_eq!(store.segments(), &[seg]);
    assert_eq!(store.pending_document(2), None);
    assert_eq!(store.flush_pending(), Ok(None));
    let reader = DocumentSegmentReader::new(seg);
    assert_eq!(reader.get_document(&bytes, 2), Ok(Some(b"TWO".to_vec())));
    assert_eq!(store.segments_containing(5), vec![seg]);
    assert_eq!(store.segments_containing(11), vec![]);
    assert_eq!(store.segment_by_id(0), Some(seg));
    assert_eq!(store.segment_by_id(1), None);
}

#[test]
fn store_from_manifest_continues_after_the_last_id() {
    let segs = vec![
        DocumentSegment { id: 0, start_doc_id: 1, end_doc_id: 40, doc_count: 40 },
        DocumentSegment { id: 1, start_doc_id: 41, end_doc_id: 50, doc_count: 10 },
    ];
    let mut store = UnifiedDocumentStore::from_manifest(segs.clone(), 2);
    assert_eq!(store.next_doc_id(), 51);
    assert_eq!(store.next_segment_id(), 2);
    assert_eq!(store.segments_containing(45), vec![segs[1]]);
    let (seg, _) = store.add_segment(&docs(&[(51, "x")])).unwrap();
    assert_eq!(seg.id, 2);
    assert_eq!(store.segments_containing(45), vec![segs[1]]);
    assert_eq!(UnifiedDocumentStore::from_manifest(Vec::new(), 0).next_doc_id(), 1);
    assert_eq!(store.add_segment(&Vec::new()), Err(SegmentError::EmptySegment));
    assert_eq!(store.next_segment_id(), 3);
}

#[test]
fn external_id_lookups() {
    let entries = vec![
        (1u64, Some("a".to_string())),
        (2, None),
        (3, Some("b".to_string())),
        (4, Some("a".to_string())),
    ];
    assert_eq!(first_with_external_id(&entries, "a"), Some(1));
    assert_eq!(first_with_external_id(&entries, "b"), Some(3));
    assert_eq!(first_with_external_id(&entries, "c"), None);
    assert_eq!(all_with_external_id(&entries, "a"), vec![1, 4]);
    assert_eq!(all_with_external_id(&entries, "c"), Vec::<u64>::new());
}

#[test]
fn reopening_a_flushed_store_keeps_its_counters() {
    let mut store = UnifiedDocumentStore::new();
    store.add_document(b"a".to_vec());
    store.put_document_with_id(7, b"b".to_vec());
    store.add_document(b"c".to_vec());
    store.flush_pending().unwrap();
    let reopened = UnifiedDocumentStore::from_manifest(store.segments().to_vec(), store.next_segment_id());
    assert_eq!(reopened.next_doc_id(), store.next_doc_id());
    assert_eq!(reopened.next_doc_id(), 9);
    assert_eq!(reopened.segments(), store.segments());
    assert!(reopened.pending_documents().is_empty());
    let mut reopened = reopened;
    let id = reopened.add_document(b"d".to_vec());
    assert_eq!(id, 9);
    assert!(reopened.segments_containing(id).is_empty());
}
