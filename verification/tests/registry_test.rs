use laurus::registry::{DocumentEntry, DocumentVectorRegistry, FieldEntry, RegistryError};
use laurus::vector_request::{MetadataFilter, VectorFilter};

fn md(pairs: &[(&str, &str)]) -> Vec<(String, String)> {
    pairs.iter().map(|(k, v)| (k.to_string(), v.to_string())).collect()
}

fn field(name: &str, meta: &[(&str, &str)]) -> FieldEntry {
    FieldEntry {
        field_name: name.to_string(),
        version: 0,
        vector_count: 1,
        weight_bits: 1.0f32.to_bits(),
        metadata: md(meta),
    }
}

#[test]
fn upsert_assigns_increasing_versions() {
    let mut reg = DocumentVectorRegistry::new();
    let v1 = reg.upsert(1, &vec![field("body", &[])], md(&[("_id", "doc-a")]));
    let v2 = reg.upsert(2, &vec![field("body", &[]), field("title", &[])], md(&[]));
    assert_eq!(v1, 1);
    assert_eq!(v2, 2);
    assert_eq!(reg.document_count(), 2);
    assert!(reg.contains(1));
    assert!(!reg.contains(3));
    let e = reg.get(2).unwrap();
    assert_eq!(e.doc_id, 2);
    assert_eq!(e.version, 2);
    assert_eq!(e.fields.len(), 2);
    assert!(e.fields.iter().all(|f| f.version == 2));
    assert_eq!(reg.get_doc_id_by_external_id("doc-a"), Some(1));
    assert_eq!(reg.get_doc_id_by_external_id("doc-b"), None);

    let v3 = reg.upsert(1, &vec![field("body", &[("lang", "en")]), field("body", &[("lang", "ja")])], md(&[("_id", "doc-b")]));
    assert_eq!(v3, 3);
    assert_eq!(reg.document_count(), 2);
    let e = reg.get(1).unwrap();
    assert_eq!(e.version, 3);
    assert_eq!(e.fields.len(), 1);
    assert_eq!(e.fields[0].metadata, md(&[("lang", "ja")]));
    assert_eq!(reg.get_doc_id_by_external_id("doc-b"), Some(1));
    assert_eq!(reg.get_doc_id_by_external_id("doc-a"), Some(1));
}

#[test]
fn delete_removes_the_document_and_its_external_id() {
    let mut reg = DocumentVectorRegistry::new();
    reg.upsert(7, &vec![field("body", &[])], md(&[("_id", "x")]));
    assert_eq!(reg.delete(8), Err(RegistryError::NotFound(8)));
    assert_eq!(reg.delete(7), Ok(()));
    assert!(!reg.contains(7));
    assert_eq!(reg.get_doc_id_by_external_id("x"), None);
    assert_eq!(reg.delete(7), Err(RegistryError::NotFound(7)));
    assert_eq!(reg.document_count(), 0);
}

#[test]
fn filter_existing_keeps_registered_ids() {
    let mut reg = DocumentVectorRegistry::new();
    reg.upsert(1, &vec![], md(&[]));
    reg.upsert(3, &vec![], md(&[]));
    let found = reg.filter_existing(&[1, 2, 3, 3, 4]);
    let mut v: Vec<u64> = found.into_iter().collect();
    v.sort();
    assert_eq!(v, vec![1, 3]);
}

#[test]
fn snapshot_entries_restore_the_documents() {
    let mut reg = DocumentVectorRegistry::new();
    reg.upsert(1, &vec![field("body", &[])], md(&[("_id", "a")]));
    reg.upsert(2, &vec![field("img", &[])], md(&[("_id", "b"), ("kind", "photo")]));
    reg.upsert(1, &vec![field("body", &[])], md(&[("_id", "a")]));
    let snap = reg.snapshot_entries();
    let restored = DocumentVectorRegistry::from_entries(snap);
    assert_eq!(restored.document_count(), 2);
    assert_eq!(restored.get(1).unwrap().version, 3);
    assert_eq!(restored.get(2).unwrap().metadata, md(&[("_id", "b"), ("kind", "photo")]));
    assert_eq!(restored.get_doc_id_by_external_id("b"), Some(2));
    let mut reg2 = restored;
    assert_eq!(reg2.upsert(9, &vec![], md(&[])), 4);
}

#[test]
fn from_entries_takes_the_highest_version() {
    let entries = vec![
        DocumentEntry { doc_id: 4, version: 9, metadata: md(&[]), fields: vec![] },
        DocumentEntry { doc_id: 5, version: 2, metadata: md(&[("_id", "e")]), fields: vec![] },
    ];
    let mut reg = DocumentVectorRegistry::from_entries(entries);
    assert_eq!(reg.get_doc_id_by_external_id("e"), Some(5));
    assert_eq!(reg.upsert(6, &vec![], md(&[])), 10);
    let empty = DocumentVectorRegistry::from_entries(Vec::new());
    assert_eq!(empty.document_count(), 0);
}

#[test]
fn filter_matches_by_document_and_field_metadata() {
    let mut reg = DocumentVectorRegistry::new();
    reg.upsert(1, &vec![field("body", &[("lang", "en")]), field("title", &[("lang", "ja")])], md(&[("cat", "news")]));
    reg.upsert(2, &vec![field("body", &[("lang", "ja")])], md(&[("cat", "blog")]));
    reg.upsert(3, &vec![field("image", &[])], md(&[("cat", "news")]));
    let targets = vec!["body".to_string(), "title".to_string(), "body".to_string()];

    let mut all = reg.filter_matches(&VectorFilter::new(), &targets);
    all.sort();
    assert_eq!(
        all,
        vec![(1, vec!["body".to_string(), "title".to_string()]), (2, vec!["body".to_string()])]
    );

    let news = VectorFilter { document: MetadataFilter { equals: md(&[("cat", "news")]) }, field: MetadataFilter::new() };
    assert_eq!(reg.filter_matches(&news, &targets), vec![(1, vec!["body".to_string(), "title".to_string()])]);

    let ja = VectorFilter { document: MetadataFilter::new(), field: MetadataFilter { equals: md(&[("lang", "ja")]) } };
    let mut r = reg.filter_matches(&ja, &targets);
    r.sort();
    assert_eq!(r, vec![(1, vec!["title".to_string()]), (2, vec!["body".to_string()])]);
}
