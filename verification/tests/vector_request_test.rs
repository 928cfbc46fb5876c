use laurus::vector_request::{
    apply_field_selectors, default_getting_ef_construction, default_getting_m,
    default_getting_n_clusters, default_getting_n_probe, default_operator_or, default_query_limit,
    default_rrf_k, query_vectors_for_field, resolve_fields, FieldSelectionError, FieldSelector,
    MatchOperator, MetadataFilter, VectorFilter, VectorIndexKind, VectorScoreMode,
};

fn names(v: &[&str]) -> Vec<String> {
    v.iter().map(|s| s.to_string()).collect()
}

#[test]
fn defaults_have_their_documented_values() {
    assert_eq!(default_getting_m(), 16);
    assert_eq!(default_getting_ef_construction(), 200);
    assert_eq!(default_getting_n_clusters(), 100);
    assert_eq!(default_getting_n_probe(), 1);
    assert_eq!(default_query_limit(), 10);
    assert_eq!(default_rrf_k(), 60);
    assert_eq!(default_operator_or(), MatchOperator::Or);
    assert_eq!(VectorScoreMode::default(), VectorScoreMode::WeightedSum);
    assert_ne!(VectorIndexKind::Flat, VectorIndexKind::Hnsw);
}

#[test]
fn selectors_pick_registered_fields_once() {
    let registered = names(&["body_en", "body_ja", "title"]);
    let sel = vec![
        FieldSelector::Exact("title".to_string()),
        FieldSelector::Prefix("body".to_string()),
        FieldSelector::Exact("body_ja".to_string()),
    ];
    assert_eq!(apply_field_selectors(&registered, &sel).unwrap(), names(&["title", "body_en", "body_ja"]));
    let missing = vec![FieldSelector::Prefix("x".to_string()), FieldSelector::Exact("nope".to_string())];
    match apply_field_selectors(&registered, &missing) {
        Err(FieldSelectionError::FieldNotRegistered(name)) => assert_eq!(name, "nope"),
        Ok(v) => panic!("unexpected fields {v:?}"),
    }
    assert_eq!(apply_field_selectors(&registered, &vec![]).unwrap(), Vec::<String>::new());
}

#[test]
fn resolve_falls_back_to_default_fields() {
    let registered = names(&["a", "b"]);
    let defaults = names(&["b"]);
    assert_eq!(resolve_fields(&registered, &defaults, &None).unwrap(), names(&["b"]));
    let sel = Some(vec![FieldSelector::Exact("a".to_string())]);
    assert_eq!(resolve_fields(&registered, &defaults, &sel).unwrap(), names(&["a"]));
}

#[test]
fn query_vectors_apply_to_listed_fields() {
    let restrictions = vec![None, Some(names(&["title"])), Some(names(&["body", "title"])), Some(vec![])];
    assert_eq!(query_vectors_for_field(&restrictions, "body"), vec![0, 2]);
    assert_eq!(query_vectors_for_field(&restrictions, "title"), vec![0, 1, 2]);
    assert_eq!(query_vectors_for_field(&vec![], "title"), Vec::<usize>::new());
}

#[test]
fn metadata_filters_need_every_pair() {
    let f = MetadataFilter { equals: vec![("a".to_string(), "1".to_string()), ("b".to_string(), "2".to_string())] };
    let md = vec![("b".to_string(), "2".to_string()), ("a".to_string(), "1".to_string()), ("c".to_string(), "3".to_string())];
    assert!(f.matches(&md));
    assert!(!f.matches(&md[..1].to_vec()));
    assert!(!f.is_empty());
    assert!(MetadataFilter::new().is_empty());
    assert!(MetadataFilter::new().matches(&vec![]));
    assert!(VectorFilter::new().is_empty());
    let vf = VectorFilter { document: MetadataFilter::new(), field: f };
    assert!(!vf.is_empty());
}

use laurus::vector_field::{field_storage_prefix, validate_document_fields, FieldCheckError, VectorFieldStats};

#[test]
fn storage_prefixes_are_sanitized() {
    assert_eq!(field_storage_prefix("body"), "vector_fields/body");
    assert_eq!(field_storage_prefix("a.b c/é-_9"), "vector_fields/a_b_c__-_9");
    assert_eq!(field_storage_prefix(""), "vector_fields/field");
}

#[test]
fn document_fields_must_be_registered() {
    let registered = names(&["body", "title"]);
    assert!(validate_document_fields(&registered, &names(&["title", "body"])).is_ok());
    assert!(validate_document_fields(&registered, &vec![]).is_ok());
    match validate_document_fields(&registered, &names(&["body", "image", "audio"])) {
        Err(FieldCheckError::NotRegistered(n)) => assert_eq!(n, "image"),
        Ok(()) => panic!("an unregistered field passed"),
    }
    assert_eq!(VectorFieldStats::default(), VectorFieldStats { vector_count: 0, dimension: 0 });
}
