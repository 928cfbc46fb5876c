use laurus::data::{DataValue, DeclaredField, Document, DocumentBuilder};
use laurus::field::{
    BlobOption, BooleanOption, DateTimeOption, FieldOption, FloatOption, GeoOption, IntegerOption, TextOption,
};

#[test]
fn data_values_give_their_contents() {
    assert_eq!(DataValue::Text("hi".to_string()).as_text(), Some("hi"));
    assert_eq!(DataValue::String("id-1".to_string()).as_text(), Some("id-1"));
    assert_eq!(DataValue::Int64(5).as_text(), None);
    assert_eq!(DataValue::Int64(-5).as_integer(), Some(-5));
    assert_eq!(DataValue::Float64(2.5f64.to_bits()).as_float().map(f64::from_bits), Some(2.5));
    assert_eq!(DataValue::Bool(true).as_boolean(), Some(true));
    assert_eq!(DataValue::Null.as_boolean(), None);
    assert_eq!(DataValue::DateTime(1_600_000_000_000_000).as_datetime(), Some(1_600_000_000_000_000));
    assert_eq!(DataValue::Vector(vec![1.0f32.to_bits()]).as_vector_ref(), Some(&vec![1.0f32.to_bits()]));
    assert_eq!(DataValue::Bytes(vec![1, 2], None).as_bytes_ref(), Some(&[1u8, 2][..]));
    assert_eq!(DataValue::Geo(1, 2).as_geo(), Some((1, 2)));
    assert_eq!(DataValue::List(vec!["a".to_string()]).as_text(), None);
}

#[test]
fn documents_hold_one_value_per_field() {
    let doc = Document::new_with_id("doc-1")
        .add_text("title", "Hello")
        .add_integer("year", 2024)
        .add_float("score", 0.5f64.to_bits())
        .add_boolean("draft", false)
        .add_datetime("at", 7)
        .add_vector("emb", vec![0.25f32.to_bits(), 0.5f32.to_bits()])
        .add_geo("loc", 1.0f64.to_bits(), 2.0f64.to_bits())
        .add_bytes("raw", vec![9, 9])
        .add_integer("year", 2025);
    assert_eq!(doc.id.as_deref(), Some("doc-1"));
    assert_eq!(doc.len(), 8);
    assert!(!doc.is_empty());
    assert!(doc.has_field("title"));
    assert!(!doc.has_field("missing"));
    assert_eq!(doc.get("year").and_then(|v| v.as_integer()), Some(2025));
    assert_eq!(doc.get_field("title").and_then(|v| v.as_text()), Some("Hello"));
    assert!(doc.get("missing").is_none());
    let mut names = doc.field_names();
    names.sort();
    assert_eq!(names, vec!["at", "draft", "emb", "loc", "raw", "score", "title", "year"]);
    let doc = doc.set_id("doc-2");
    assert_eq!(doc.id.as_deref(), Some("doc-2"));
    assert!(Document::new().is_empty());
    assert!(Document::default().id.is_none());
}

#[test]
fn builder_sets_fields() {
    let doc = DocumentBuilder::new()
        .add_text("description", "User profile 1", TextOption::default())
        .add_integer("age", 30, IntegerOption { indexed: true, stored: true })
        .add_float("score", 95.5f64.to_bits(), FloatOption { indexed: true, stored: true })
        .add_boolean("active", true, BooleanOption::default())
        .add_datetime("created_at", 1_600_000_000_000_000, DateTimeOption::default())
        .add_geo("loc", 0, 0, GeoOption::default())
        .add_blob("avatar", "image/png", vec![1, 2, 3], BlobOption::default())
        .build();
    assert_eq!(doc.len(), 7);
    assert_eq!(doc.get("age").and_then(|v| v.as_integer()), Some(30));
    match doc.get("avatar") {
        Some(DataValue::Bytes(data, Some(mime))) => {
            assert_eq!(data, &vec![1, 2, 3]);
            assert_eq!(mime, "image/png");
        }
        other => panic!("unexpected {other:?}"),
    }
    assert!(DocumentBuilder::default().build().is_empty());
}

#[test]
fn schema_keeps_stored_and_declared_fields_on_read() {
    let text = |indexed: bool, stored: bool| {
        DeclaredField::Lexical(FieldOption::Text(TextOption { indexed, stored, term_vectors: false }))
    };
    let schema = vec![
        ("indexed_and_stored".to_string(), text(true, true)),
        ("indexed_only".to_string(), text(true, false)),
        ("stored_only".to_string(), text(false, true)),
        ("embedding".to_string(), DeclaredField::Vector),
    ];
    let doc = Document::new_with_id("test1")
        .add_text("indexed_and_stored", "value1")
        .add_text("indexed_only", "value2")
        .add_text("stored_only", "value3")
        .add_text("unknown_field", "should be ignored")
        .add_text("_id", "test1")
        .add_vector("embedding", vec![1.0f32.to_bits()]);
    let read = doc.retained_by_schema(&schema);
    assert_eq!(read.id.as_deref(), Some("test1"));
    assert_eq!(read.get("indexed_and_stored").and_then(|v| v.as_text()), Some("value1"));
    assert_eq!(read.get("stored_only").and_then(|v| v.as_text()), Some("value3"));
    assert!(read.get("indexed_only").is_none());
    assert!(read.get("unknown_field").is_none());
    assert_eq!(read.get("_id").and_then(|v| v.as_text()), Some("test1"));
    assert!(read.get("embedding").is_some());
    assert_eq!(read.len(), 4);
}
