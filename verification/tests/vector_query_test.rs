use laurus::vector_query::{QueryClause, VectorQueryError, VectorQueryParser};

fn weight(c: &QueryClause) -> f32 {
    c.weight
        .as_ref()
        .map(|w| w.parse::<f32>().expect("weight literal"))
        .unwrap_or(1.0)
}

#[test]
fn test_basic_query() {
    let parser = VectorQueryParser::new();
    let clauses = parser.parse(r#"content:~"cute kitten""#).unwrap();

    assert_eq!(clauses.len(), 1);
    let payload = &clauses[0];
    assert_eq!(payload.field, "content");
    assert_eq!(weight(payload), 1.0);
    assert_eq!(payload.text, "cute kitten");
}

#[test]
fn test_boost() {
    let parser = VectorQueryParser::new();
    let clauses = parser.parse(r#"content:~"text"^0.8"#).unwrap();

    assert_eq!(clauses.len(), 1);
    let payload = &clauses[0];
    assert_eq!(payload.field, "content");
    assert!((weight(payload) - 0.8).abs() < f32::EPSILON);
}

#[test]
fn test_default_field() {
    let parser = VectorQueryParser::new().with_default_field("embedding");
    let clauses = parser.parse(r#"~"cute kitten""#).unwrap();

    assert_eq!(clauses.len(), 1);
    assert_eq!(clauses[0].field, "embedding");
}

#[test]
fn test_multiple_clauses() {
    let parser = VectorQueryParser::new();
    let clauses = parser.parse(r#"content:~"cats" image:~"dogs"^0.5"#).unwrap();

    assert_eq!(clauses.len(), 2);

    assert_eq!(clauses[0].field, "content");
    assert_eq!(weight(&clauses[0]), 1.0);

    assert_eq!(clauses[1].field, "image");
    assert!((weight(&clauses[1]) - 0.5).abs() < f32::EPSILON);
}

#[test]
fn test_empty_query_error() {
    let parser = VectorQueryParser::new();
    assert!(parser.parse("").is_err());
}

#[test]
fn test_missing_tilde_error() {
    let parser = VectorQueryParser::new();
    // content:"text" without ~ should fail
    assert!(parser.parse(r#"content:"text""#).is_err());
}

#[test]
fn test_no_field_no_default_error() {
    let parser = VectorQueryParser::new(); // no default field
    assert!(parser.parse(r#"~"text""#).is_err());
}

#[test]
fn test_unicode_text() {
    let parser = VectorQueryParser::new();
    let clauses = parser.parse(r#"content:~"日本語テスト""#).unwrap();

    assert_eq!(clauses.len(), 1);
    assert_eq!(clauses[0].text, "日本語テスト");
}

#[test]
fn test_integer_boost() {
    let parser = VectorQueryParser::new();
    let clauses = parser.parse(r#"content:~"text"^2"#).unwrap();

    assert!((weight(&clauses[0]) - 2.0).abs() < f32::EPSILON);
}

#[test]
fn test_field_with_underscore() {
    let parser = VectorQueryParser::new();
    let clauses = parser.parse(r#"my_field:~"text""#).unwrap();

    assert_eq!(clauses[0].field, "my_field");
}

#[test]
fn test_field_with_dot() {
    let parser = VectorQueryParser::new();
    let clauses = parser.parse(r#"nested.field:~"text""#).unwrap();

    assert_eq!(clauses[0].field, "nested.field");
}

#[test]
fn error_kinds_are_told_apart() {
    let parser = VectorQueryParser::new();
    assert_eq!(parser.parse("").unwrap_err(), VectorQueryError::NoClauses);
    assert_eq!(parser.parse("   \t ").unwrap_err(), VectorQueryError::NoClauses);
    assert_eq!(parser.parse(r#"content:"text""#).unwrap_err(), VectorQueryError::Syntax);
    assert_eq!(parser.parse(r#"~"text""#).unwrap_err(), VectorQueryError::NoDefaultField);
    assert_eq!(parser.parse(r#"a:~"x"b:~"y""#).unwrap_err(), VectorQueryError::Syntax);
    assert_eq!(parser.parse(r#"a:~"x"^"#).unwrap_err(), VectorQueryError::Syntax);
    assert_eq!(parser.parse(r#"a:~"x"^1."#).unwrap_err(), VectorQueryError::Syntax);
    assert_eq!(parser.parse(r#"a:~"unterminated"#).unwrap_err(), VectorQueryError::Syntax);
    assert_eq!(parser.parse(r#"a b:~"x""#).unwrap_err(), VectorQueryError::Syntax);
}

#[test]
fn weights_are_kept_as_written() {
    let parser = VectorQueryParser::new().with_default_fields(vec!["body".to_string(), "title".to_string()]);
    let clauses = parser.parse("  ~\"a b\"^12.50\n t:~\"\"  ").unwrap();
    assert_eq!(clauses.len(), 2);
    assert_eq!(clauses[0].field, "body");
    assert_eq!(clauses[0].text, "a b");
    assert_eq!(clauses[0].weight.as_deref(), Some("12.50"));
    assert_eq!(clauses[1].field, "t");
    assert_eq!(clauses[1].text, "");
    assert_eq!(clauses[1].weight, None);
    assert_eq!(parser.default_fields(), &vec!["body".to_string(), "title".to_string()]);
}

#[test]
fn default_parser_has_no_default_field() {
    let parser = VectorQueryParser::default();
    assert!(parser.default_fields().is_empty());
}
