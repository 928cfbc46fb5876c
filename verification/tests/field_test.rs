use laurus::field::FieldValue;

#[test]
fn date_times_as_rfc3339_text() {
    let t = FieldValue::Text("2024-01-02T03:04:05Z".to_string());
    assert_eq!(t.as_datetime().as_deref(), Some("2024-01-02T03:04:05Z"));
    let t = FieldValue::Text("2024-01-02T03:04:05+09:00".to_string());
    assert_eq!(t.as_datetime().as_deref(), Some("2024-01-02T03:04:05+09:00"));
    assert_eq!(FieldValue::Text("yesterday".to_string()).as_datetime(), None);
    assert_eq!(FieldValue::Integer(0).as_datetime().as_deref(), Some("1970-01-01T00:00:00+00:00"));
    assert_eq!(FieldValue::Integer(86_400).as_datetime().as_deref(), Some("1970-01-02T00:00:00+00:00"));
    assert_eq!(FieldValue::Integer(i64::MAX).as_datetime(), None);
    assert_eq!(FieldValue::Boolean(true).as_datetime(), None);
    assert_eq!(FieldValue::DateTime(0).as_datetime(), None);
}

#[test]
fn booleans_from_values() {
    assert_eq!(FieldValue::Text("Yes".to_string()).as_boolean(), Some(true));
    assert_eq!(FieldValue::Text("off".to_string()).as_boolean(), Some(false));
    assert_eq!(FieldValue::Text("maybe".to_string()).as_boolean(), None);
    assert_eq!(FieldValue::Integer(0).as_boolean(), Some(false));
}
