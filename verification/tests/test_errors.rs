use mdi::MdiError;

#[test]
fn serde_errors_map_into_the_serialization_variant() {
    let e = serde_json::from_str::<serde_json::Value>("{").unwrap_err();
    let err = MdiError::from(e);
    assert!(matches!(err, MdiError::SerializationError(_)));
}
