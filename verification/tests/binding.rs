use webformd::BoundValue;
use webformd::FieldDescriptor;
use webformd::FieldShape;
use webformd::aggregate;
use webformd::bind;
use webformd::deserialize;

fn desc(name: &str, shape: FieldShape, convert: bool) -> FieldDescriptor {
    FieldDescriptor { name: name.to_string(), shape, convert }
}

fn pairs(items: &[(&str, &str)]) -> Vec<(String, String)> {
    items.iter().map(|(k, v)| (k.to_string(), v.to_string())).collect()
}

#[test]
fn deterministic_repeated_calls() {
    let schema = vec![
        desc("name", FieldShape::RequiredScalar, false),
        desc("tags", FieldShape::RequiredList, false),
        desc("scores", FieldShape::OptionalList, true),
    ];
    let data = pairs(&[("tags", "a"), ("name", "A"), ("scores", "7"), ("tags", "b")]);
    let first = deserialize(&schema, &data);
    let second = deserialize(&schema, &data);
    assert_eq!(first, second);

    let bad = pairs(&[("scores", "oops")]);
    let first_err = deserialize(&schema, &bad);
    let second_err = deserialize(&schema, &bad);
    assert_eq!(first_err, second_err);
}

#[test]
fn missing_required_scalar_is_an_error() {
    let schema = vec![desc("name", FieldShape::RequiredScalar, false)];
    let data = pairs(&[]);
    let err = deserialize(&schema, &data).unwrap_err();
    assert_eq!(err.field, "name");
    assert_eq!(err.message, "Missing required field: 'name'");
}

#[test]
fn last_value_wins_for_required_scalar() {
    let schema = vec![desc("name", FieldShape::RequiredScalar, false)];
    let data = pairs(&[("name", "A"), ("name", "B")]);
    let record = deserialize(&schema, &data).unwrap();
    let value = record.get(&"name".to_string()).unwrap();
    assert_eq!(*value, BoundValue::Text("B".to_string()));
}

#[test]
fn last_value_wins_for_optional_scalar() {
    let schema = vec![desc("color", FieldShape::OptionalScalar, false)];
    let data = pairs(&[("color", "red"), ("color", "blue")]);
    let record = deserialize(&schema, &data).unwrap();
    let value = record.get(&"color".to_string()).unwrap();
    assert_eq!(*value, BoundValue::Text("blue".to_string()));
}

#[test]
fn optional_scalar_absent_when_missing() {
    let schema = vec![desc("color", FieldShape::OptionalScalar, false)];
    let data = pairs(&[("other", "x")]);
    let record = deserialize(&schema, &data).unwrap();
    let value = record.get(&"color".to_string()).unwrap();
    assert_eq!(*value, BoundValue::Absent);
}

#[test]
fn list_aggregation_preserves_order_and_duplicates() {
    let schema = vec![desc("tags", FieldShape::RequiredList, false)];
    let data = pairs(&[("tags", "a"), ("tags", "b"), ("tags", "a")]);
    let record = deserialize(&schema, &data).unwrap();
    let value = record.get(&"tags".to_string()).unwrap();
    assert_eq!(
        *value,
        BoundValue::TextList(vec!["a".to_string(), "b".to_string(), "a".to_string()])
    );
}

#[test]
fn empty_required_list_is_not_an_error() {
    let schema = vec![desc("tags", FieldShape::RequiredList, false)];
    let data = pairs(&[]);
    let record = deserialize(&schema, &data).unwrap();
    let value = record.get(&"tags".to_string()).unwrap();
    assert_eq!(*value, BoundValue::TextList(vec![]));
}

#[test]
fn empty_required_list_with_conversion_is_not_an_error() {
    let schema = vec![desc("scores", FieldShape::RequiredList, true)];
    let data = pairs(&[]);
    let record = deserialize(&schema, &data).unwrap();
    let value = record.get(&"scores".to_string()).unwrap();
    assert_eq!(*value, BoundValue::IntList(vec![]));
}

#[test]
fn optional_list_collapses_to_absent_when_empty() {
    let schema = vec![desc("scores", FieldShape::OptionalList, true)];
    let data = pairs(&[]);
    let record = deserialize(&schema, &data).unwrap();
    let value = record.get(&"scores".to_string()).unwrap();
    assert_eq!(*value, BoundValue::Absent);
}

#[test]
fn conversion_success_parses_every_value_in_order() {
    let schema = vec![desc("scores", FieldShape::OptionalList, true)];
    let data = pairs(&[("scores", "1"), ("scores", "2")]);
    let record = deserialize(&schema, &data).unwrap();
    let value = record.get(&"scores".to_string()).unwrap();
    assert_eq!(*value, BoundValue::IntList(vec![1, 2]));
}

#[test]
fn conversion_failure_aborts_with_field_context() {
    let schema = vec![desc("scores", FieldShape::OptionalList, true)];
    let data = pairs(&[("scores", "abc")]);
    let err = deserialize(&schema, &data).unwrap_err();
    assert_eq!(err.field, "scores");
    assert_eq!(err.message, "invalid digit found in string");
}

#[test]
fn conversion_failure_on_required_list() {
    let schema = vec![desc("scores", FieldShape::RequiredList, true)];
    let data = pairs(&[("scores", "3"), ("scores", "x"), ("scores", "5")]);
    let err = deserialize(&schema, &data).unwrap_err();
    assert_eq!(err.field, "scores");
    assert_eq!(err.message, "invalid digit found in string");
}

#[test]
fn unknown_keys_are_ignored() {
    let schema = vec![desc("name", FieldShape::RequiredScalar, false)];
    let data = pairs(&[("name", "A"), ("extra", "x")]);
    let record = deserialize(&schema, &data).unwrap();
    let value = record.get(&"name".to_string()).unwrap();
    assert_eq!(*value, BoundValue::Text("A".to_string()));
    assert_eq!(record.fields.len(), 1);
    assert!(record.get(&"extra".to_string()).is_none());
}

#[test]
fn first_failing_field_in_schema_order_decides() {
    let schema = vec![
        desc("name", FieldShape::RequiredScalar, false),
        desc("scores", FieldShape::RequiredList, true),
    ];
    let data = pairs(&[("scores", "oops")]);
    let err = deserialize(&schema, &data).unwrap_err();
    assert_eq!(err.field, "name");
    assert_eq!(err.message, "Missing required field: 'name'");
}

#[test]
fn record_keeps_schema_order() {
    let schema = vec![
        desc("b", FieldShape::OptionalScalar, false),
        desc("a", FieldShape::RequiredScalar, false),
    ];
    let data = pairs(&[("a", "1"), ("b", "2")]);
    let record = deserialize(&schema, &data).unwrap();
    assert_eq!(record.fields.len(), 2);
    assert_eq!(record.fields[0].0, "b");
    assert_eq!(record.fields[1].0, "a");
}

#[test]
fn aggregate_then_bind_matches_deserialize() {
    let schema = vec![desc("tags", FieldShape::RequiredList, false)];
    let data = pairs(&[("tags", "x"), ("tags", "y")]);
    let aggregated = aggregate(&data);
    let via_bind = bind(&schema, &aggregated);
    let via_deserialize = deserialize(&schema, &data);
    assert_eq!(via_bind, via_deserialize);
}

#[test]
fn scalar_conversion_flag_is_ignored() {
    // Scalar fields are always bound as raw strings; a conversion flag on
    // them has no effect.
    let schema = vec![desc("age", FieldShape::RequiredScalar, true)];
    let data = pairs(&[("age", "19")]);
    let record = deserialize(&schema, &data).unwrap();
    let value = record.get(&"age".to_string()).unwrap();
    assert_eq!(*value, BoundValue::Text("19".to_string()));
}
