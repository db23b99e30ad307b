use webformd::BoundValue;
use webformd::FieldDescriptor;
use webformd::FieldShape;
use webformd::WebFomData;
use webformd::deserialize;

#[derive(Debug)]
struct Signup {
    name: String,
    tags: Vec<String>,
    scores: Option<Vec<i64>>,
}

impl WebFomData for Signup {
    fn deserialize(data: &Vec<(String, String)>) -> Result<Self, String> {
        let schema = vec![
            FieldDescriptor {
                name: "name".to_string(),
                shape: FieldShape::RequiredScalar,
                convert: false,
            },
            FieldDescriptor {
                name: "tags".to_string(),
                shape: FieldShape::RequiredList,
                convert: false,
            },
            FieldDescriptor {
                name: "scores".to_string(),
                shape: FieldShape::OptionalList,
                convert: true,
            },
        ];
        let record = match deserialize(&schema, data) {
            Ok(r) => r,
            Err(e) => return Err(e.message),
        };
        let mut name = String::new();
        let mut tags: Vec<String> = Vec::new();
        let mut scores: Option<Vec<i64>> = None;
        for (field, value) in record.fields {
            match (field.as_str(), value) {
                ("name", BoundValue::Text(s)) => name = s,
                ("tags", BoundValue::TextList(vs)) => tags = vs,
                ("scores", BoundValue::IntList(ns)) => scores = Some(ns),
                ("scores", BoundValue::Absent) => scores = None,
                _ => return Err("unexpected field shape".to_string()),
            }
        }
        Ok(Signup { name, tags, scores })
    }
}

fn pairs(items: &[(&str, &str)]) -> Vec<(String, String)> {
    items.iter().map(|(k, v)| (k.to_string(), v.to_string())).collect()
}

#[test]
fn record_type_binds_through_the_trait() {
    let data = pairs(&[
        ("tags", "rust"),
        ("name", "Ada"),
        ("scores", "10"),
        ("name", "Grace"),
        ("tags", "forms"),
        ("scores", "-3"),
    ]);
    let signup = Signup::deserialize(&data).unwrap();
    assert_eq!(signup.name, "Grace");
    assert_eq!(signup.tags, vec!["rust".to_string(), "forms".to_string()]);
    assert_eq!(signup.scores, Some(vec![10, -3]));
}

#[test]
fn record_type_collapses_empty_optional_list() {
    let data = pairs(&[("name", "Ada"), ("tags", "x")]);
    let signup = Signup::deserialize(&data).unwrap();
    assert_eq!(signup.scores, None);
}

#[test]
fn record_type_flattens_errors_to_messages() {
    let data = pairs(&[("tags", "x")]);
    let err = Signup::deserialize(&data).unwrap_err();
    assert_eq!(err, "Missing required field: 'name'");

    let data = pairs(&[("name", "Ada"), ("scores", "ten")]);
    let err = Signup::deserialize(&data).unwrap_err();
    assert_eq!(err, "invalid digit found in string");
}
