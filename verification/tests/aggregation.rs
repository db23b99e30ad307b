use webformd::aggregate;

fn pairs(items: &[(&str, &str)]) -> Vec<(String, String)> {
    items.iter().map(|(k, v)| (k.to_string(), v.to_string())).collect()
}

fn strings(items: &[&str]) -> Vec<String> {
    items.iter().map(|s| s.to_string()).collect()
}

#[test]
fn aggregate_groups_values_under_their_key() {
    let data = pairs(&[("b", "1"), ("a", "2"), ("b", "3")]);
    let aggregated = aggregate(&data);
    assert_eq!(*aggregated.get(&"b".to_string()).unwrap(), strings(&["1", "3"]));
    assert_eq!(*aggregated.get(&"a".to_string()).unwrap(), strings(&["2"]));
}

#[test]
fn aggregate_missing_key_has_no_group() {
    let data = pairs(&[("a", "1")]);
    let aggregated = aggregate(&data);
    assert!(aggregated.get(&"b".to_string()).is_none());
}

#[test]
fn aggregate_keeps_first_seen_key_order() {
    let data = pairs(&[("b", "1"), ("a", "2"), ("b", "3"), ("c", "4")]);
    let aggregated = aggregate(&data);
    let keys: Vec<String> = aggregated.groups.iter().map(|g| g.0.clone()).collect();
    assert_eq!(keys, strings(&["b", "a", "c"]));
}

#[test]
fn aggregate_retains_duplicates_in_order() {
    let data = pairs(&[("t", "x"), ("t", "x"), ("t", "y"), ("t", "x")]);
    let aggregated = aggregate(&data);
    assert_eq!(*aggregated.get(&"t".to_string()).unwrap(), strings(&["x", "x", "y", "x"]));
}

#[test]
fn aggregate_of_nothing_is_empty() {
    let data = pairs(&[]);
    let aggregated = aggregate(&data);
    assert_eq!(aggregated.groups.len(), 0);
}
