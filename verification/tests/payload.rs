use twellik::{match_payload, Payload};

fn payload(pairs: &[(&str, &str)]) -> Payload {
    Payload::from_pairs(pairs.iter().map(|(k, v)| (k.to_string(), v.to_string())).collect())
}

#[test]
fn match_payload_test_happy() {
    let item = Payload::from_pairs(vec![
        ("a".to_string(), "one".to_string()),
        ("b".to_string(), "two".to_string()),
        ("c".to_string(), "three".to_string()),
    ]);

    let query_fields = Payload::from_pairs(vec![
        ("a".to_string(), "one".to_string()),
        ("b".to_string(), "two".to_string()),
        ("c".to_string(), "three".to_string()),
    ]);

    let result = match_payload(&item, &query_fields);

    assert!(result);
}

#[test]
fn match_payload_test_two() {
    let item = Payload::from_pairs(vec![
        ("a".to_string(), "one".to_string()),
        ("b".to_string(), "two".to_string()),
        ("c".to_string(), "three".to_string()),
    ]);

    let query_fields = Payload::from_pairs(vec![
        ("a".to_string(), "one".to_string()),
        ("b".to_string(), "one".to_string()),
    ]);

    let result = match_payload(&item, &query_fields);

    assert!(!result);
}

#[test]
fn empty_query_matches_any_item() {
    let item = payload(&[("a", "one")]);
    assert!(match_payload(&item, &Payload::new()));
    assert!(match_payload(&Payload::new(), &Payload::new()));
}

#[test]
fn query_field_missing_from_item_does_not_match() {
    let item = payload(&[("a", "one")]);
    let query = payload(&[("a", "one"), ("z", "one")]);
    assert!(!match_payload(&item, &query));
    assert!(!match_payload(&Payload::new(), &payload(&[("a", "one")])));
}

#[test]
fn subset_query_matches() {
    let item = payload(&[("a", "one"), ("b", "two"), ("c", "three")]);
    assert!(match_payload(&item, &payload(&[("b", "two")])));
    assert!(match_payload(&item, &item.duplicate()));
}

#[test]
fn later_pair_replaces_earlier_one() {
    let p = payload(&[("a", "one"), ("b", "two"), ("a", "three")]);
    assert_eq!(p.get(&"a".to_string()), Some(&"three".to_string()));
    assert_eq!(p.get(&"b".to_string()), Some(&"two".to_string()));
    assert_eq!(p.get(&"c".to_string()), None);
    assert_eq!(p.entries().len(), 2);
}

#[test]
fn insert_sets_and_replaces_fields() {
    let mut p = Payload::new();
    p.insert("x".to_string(), "1".to_string());
    p.insert("y".to_string(), "2".to_string());
    p.insert("x".to_string(), "3".to_string());
    let mut entries = p.entries();
    entries.sort();
    assert_eq!(
        entries,
        vec![("x".to_string(), "3".to_string()), ("y".to_string(), "2".to_string())]
    );
}
