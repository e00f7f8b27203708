use twellik::{Payload, Point};

#[test]
fn points_are_equal_by_id_alone() {
    let a = Point { id: 7, vector: vec![1.0f64.to_bits()], payload: Payload::new() };
    let mut payload = Payload::new();
    payload.insert("k".to_string(), "v".to_string());
    let b = Point { id: 7, vector: vec![2.0f64.to_bits(), 3.0f64.to_bits()], payload };
    let c = Point { id: 8, vector: vec![1.0f64.to_bits()], payload: Payload::new() };
    assert!(a == b);
    assert!(a != c);
}

#[test]
fn duplicate_copies_every_field() {
    let mut payload = Payload::new();
    payload.insert("k".to_string(), "v".to_string());
    let a = Point { id: 3, vector: vec![0.25f64.to_bits(), (-1.5f64).to_bits()], payload };
    let b = a.duplicate();
    assert_eq!(b.id, 3);
    assert_eq!(b.vector, a.vector);
    assert_eq!(b.payload.get(&"k".to_string()), Some(&"v".to_string()));
}
