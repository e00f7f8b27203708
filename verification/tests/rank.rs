use twellik::rank::{distance_le, has_comparable_distances, is_nan, rank_results};
use twellik::{Payload, Point, QueryResult};

fn candidate(id: u32, distance: f64) -> QueryResult {
    QueryResult {
        point: Point { id, vector: vec![distance.to_bits()], payload: Payload::new() },
        distance: distance.to_bits(),
    }
}

fn ids(results: &[QueryResult]) -> Vec<u32> {
    results.iter().map(|r| r.point.id).collect()
}

#[test]
fn distance_order_follows_float_order() {
    let values = [-2.5f64, -1.0, -0.0, 0.0, 1e-300, 0.5, 1.0, 2.0, f64::INFINITY, f64::NEG_INFINITY];
    for a in values {
        for b in values {
            assert_eq!(distance_le(a.to_bits(), b.to_bits()), a <= b, "{} <= {}", a, b);
        }
    }
}

#[test]
fn nan_is_recognised() {
    assert!(is_nan(f64::NAN.to_bits()));
    assert!(is_nan((-f64::NAN).to_bits()));
    assert!(!is_nan(f64::INFINITY.to_bits()));
    assert!(!is_nan(f64::NEG_INFINITY.to_bits()));
    assert!(!is_nan(0.3f64.to_bits()));
}

#[test]
fn results_sorted_by_ascending_distance() {
    let results = vec![candidate(1, 0.7), candidate(2, 0.1), candidate(3, 0.4), candidate(4, 1.3)];
    let ranked = rank_results(results, 10);
    assert_eq!(ids(&ranked), vec![2, 3, 1, 4]);
}

#[test]
fn only_first_k_results_kept() {
    let results = vec![candidate(1, 0.7), candidate(2, 0.1), candidate(3, 0.4), candidate(4, 1.3)];
    let ranked = rank_results(results, 2);
    assert_eq!(ids(&ranked), vec![2, 3]);
    let results = vec![candidate(1, 0.7), candidate(2, 0.1)];
    assert!(rank_results(results, 0).is_empty());
}

#[test]
fn equal_distances_keep_their_order() {
    let results = vec![
        candidate(1, 0.5),
        candidate(2, 0.2),
        candidate(3, 0.5),
        candidate(4, 0.2),
        candidate(5, 0.5),
    ];
    let ranked = rank_results(results, 5);
    assert_eq!(ids(&ranked), vec![2, 4, 1, 3, 5]);
}

#[test]
fn negative_and_signed_zero_distances() {
    let results = vec![candidate(1, 0.0), candidate(2, -1e-16), candidate(3, -0.0), candidate(4, 0.3)];
    let ranked = rank_results(results, 4);
    // -0.0 and 0.0 compare equal, so they keep their order.
    assert_eq!(ids(&ranked), vec![2, 1, 3, 4]);
}

#[test]
fn nan_distance_is_incomparable_among_two_or_more() {
    assert!(has_comparable_distances(&vec![candidate(1, f64::NAN)]));
    assert!(has_comparable_distances(&vec![]));
    assert!(!has_comparable_distances(&vec![candidate(1, 0.2), candidate(2, f64::NAN)]));
    assert!(has_comparable_distances(&vec![candidate(1, 0.2), candidate(2, 0.1)]));
}
