use std::collections::HashMap;

use twellik::{Collection, Index, Payload, Point, Query, QueryResult, ScrollError, Twellik, UpsertError};

/// An index that keeps its points in insertion order, reports as the
/// distance of each the first coordinate of its vector, and answers a search
/// with the `k` points of least distance.
struct ListIndex {
    points: Vec<Point>,
}

impl Index for ListIndex {
    fn default() -> Self {
        ListIndex { points: Vec::new() }
    }

    fn len(&self) -> usize {
        self.points.len()
    }

    fn insert(&mut self, point: Point) {
        self.points.push(point);
    }

    fn scroll(&self, query: &Query) -> Vec<QueryResult> {
        let mut all: Vec<QueryResult> = self
            .points
            .iter()
            .map(|p| QueryResult { point: p.duplicate(), distance: p.vector[0] })
            .collect();
        all.sort_by(|a, b| f64::from_bits(a.distance).total_cmp(&f64::from_bits(b.distance)));
        all.truncate(query.k);
        all
    }
}

fn point(id: u32, first: f64, tag: &str) -> Point {
    let mut payload = Payload::new();
    payload.insert("tag".to_string(), tag.to_string());
    Point { id, vector: vec![first.to_bits(), 1.0f64.to_bits()], payload }
}

fn tag(p: &Point) -> String {
    p.payload.get(&"tag".to_string()).unwrap().clone()
}

fn query(k: usize) -> Query {
    Query { vector: vec![0.0f64.to_bits(), 1.0f64.to_bits()], payload: Payload::new(), k }
}

fn indexed(store: &Twellik<ListIndex>, name: &str) -> Vec<(u32, String)> {
    let c = store.collection(name).unwrap();
    c.index().points.iter().map(|p| (p.id, tag(p))).collect()
}

fn stored(store: &Twellik<ListIndex>, name: &str) -> Vec<(u32, String)> {
    let c = store.collection(name).unwrap();
    let mut v: Vec<(u32, String)> = c.points().iter().map(|(id, p)| (*id, tag(p))).collect();
    v.sort();
    v
}

#[test]
fn upsert_creates_missing_collection() {
    let mut store: Twellik<ListIndex> = Twellik::new();
    assert!(store.collection("c").is_none());
    store.upsert_points("c", vec![point(1, 0.1, "a"), point(2, 0.2, "b")]).unwrap();
    assert_eq!(store.collection("c").unwrap().name(), "c");
    assert_eq!(stored(&store, "c"), vec![(1, "a".to_string()), (2, "b".to_string())]);
    assert_eq!(indexed(&store, "c"), vec![(1, "a".to_string()), (2, "b".to_string())]);
    assert!(store.collection("d").is_none());
}

#[test]
fn new_collection_keeps_last_point_of_an_id_but_indexes_all() {
    let mut store: Twellik<ListIndex> = Twellik::new();
    store.upsert_points("c", vec![point(1, 0.1, "first"), point(1, 0.3, "second")]).unwrap();
    assert_eq!(stored(&store, "c"), vec![(1, "second".to_string())]);
    assert_eq!(
        indexed(&store, "c"),
        vec![(1, "first".to_string()), (1, "second".to_string())]
    );
}

#[test]
fn upsert_into_existing_collection_never_replaces_points() {
    let mut store: Twellik<ListIndex> = Twellik::new();
    store.upsert_points("c", vec![point(1, 0.1, "a")]).unwrap();
    store.upsert_points("c", vec![point(1, 0.9, "replacement"), point(2, 0.2, "b"), point(2, 0.4, "b2")]).unwrap();
    assert_eq!(stored(&store, "c"), vec![(1, "a".to_string()), (2, "b".to_string())]);
    assert_eq!(indexed(&store, "c"), vec![(1, "a".to_string()), (2, "b".to_string())]);
}

#[test]
fn upsert_leaves_other_collections_alone() {
    let mut store: Twellik<ListIndex> = Twellik::new();
    store.upsert_points("c", vec![point(1, 0.1, "a")]).unwrap();
    store.upsert_points("d", vec![point(1, 0.5, "other")]).unwrap();
    assert_eq!(stored(&store, "c"), vec![(1, "a".to_string())]);
    assert_eq!(stored(&store, "d"), vec![(1, "other".to_string())]);
}

#[test]
fn scroll_missing_collection_is_an_error() {
    let store: Twellik<ListIndex> = Twellik::new();
    assert_eq!(store.scroll_points("nope", &query(3)).err(), Some(ScrollError::CollectionNotFound));
}

#[test]
fn scroll_returns_k_nearest_in_order() {
    let mut store: Twellik<ListIndex> = Twellik::new();
    store.upsert_points(
        "c",
        vec![point(1, 0.7, "a"), point(2, 0.1, "b"), point(3, 0.4, "c"), point(4, 0.2, "d")],
    ).unwrap();
    let found = store.scroll_points("c", &query(3)).unwrap();
    let ids: Vec<u32> = found.iter().map(|r| r.point.id).collect();
    assert_eq!(ids, vec![2, 4, 3]);
    assert_eq!(f64::from_bits(found[0].distance), 0.1);
    let all = store.scroll_points("c", &query(4)).unwrap();
    assert_eq!(all.len(), 4);
    assert_eq!(store.scroll_points("c", &query(5)).err(), Some(ScrollError::NotEnoughPoints));
}

#[test]
fn scroll_with_nan_distance_is_refused() {
    let mut store: Twellik<ListIndex> = Twellik::new();
    store.upsert_points("c", vec![point(1, f64::NAN, "a"), point(2, 0.1, "b")]).unwrap();
    assert_eq!(store.scroll_points("c", &query(2)).err(), Some(ScrollError::IncomparableDistances));
    let mut single: Twellik<ListIndex> = Twellik::new();
    single.upsert_points("s", vec![point(1, f64::NAN, "a")]).unwrap();
    assert_eq!(single.scroll_points("s", &query(1)).unwrap().len(), 1);
}

#[test]
fn collection_from_stored_points_indexes_each_once() {
    let mut points = HashMap::new();
    points.insert(1u32, point(1, 0.3, "a"));
    points.insert(5u32, point(5, 0.1, "b"));
    points.insert(9u32, point(9, 0.2, "c"));
    let coll: Collection<ListIndex> = Collection::from_points("restored".to_string(), points);
    let mut store: Twellik<ListIndex> = Twellik::new();
    store.insert_collection(coll);
    let mut seen = indexed(&store, "restored");
    seen.sort();
    assert_eq!(seen, stored(&store, "restored"));
    let found = store.scroll_points("restored", &query(2)).unwrap();
    let ids: Vec<u32> = found.iter().map(|r| r.point.id).collect();
    assert_eq!(ids, vec![5, 9]);
}

#[test]
fn insert_collection_replaces_same_name() {
    let mut store: Twellik<ListIndex> = Twellik::new();
    store.upsert_points("c", vec![point(1, 0.1, "a")]).unwrap();
    let replacement: Collection<ListIndex> = Collection::new("c".to_string());
    store.insert_collection(replacement);
    assert!(stored(&store, "c").is_empty());
    assert!(indexed(&store, "c").is_empty());
}

#[test]
fn scroll_empty_collection_needs_k_zero() {
    let mut store: Twellik<ListIndex> = Twellik::new();
    store.upsert_points("e", vec![]).unwrap();
    assert_eq!(store.scroll_points("e", &query(1)).err(), Some(ScrollError::NotEnoughPoints));
    assert!(store.scroll_points("e", &query(0)).unwrap().is_empty());
}

#[test]
fn scroll_with_other_vector_length_is_refused() {
    let mut store: Twellik<ListIndex> = Twellik::new();
    store.upsert_points("c", vec![point(1, 0.1, "a")]).unwrap();
    let q = Query { vector: vec![0.0f64.to_bits()], payload: Payload::new(), k: 1 };
    assert_eq!(store.scroll_points("c", &q).err(), Some(ScrollError::VectorLengthMismatch));
}

#[test]
fn upsert_with_mixed_vector_lengths_is_refused() {
    let mut store: Twellik<ListIndex> = Twellik::new();
    let short = Point { id: 2, vector: vec![0.5f64.to_bits()], payload: Payload::new() };
    assert_eq!(
        store.upsert_points("c", vec![point(1, 0.1, "a"), short.clone()]).err(),
        Some(UpsertError::VectorLengthMismatch)
    );
    assert!(store.collection("c").is_none());
    store.upsert_points("c", vec![point(1, 0.1, "a")]).unwrap();
    assert_eq!(
        store.upsert_points("c", vec![short.clone()]).err(),
        Some(UpsertError::VectorLengthMismatch)
    );
    assert_eq!(stored(&store, "c"), vec![(1, "a".to_string())]);
    // A point whose id is stored already is not handed to the index, so its
    // length does not matter.
    let same_id = Point { id: 1, vector: vec![0.5f64.to_bits()], payload: Payload::new() };
    store.upsert_points("c", vec![same_id]).unwrap();
    assert_eq!(indexed(&store, "c"), vec![(1, "a".to_string())]);
}
