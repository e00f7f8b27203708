use vstd::prelude::*;

use std::collections::HashMap;
use vstd::std_specs::iter::IteratorSpec;

use crate::index::{uniform_length, Index};
use crate::point::{Point, PointView};
use crate::views::{lemma_views_remove_first, views};

verus! {

broadcast use vstd::std_specs::hash::group_hash_axioms;

/// The id of a point within its collection.
pub type PointId = u32;

/// A named set of points keyed by id, together with the similarity index
/// that the points were inserted into.
pub struct Collection<I: Index> {
    name: String,
    points: HashMap<PointId, Point>,
    index: I,
    dimension: Option<usize>,
}

/// What a collection holds, as plain values: its name, its points by id,
/// and the points handed to its index, in the order they were handed.
pub struct CollectionView {
    pub name: Seq<char>,
    pub points: Map<PointId, PointView>,
    pub indexed: Seq<PointView>,
}

/// The plain values of a sequence of points.
pub open spec fn point_views(s: Seq<Point>) -> Seq<PointView> {
    views(s)
}

/// The plain values of a map of points.
pub open spec fn point_map_view(m: Map<PointId, Point>) -> Map<PointId, PointView> {
    m.map_values(|p: Point| p@)
}

/// `order` lists every key of `points` exactly once.
pub open spec fn lists_each_key_once(order: Seq<PointId>, points: Map<PointId, PointView>) -> bool {
    &&& forall|j: int| 0 <= j < order.len() ==> points.contains_key(#[trigger] order[j])
    &&& forall|id: PointId| #[trigger] points.contains_key(id) ==> order.contains(id)
    &&& forall|a: int, b: int| 0 <= a < order.len() && 0 <= b < order.len() && a != b
        ==> #[trigger] order[a] != #[trigger] order[b]
}

/// The points of `s` all have vectors of one length.
pub open spec fn same_lengths(s: Seq<PointView>) -> bool {
    forall|i: int, j: int| 0 <= i < s.len() && 0 <= j < s.len() ==> #[trigger] s[i].vector.len() == #[trigger] s[j].vector.len()
}

/// The points stored in `m` all have vectors of one length.
pub open spec fn same_length_values(m: Map<PointId, PointView>) -> bool {
    forall|a: PointId, b: PointId| #[trigger] m.contains_key(a) && #[trigger] m.contains_key(b)
        ==> m[a].vector.len() == m[b].vector.len()
}

/// `dimension` records the vector length of the points in `indexed`: none
/// while there is no point, else the length that all of them have.
pub open spec fn dimension_fits(dimension: Option<usize>, indexed: Seq<PointView>) -> bool {
    match dimension {
        Some(d) => indexed.len() > 0 && uniform_length(indexed, d as nat),
        None => indexed.len() == 0,
    }
}

/// Every stored point has been handed to the index.
pub open spec fn index_covers(c: CollectionView) -> bool {
    forall|id: PointId| #[trigger] c.points.contains_key(id) ==> c.indexed.contains(c.points[id])
}

/// The points of `batch` stored by id one after the other, a later point
/// replacing an earlier one with the same id.
pub open spec fn points_by_id(batch: Seq<PointView>) -> Map<PointId, PointView>
    decreases batch.len(),
{
    if batch.len() == 0 {
        Map::empty()
    } else {
        points_by_id(batch.drop_last()).insert(batch.last().id, batch.last())
    }
}

/// `points` after adding the points of `batch` one after the other, each
/// only if no point with its id is stored yet.
pub open spec fn add_new_points(points: Map<PointId, PointView>, batch: Seq<PointView>) -> Map<PointId, PointView>
    decreases batch.len(),
{
    if batch.len() == 0 {
        points
    } else {
        let m = add_new_points(points, batch.drop_last());
        if m.contains_key(batch.last().id) {
            m
        } else {
            m.insert(batch.last().id, batch.last())
        }
    }
}

/// The points of `batch` that `add_new_points` adds, in batch order.
pub open spec fn added_points(points: Map<PointId, PointView>, batch: Seq<PointView>) -> Seq<PointView>
    decreases batch.len(),
{
    if batch.len() == 0 {
        Seq::empty()
    } else {
        let prev = added_points(points, batch.drop_last());
        if add_new_points(points, batch.drop_last()).contains_key(batch.last().id) {
            prev
        } else {
            prev.push(batch.last())
        }
    }
}

impl<I: Index> View for Collection<I> {
    type V = CollectionView;

    closed spec fn view(&self) -> CollectionView {
        CollectionView { name: self.name@, points: point_map_view(self.points@), indexed: self.index.inserted() }
    }
}

impl<I: Index> Collection<I> {
    /// The collection keeps its invariant: every stored point is in the
    /// index, and the points in the index have vectors of one length,
    /// recorded as the collection's dimension.
    pub closed spec fn wf(&self) -> bool {
        &&& index_covers(self@)
        &&& dimension_fits(self.dimension, self@.indexed)
    }

    /// What the invariant gives: every stored point is in the index, and
    /// the points in the index have vectors of one length.
    pub proof fn lemma_wf(&self)
        requires
            self.wf(),
        ensures
            index_covers(self@),
            same_lengths(self@.indexed),
    {
    }

    /// The vector length of the points in the index, if it holds any.
    pub fn dimension(&self) -> (r: Option<usize>)
        requires
            self.wf(),
        ensures
            dimension_fits(r, self@.indexed),
    {
        self.dimension
    }

    /// The collection's name.
    pub fn name(&self) -> (r: &String)
        ensures
            r@ == self@.name,
    {
        &self.name
    }

    /// The collection's points, by id.
    pub fn points(&self) -> (r: &HashMap<PointId, Point>)
        ensures
            point_map_view(r@) == self@.points,
    {
        &self.points
    }

    /// The collection's similarity index.
    pub fn index(&self) -> (r: &I)
        ensures
            *r == self.similarity_index(),
            r.inserted() == self@.indexed,
    {
        &self.index
    }

    /// The similarity index that the collection's points were handed to.
    pub closed spec fn similarity_index(&self) -> I {
        self.index
    }

    /// The points the view records as handed to the index are the points
    /// the index holds.
    pub proof fn lemma_indexed(&self)
        ensures
            self@.indexed == self.similarity_index().inserted(),
    {
    }

    /// An empty collection named `name`, with a new empty index.
    pub fn new(name: String) -> (r: Collection<I>)
        ensures
            r@.name == name@,
            r@.points == Map::<PointId, PointView>::empty(),
            r@.indexed == Seq::<PointView>::empty(),
            r.similarity_index().inserted() == Seq::<PointView>::empty(),
            r.wf(),
    {
        let r = Collection { name, points: HashMap::new(), index: I::default(), dimension: None };
        assert(point_map_view(r.points@) =~= Map::<PointId, PointView>::empty());
        r
    }
}

/// `x` still occurs in `s` after a push.
proof fn lemma_contains_after_push(s: Seq<PointView>, x: PointView, y: PointView)
    requires
        s.contains(y),
    ensures
        s.push(x).contains(y),
{
    let j = choose|j: int| 0 <= j < s.len() && s[j] == y;
    assert(s.push(x)[j] == y);
}

/// Storing `p` under its id, and handing `p` to the index, keeps every
/// stored point in the index.
proof fn lemma_covers_after_store(c: CollectionView, p: PointView)
    requires
        index_covers(c),
    ensures
        index_covers(CollectionView { name: c.name, points: c.points.insert(p.id, p), indexed: c.indexed.push(p) }),
{
    let n = CollectionView { name: c.name, points: c.points.insert(p.id, p), indexed: c.indexed.push(p) };
    assert forall|id: PointId| #[trigger] n.points.contains_key(id) implies n.indexed.contains(n.points[id]) by {
        if id == p.id {
            assert(n.indexed[c.indexed.len() as int] == p);
        } else {
            lemma_contains_after_push(c.indexed, p, c.points[id]);
        }
    }
}

/// Whether `ids` holds `id`.
fn contains_id(ids: &Vec<PointId>, id: PointId) -> (r: bool)
    ensures
        r == ids@.contains(id),
{
    let mut i: usize = 0;
    while i < ids.len()
        invariant
            i <= ids.len(),
            forall|j: int| 0 <= j < i ==> ids@[j] != id,
        decreases ids.len() - i,
    {
        if ids[i] == id {
            return true;
        }
        i = i + 1;
    }
    false
}

/// A recorded vector length means the points all have that length.
proof fn lemma_fits_same_lengths(dimension: Option<usize>, s: Seq<PointView>)
    requires
        dimension_fits(dimension, s),
    ensures
        same_lengths(s),
{
    if let Some(d) = dimension {
        assert forall|i: int, j: int| 0 <= i < s.len() && 0 <= j < s.len() implies #[trigger] s[i].vector.len() == #[trigger] s[j].vector.len() by {
            assert(s[i].vector.len() == d);
            assert(s[j].vector.len() == d);
        }
    }
}

/// Whether the points of `batch` all have vectors of one length.
pub fn uniform_batch(batch: &Vec<Point>) -> (r: bool)
    ensures
        r == same_lengths(point_views(batch@)),
{
    let ghost b = point_views(batch@);
    if batch.len() == 0 {
        return true;
    }
    let len = batch[0].vector.len();
    assert(b[0] == batch@[0]@);
    let mut i: usize = 1;
    while i < batch.len()
        invariant
            b == point_views(batch@),
            b.len() == batch.len(),
            1 <= i <= batch.len(),
            b[0].vector.len() == len,
            forall|j: int| 0 <= j < i ==> #[trigger] b[j].vector.len() == len,
        decreases batch.len() - i,
    {
        assert(b[i as int] == batch@[i as int]@);
        if batch[i].vector.len() != len {
            assert(b[0].vector.len() != b[i as int].vector.len());
            return false;
        }
        i = i + 1;
    }
    assert forall|x: int, y: int| 0 <= x < b.len() && 0 <= y < b.len() implies #[trigger] b[x].vector.len() == #[trigger] b[y].vector.len() by {
        assert(b[x].vector.len() == len);
        assert(b[y].vector.len() == len);
    }
    true
}

impl<I: Index> Collection<I> {
    /// Whether upserting `batch` keeps one vector length in the index: the
    /// points the upsert would hand to the index have the length of those
    /// it holds, and of each other.
    pub fn accepts(&self, batch: &Vec<Point>) -> (r: bool)
        requires
            self.wf(),
        ensures
            r == same_lengths(self@.indexed + added_points(self@.points, point_views(batch@))),
    {
        let ghost b = point_views(batch@);
        let ghost pts = self@.points;
        let ghost full = self@.indexed + added_points(pts, b);
        let mut dim = self.dimension;
        let mut new_ids: Vec<PointId> = Vec::new();
        let mut i: usize = 0;
        while i < batch.len()
            invariant
                b == point_views(batch@),
                b.len() == batch.len(),
                pts == self@.points,
                full == self@.indexed + added_points(pts, b),
                i <= batch.len(),
                new_ids@ == added_points(pts, b.take(i as int)).map_values(|p: PointView| p.id),
                dimension_fits(dim, self@.indexed + added_points(pts, b.take(i as int))),
            decreases batch.len() - i,
        {
            let p = &batch[i];
            let ghost seq = self@.indexed + added_points(pts, b.take(i as int));
            proof {
                assert(b[i as int] == p@);
                lemma_added_domain(pts, b.take(i as int));
                assert(b.take(i + 1).drop_last() =~= b.take(i as int));
                assert(b.take(i + 1).last() == p@);
            }
            let present = self.points.contains_key(&p.id) || contains_id(&new_ids, p.id);
            assert(present == add_new_points(pts, b.take(i as int)).contains_key(p@.id));
            if !present {
                let len = p.vector.len();
                if let Some(d) = dim {
                    if len != d {
                        proof {
                            lemma_added_prefix(pts, b, i + 1);
                            let grown = self@.indexed + added_points(pts, b.take(i + 1));
                            assert(grown =~= seq.push(p@));
                            assert(full[seq.len() as int] == grown[seq.len() as int]);
                            assert(full[0] == grown[0]);
                            assert(seq[0].vector.len() == d);
                            assert(full[0].vector.len() != full[seq.len() as int].vector.len());
                        }
                        return false;
                    }
                }
                proof {
                    if let Some(d) = dim {
                        assert forall|j: int| 0 <= j < seq.len() implies #[trigger] seq[j].vector.len() == p@.vector.len() by {
                            assert(seq[j].vector.len() == d);
                        }
                    }
                }
                let ghost old_dim = dim;
                if dim.is_none() {
                    dim = Some(len);
                }
                new_ids.push(p.id);
                proof {
                    lemma_dimension_after_push(old_dim, seq, p@, len);
                    assert(self@.indexed + added_points(pts, b.take(i + 1)) =~= seq.push(p@));
                    assert(new_ids@ =~= added_points(pts, b.take(i + 1)).map_values(|q: PointView| q.id));
                }
            } else {
                proof {
                    assert(new_ids@ =~= added_points(pts, b.take(i + 1)).map_values(|q: PointView| q.id));
                }
            }
            i = i + 1;
        }
        proof {
            assert(b.take(i as int) =~= b);
            lemma_fits_same_lengths(dim, full);
        }
        true
    }
}

impl<I: Index> Collection<I> {
    /// Adds the points of `new_points` in order, each only if the collection
    /// holds no point with its id yet; each point added is also handed to
    /// the index. Points already stored are never replaced.
    pub fn upsert(&mut self, new_points: Vec<Point>)
        requires
            old(self).wf(),
            same_lengths(old(self)@.indexed + added_points(old(self)@.points, point_views(new_points@))),
        ensures
            final(self)@.name == old(self)@.name,
            final(self)@.points == add_new_points(old(self)@.points, point_views(new_points@)),
            final(self)@.indexed == old(self)@.indexed + added_points(old(self)@.points, point_views(new_points@)),
            final(self).similarity_index().inserted()
                == old(self).similarity_index().inserted() + added_points(old(self)@.points, point_views(new_points@)),
            final(self).wf(),
    {
        let ghost batch = point_views(new_points@);
        let ghost start = self@;
        let ghost full = start.indexed + added_points(start.points, batch);
        let n = new_points.len();
        let mut input = new_points;
        let mut i: usize = 0;
        while i < n
            invariant
                n == batch.len(),
                i <= n,
                point_views(input@) == batch.skip(i as int),
                self@.name == start.name,
                self@.points == add_new_points(start.points, batch.take(i as int)),
                self@.indexed == start.indexed + added_points(start.points, batch.take(i as int)),
                full == start.indexed + added_points(start.points, batch),
                same_lengths(full),
                self.wf(),
            decreases n - i,
        {
            assert(input@.len() == point_views(input@).len());
            let ghost old_in = input@;
            let ghost before = self@;
            let p = input.remove(0);
            proof {
                lemma_views_remove_first(old_in, input@);
                assert(point_views(input@) =~= batch.skip(i + 1));
                assert(p@ == batch[i as int]);
            }
            proof {
                assert(batch.take(i + 1).drop_last() =~= batch.take(i as int));
                assert(batch.take(i + 1).last() == p@);
            }
            if !self.points.contains_key(&p.id) {
                proof {
                    lemma_added_prefix(start.points, batch, i + 1);
                    let grown = start.indexed + added_points(start.points, batch.take(i + 1));
                    assert(grown =~= before.indexed.push(p@));
                    lemma_prefix_uniform(full, before.indexed, p@);
                }
                let copy = p.duplicate();
                let id = p.id;
                let len = p.vector.len();
                self.points.insert(id, copy);
                self.index.insert(p);
                let ghost old_dimension = self.dimension;
                if self.dimension.is_none() {
                    self.dimension = Some(len);
                }
                proof {
                    lemma_dimension_after_push(old_dimension, before.indexed, copy@, len);
                    assert(point_map_view(self.points@) =~= before.points.insert(id, copy@));
                    assert(self@.indexed =~= start.indexed + added_points(start.points, batch.take(i + 1)));
                    lemma_covers_after_store(before, copy@);
                }
            }
            i = i + 1;
        }
        proof {
            assert(batch.take(n as int) =~= batch);
        }
    }

    /// A collection named `name` holding the points of `new_points` by id (a
    /// later point replacing an earlier one with the same id); every point
    /// of `new_points` is handed to a new index, in order.
    pub fn with_points(name: String, new_points: Vec<Point>) -> (r: Collection<I>)
        requires
            same_lengths(point_views(new_points@)),
        ensures
            r@.name == name@,
            r@.points == points_by_id(point_views(new_points@)),
            r@.indexed == point_views(new_points@),
            r.similarity_index().inserted() == point_views(new_points@),
            r.wf(),
    {
        let ghost batch = point_views(new_points@);
        let mut c: Collection<I> = Collection::new(name);
        let n = new_points.len();
        let mut input = new_points;
        let mut i: usize = 0;
        while i < n
            invariant
                n == batch.len(),
                i <= n,
                point_views(input@) == batch.skip(i as int),
                c@.name == name@,
                c@.points == points_by_id(batch.take(i as int)),
                c@.indexed == batch.take(i as int),
                same_lengths(batch),
                c.wf(),
            decreases n - i,
        {
            assert(input@.len() == point_views(input@).len());
            let ghost old_in = input@;
            let ghost before = c@;
            let p = input.remove(0);
            proof {
                lemma_views_remove_first(old_in, input@);
                assert(point_views(input@) =~= batch.skip(i + 1));
                assert(p@ == batch[i as int]);
            }
            proof {
                assert(batch.take(i + 1) =~= before.indexed.push(p@));
                lemma_prefix_uniform(batch, before.indexed, p@);
            }
            let copy = p.duplicate();
            let id = p.id;
            let len = p.vector.len();
            c.points.insert(id, copy);
            c.index.insert(p);
            let ghost old_dimension = c.dimension;
            if c.dimension.is_none() {
                c.dimension = Some(len);
            }
            proof {
                lemma_dimension_after_push(old_dimension, before.indexed, copy@, len);
                assert(batch.take(i + 1).drop_last() =~= batch.take(i as int));
                assert(batch.take(i + 1).last() == copy@);
                assert(point_map_view(c.points@) =~= before.points.insert(id, copy@));
                assert(c@.indexed =~= batch.take(i + 1));
                lemma_covers_after_store(before, copy@);
            }
            i = i + 1;
        }
        proof {
            assert(batch.take(n as int) =~= batch);
        }
        c
    }
}

impl<I: Index> Collection<I> {
    /// A collection named `name` holding exactly `points`; every stored
    /// point is handed once to a new index, in the map's iteration order.
    pub fn from_points(name: String, points: HashMap<PointId, Point>) -> (r: Collection<I>)
        requires
            same_length_values(point_map_view(points@)),
        ensures
            r@.name == name@,
            r@.points == point_map_view(points@),
            exists|order: Seq<PointId>| #[trigger] lists_each_key_once(order, r@.points)
                && r@.indexed == order.map_values(|id: PointId| r@.points[id])
                && r.similarity_index().inserted() == r@.indexed,
            r.wf(),
    {
        let mut index = I::default();
        let mut dimension: Option<usize> = None;
        let ghost mut indexed: Seq<PointView> = Seq::empty();
        let ghost v = vstd::std_specs::hash::spec_hash_map_iter(&points).remaining();
        for entry in it: points.iter()
            invariant
                it.seq() == v,
                index.inserted() == indexed,
                indexed.len() == it.index(),
                forall|j: int| 0 <= j < it.index() ==> #[trigger] indexed[j] == (*it.seq()[j].1)@,
                dimension_fits(dimension, indexed),
                same_length_values(point_map_view(points@)),
        {
            let p = entry.1;
            proof {
                let j = it.index();
                assert(points@.contains_key(*v[j].0) && points@[*v[j].0] == *v[j].1);
                assert forall|m: int| 0 <= m < indexed.len() implies #[trigger] indexed[m].vector.len() == p@.vector.len() by {
                    assert(points@.contains_key(*v[m].0) && points@[*v[m].0] == *v[m].1);
                    assert(point_map_view(points@).contains_key(*v[m].0));
                    assert(point_map_view(points@).contains_key(*v[j].0));
                }
            }
            let len = p.vector.len();
            index.insert(p.duplicate());
            let ghost old_dimension = dimension;
            if dimension.is_none() {
                dimension = Some(len);
            }
            proof {
                lemma_dimension_after_push(old_dimension, indexed, p@, len);
                indexed = indexed.push(p@);
            }
        }
        let r = Collection { name, points, index, dimension };
        proof {
            assert(indexed.len() == v.len());
            let order = v.map_values(|e: (&PointId, &Point)| *e.0);
            assert forall|j: int| 0 <= j < order.len() implies r@.points.contains_key(#[trigger] order[j])
                && r@.points[order[j]] == r@.indexed[j]
            by {
                assert(r.points@.contains_key(*v[j].0));
            }
            assert forall|id: PointId| #[trigger] r@.points.contains_key(id) implies order.contains(id) by {
                assert(r.points@.contains_key(id));
                assert(v.contains((&id, &r.points@[id])));
                let j = choose|j: int| 0 <= j < v.len() && v[j] == (&id, &r.points@[id]);
                assert(order[j] == id);
            }
            assert forall|a: int, b: int| 0 <= a < order.len() && 0 <= b < order.len() && a != b
                implies #[trigger] order[a] != #[trigger] order[b]
            by {
                if order[a] == order[b] {
                    assert(r.points@.contains_key(*v[a].0));
                    assert(v[a] == v[b]);
                }
            }
            assert(r@.indexed =~= order.map_values(|id: PointId| r@.points[id]));
            assert(lists_each_key_once(order, r@.points));
            assert forall|id: PointId| #[trigger] r@.points.contains_key(id) implies r@.indexed.contains(r@.points[id]) by {
                let j = choose|j: int| 0 <= j < order.len() && order[j] == id;
                assert(r@.indexed[j] == r@.points[id]);
            }
        }
        r
    }
}


/// Adding new points never replaces a stored point.
pub proof fn lemma_add_new_points_keeps_stored(points: Map<PointId, PointView>, batch: Seq<PointView>)
    ensures
        forall|id: PointId| #[trigger] points.contains_key(id) ==>
            add_new_points(points, batch).contains_key(id) && add_new_points(points, batch)[id] == points[id],
    decreases batch.len(),
{
    if batch.len() > 0 {
        lemma_add_new_points_keeps_stored(points, batch.drop_last());
    }
}

/// After adding new points, every id of the batch is stored, and nothing
/// else besides the ids stored before.
pub proof fn lemma_add_new_points_domain(points: Map<PointId, PointView>, batch: Seq<PointView>)
    ensures
        forall|i: int| 0 <= i < batch.len() ==> add_new_points(points, batch).contains_key(#[trigger] batch[i].id),
        forall|id: PointId| #[trigger] add_new_points(points, batch).contains_key(id) ==>
            points.contains_key(id) || exists|i: int| 0 <= i < batch.len() && #[trigger] batch[i].id == id,
    decreases batch.len(),
{
    if batch.len() > 0 {
        let prefix = batch.drop_last();
        lemma_add_new_points_domain(points, prefix);
        assert forall|i: int| 0 <= i < batch.len() implies add_new_points(points, batch).contains_key(#[trigger] batch[i].id) by {
            if i < batch.len() - 1 {
                assert(prefix[i] == batch[i]);
            }
        }
        assert forall|id: PointId| #[trigger] add_new_points(points, batch).contains_key(id) implies
            points.contains_key(id) || exists|i: int| 0 <= i < batch.len() && #[trigger] batch[i].id == id
        by {
            if add_new_points(points, prefix).contains_key(id) && !points.contains_key(id) {
                let i = choose|i: int| 0 <= i < prefix.len() && #[trigger] prefix[i].id == id;
                assert(batch[i].id == id);
            } else if !points.contains_key(id) {
                assert(batch[batch.len() - 1].id == id);
            }
        }
    }
}

/// The points handed to the index by an upsert into an existing collection
/// are exactly those whose id was not stored: none had its id stored
/// before, no two share an id, and each is stored afterwards.
pub proof fn lemma_added_points_are_new(points: Map<PointId, PointView>, batch: Seq<PointView>)
    ensures
        forall|i: int| 0 <= i < added_points(points, batch).len() ==>
            !points.contains_key(#[trigger] added_points(points, batch)[i].id),
        forall|i: int, j: int| 0 <= i < j < added_points(points, batch).len() ==>
            #[trigger] added_points(points, batch)[i].id != #[trigger] added_points(points, batch)[j].id,
        forall|i: int| 0 <= i < added_points(points, batch).len() ==> {
            let p = #[trigger] added_points(points, batch)[i];
            add_new_points(points, batch).contains_key(p.id) && add_new_points(points, batch)[p.id] == p
        },
    decreases batch.len(),
{
    if batch.len() > 0 {
        let prefix = batch.drop_last();
        let x = batch.last();
        lemma_added_points_are_new(points, prefix);
        lemma_add_new_points_keeps_stored(points, prefix);
        let m = add_new_points(points, prefix);
        let prev = added_points(points, prefix);
        let added = added_points(points, batch);
        if !m.contains_key(x.id) {
            assert(added == prev.push(x));
            assert forall|i: int| 0 <= i < added.len() implies !points.contains_key(#[trigger] added[i].id) by {
                if i < prev.len() {
                    assert(added[i] == prev[i]);
                }
            }
            assert forall|i: int, j: int| 0 <= i < j < added.len() implies #[trigger] added[i].id != #[trigger] added[j].id by {
                assert(added[i] == prev[i]);
                if j < prev.len() {
                    assert(added[j] == prev[j]);
                } else {
                    assert(m.contains_key(prev[i].id));
                }
            }
            assert forall|i: int| 0 <= i < added.len() implies {
                let p = #[trigger] added[i];
                add_new_points(points, batch).contains_key(p.id) && add_new_points(points, batch)[p.id] == p
            } by {
                if i < prev.len() {
                    assert(added[i] == prev[i]);
                    assert(m.contains_key(prev[i].id));
                }
            }
        }
    }
}

/// Storing a batch by id stores every id of the batch, each under the
/// last point of the batch with that id.
pub proof fn lemma_points_by_id(batch: Seq<PointView>)
    ensures
        forall|i: int| 0 <= i < batch.len() ==> points_by_id(batch).contains_key(#[trigger] batch[i].id),
        forall|i: int| 0 <= i < batch.len() && (forall|j: int| i < j < batch.len() ==> batch[j].id != batch[i].id)
            ==> points_by_id(batch)[#[trigger] batch[i].id] == batch[i],
    decreases batch.len(),
{
    if batch.len() > 0 {
        let prefix = batch.drop_last();
        lemma_points_by_id(prefix);
        assert forall|i: int| 0 <= i < batch.len() implies points_by_id(batch).contains_key(#[trigger] batch[i].id) by {
            if i < prefix.len() {
                assert(prefix[i] == batch[i]);
            }
        }
        assert forall|i: int| 0 <= i < batch.len() && (forall|j: int| i < j < batch.len() ==> batch[j].id != batch[i].id)
            implies points_by_id(batch)[#[trigger] batch[i].id] == batch[i]
        by {
            if i < prefix.len() {
                assert(prefix[i] == batch[i]);
                assert(batch[batch.len() - 1].id != batch[i].id);
                assert forall|j: int| i < j < prefix.len() implies prefix[j].id != prefix[i].id by {
                    assert(prefix[j] == batch[j]);
                }
            }
        }
    }
}

/// Upserting a batch whose ids are all stored already changes nothing and
/// hands nothing to the index.
pub proof fn lemma_add_nothing_new(points: Map<PointId, PointView>, batch: Seq<PointView>)
    requires
        forall|i: int| 0 <= i < batch.len() ==> points.contains_key(#[trigger] batch[i].id),
    ensures
        add_new_points(points, batch) == points,
        added_points(points, batch) == Seq::<PointView>::empty(),
    decreases batch.len(),
{
    if batch.len() > 0 {
        let prefix = batch.drop_last();
        assert forall|i: int| 0 <= i < prefix.len() implies points.contains_key(#[trigger] prefix[i].id) by {
            assert(prefix[i] == batch[i]);
        }
        lemma_add_nothing_new(points, prefix);
        assert(points.contains_key(batch[batch.len() - 1].id));
    }
}

/// The points an upsert hands to the index, batch by batch: those of a
/// prefix of the batch come first among those of the whole batch.
pub proof fn lemma_added_prefix(points: Map<PointId, PointView>, batch: Seq<PointView>, i: int)
    requires
        0 <= i <= batch.len(),
    ensures
        added_points(points, batch.take(i)).len() <= added_points(points, batch).len(),
        forall|j: int| 0 <= j < added_points(points, batch.take(i)).len() ==>
            #[trigger] added_points(points, batch.take(i))[j] == added_points(points, batch)[j],
    decreases batch.len(),
{
    if i < batch.len() {
        let prefix = batch.drop_last();
        assert(prefix.take(i) =~= batch.take(i));
        lemma_added_prefix(points, prefix, i);
    } else {
        assert(batch.take(i) =~= batch);
    }
}

/// A stored id is one stored before or one of the points handed over.
pub proof fn lemma_added_domain(points: Map<PointId, PointView>, batch: Seq<PointView>)
    ensures
        forall|id: PointId| #[trigger] add_new_points(points, batch).contains_key(id) <==>
            points.contains_key(id) || added_points(points, batch).map_values(|p: PointView| p.id).contains(id),
    decreases batch.len(),
{
    if batch.len() > 0 {
        let prefix = batch.drop_last();
        lemma_added_domain(points, prefix);
        let prev = added_points(points, prefix);
        let prev_ids = prev.map_values(|p: PointView| p.id);
        let ids = added_points(points, batch).map_values(|p: PointView| p.id);
        if !add_new_points(points, prefix).contains_key(batch.last().id) {
            assert(ids =~= prev_ids.push(batch.last().id));
        } else {
            assert(ids =~= prev_ids);
        }
        assert forall|id: PointId| #[trigger] add_new_points(points, batch).contains_key(id) <==>
            points.contains_key(id) || ids.contains(id)
        by {
            assert(add_new_points(points, prefix).contains_key(id) == (points.contains_key(id) || prev_ids.contains(id)));
            if ids.len() > prev_ids.len() && id == batch.last().id {
                assert(ids[prev_ids.len() as int] == id);
            }
            if prev_ids.contains(id) {
                let j = choose|j: int| 0 <= j < prev_ids.len() && prev_ids[j] == id;
                assert(ids[j] == id);
            }
            if ids.contains(id) && !prev_ids.contains(id) {
                let j = choose|j: int| 0 <= j < ids.len() && ids[j] == id;
                if j < prev_ids.len() {
                    assert(prev_ids[j] == id);
                }
            }
        }
    }
}

/// Points that come before `x` in a sequence of one vector length have the
/// vector length of `x`.
proof fn lemma_prefix_uniform(full: Seq<PointView>, before: Seq<PointView>, x: PointView)
    requires
        same_lengths(full),
        before.len() < full.len(),
        forall|j: int| 0 <= j <= before.len() ==> #[trigger] before.push(x)[j] == full[j],
    ensures
        uniform_length(before, x.vector.len()),
{
    assert forall|j: int| 0 <= j < before.len() implies #[trigger] before[j].vector.len() == x.vector.len() by {
        assert(before.push(x)[j] == full[j]);
        assert(before.push(x)[before.len() as int] == full[before.len() as int]);
    }
}

/// Adding a point of the recorded vector length keeps the record right.
proof fn lemma_dimension_after_push(dimension: Option<usize>, s: Seq<PointView>, x: PointView, len: usize)
    requires
        dimension_fits(dimension, s),
        uniform_length(s, x.vector.len()),
        x.vector.len() == len,
    ensures
        dimension_fits(if dimension is None { Some(len) } else { dimension }, s.push(x)),
{
    let t = s.push(x);
    if s.len() > 0 {
        assert(s[0].vector.len() == x.vector.len());
    }
    assert forall|j: int| 0 <= j < t.len() implies #[trigger] t[j].vector.len() == len by {
        if j < s.len() {
            assert(t[j] == s[j]);
        }
    }
}

/// Each point an upsert adds is a point of the batch, unchanged: the first
/// point of the batch with an id that was not stored yet.
pub proof fn lemma_added_points_from_batch(points: Map<PointId, PointView>, batch: Seq<PointView>)
    ensures
        forall|i: int| 0 <= i < added_points(points, batch).len() ==> exists|k: int|
            0 <= k < batch.len() && #[trigger] batch[k] == #[trigger] added_points(points, batch)[i]
                && !points.contains_key(batch[k].id)
                && forall|m: int| 0 <= m < k ==> (#[trigger] batch[m]).id != batch[k].id,
    decreases batch.len(),
{
    if batch.len() > 0 {
        let prefix = batch.drop_last();
        let x = batch.last();
        lemma_added_points_from_batch(points, prefix);
        lemma_added_domain(points, prefix);
        let prev = added_points(points, prefix);
        let added = added_points(points, batch);
        assert forall|i: int| 0 <= i < added.len() implies exists|k: int|
            0 <= k < batch.len() && #[trigger] batch[k] == #[trigger] added[i]
                && !points.contains_key(batch[k].id)
                && forall|m: int| 0 <= m < k ==> (#[trigger] batch[m]).id != batch[k].id
        by {
            if i < prev.len() {
                assert(added[i] == prev[i]);
                let k = choose|k: int|
                    0 <= k < prefix.len() && #[trigger] prefix[k] == #[trigger] prev[i]
                        && !points.contains_key(prefix[k].id)
                        && forall|m: int| 0 <= m < k ==> (#[trigger] prefix[m]).id != prefix[k].id;
                assert(batch[k] == prefix[k]);
                assert forall|m: int| 0 <= m < k implies (#[trigger] batch[m]).id != batch[k].id by {
                    assert(batch[m] == prefix[m]);
                }
            } else {
                let k = batch.len() - 1;
                assert(!add_new_points(points, prefix).contains_key(x.id));
                assert(added[i] == x);
                assert forall|m: int| 0 <= m < k implies (#[trigger] batch[m]).id != batch[k].id by {
                    assert(batch[m] == prefix[m]);
                    lemma_add_new_points_domain(points, prefix);
                    assert(add_new_points(points, prefix).contains_key(prefix[m].id));
                }
            }
        }
    }
}

/// After an upsert, a point id that was not stored holds the first point of
/// the batch with that id, unchanged.
pub proof fn lemma_add_new_points_first_wins(points: Map<PointId, PointView>, batch: Seq<PointView>, k: int)
    requires
        0 <= k < batch.len(),
        !points.contains_key(batch[k].id),
        forall|m: int| 0 <= m < k ==> (#[trigger] batch[m]).id != batch[k].id,
    ensures
        add_new_points(points, batch).contains_key(batch[k].id),
        add_new_points(points, batch)[batch[k].id] == batch[k],
    decreases batch.len(),
{
    let prefix = batch.drop_last();
    let id = batch[k].id;
    if k < batch.len() - 1 {
        assert forall|m: int| 0 <= m < k implies (#[trigger] prefix[m]).id != prefix[k].id by {
            assert(prefix[m] == batch[m]);
        }
        lemma_add_new_points_first_wins(points, prefix, k);
    } else {
        lemma_added_domain(points, prefix);
        lemma_added_points_from_batch(points, prefix);
        if add_new_points(points, prefix).contains_key(id) {
            let ids = added_points(points, prefix).map_values(|p: PointView| p.id);
            assert(ids.contains(id));
            let j = choose|j: int| 0 <= j < ids.len() && ids[j] == id;
            let q = added_points(points, prefix)[j];
            let m = choose|m: int|
                0 <= m < prefix.len() && #[trigger] prefix[m] == #[trigger] added_points(points, prefix)[j]
                    && !points.contains_key(prefix[m].id)
                    && forall|n: int| 0 <= n < m ==> (#[trigger] prefix[n]).id != prefix[m].id;
            assert(batch[m] == prefix[m]);
            assert(batch[m].id == id);
        }
    }
}

} // verus!
