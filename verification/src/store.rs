use vstd::prelude::*;

use crate::collection::{
    same_lengths, uniform_batch, add_new_points, added_points, lemma_add_new_points_domain, lemma_add_new_points_keeps_stored,
    lemma_add_nothing_new, lemma_added_points_are_new, lemma_points_by_id, point_views, points_by_id, Collection,
    CollectionView, PointId,
};
use crate::index::{uniform_length, Index};
use crate::point::{Point, PointView};
use crate::query::{Query, QueryResult, QueryResultView};
use crate::rank::{
    comparable, has_comparable_distances, rank_results, ranked, result_views, sorted_by_distance,
    lemma_ranked,
};

verus! {

/// Why a search could not be answered.
#[derive(Debug, Clone, Copy, PartialEq, Eq, Structural)]
pub enum ScrollError {
    /// No collection has the requested name.
    CollectionNotFound,
    /// The query asks for more candidates than the collection's index holds
    /// points, or for more than can be searched for (over half the range of
    /// `usize`).
    NotEnoughPoints,
    /// The query's vector has another length than the vectors in the
    /// collection's index.
    VectorLengthMismatch,
    /// The index returned two or more candidates, one of them at a NaN
    /// distance, so the candidates have no order by distance.
    IncomparableDistances,
}

/// Why an upsert was refused.
#[derive(Debug, Clone, Copy, PartialEq, Eq, Structural)]
pub enum UpsertError {
    /// The points the upsert would hand to the collection's index do not
    /// all have vectors of the length of those the index holds, and of each
    /// other.
    VectorLengthMismatch,
}

/// The collections of the store, by name.
pub struct Twellik<I: Index> {
    collections: Vec<Collection<I>>,
}

/// The collection `name` of `store` after upserting `batch` into it: into
/// an existing collection only points with new ids are added (and handed
/// to its index); a missing collection is created from the whole batch.
pub open spec fn upserted(
    store: Map<Seq<char>, CollectionView>,
    name: Seq<char>,
    batch: Seq<PointView>,
) -> CollectionView {
    if store.contains_key(name) {
        let c = store[name];
        CollectionView {
            name: c.name,
            points: add_new_points(c.points, batch),
            indexed: c.indexed + added_points(c.points, batch),
        }
    } else {
        CollectionView { name, points: points_by_id(batch), indexed: batch }
    }
}

impl<I: Index> View for Twellik<I> {
    type V = Map<Seq<char>, CollectionView>;

    closed spec fn view(&self) -> Map<Seq<char>, CollectionView> {
        Map::new(
            |n: Seq<char>| self.has_name(n),
            |n: Seq<char>| self.collections@[self.position_of(n)]@,
        )
    }
}

impl<I: Index> Twellik<I> {
    closed spec fn has_name(self, n: Seq<char>) -> bool {
        exists|i: int| 0 <= i < self.collections.len() && #[trigger] self.collections@[i]@.name == n
    }

    closed spec fn position_of(self, n: Seq<char>) -> int {
        choose|i: int| 0 <= i < self.collections.len() && #[trigger] self.collections@[i]@.name == n
    }

    closed spec fn distinct_names(self) -> bool {
        forall|i: int, j: int|
            0 <= i < self.collections.len() && 0 <= j < self.collections.len() && i != j
                ==> #[trigger] self.collections@[i]@.name != #[trigger] self.collections@[j]@.name
    }

    /// Collection names are distinct, and in every collection each stored
    /// point has been handed to the index.
    #[verifier::type_invariant]
    closed spec fn wf(self) -> bool {
        &&& self.distinct_names()
        &&& forall|i: int| 0 <= i < self.collections.len() ==> (#[trigger] self.collections@[i]).wf()
    }

    proof fn lemma_entry(self, i: int)
        requires
            self.distinct_names(),
            0 <= i < self.collections.len(),
        ensures
            self@.contains_key(self.collections@[i]@.name),
            self@[self.collections@[i]@.name] == self.collections@[i]@,
    {
        let n = self.collections@[i]@.name;
        assert(self.has_name(n));
        let j = self.position_of(n);
        assert(self.collections@[j]@.name == n);
    }

    /// Every stored collection is named by its key in the view.
    pub proof fn lemma_names(self)
        ensures
            forall|n: Seq<char>| #[trigger] self@.contains_key(n) ==> self@[n].name == n,
    {
        assert forall|n: Seq<char>| #[trigger] self@.contains_key(n) implies self@[n].name == n by {
            let j = self.position_of(n);
            assert(self.collections@[j]@.name == n);
        }
    }

    /// `self` is `old` with collection `c` stored under its name, either in
    /// place of the collection with that name or as a new last entry.
    proof fn lemma_store(self, old: Twellik<I>, c: Collection<I>)
        requires
            old.distinct_names(),
            ({
                ||| exists|i: int|
                    0 <= i < old.collections.len() && #[trigger] old.collections@[i]@.name == c@.name
                        && self.collections@ == old.collections@.update(i, c)
                ||| (forall|i: int| 0 <= i < old.collections.len() ==> old.collections@[i]@.name != c@.name)
                        && self.collections@ == old.collections@.push(c)
            }),
        ensures
            self.distinct_names(),
            self@ == old@.insert(c@.name, c@),
            forall|i: int| 0 <= i < self.collections.len() ==>
                #[trigger] self.collections@[i] == c || old.collections@.contains(self.collections@[i]),
    {
        let k = c@.name;
        let n = old.collections.len() as int;
        let ghost replaced = exists|i: int|
            0 <= i < old.collections.len() && #[trigger] old.collections@[i]@.name == k
                && self.collections@ == old.collections@.update(i, c);
        let pos: int = if replaced {
            choose|i: int|
                0 <= i < old.collections.len() && #[trigger] old.collections@[i]@.name == k
                    && self.collections@ == old.collections@.update(i, c)
        } else {
            n
        };
        assert(self.collections@[pos] == c);
        assert forall|i: int| 0 <= i < self.collections.len() && i != pos
            implies #[trigger] self.collections@[i] == old.collections@[i]
        by {}
        assert forall|i: int, j: int|
            0 <= i < self.collections.len() && 0 <= j < self.collections.len() && i != j
                implies #[trigger] self.collections@[i]@.name != #[trigger] self.collections@[j]@.name
        by {
            if i != pos && j != pos {
                assert(self.collections@[i] == old.collections@[i]);
                assert(self.collections@[j] == old.collections@[j]);
            } else if i == pos {
                assert(self.collections@[j] == old.collections@[j]);
            } else {
                assert(self.collections@[i] == old.collections@[i]);
            }
        }
        self.lemma_entry(pos);
        assert forall|name: Seq<char>| #![auto] self@.contains_key(name) == old@.insert(k, c@).contains_key(name) by {
            if self.has_name(name) {
                let j = self.position_of(name);
                if j != pos {
                    assert(self.collections@[j] == old.collections@[j]);
                    assert(old.collections@[j]@.name == name);
                }
            }
            if old.has_name(name) {
                let j = old.position_of(name);
                if j != pos {
                    assert(self.collections@[j] == old.collections@[j]);
                    assert(self.collections@[j]@.name == name);
                }
            }
        }
        assert forall|name: Seq<char>| #[trigger] self@.contains_key(name) implies self@[name] == old@.insert(k, c@)[name] by {
            let j = self.position_of(name);
            assert(self.collections@[j]@.name == name);
            self.lemma_entry(j);
            if name != k {
                assert(j != pos);
                assert(self.collections@[j] == old.collections@[j]);
                old.lemma_entry(j);
            }
        }
        assert(self@ =~= old@.insert(k, c@));
        assert forall|i: int| 0 <= i < self.collections.len() implies
            #[trigger] self.collections@[i] == c || old.collections@.contains(self.collections@[i])
        by {
            if i != pos {
                assert(self.collections@[i] == old.collections@[i]);
            }
        }
    }

    proof fn lemma_wf_after_store(self, old: Twellik<I>, c: Collection<I>)
        requires
            old.wf(),
            c.wf(),
            self.distinct_names(),
            forall|i: int| 0 <= i < self.collections.len() ==>
                #[trigger] self.collections@[i] == c || old.collections@.contains(self.collections@[i]),
        ensures
            self.wf(),
    {
        assert forall|i: int| 0 <= i < self.collections.len() implies (#[trigger] self.collections@[i]).wf() by {
            if self.collections@[i] != c {
                let j = choose|j: int| 0 <= j < old.collections.len() && old.collections@[j] == self.collections@[i];
                assert(old.collections@[j].wf());
            }
        }
    }

    /// The similarity index of the collection named `name`.
    pub closed spec fn index_named(&self, name: Seq<char>) -> I {
        self.collections@[self.position_of(name)].similarity_index()
    }

    /// The index of a stored collection holds the points that the view
    /// records as handed to it.
    pub proof fn lemma_index_named(self, name: Seq<char>)
        requires
            self@.contains_key(name),
        ensures
            self.index_named(name).inserted() == self@[name].indexed,
    {
        self.collections@[self.position_of(name)].lemma_indexed();
    }

    /// A store without collections.
    pub fn new() -> (r: Twellik<I>)
        ensures
            r@ == Map::<Seq<char>, CollectionView>::empty(),
    {
        let r = Twellik { collections: Vec::new() };
        assert(r@ =~= Map::<Seq<char>, CollectionView>::empty());
        r
    }

    fn find(&self, name: &String) -> (r: Option<usize>)
        ensures
            match r {
                Some(i) => i < self.collections.len() && self.collections@[i as int]@.name == name@,
                None => forall|i: int| 0 <= i < self.collections.len() ==> self.collections@[i]@.name != name@,
            },
    {
        let mut i: usize = 0;
        while i < self.collections.len()
            invariant
                i <= self.collections.len(),
                forall|j: int| 0 <= j < i ==> self.collections@[j]@.name != name@,
            decreases self.collections.len() - i,
        {
            if self.collections[i].name().eq(name) {
                return Some(i);
            }
            i = i + 1;
        }
        None
    }

    /// The collection named `name`, if there is one.
    pub fn collection(&self, name: &str) -> (r: Option<&Collection<I>>)
        ensures
            match r {
                Some(c) => {
                    &&& self@.contains_key(name@)
                    &&& c@ == self@[name@]
                    &&& c.similarity_index() == self.index_named(name@)
                    &&& c.wf()
                },
                None => !self@.contains_key(name@),
            },
    {
        proof {
            use_type_invariant(self);
        }
        let key = name.to_owned();
        match self.find(&key) {
            Some(i) => {
                proof {
                    self.lemma_entry(i as int);
                    let n = self.collections@[i as int]@.name;
                    let j = self.position_of(n);
                    assert(self.collections@[j]@.name == n);
                    assert(j == i);
                }
                Some(&self.collections[i])
            },
            None => {
                assert(!self.has_name(name@));
                None
            },
        }
    }

    /// Stores `coll` under its name, replacing any collection of that name.
    pub fn insert_collection(&mut self, coll: Collection<I>)
        requires
            coll.wf(),
        ensures
            final(self)@ == old(self)@.insert(coll@.name, coll@),
    {
        proof {
            use_type_invariant(&*self);
        }
        let ghost before = *self;
        let ghost c = coll;
        let found = self.find(coll.name());
        let mut taken = Twellik { collections: Vec::new() };
        std::mem::swap(self, &mut taken);
        let mut collections = taken.collections;
        match found {
            Some(i) => {
                collections.set(i, coll);
                assert(before.collections@[i as int]@.name == c@.name);
            },
            None => {
                collections.push(coll);
            },
        }
        proof {
            let r = Twellik { collections };
            r.lemma_store(before, c);
            r.lemma_wf_after_store(before, c);
        }
        *self = Twellik { collections };
    }

    /// Upserts `points` into the collection `coll_name`. Into an existing
    /// collection only points whose id is not stored yet are added, each
    /// also handed to the collection's index; a missing collection is
    /// created holding all of `points` by id, all handed to a new index.
    /// The upsert is refused, changing nothing, when the points handed to the
    /// index would not all have vectors of one length.
    pub fn upsert_points(&mut self, coll_name: &str, points: Vec<Point>) -> (r: Result<(), UpsertError>)
        ensures
            r is Err <==> !same_lengths(upserted(old(self)@, coll_name@, point_views(points@)).indexed),
            r is Ok ==> final(self)@ == old(self)@.insert(
                coll_name@,
                upserted(old(self)@, coll_name@, point_views(points@)),
            ),
            r is Err ==> final(self)@ == old(self)@,
    {
        proof {
            use_type_invariant(&*self);
        }
        let ghost before = *self;
        let ghost batch = point_views(points@);
        let name = coll_name.to_owned();
        let found = self.find(&name);
        match found {
            Some(i) => {
                proof {
                    before.lemma_entry(i as int);
                    assert(self.collections@[i as int].wf());
                }
                if !self.collections[i].accepts(&points) {
                    return Err(UpsertError::VectorLengthMismatch);
                }
            },
            None => {
                if !uniform_batch(&points) {
                    proof {
                        assert(!before.has_name(coll_name@));
                    }
                    return Err(UpsertError::VectorLengthMismatch);
                }
            },
        }
        let mut taken = Twellik { collections: Vec::new() };
        std::mem::swap(self, &mut taken);
        let mut collections = taken.collections;
        match found {
            Some(i) => {
                let mut c = collections.remove(i);
                assert(c == before.collections@[i as int]);
                c.upsert(points);
                let ghost cv = c;
                collections.insert(i, c);
                proof {
                    assert(collections@ =~= before.collections@.update(i as int, cv));
                    let r = Twellik { collections };
                    r.lemma_store(before, cv);
                    r.lemma_wf_after_store(before, cv);
                    assert(cv@ == upserted(before@, coll_name@, batch));
                }
            },
            None => {
                let c: Collection<I> = Collection::with_points(name, points);
                let ghost cv = c;
                collections.push(c);
                proof {
                    assert(!before.has_name(coll_name@));
                    let r = Twellik { collections };
                    r.lemma_store(before, cv);
                    r.lemma_wf_after_store(before, cv);
                }
            },
        }
        *self = Twellik { collections };
        Ok(())
    }

    /// Searches the collection `coll_name` with `query`: the candidates that
    /// its index answers, in order of ascending distance (candidates at equal
    /// distances in the order the index gave them), the first `query.k` of
    /// them. The search is refused when the index holds fewer than `query.k`
    /// points, when the query's vector has another length than those in the
    /// index, and when the candidates cannot be ordered (two or more came and
    /// one is at a NaN distance).
    pub fn scroll_points(&self, coll_name: &str, query: &Query) -> (r: Result<Vec<QueryResult>, ScrollError>)
        ensures
            r matches Err(ScrollError::CollectionNotFound) <==> !self@.contains_key(coll_name@),
            r matches Err(ScrollError::NotEnoughPoints) <==> self@.contains_key(coll_name@)
                && (query.k > self@[coll_name@].indexed.len() || query.k > usize::MAX / 2),
            r matches Err(ScrollError::VectorLengthMismatch) <==> self@.contains_key(coll_name@)
                && query.k <= self@[coll_name@].indexed.len() && query.k <= usize::MAX / 2
                && !uniform_length(self@[coll_name@].indexed, query.vector@.len()),
            r matches Err(ScrollError::IncomparableDistances) <==> self@.contains_key(coll_name@)
                && query.k <= self@[coll_name@].indexed.len() && query.k <= usize::MAX / 2
                && uniform_length(self@[coll_name@].indexed, query.vector@.len())
                && !comparable(self.index_named(coll_name@).candidates(query@)),
            r matches Ok(found) ==> {
                &&& self@.contains_key(coll_name@)
                &&& result_views(found@) == ranked(self.index_named(coll_name@).candidates(query@), query.k)
                &&& found.len() == query.k
                &&& sorted_by_distance(result_views(found@))
                &&& forall|i: int| 0 <= i < found.len() ==>
                    self@[coll_name@].indexed.contains(#[trigger] result_views(found@)[i].point)
            },
    {
        let coll = match self.collection(coll_name) {
            Some(c) => c,
            None => {
                return Err(ScrollError::CollectionNotFound);
            },
        };
        proof {
            coll.lemma_indexed();
        }
        let held = coll.index().len();
        if query.k > held || query.k > usize::MAX / 2 {
            return Err(ScrollError::NotEnoughPoints);
        }
        match coll.dimension() {
            Some(d) => {
                if d != query.vector.len() {
                    proof {
                        assert(coll@.indexed[0].vector.len() == d);
                    }
                    return Err(ScrollError::VectorLengthMismatch);
                }
            },
            None => {},
        }
        let matched = coll.index().scroll(query);
        let ghost candidates = result_views(matched@);
        let r = rank_candidates(matched, query.k);
        proof {
            lemma_ranked(candidates, query.k);
            if r is Ok {
                let found = r->Ok_0;
                assert(result_views(found@).len() == found@.len());
                let cands = coll.similarity_index().candidates(query@);
                assert forall|i: int| 0 <= i < found.len() implies
                    self@[coll_name@].indexed.contains(#[trigger] result_views(found@)[i].point)
                by {
                    let x = result_views(found@)[i];
                    assert(cands.contains(x));
                    let j = choose|j: int| 0 <= j < cands.len() && cands[j] == x;
                    assert(coll.similarity_index().inserted().contains(cands[j].point));
                }
            }
        }
        r
    }
}

/// Orders the candidates by ascending distance, candidates at equal
/// distances keeping their order, and keeps the first `k`; refuses
/// candidates that cannot be ordered (two or more, one at a NaN distance).
pub fn rank_candidates(matched: Vec<QueryResult>, k: usize) -> (r: Result<Vec<QueryResult>, ScrollError>)
    ensures
        r is Err <==> !comparable(result_views(matched@)),
        r matches Err(e) ==> e == ScrollError::IncomparableDistances,
        r matches Ok(found) ==> result_views(found@) == ranked(result_views(matched@), k),
{
    if !has_comparable_distances(&matched) {
        return Err(ScrollError::IncomparableDistances);
    }
    Ok(rank_results(matched, k))
}

/// An upsert never replaces a point already stored in the collection.
pub proof fn lemma_upsert_keeps_stored_points(
    store: Map<Seq<char>, CollectionView>,
    name: Seq<char>,
    batch: Seq<PointView>,
)
    requires
        store.contains_key(name),
    ensures
        forall|id: PointId| #[trigger] store[name].points.contains_key(id) ==>
            upserted(store, name, batch).points.contains_key(id)
                && upserted(store, name, batch).points[id] == store[name].points[id],
{
    lemma_add_new_points_keeps_stored(store[name].points, batch);
}

/// After an upsert, every point id of the batch is stored in the collection.
pub proof fn lemma_upsert_stores_batch(
    store: Map<Seq<char>, CollectionView>,
    name: Seq<char>,
    batch: Seq<PointView>,
)
    ensures
        forall|i: int| 0 <= i < batch.len() ==>
            upserted(store, name, batch).points.contains_key(#[trigger] batch[i].id),
{
    if store.contains_key(name) {
        lemma_add_new_points_domain(store[name].points, batch);
    } else {
        lemma_points_by_id(batch);
    }
}

/// An upsert into an existing collection hands its index only points whose
/// id was not stored yet, each id at most once.
pub proof fn lemma_upsert_indexes_new_ids_once(
    store: Map<Seq<char>, CollectionView>,
    name: Seq<char>,
    batch: Seq<PointView>,
)
    requires
        store.contains_key(name),
    ensures
        ({
            let added = added_points(store[name].points, batch);
            &&& upserted(store, name, batch).indexed == store[name].indexed + added
            &&& forall|i: int| 0 <= i < added.len() ==> !store[name].points.contains_key(#[trigger] added[i].id)
            &&& forall|i: int, j: int| 0 <= i < j < added.len() ==> #[trigger] added[i].id != #[trigger] added[j].id
        }),
{
    lemma_added_points_are_new(store[name].points, batch);
}

/// An upsert changes only the collection it names; after it, that
/// collection exists.
pub proof fn lemma_upsert_is_local(
    store: Map<Seq<char>, CollectionView>,
    name: Seq<char>,
    batch: Seq<PointView>,
    other: Seq<char>,
)
    requires
        other != name,
    ensures
        store.insert(name, upserted(store, name, batch)).contains_key(name),
        store.insert(name, upserted(store, name, batch)).contains_key(other) == store.contains_key(other),
        store.contains_key(other) ==> store.insert(name, upserted(store, name, batch))[other] == store[other],
{
}

/// Upserting the same batch into the same collection twice leaves the
/// collection, its points and what its index holds as the first upsert
/// left them.
pub proof fn lemma_upsert_twice(
    store: Map<Seq<char>, CollectionView>,
    name: Seq<char>,
    batch: Seq<PointView>,
)
    ensures
        ({
            let once = store.insert(name, upserted(store, name, batch));
            once.insert(name, upserted(once, name, batch)) == once
        }),
{
    let once = store.insert(name, upserted(store, name, batch));
    lemma_upsert_stores_batch(store, name, batch);
    let c = once[name];
    assert forall|i: int| 0 <= i < batch.len() implies c.points.contains_key(#[trigger] batch[i].id) by {
        assert(upserted(store, name, batch).points.contains_key(batch[i].id));
    }
    lemma_add_nothing_new(c.points, batch);
    assert(upserted(once, name, batch) == c) by {
        assert(c.indexed + Seq::<PointView>::empty() =~= c.indexed);
    }
    assert(once.insert(name, c) =~= once);
}

} // verus!
