use vstd::prelude::*;

verus! {

/// Text metadata attached to a point or a query: a map from field names
/// to field values, holding at most one value per field name.
#[derive(Debug)]
pub struct Payload {
    keys: Vec<String>,
    values: Vec<String>,
}

/// `item` carries every field of `query`, each with the same value.
pub open spec fn payload_matches(item: Map<Seq<char>, Seq<char>>, query: Map<Seq<char>, Seq<char>>) -> bool {
    forall|k: Seq<char>| #[trigger] query.contains_key(k) ==> item.contains_key(k) && item[k] == query[k]
}

/// The map obtained by inserting `pairs` one after the other into an empty
/// map, so that a later pair replaces an earlier one with the same key.
pub open spec fn pairs_map(pairs: Seq<(Seq<char>, Seq<char>)>) -> Map<Seq<char>, Seq<char>>
    decreases pairs.len(),
{
    if pairs.len() == 0 {
        Map::empty()
    } else {
        pairs_map(pairs.drop_last()).insert(pairs.last().0, pairs.last().1)
    }
}

/// The text views of a sequence of string pairs.
pub open spec fn pair_views(pairs: Seq<(String, String)>) -> Seq<(Seq<char>, Seq<char>)> {
    pairs.map_values(|p: (String, String)| (p.0@, p.1@))
}

impl View for Payload {
    type V = Map<Seq<char>, Seq<char>>;

    closed spec fn view(&self) -> Map<Seq<char>, Seq<char>> {
        Map::new(
            |k: Seq<char>| self.has_key_at(k),
            |k: Seq<char>| self.values@[self.index_of(k)]@,
        )
    }
}

impl Payload {
    /// The field names are pairwise distinct, and each has one value.
    #[verifier::type_invariant]
    closed spec fn wf(self) -> bool {
        &&& self.keys.len() == self.values.len()
        &&& forall|i: int, j: int|
            0 <= i < self.keys.len() && 0 <= j < self.keys.len() && i != j
                ==> #[trigger] self.keys@[i]@ != #[trigger] self.keys@[j]@
    }

    closed spec fn has_key_at(self, k: Seq<char>) -> bool {
        exists|i: int| 0 <= i < self.keys.len() && #[trigger] self.keys@[i]@ == k
    }

    closed spec fn index_of(self, k: Seq<char>) -> int {
        choose|i: int| 0 <= i < self.keys.len() && #[trigger] self.keys@[i]@ == k
    }

    proof fn lemma_entry(self, i: int)
        requires
            self.wf(),
            0 <= i < self.keys.len(),
        ensures
            self@.contains_key(self.keys@[i]@),
            self@[self.keys@[i]@] == self.values@[i]@,
    {
        let k = self.keys@[i]@;
        assert(self.has_key_at(k));
        let j = self.index_of(k);
        assert(self.keys@[j]@ == k);
    }

    /// A payload with no fields.
    pub fn new() -> (r: Payload)
        ensures
            r@ == Map::<Seq<char>, Seq<char>>::empty(),
    {
        let r = Payload { keys: Vec::new(), values: Vec::new() };
        assert(r@ =~= Map::<Seq<char>, Seq<char>>::empty());
        r
    }

    fn find(&self, key: &String) -> (r: Option<usize>)
        ensures
            match r {
                Some(i) => i < self.keys.len() && self.keys@[i as int]@ == key@,
                None => forall|i: int| 0 <= i < self.keys.len() ==> self.keys@[i]@ != key@,
            },
    {
        let mut i: usize = 0;
        while i < self.keys.len()
            invariant
                i <= self.keys.len(),
                forall|j: int| 0 <= j < i ==> self.keys@[j]@ != key@,
            decreases self.keys.len() - i,
        {
            if self.keys[i].eq(key) {
                return Some(i);
            }
            i = i + 1;
        }
        None
    }

    /// The value of field `key`, if the payload has that field.
    pub fn get(&self, key: &String) -> (r: Option<&String>)
        ensures
            match r {
                Some(v) => self@.contains_key(key@) && self@[key@] == v@,
                None => !self@.contains_key(key@),
            },
    {
        proof {
            use_type_invariant(self);
        }
        match self.find(key) {
            Some(i) => {
                proof {
                    self.lemma_entry(i as int);
                }
                Some(&self.values[i])
            },
            None => {
                assert(!self.has_key_at(key@));
                None
            },
        }
    }

    /// Sets field `key` to `value`, replacing any earlier value of that field.
    pub fn insert(&mut self, key: String, value: String)
        ensures
            final(self)@ == old(self)@.insert(key@, value@),
    {
        proof {
            use_type_invariant(&*self);
        }
        let ghost old_self = *self;
        let found = self.find(&key);
        let mut taken = Payload::new();
        std::mem::swap(self, &mut taken);
        let Payload { mut keys, mut values } = taken;
        match found {
            Some(i) => {
                values.set(i, value);
                assert(old_self.keys@[i as int]@ == key@);
                assert(values@ =~= old_self.values@.update(i as int, values@[i as int]));
            },
            None => {
                keys.push(key);
                values.push(value);
                assert(keys@.drop_last() =~= old_self.keys@);
                assert(values@.drop_last() =~= old_self.values@);
            },
        }
        let r = Payload { keys, values };
        proof {
            r.lemma_insert(old_self, key@, value@);
        }
        *self = r;
    }

    /// `self` is `old` with field `k` set to `v`, either in place of the
    /// entry that had field `k` or as a new last entry.
    proof fn lemma_insert(self, old: Payload, k: Seq<char>, v: Seq<char>)
        requires
            old.wf(),
            self.wf(),
            ({
                ||| exists|i: int|
                    0 <= i < old.keys.len() && #[trigger] old.keys@[i]@ == k
                        && self.keys@ == old.keys@ && self.values@ == old.values@.update(i, self.values@[i])
                        && self.values@[i]@ == v
                ||| (forall|i: int| 0 <= i < old.keys.len() ==> old.keys@[i]@ != k)
                        && self.keys@.len() == old.keys@.len() + 1
                        && self.keys@.drop_last() == old.keys@ && self.values@.drop_last() == old.values@
                        && self.keys@.last()@ == k && self.values@.last()@ == v
            }),
        ensures
            self@ == old@.insert(k, v),
    {
        let n = old.keys.len() as int;
        assert forall|key: Seq<char>| #![auto]
            self@.contains_key(key) == old@.insert(k, v).contains_key(key)
        by {
            if self.has_key_at(key) {
                let j = self.index_of(key);
                if j < n {
                    assert(self.keys@[j] == old.keys@[j]);
                    assert(old.keys@[j]@ == key);
                }
            }
            if old.has_key_at(key) {
                let j = old.index_of(key);
                assert(self.keys@[j] == old.keys@[j]);
                assert(self.keys@[j]@ == key);
            }
            if key == k && !old.has_key_at(key) {
                assert(self.keys@[n]@ == key);
            }
        }
        assert forall|key: Seq<char>| #[trigger] self@.contains_key(key)
            implies self@[key] == old@.insert(k, v)[key]
        by {
            let j = self.index_of(key);
            assert(self.keys@[j]@ == key);
            self.lemma_entry(j);
            if key != k {
                assert(j < n);
                assert(self.keys@[j] == old.keys@[j]);
                assert(self.values@[j] == old.values@[j]);
                old.lemma_entry(j);
            }
        }
        assert(self@ =~= old@.insert(k, v));
    }
}

impl Payload {
    /// Builds a payload from `pairs` taken in order; of two pairs with the
    /// same field name the later one wins.
    pub fn from_pairs(pairs: Vec<(String, String)>) -> (r: Payload)
        ensures
            r@ == pairs_map(pair_views(pairs@)),
    {
        let mut r = Payload::new();
        let n = pairs.len();
        let mut i: usize = 0;
        while i < n
            invariant
                n == pairs.len(),
                i <= n,
                r@ == pairs_map(pair_views(pairs@).take(i as int)),
            decreases n - i,
        {
            let key = pairs[i].0.clone();
            let value = pairs[i].1.clone();
            r.insert(key, value);
            proof {
                let pv = pair_views(pairs@);
                assert(pv.take(i + 1).drop_last() =~= pv.take(i as int));
            }
            i = i + 1;
        }
        proof {
            assert(pair_views(pairs@).take(n as int) =~= pair_views(pairs@));
        }
        r
    }

    /// The fields of the payload as (name, value) pairs, each name once,
    /// in an unspecified order.
    pub fn entries(&self) -> (r: Vec<(String, String)>)
        ensures
            forall|i: int, j: int|
                0 <= i < r.len() && 0 <= j < r.len() && i != j ==> #[trigger] r@[i].0@ != #[trigger] r@[j].0@,
            forall|i: int|
                0 <= i < r.len() ==> #[trigger] self@.contains_key(r@[i].0@) && self@[r@[i].0@] == r@[i].1@,
            forall|k: Seq<char>| #[trigger] self@.contains_key(k) ==> exists|i: int| 0 <= i < r.len() && #[trigger] r@[i].0@ == k,
    {
        proof {
            use_type_invariant(self);
        }
        let mut r: Vec<(String, String)> = Vec::new();
        let n = self.keys.len();
        let mut i: usize = 0;
        while i < n
            invariant
                n == self.keys.len(),
                self.wf(),
                i <= n,
                r.len() == i,
                forall|j: int| 0 <= j < i ==> #[trigger] r@[j].0@ == self.keys@[j]@ && r@[j].1@ == self.values@[j]@,
            decreases n - i,
        {
            r.push((self.keys[i].clone(), self.values[i].clone()));
            i = i + 1;
        }
        assert forall|j: int| 0 <= j < r.len() implies #[trigger] self@.contains_key(r@[j].0@) && self@[r@[j].0@] == r@[j].1@
        by {
            self.lemma_entry(j);
        }
        assert forall|k: Seq<char>| #[trigger] self@.contains_key(k) implies exists|j: int| 0 <= j < r.len() && #[trigger] r@[j].0@ == k
        by {
            let j = self.index_of(k);
            assert(r@[j].0@ == k);
        }
        r
    }

    /// A field-by-field copy of the payload.
    pub fn duplicate(&self) -> (r: Payload)
        ensures
            r@ == self@,
    {
        proof {
            use_type_invariant(self);
        }
        let mut keys: Vec<String> = Vec::new();
        let mut values: Vec<String> = Vec::new();
        let n = self.keys.len();
        let mut i: usize = 0;
        while i < n
            invariant
                n == self.keys.len(),
                self.wf(),
                i <= n,
                keys.len() == i,
                values.len() == i,
                forall|j: int| 0 <= j < i ==> #[trigger] keys@[j] == self.keys@[j],
                forall|j: int| 0 <= j < i ==> #[trigger] values@[j] == self.values@[j],
            decreases n - i,
        {
            keys.push(self.keys[i].clone());
            values.push(self.values[i].clone());
            i = i + 1;
        }
        assert(keys@ =~= self.keys@);
        assert(values@ =~= self.values@);
        Payload { keys, values }
    }
}

impl Clone for Payload {
    /// A copy of the payload with the same fields.
    fn clone(&self) -> (r: Payload)
        ensures
            r@ == self@,
    {
        self.duplicate()
    }
}

/// Building from pairs keeps every pair that no later pair overrides: its
/// field is present with exactly its value, whatever that value is.
pub proof fn lemma_pairs_map_keeps_pair(pairs: Seq<(Seq<char>, Seq<char>)>, i: int)
    requires
        0 <= i < pairs.len(),
        forall|j: int| i < j < pairs.len() ==> (#[trigger] pairs[j]).0 != pairs[i].0,
    ensures
        pairs_map(pairs).contains_key(pairs[i].0),
        pairs_map(pairs)[pairs[i].0] == pairs[i].1,
    decreases pairs.len(),
{
    if i < pairs.len() - 1 {
        let prefix = pairs.drop_last();
        assert forall|j: int| i < j < prefix.len() implies (#[trigger] prefix[j]).0 != prefix[i].0 by {
            assert(prefix[j] == pairs[j]);
        }
        lemma_pairs_map_keeps_pair(prefix, i);
        assert(pairs[pairs.len() - 1].0 != pairs[i].0);
    }
}

/// Building from pairs has exactly the fields named by some pair.
pub proof fn lemma_pairs_map_fields(pairs: Seq<(Seq<char>, Seq<char>)>)
    ensures
        forall|k: Seq<char>| #[trigger] pairs_map(pairs).contains_key(k) <==>
            exists|i: int| 0 <= i < pairs.len() && (#[trigger] pairs[i]).0 == k,
    decreases pairs.len(),
{
    if pairs.len() > 0 {
        let prefix = pairs.drop_last();
        lemma_pairs_map_fields(prefix);
        assert forall|k: Seq<char>| #[trigger] pairs_map(pairs).contains_key(k) <==>
            exists|i: int| 0 <= i < pairs.len() && (#[trigger] pairs[i]).0 == k
        by {
            if pairs_map(prefix).contains_key(k) {
                let i = choose|i: int| 0 <= i < prefix.len() && (#[trigger] prefix[i]).0 == k;
                assert(pairs[i] == prefix[i]);
            }
            if exists|i: int| 0 <= i < pairs.len() && (#[trigger] pairs[i]).0 == k {
                let i = choose|i: int| 0 <= i < pairs.len() && (#[trigger] pairs[i]).0 == k;
                if i < prefix.len() {
                    assert(prefix[i] == pairs[i]);
                }
            }
        }
    }
}

/// A query without fields matches every payload.
pub proof fn lemma_empty_query_matches(item: Map<Seq<char>, Seq<char>>)
    ensures
        payload_matches(item, Map::empty()),
{
}

/// Every payload matches itself as a query.
pub proof fn lemma_payload_matches_itself(item: Map<Seq<char>, Seq<char>>)
    ensures
        payload_matches(item, item),
{
}

/// Matching is transitive: an item that matches a richer query also
/// matches every query that the richer one matches.
pub proof fn lemma_payload_matches_transitive(
    item: Map<Seq<char>, Seq<char>>,
    wide: Map<Seq<char>, Seq<char>>,
    narrow: Map<Seq<char>, Seq<char>>,
)
    requires
        payload_matches(item, wide),
        payload_matches(wide, narrow),
    ensures
        payload_matches(item, narrow),
{
    assert forall|k: Seq<char>| #[trigger] narrow.contains_key(k) implies item.contains_key(k) && item[k] == narrow[k] by {
        assert(wide.contains_key(k));
    }
}

/// Checks if all fields of `query_fields` are eq to those in `item`.
pub fn match_payload(item: &Payload, query_fields: &Payload) -> (r: bool)
    ensures
        r == payload_matches(item@, query_fields@),
{
    proof {
        use_type_invariant(query_fields);
    }
    let n = query_fields.keys.len();
    let mut i: usize = 0;
    while i < n
        invariant
            n == query_fields.keys.len(),
            query_fields.keys.len() == query_fields.values.len(),
            query_fields.wf(),
            i <= n,
            forall|j: int|
                0 <= j < i ==> {
                    let k = #[trigger] query_fields.keys@[j]@;
                    item@.contains_key(k) && item@[k] == query_fields@[k]
                },
        decreases n - i,
    {
        proof {
            query_fields.lemma_entry(i as int);
        }
        match item.get(&query_fields.keys[i]) {
            Some(found) => {
                if !found.eq(&query_fields.values[i]) {
                    return false;
                }
            },
            None => {
                return false;
            },
        }
        i = i + 1;
    }
    assert forall|k: Seq<char>| #[trigger] query_fields@.contains_key(k)
        implies item@.contains_key(k) && item@[k] == query_fields@[k]
    by {
        assert(query_fields.has_key_at(k));
        let j = query_fields.index_of(k);
        assert(query_fields.keys@[j]@ == k);
    }
    true
}

} // verus!
