//! A map keyed by schema identifier, kept as a vector of distinct keys in
//! insertion order.

use vstd::prelude::*;

use crate::identifier::SchemaId;

verus! {

/// No two pairs share a key.
pub open spec fn ids_unique<V>(pairs: Seq<(SchemaId, V)>) -> bool {
    forall|i: int, j: int|
        0 <= i < pairs.len() && 0 <= j < pairs.len() && i != j ==> #[trigger] pairs[i].0
            != #[trigger] pairs[j].0
}

/// The map whose entries are the pairs (later pairs win).
pub open spec fn id_pairs_to_map<V>(pairs: Seq<(SchemaId, V)>) -> Map<SchemaId, V>
    decreases pairs.len(),
{
    if pairs.len() == 0 {
        Map::empty()
    } else {
        id_pairs_to_map(pairs.drop_last()).insert(pairs.last().0, pairs.last().1)
    }
}

/// The keys of a pair sequence.
pub open spec fn id_pair_keys<V>(pairs: Seq<(SchemaId, V)>) -> Seq<SchemaId> {
    pairs.map_values(|p: (SchemaId, V)| p.0)
}

/// A map built from pairs with distinct keys holds exactly those pairs.
pub proof fn lemma_id_pairs_to_map<V>(pairs: Seq<(SchemaId, V)>)
    requires
        ids_unique(pairs),
    ensures
        forall|k: SchemaId| #[trigger]
            id_pairs_to_map(pairs).contains_key(k) <==> exists|i: int|
                0 <= i < pairs.len() && #[trigger] pairs[i].0 == k,
        forall|i: int|
            0 <= i < pairs.len() ==> #[trigger] id_pairs_to_map(pairs)[pairs[i].0] == pairs[i].1,
        id_pairs_to_map(pairs).dom().finite(),
        id_pairs_to_map(pairs).dom().len() == pairs.len(),
    decreases pairs.len(),
{
    if pairs.len() > 0 {
        let rest = pairs.drop_last();
        assert(ids_unique(rest)) by {
            assert forall|i: int, j: int|
                0 <= i < rest.len() && 0 <= j < rest.len() && i != j implies #[trigger] rest[i].0
                != #[trigger] rest[j].0 by {
                assert(rest[i] == pairs[i]);
                assert(rest[j] == pairs[j]);
            }
        }
        lemma_id_pairs_to_map(rest);
        let last = pairs.last();
        assert(!id_pairs_to_map(rest).contains_key(last.0)) by {
            if id_pairs_to_map(rest).contains_key(last.0) {
                let i = choose|i: int| 0 <= i < rest.len() && #[trigger] rest[i].0 == last.0;
                assert(pairs[i].0 == pairs[pairs.len() - 1].0);
            }
        }
        assert forall|k: SchemaId| #[trigger]
            id_pairs_to_map(pairs).contains_key(k) <==> exists|i: int|
                0 <= i < pairs.len() && #[trigger] pairs[i].0 == k by {
            if id_pairs_to_map(pairs).contains_key(k) {
                if k == last.0 {
                    assert(pairs[pairs.len() - 1].0 == k);
                } else {
                    let i = choose|i: int| 0 <= i < rest.len() && #[trigger] rest[i].0 == k;
                    assert(pairs[i].0 == k);
                }
            }
            if exists|i: int| 0 <= i < pairs.len() && #[trigger] pairs[i].0 == k {
                let i = choose|i: int| 0 <= i < pairs.len() && #[trigger] pairs[i].0 == k;
                if i < pairs.len() - 1 {
                    assert(rest[i].0 == k);
                }
            }
        }
        assert forall|i: int| 0 <= i < pairs.len() implies #[trigger] id_pairs_to_map(pairs)[pairs[i].0]
            == pairs[i].1 by {
            if i < pairs.len() - 1 {
                assert(rest[i] == pairs[i]);
                assert(pairs[i].0 != last.0);
            }
        }
    }
}

/// A map from schema identifiers to values, keeping insertion order.
#[derive(Debug)]
pub struct IdMap<V> {
    entries: Vec<(SchemaId, V)>,
}


impl<V> IdMap<V> {
    /// The entries as (key, value) pairs, in insertion order.
    pub closed spec fn pairs(&self) -> Seq<(SchemaId, V)> {
        self.entries@
    }

    /// The mapping from names to values.
    pub open spec fn view(&self) -> Map<SchemaId, V> {
        id_pairs_to_map(self.pairs())
    }

    /// Names are unique.
    pub closed spec fn wf(&self) -> bool {
        ids_unique(self.pairs())
    }

    /// Every map keeps its keys unique.
    #[verifier::type_invariant]
    spec fn unique_keys(self) -> bool {
        ids_unique(self.pairs())
    }

    /// Every map is well-formed (its invariant, made available to callers).
    pub fn known_wf(&self)
        ensures
            self.wf(),
    {
        proof {
            use_type_invariant(self);
        }
    }

    /// The pairs of a well-formed map are its entries.
    pub proof fn lemma_view(&self)
        requires
            self.wf(),
        ensures
            ids_unique(self.pairs()),
            forall|k: SchemaId| #[trigger]
                self@.contains_key(k) <==> exists|i: int|
                    0 <= i < self.pairs().len() && #[trigger] self.pairs()[i].0 == k,
            forall|i: int|
                0 <= i < self.pairs().len() ==> #[trigger] self@[self.pairs()[i].0]
                    == self.pairs()[i].1,
            self@.dom().finite(),
            self@.dom().len() == self.pairs().len(),
    {
        lemma_id_pairs_to_map(self.pairs());
    }

    /// An empty map.
    pub fn new() -> (m: IdMap<V>)
        ensures
            m.wf(),
            m.pairs() == Seq::<(SchemaId, V)>::empty(),
            m@ == Map::<SchemaId, V>::empty(),
    {
        let m = IdMap { entries: Vec::new() };
        assert(m.pairs() =~= Seq::<(SchemaId, V)>::empty());
        m
    }

    /// Number of entries.
    pub fn len(&self) -> (n: usize)
        requires
            self.wf(),
        ensures
            n == self@.dom().len(),
            n == self.pairs().len(),
    {
        proof {
            self.lemma_view();
        }
        self.entries.len()
    }

    /// Whether the map has no entries.
    pub fn is_empty(&self) -> (b: bool)
        requires
            self.wf(),
        ensures
            b == (self@.dom().len() == 0),
            b == (self.pairs().len() == 0),
    {
        proof {
            self.lemma_view();
        }
        self.entries.len() == 0
    }

    fn position(&self, key: &SchemaId) -> (r: Option<usize>)
        ensures
            r matches Some(i) ==> i < self.pairs().len() && self.pairs()[i as int].0 == *key,
            r is None ==> forall|i: int|
                0 <= i < self.pairs().len() ==> #[trigger] self.pairs()[i].0 != *key,
    {
        let mut i: usize = 0;
        while i < self.entries.len()
            invariant
                0 <= i <= self.entries@.len(),
                self.pairs().len() == self.entries@.len(),
                forall|j: int| 0 <= j < i ==> #[trigger] self.pairs()[j].0 != *key,
            decreases self.entries@.len() - i,
        {
            if self.entries[i].0 == *key {
                return Some(i);
            }
            i = i + 1;
        }
        None
    }

    /// The value stored under `key`.
    pub fn get(&self, key: &SchemaId) -> (r: Option<&V>)
        requires
            self.wf(),
        ensures
            (r is Some) == self@.contains_key(*key),
            r matches Some(v) ==> *v == self@[*key],
    {
        proof {
            self.lemma_view();
        }
        match self.position(key) {
            Some(i) => Some(&self.entries[i].1),
            None => None,
        }
    }

    /// Whether `key` has a value.
    pub fn has(&self, key: &SchemaId) -> (b: bool)
        requires
            self.wf(),
        ensures
            b == self@.contains_key(*key),
    {
        proof {
            self.lemma_view();
        }
        self.position(key).is_some()
    }

    /// Stores `value` under `key`, replacing any previous value in place.
    pub fn insert(&mut self, key: SchemaId, value: V)
        requires
            old(self).wf(),
        ensures
            final(self).wf(),
            final(self)@ == old(self)@.insert(key, value),
            !old(self)@.contains_key(key) ==> final(self).pairs() == old(self).pairs().push((key, value)),
            old(self)@.contains_key(key) ==> key_seq(final(self).pairs()) == key_seq(old(self).pairs()),
    {
        proof {
            self.lemma_view();
        }
        let ghost k = key;
        let ghost old_pairs = self.pairs();
        match self.position(&key) {
            Some(i) => {
                let mut entries: Vec<(SchemaId, V)> = Vec::new();
                std::mem::swap(&mut entries, &mut self.entries);
                entries.set(i, (key, value));
                proof {
                    let new_pairs = entries@;
                    assert(new_pairs =~= old_pairs.update(i as int, (k, value)));
                    assert forall|a: int, b: int|
                        0 <= a < new_pairs.len() && 0 <= b < new_pairs.len() && a != b implies #[trigger] new_pairs[a].0
                        != #[trigger] new_pairs[b].0 by {
                        assert(old_pairs[a].0 != old_pairs[b].0);
                    }
                }
                self.entries = entries;
                proof {
                    let new_pairs = self.pairs();
                    assert(new_pairs =~= old_pairs.update(i as int, (k, value)));
                    assert(key_seq(new_pairs) =~= key_seq(old_pairs));
                    assert(ids_unique(new_pairs)) by {
                        assert forall|a: int, b: int|
                            0 <= a < new_pairs.len() && 0 <= b < new_pairs.len() && a != b implies #[trigger] new_pairs[a].0
                            != #[trigger] new_pairs[b].0 by {
                            assert(old_pairs[a].0 != old_pairs[b].0);
                        }
                    }
                    lemma_id_pairs_to_map(new_pairs);
                    assert(self@ =~= old(self)@.insert(k, value)) by {
                        assert forall|key: SchemaId| #[trigger] self@.contains_key(key) <==> old(self)@.insert(k, value).contains_key(key) by {
                            if key == k {
                                assert(new_pairs[i as int].0 == k);
                            }
                            if self@.contains_key(key) && key != k {
                                let j = choose|j: int| 0 <= j < new_pairs.len() && #[trigger] new_pairs[j].0 == key;
                                assert(old_pairs[j].0 == key);
                            }
                            if old(self)@.contains_key(key) {
                                let j = choose|j: int| 0 <= j < old_pairs.len() && #[trigger] old_pairs[j].0 == key;
                                if j != i {
                                    assert(new_pairs[j].0 == key);
                                }
                            }
                        }
                        assert forall|key: SchemaId| #[trigger] self@.contains_key(key) implies self@[key] == old(self)@.insert(k, value)[key] by {
                            let j = choose|j: int| 0 <= j < new_pairs.len() && #[trigger] new_pairs[j].0 == key;
                            if j != i {
                                assert(old_pairs[j] == new_pairs[j]);
                            }
                        }
                    }
                }
            },
            None => {
                let mut entries: Vec<(SchemaId, V)> = Vec::new();
                std::mem::swap(&mut entries, &mut self.entries);
                entries.push((key, value));
                proof {
                    let new_pairs = entries@;
                    assert(new_pairs =~= old_pairs.push((k, value)));
                    assert forall|a: int, b: int|
                        0 <= a < new_pairs.len() && 0 <= b < new_pairs.len() && a != b implies #[trigger] new_pairs[a].0
                        != #[trigger] new_pairs[b].0 by {
                        if a < old_pairs.len() && b < old_pairs.len() {
                            assert(old_pairs[a].0 != old_pairs[b].0);
                        } else if a < old_pairs.len() {
                            assert(old_pairs[a].0 != k);
                        } else if b < old_pairs.len() {
                            assert(old_pairs[b].0 != k);
                        }
                    }
                }
                self.entries = entries;
                proof {
                    let new_pairs = self.pairs();
                    assert(new_pairs =~= old_pairs.push((k, value)));
                    assert(new_pairs.drop_last() =~= old_pairs);
                    assert(ids_unique(new_pairs)) by {
                        assert forall|a: int, b: int|
                            0 <= a < new_pairs.len() && 0 <= b < new_pairs.len() && a != b implies #[trigger] new_pairs[a].0
                            != #[trigger] new_pairs[b].0 by {
                            if a < old_pairs.len() && b < old_pairs.len() {
                                assert(old_pairs[a].0 != old_pairs[b].0);
                            } else if a < old_pairs.len() {
                                assert(old_pairs[a].0 != k);
                            } else {
                                assert(old_pairs[b].0 != k);
                            }
                        }
                    }
                }
            },
        }
    }

    /// Removes the value stored under `key`, keeping the order of the rest.
    pub fn remove(&mut self, key: &SchemaId) -> (r: Option<V>)
        requires
            old(self).wf(),
        ensures
            final(self).wf(),
            final(self)@ == old(self)@.remove(*key),
            r == (if old(self)@.contains_key(*key) { Some(old(self)@[*key]) } else { None::<V> }),
    {
        proof {
            self.lemma_view();
        }
        let ghost k = *key;
        let ghost old_pairs = self.pairs();
        match self.position(key) {
            Some(i) => {
                let mut entries: Vec<(SchemaId, V)> = Vec::new();
                std::mem::swap(&mut entries, &mut self.entries);
                let removed = entries.remove(i);
                proof {
                    let new_pairs = entries@;
                    assert(new_pairs =~= old_pairs.remove(i as int));
                    assert forall|a: int, b: int|
                        0 <= a < new_pairs.len() && 0 <= b < new_pairs.len() && a != b implies #[trigger] new_pairs[a].0
                        != #[trigger] new_pairs[b].0 by {
                        let oa = if a < i { a } else { a + 1 };
                        let ob = if b < i { b } else { b + 1 };
                        assert(new_pairs[a] == old_pairs[oa]);
                        assert(new_pairs[b] == old_pairs[ob]);
                        assert(old_pairs[oa].0 != old_pairs[ob].0);
                    }
                }
                self.entries = entries;
                proof {
                    assert(removed == old_pairs[i as int]);
                    let new_pairs = self.pairs();
                    assert(new_pairs =~= old_pairs.remove(i as int));
                    assert(ids_unique(new_pairs)) by {
                        assert forall|a: int, b: int|
                            0 <= a < new_pairs.len() && 0 <= b < new_pairs.len() && a != b implies #[trigger] new_pairs[a].0
                            != #[trigger] new_pairs[b].0 by {
                            let oa = if a < i { a } else { a + 1 };
                            let ob = if b < i { b } else { b + 1 };
                            assert(new_pairs[a] == old_pairs[oa]);
                            assert(new_pairs[b] == old_pairs[ob]);
                            assert(old_pairs[oa].0 != old_pairs[ob].0);
                        }
                    }
                    lemma_id_pairs_to_map(new_pairs);
                    assert(self@ =~= old(self)@.remove(k)) by {
                        assert forall|key: SchemaId| #[trigger] self@.contains_key(key) <==> old(self)@.remove(k).contains_key(key) by {
                            if self@.contains_key(key) {
                                let j = choose|j: int| 0 <= j < new_pairs.len() && #[trigger] new_pairs[j].0 == key;
                                let oj = if j < i { j } else { j + 1 };
                                assert(old_pairs[oj].0 == key);
                                assert(oj != i);
                                assert(old_pairs[i as int].0 == k);
                            }
                            if old(self)@.remove(k).contains_key(key) {
                                let j = choose|j: int| 0 <= j < old_pairs.len() && #[trigger] old_pairs[j].0 == key;
                                assert(j != i);
                                let nj = if j < i { j } else { j - 1 };
                                assert(new_pairs[nj].0 == key);
                            }
                        }
                        assert forall|key: SchemaId| #[trigger] self@.contains_key(key) implies self@[key] == old(self)@.remove(k)[key] by {
                            let j = choose|j: int| 0 <= j < new_pairs.len() && #[trigger] new_pairs[j].0 == key;
                            let oj = if j < i { j } else { j + 1 };
                            assert(old_pairs[oj] == new_pairs[j]);
                        }
                    }
                }
                Some(removed.1)
            },
            None => {
                proof {
                    assert(!old(self)@.contains_key(k));
                    assert(self@ =~= old(self)@.remove(k));
                }
                None
            },
        }
    }

    /// The (key, value) entries in insertion order.
    pub fn entries(&self) -> (r: &Vec<(SchemaId, V)>)
        ensures
            r@.len() == self.pairs().len(),
            forall|i: int|
                0 <= i < r@.len() ==> (#[trigger] r@[i]).0 == self.pairs()[i].0 && r@[i].1
                    == self.pairs()[i].1,
    {
        &self.entries
    }
}

/// The keys of a pair sequence.
pub open spec fn key_seq<V>(pairs: Seq<(SchemaId, V)>) -> Seq<SchemaId> {
    pairs.map_values(|p: (SchemaId, V)| p.0)
}

impl<V> IdMap<V> {
    /// The keys, in insertion order.
    pub fn keys(&self) -> (r: Vec<SchemaId>)
        requires
            self.wf(),
        ensures
            r@ == key_seq(self.pairs()),
            r@.no_duplicates(),
            forall|x: SchemaId| r@.contains(x) <==> self@.contains_key(x),
    {
        proof {
            self.lemma_view();
        }
        let mut r: Vec<SchemaId> = Vec::new();
        let mut i: usize = 0;
        while i < self.entries.len()
            invariant
                0 <= i <= self.entries@.len(),
                self.entries@ == self.pairs(),
                r@.len() == i,
                forall|j: int| 0 <= j < i ==> #[trigger] r@[j] == self.pairs()[j].0,
            decreases self.entries@.len() - i,
        {
            r.push(self.entries[i].0);
            i = i + 1;
        }
        proof {
            assert(r@ =~= key_seq(self.pairs()));
            assert forall|x: SchemaId| r@.contains(x) <==> self@.contains_key(x) by {
                if r@.contains(x) {
                    let j = choose|j: int| 0 <= j < r@.len() && #[trigger] r@[j] == x;
                    assert(self.pairs()[j].0 == x);
                }
                if self@.contains_key(x) {
                    let j = choose|j: int| 0 <= j < self.pairs().len() && #[trigger] self.pairs()[j].0 == x;
                    assert(r@[j] == x);
                }
            }
        }
        r
    }

    /// The entries, taking the map apart.
    pub fn into_entries(self) -> (r: Vec<(SchemaId, V)>)
        ensures
            r@ == self.pairs(),
    {
        self.entries
    }
}

/// Distinct keys form a duplicate-free key sequence holding exactly the
/// map's keys.
pub proof fn lemma_key_seq<V>(pairs: Seq<(SchemaId, V)>)
    requires
        ids_unique(pairs),
    ensures
        key_seq(pairs).no_duplicates(),
        forall|x: SchemaId| #[trigger] key_seq(pairs).contains(x) <==> id_pairs_to_map(pairs).contains_key(x),
        key_seq(pairs).len() == pairs.len(),
{
    lemma_id_pairs_to_map(pairs);
    let ks = key_seq(pairs);
    assert forall|a: int, b: int| 0 <= a < b < ks.len() implies ks[a] != ks[b] by {
        assert(pairs[a].0 != pairs[b].0);
    }
    assert forall|x: SchemaId| #[trigger] ks.contains(x) <==> id_pairs_to_map(pairs).contains_key(x) by {
        if ks.contains(x) {
            let j = choose|j: int| 0 <= j < ks.len() && ks[j] == x;
            assert(pairs[j].0 == x);
        }
        if id_pairs_to_map(pairs).contains_key(x) {
            let j = choose|j: int| 0 <= j < pairs.len() && #[trigger] pairs[j].0 == x;
            assert(ks[j] == x);
        }
    }
}

impl<V> IdMap<V> {
    /// The entries, in insertion order.
    pub fn entries_vec(&self) -> (r: &Vec<(SchemaId, V)>)
        ensures
            r@ == self.pairs(),
    {
        &self.entries
    }
}

} // verus!
