//! A map keyed by text, kept as a vector of distinct keys in insertion
//! order.

use vstd::prelude::*;

use crate::property::{keys_unique, lemma_pairs_to_map, pairs_to_map};
use crate::text::text_equal;

verus! {

/// A map keyed by text, keeping insertion order.
#[derive(Debug)]
pub struct TextMap<V> {
    entries: Vec<(String, V)>,
}


impl<V> TextMap<V> {
    /// The entries as (name, value) pairs, in insertion order.
    pub closed spec fn pairs(&self) -> Seq<(Seq<char>, V)> {
        self.entries@.map_values(|e: (String, V)| (e.0@, e.1))
    }

    /// The mapping from names to values.
    pub open spec fn view(&self) -> Map<Seq<char>, V> {
        pairs_to_map(self.pairs())
    }

    /// Names are unique.
    pub closed spec fn wf(&self) -> bool {
        keys_unique(self.pairs())
    }

    /// The pairs of a well-formed map are its entries.
    pub proof fn lemma_view(&self)
        requires
            self.wf(),
        ensures
            keys_unique(self.pairs()),
            forall|k: Seq<char>| #[trigger]
                self@.contains_key(k) <==> exists|i: int|
                    0 <= i < self.pairs().len() && #[trigger] self.pairs()[i].0 == k,
            forall|i: int|
                0 <= i < self.pairs().len() ==> #[trigger] self@[self.pairs()[i].0]
                    == self.pairs()[i].1,
            self@.dom().finite(),
            self@.dom().len() == self.pairs().len(),
    {
        lemma_pairs_to_map(self.pairs());
    }

    /// An empty map.
    pub fn new() -> (m: TextMap<V>)
        ensures
            m.wf(),
            m.pairs() == Seq::<(Seq<char>, V)>::empty(),
            m@ == Map::<Seq<char>, V>::empty(),
    {
        let m = TextMap { entries: Vec::new() };
        assert(m.pairs() =~= Seq::<(Seq<char>, V)>::empty());
        m
    }

    /// Number of entries.
    pub fn len(&self) -> (n: usize)
        requires
            self.wf(),
        ensures
            n == self@.dom().len(),
            n == self.pairs().len(),
    {
        proof {
            self.lemma_view();
        }
        self.entries.len()
    }

    /// Whether the map has no entries.
    pub fn is_empty(&self) -> (b: bool)
        requires
            self.wf(),
        ensures
            b == (self@.dom().len() == 0),
            b == (self.pairs().len() == 0),
    {
        proof {
            self.lemma_view();
        }
        self.entries.len() == 0
    }

    fn position(&self, name: &str) -> (r: Option<usize>)
        ensures
            r matches Some(i) ==> i < self.pairs().len() && self.pairs()[i as int].0 == name@,
            r is None ==> forall|i: int|
                0 <= i < self.pairs().len() ==> #[trigger] self.pairs()[i].0 != name@,
    {
        let mut i: usize = 0;
        while i < self.entries.len()
            invariant
                0 <= i <= self.entries@.len(),
                self.pairs().len() == self.entries@.len(),
                forall|j: int| 0 <= j < i ==> #[trigger] self.pairs()[j].0 != name@,
            decreases self.entries@.len() - i,
        {
            if text_equal(self.entries[i].0.as_str(), name) {
                return Some(i);
            }
            i = i + 1;
        }
        None
    }

    /// The value stored under `name`.
    pub fn get(&self, name: &str) -> (r: Option<&V>)
        requires
            self.wf(),
        ensures
            (r is Some) == self@.contains_key(name@),
            r matches Some(v) ==> *v == self@[name@],
    {
        proof {
            self.lemma_view();
        }
        match self.position(name) {
            Some(i) => Some(&self.entries[i].1),
            None => None,
        }
    }

    /// Whether `name` has a value.
    pub fn has(&self, name: &str) -> (b: bool)
        requires
            self.wf(),
        ensures
            b == self@.contains_key(name@),
    {
        proof {
            self.lemma_view();
        }
        self.position(name).is_some()
    }

    /// Stores `value` under `name`, replacing any previous value in place.
    pub fn insert(&mut self, name: String, value: V)
        requires
            old(self).wf(),
        ensures
            final(self).wf(),
            final(self)@ == old(self)@.insert(name@, value),
    {
        proof {
            self.lemma_view();
        }
        let ghost k = name@;
        let ghost old_pairs = self.pairs();
        match self.position(name.as_str()) {
            Some(i) => {
                self.entries.set(i, (name, value));
                proof {
                    let new_pairs = self.pairs();
                    assert(new_pairs =~= old_pairs.update(i as int, (k, value)));
                    assert(keys_unique(new_pairs)) by {
                        assert forall|a: int, b: int|
                            0 <= a < new_pairs.len() && 0 <= b < new_pairs.len() && a != b implies #[trigger] new_pairs[a].0
                            != #[trigger] new_pairs[b].0 by {
                            assert(old_pairs[a].0 != old_pairs[b].0);
                        }
                    }
                    lemma_pairs_to_map(new_pairs);
                    assert(self@ =~= old(self)@.insert(k, value)) by {
                        assert forall|key: Seq<char>| #[trigger] self@.contains_key(key) <==> old(self)@.insert(k, value).contains_key(key) by {
                            if key == k {
                                assert(new_pairs[i as int].0 == k);
                            }
                            if self@.contains_key(key) && key != k {
                                let j = choose|j: int| 0 <= j < new_pairs.len() && #[trigger] new_pairs[j].0 == key;
                                assert(old_pairs[j].0 == key);
                            }
                            if old(self)@.contains_key(key) {
                                let j = choose|j: int| 0 <= j < old_pairs.len() && #[trigger] old_pairs[j].0 == key;
                                if j != i {
                                    assert(new_pairs[j].0 == key);
                                }
                            }
                        }
                        assert forall|key: Seq<char>| #[trigger] self@.contains_key(key) implies self@[key] == old(self)@.insert(k, value)[key] by {
                            let j = choose|j: int| 0 <= j < new_pairs.len() && #[trigger] new_pairs[j].0 == key;
                            if j != i {
                                assert(old_pairs[j] == new_pairs[j]);
                            }
                        }
                    }
                }
            },
            None => {
                self.entries.push((name, value));
                proof {
                    let new_pairs = self.pairs();
                    assert(new_pairs =~= old_pairs.push((k, value)));
                    assert(new_pairs.drop_last() =~= old_pairs);
                    assert(keys_unique(new_pairs)) by {
                        assert forall|a: int, b: int|
                            0 <= a < new_pairs.len() && 0 <= b < new_pairs.len() && a != b implies #[trigger] new_pairs[a].0
                            != #[trigger] new_pairs[b].0 by {
                            if a < old_pairs.len() && b < old_pairs.len() {
                                assert(old_pairs[a].0 != old_pairs[b].0);
                            } else if a < old_pairs.len() {
                                assert(old_pairs[a].0 != k);
                            } else {
                                assert(old_pairs[b].0 != k);
                            }
                        }
                    }
                }
            },
        }
    }

    /// Removes the value stored under `name`, keeping the order of the rest.
    pub fn remove(&mut self, name: &str)
        requires
            old(self).wf(),
        ensures
            final(self).wf(),
            final(self)@ == old(self)@.remove(name@),
    {
        proof {
            self.lemma_view();
        }
        let ghost k = name@;
        let ghost old_pairs = self.pairs();
        match self.position(name) {
            Some(i) => {
                let _ = self.entries.remove(i);
                proof {
                    let new_pairs = self.pairs();
                    assert(new_pairs =~= old_pairs.remove(i as int));
                    assert(keys_unique(new_pairs)) by {
                        assert forall|a: int, b: int|
                            0 <= a < new_pairs.len() && 0 <= b < new_pairs.len() && a != b implies #[trigger] new_pairs[a].0
                            != #[trigger] new_pairs[b].0 by {
                            let oa = if a < i { a } else { a + 1 };
                            let ob = if b < i { b } else { b + 1 };
                            assert(new_pairs[a] == old_pairs[oa]);
                            assert(new_pairs[b] == old_pairs[ob]);
                            assert(old_pairs[oa].0 != old_pairs[ob].0);
                        }
                    }
                    lemma_pairs_to_map(new_pairs);
                    assert(self@ =~= old(self)@.remove(k)) by {
                        assert forall|key: Seq<char>| #[trigger] self@.contains_key(key) <==> old(self)@.remove(k).contains_key(key) by {
                            if self@.contains_key(key) {
                                let j = choose|j: int| 0 <= j < new_pairs.len() && #[trigger] new_pairs[j].0 == key;
                                let oj = if j < i { j } else { j + 1 };
                                assert(old_pairs[oj].0 == key);
                                assert(oj != i);
                                assert(old_pairs[i as int].0 == k);
                            }
                            if old(self)@.remove(k).contains_key(key) {
                                let j = choose|j: int| 0 <= j < old_pairs.len() && #[trigger] old_pairs[j].0 == key;
                                assert(j != i);
                                let nj = if j < i { j } else { j - 1 };
                                assert(new_pairs[nj].0 == key);
                            }
                        }
                        assert forall|key: Seq<char>| #[trigger] self@.contains_key(key) implies self@[key] == old(self)@.remove(k)[key] by {
                            let j = choose|j: int| 0 <= j < new_pairs.len() && #[trigger] new_pairs[j].0 == key;
                            let oj = if j < i { j } else { j + 1 };
                            assert(old_pairs[oj] == new_pairs[j]);
                        }
                    }
                }
            },
            None => {
                proof {
                    assert(!old(self)@.contains_key(k));
                    assert(self@ =~= old(self)@.remove(k));
                }
            },
        }
    }

    /// The (name, value) entries in insertion order.
    pub fn entries(&self) -> (r: &Vec<(String, V)>)
        ensures
            r@.len() == self.pairs().len(),
            forall|i: int|
                0 <= i < r@.len() ==> (#[trigger] r@[i]).0@ == self.pairs()[i].0 && r@[i].1
                    == self.pairs()[i].1,
    {
        &self.entries
    }
}

} // verus!
