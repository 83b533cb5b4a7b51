//! Deltas between successive versions of schemas and of the property bank:
//! exclusion changes, property upserts and removals, detected by content
//! hashes.

use vstd::prelude::*;

use crate::hash::{blake3_digest, Blake3Hash};
use crate::identifier::PropertyName;
use crate::property::{keys_unique, lemma_pairs_to_map, pairs_to_map, NameMap, PropertyMap};
use crate::raw::{RawProperty, RawPropertyInline, RawPropertyRef};
use crate::sort::{has_text, lemma_name_text_set, lemma_sorted_texts_set_len, lemma_sorted_texts_unique, name_texts, sort_dedup_names, strictly_sorted_texts};

verus! {

/// Whether some name in `v` has the text of `name`.
fn has_name(v: &Vec<PropertyName>, name: &PropertyName) -> (r: bool)
    ensures
        r == has_text(v@, name@),
{
    let mut i: usize = 0;
    while i < v.len()
        invariant
            0 <= i <= v@.len(),
            forall|j: int| 0 <= j < i ==> #[trigger] v@[j]@ != name@,
        decreases v@.len() - i,
    {
        if v[i].same(name) {
            assert(v@[i as int]@ == name@);
            return true;
        }
        i = i + 1;
    }
    false
}

/// The names of `v` (sorted, distinct) whose text does not occur in `drop`.
fn sorted_difference(v: &Vec<PropertyName>, drop: &Vec<PropertyName>) -> (r: Vec<PropertyName>)
    ensures
        strictly_sorted_texts(name_texts(r@)),
        forall|k: Seq<char>| has_text(r@, k) <==> has_text(v@, k) && !has_text(drop@, k),
{
    let sorted = sort_dedup_names(v);
    let mut r: Vec<PropertyName> = Vec::new();
    let mut i: usize = 0;
    while i < sorted.len()
        invariant
            0 <= i <= sorted@.len(),
            strictly_sorted_texts(name_texts(sorted@)),
            forall|k: Seq<char>| has_text(sorted@, k) <==> has_text(v@, k),
            forall|a: int, b: int| 0 <= a < b < r@.len() ==> #[trigger] crate::text::text_lt(r@[a]@, r@[b]@),
            forall|a: int| 0 <= a < r@.len() ==> exists|j: int| 0 <= j < i && #[trigger] sorted@[j]@ == (#[trigger] r@[a])@,
            forall|k: Seq<char>| has_text(r@, k) <==> (exists|j: int| 0 <= j < i && #[trigger] sorted@[j]@ == k) && !has_text(drop@, k),
        decreases sorted@.len() - i,
    {
        let x = &sorted[i];
        let ghost before = r@;
        if !has_name(drop, x) {
            r.push(x.clone());
            proof {
                assert forall|a: int, b: int| 0 <= a < b < r@.len() implies #[trigger] crate::text::text_lt(r@[a]@, r@[b]@) by {
                    if b == r@.len() - 1 {
                        let j = choose|j: int| 0 <= j < i && #[trigger] sorted@[j]@ == (#[trigger] before[a])@;
                        assert(crate::text::text_lt(name_texts(sorted@)[j], name_texts(sorted@)[i as int]));
                    } else {
                        assert(before[a] == r@[a] && before[b] == r@[b]);
                    }
                }
                assert forall|a: int| 0 <= a < r@.len() implies exists|j: int| 0 <= j < i + 1 && #[trigger] sorted@[j]@ == (#[trigger] r@[a])@ by {
                    if a < before.len() {
                        assert(before[a] == r@[a]);
                        let j = choose|j: int| 0 <= j < i && #[trigger] sorted@[j]@ == (#[trigger] before[a])@;
                    } else {
                        assert(sorted@[i as int]@ == r@[a]@);
                    }
                }
            }
        }
        proof {
            assert forall|k: Seq<char>| has_text(r@, k) <==> (exists|j: int| 0 <= j < i + 1 && #[trigger] sorted@[j]@ == k) && !has_text(drop@, k) by {
                if has_text(r@, k) {
                    let m = choose|m: int| 0 <= m < r@.len() && #[trigger] r@[m]@ == k;
                    if m < before.len() {
                        assert(before[m] == r@[m]);
                        assert(has_text(before, k));
                    }
                }
                if (exists|j: int| 0 <= j < i + 1 && #[trigger] sorted@[j]@ == k) && !has_text(drop@, k) {
                    let j = choose|j: int| 0 <= j < i + 1 && #[trigger] sorted@[j]@ == k;
                    if j < i {
                        assert(has_text(before, k));
                        let m = choose|m: int| 0 <= m < before.len() && #[trigger] before[m]@ == k;
                        assert(r@[m] == before[m]);
                    } else {
                        assert(r@[r@.len() - 1]@ == k);
                    }
                }
            }
        }
        i = i + 1;
    }
    proof {
        assert forall|k: Seq<char>| has_text(r@, k) <==> has_text(v@, k) && !has_text(drop@, k) by {
            if has_text(sorted@, k) {
                let j = choose|j: int| 0 <= j < sorted@.len() && #[trigger] sorted@[j]@ == k;
            }
            if exists|j: int| 0 <= j < sorted@.len() && #[trigger] sorted@[j]@ == k {
                assert(has_text(sorted@, k));
            }
        }
        assert forall|a: int, b: int| 0 <= a < b < r@.len() implies #[trigger] crate::text::text_lt(name_texts(r@)[a], name_texts(r@)[b]) by {
            assert(crate::text::text_lt(r@[a]@, r@[b]@));
        }
    }
    r
}

/// The names of `a` followed by those of `b`.
fn concat_names(a: &Vec<PropertyName>, b: &Vec<PropertyName>) -> (r: Vec<PropertyName>)
    ensures
        name_texts(r@) == name_texts(a@) + name_texts(b@),
{
    let mut r: Vec<PropertyName> = Vec::new();
    let mut i: usize = 0;
    while i < a.len()
        invariant
            0 <= i <= a@.len(),
            name_texts(r@) == name_texts(a@.take(i as int)),
        decreases a@.len() - i,
    {
        let ghost old_r = r@;
        let x = a[i].clone();
        r.push(x);
        proof {
            assert(name_texts(r@) =~= name_texts(old_r).push(x@));
            assert(name_texts(a@.take(i + 1)) =~= name_texts(a@.take(i as int)).push(a@[i as int]@));
            assert(name_texts(r@) =~= name_texts(a@.take(i as int)).push(a@[i as int]@));
        }
        i = i + 1;
    }
    let mut j: usize = 0;
    while j < b.len()
        invariant
            0 <= j <= b@.len(),
            i == a@.len(),
            name_texts(r@) == name_texts(a@) + name_texts(b@.take(j as int)),
        decreases b@.len() - j,
    {
        proof {
            assert(a@.take(a@.len() as int) =~= a@);
        }
        let ghost old_r = r@;
        let x = b[j].clone();
        r.push(x);
        proof {
            assert(name_texts(r@) =~= name_texts(old_r).push(x@));
            assert(name_texts(b@.take(j + 1)) =~= name_texts(b@.take(j as int)).push(b@[j as int]@));
            assert(name_texts(r@) =~= name_texts(a@) + name_texts(b@.take(j as int)).push(b@[j as int]@));
        }
        j = j + 1;
    }
    proof {
        assert(a@.take(a@.len() as int) =~= a@);
        assert(b@.take(b@.len() as int) =~= b@);
    }
    r
}

// ─────────────────────────────────────────────────────────────────────────────
//  Exclusion changes
// ─────────────────────────────────────────────────────────────────────────────

/// How the excluded names of a schema changed.
#[derive(Debug)]
pub struct ExcludesDelta {
    added: Vec<PropertyName>,
    removals: Vec<PropertyName>,
}

impl ExcludesDelta {
    #[verifier::type_invariant]
    spec fn inv(self) -> bool {
        &&& strictly_sorted_texts(name_texts(self.added@))
        &&& strictly_sorted_texts(name_texts(self.removals@))
        &&& forall|k: Seq<char>| !(has_text(self.added@, k) && has_text(self.removals@, k))
    }

    /// The newly excluded names.
    pub closed spec fn spec_added(self) -> Seq<PropertyName> {
        self.added@
    }

    /// The names no longer excluded.
    pub closed spec fn spec_removals(self) -> Seq<PropertyName> {
        self.removals@
    }

    /// The change from `old_excludes` to `new_excludes`: names only in the
    /// new list are added, names only in the old list are removed; each
    /// list sorted, without duplicates.
    pub fn from_slices(old_excludes: &Vec<PropertyName>, new_excludes: &Vec<PropertyName>) -> (d: ExcludesDelta)
        ensures
            strictly_sorted_texts(name_texts(d.spec_added())),
            strictly_sorted_texts(name_texts(d.spec_removals())),
            forall|k: Seq<char>| has_text(d.spec_added(), k) <==> has_text(new_excludes@, k) && !has_text(old_excludes@, k),
            forall|k: Seq<char>| has_text(d.spec_removals(), k) <==> has_text(old_excludes@, k) && !has_text(new_excludes@, k),
    {
        ExcludesDelta {
            added: sorted_difference(new_excludes, old_excludes),
            removals: sorted_difference(old_excludes, new_excludes),
        }
    }

    /// Whether nothing changed.
    pub fn is_empty(&self) -> (b: bool)
        ensures
            b == (self.spec_added().len() == 0 && self.spec_removals().len() == 0),
    {
        self.added.len() == 0 && self.removals.len() == 0
    }

    /// The newly excluded names.
    pub fn added(&self) -> (r: &[PropertyName])
        ensures
            r@ == self.spec_added(),
    {
        self.added.as_slice()
    }

    /// The names no longer excluded.
    pub fn removals(&self) -> (r: &[PropertyName])
        ensures
            r@ == self.spec_removals(),
    {
        self.removals.as_slice()
    }

    /// The added names, then the removed ones.
    pub fn iter_changed(&self) -> (r: Vec<PropertyName>)
        ensures
            name_texts(r@) == name_texts(self.spec_added()) + name_texts(self.spec_removals()),
    {
        concat_names(&self.added, &self.removals)
    }

    /// Every changed name once: added and removed names never overlap, so
    /// there are as many as both lists together.
    pub fn to_changed_name_set(&self) -> (r: Vec<PropertyName>)
        ensures
            forall|k: Seq<char>| has_text(r@, k) <==> has_text(self.spec_added(), k) || has_text(self.spec_removals(), k),
            strictly_sorted_texts(name_texts(r@)),
            r@.len() == self.spec_added().len() + self.spec_removals().len(),
    {
        proof {
            use_type_invariant(self);
        }
        let all = concat_names(&self.added, &self.removals);
        let r = sort_dedup_names(&all);
        proof {
            assert forall|k: Seq<char>| has_text(all@, k) <==> has_text(self.added@, k) || has_text(self.removals@, k) by {
                let na = name_texts(self.added@);
                let nr = name_texts(self.removals@);
                assert(na.len() == self.added@.len());
                assert(nr.len() == self.removals@.len());
                assert(name_texts(all@).len() == all@.len());
                if has_text(all@, k) {
                    let j = choose|j: int| 0 <= j < all@.len() && #[trigger] all@[j]@ == k;
                    assert(name_texts(all@)[j] == k);
                    if j < self.added@.len() {
                        assert(na[j] == k);
                        assert(self.added@[j]@ == k);
                    } else {
                        assert(nr[j - self.added@.len()] == k);
                        assert(self.removals@[j - self.added@.len()]@ == k);
                    }
                }
                if has_text(self.added@, k) {
                    let j = choose|j: int| 0 <= j < self.added@.len() && #[trigger] self.added@[j]@ == k;
                    assert(name_texts(all@)[j] == k);
                    assert(all@[j]@ == k);
                }
                if has_text(self.removals@, k) {
                    let j = choose|j: int| 0 <= j < self.removals@.len() && #[trigger] self.removals@[j]@ == k;
                    assert(nr[j] == k);
                    assert(name_texts(all@)[self.added@.len() + j] == k);
                    assert(all@[self.added@.len() + j]@ == k);
                }
            }
            let a = name_texts(self.added@);
            let b = name_texts(self.removals@);
            let c = name_texts(r@);
            lemma_sorted_texts_set_len(a);
            lemma_sorted_texts_set_len(b);
            lemma_sorted_texts_set_len(c);
            lemma_name_text_set(self.added@);
            lemma_name_text_set(self.removals@);
            lemma_name_text_set(r@);
            assert(c.to_set() =~= a.to_set() + b.to_set());
            assert(a.to_set().disjoint(b.to_set()));
            vstd::set_lib::lemma_set_disjoint_lens(a.to_set(), b.to_set());
        }
        r
    }
}

// ─────────────────────────────────────────────────────────────────────────────
//  Schema property changes
// ─────────────────────────────────────────────────────────────────────────────

/// Changed or new properties of a schema, split by kind of entry.
#[derive(Debug)]
pub struct SchemaPropertyUpserts {
    inline: NameMap<RawPropertyInline>,
    refs: NameMap<RawPropertyRef>,
}

impl Default for SchemaPropertyUpserts {
    /// No upserts.
    fn default() -> (u: SchemaPropertyUpserts)
        ensures
            u.spec_inline() == Map::<Seq<char>, RawPropertyInline>::empty(),
            u.spec_refs() == Map::<Seq<char>, RawPropertyRef>::empty(),
    {
        SchemaPropertyUpserts::new()
    }
}

impl SchemaPropertyUpserts {
    #[verifier::type_invariant]
    spec fn inv(self) -> bool {
        self.inline.wf() && self.refs.wf()
    }

    /// The inline upserts.
    pub closed spec fn spec_inline(self) -> Map<Seq<char>, RawPropertyInline> {
        self.inline@
    }

    /// The reference upserts.
    pub closed spec fn spec_refs(self) -> Map<Seq<char>, RawPropertyRef> {
        self.refs@
    }

    /// No upserts.
    pub fn new() -> (u: SchemaPropertyUpserts)
        ensures
            u.spec_inline() == Map::<Seq<char>, RawPropertyInline>::empty(),
            u.spec_refs() == Map::<Seq<char>, RawPropertyRef>::empty(),
    {
        SchemaPropertyUpserts { inline: NameMap::new(), refs: NameMap::new() }
    }

    /// Records an inline upsert.
    pub fn insert_inline(&mut self, name: PropertyName, entry: RawPropertyInline)
        ensures
            final(self).spec_inline() == old(self).spec_inline().insert(name@, entry),
            final(self).spec_refs() == old(self).spec_refs(),
    {
        proof {
            use_type_invariant(&*self);
        }
        let mut m = NameMap::new();
        std::mem::swap(&mut m, &mut self.inline);
        m.insert(name, entry);
        self.inline = m;
    }

    /// Records a reference upsert.
    pub fn insert_ref(&mut self, name: PropertyName, entry: RawPropertyRef)
        ensures
            final(self).spec_refs() == old(self).spec_refs().insert(name@, entry),
            final(self).spec_inline() == old(self).spec_inline(),
    {
        proof {
            use_type_invariant(&*self);
        }
        let mut m = NameMap::new();
        std::mem::swap(&mut m, &mut self.refs);
        m.insert(name, entry);
        self.refs = m;
    }

    /// Whether there are no upserts.
    pub fn is_empty(&self) -> (b: bool)
        ensures
            b == (self.spec_inline().dom().len() == 0 && self.spec_refs().dom().len() == 0),
    {
        proof {
            use_type_invariant(self);
        }
        self.inline.is_empty() && self.refs.is_empty()
    }

    /// The inline upserts.
    pub fn inline(&self) -> (r: &NameMap<RawPropertyInline>)
        ensures
            r@ == self.spec_inline(),
            r.wf(),
    {
        proof {
            use_type_invariant(self);
        }
        &self.inline
    }

    /// The reference upserts.
    pub fn refs(&self) -> (r: &NameMap<RawPropertyRef>)
        ensures
            r@ == self.spec_refs(),
            r.wf(),
    {
        proof {
            use_type_invariant(self);
        }
        &self.refs
    }

    /// Whether `name` has an inline upsert.
    pub fn contains_inline(&self, name: &PropertyName) -> (b: bool)
        ensures
            b == self.spec_inline().contains_key(name@),
    {
        proof {
            use_type_invariant(self);
        }
        self.inline.has(name)
    }

    /// Whether `name` has a reference upsert.
    pub fn contains_ref(&self, name: &PropertyName) -> (b: bool)
        ensures
            b == self.spec_refs().contains_key(name@),
    {
        proof {
            use_type_invariant(self);
        }
        self.refs.has(name)
    }
}

/// The property changes of a schema: upserts and sorted, distinct removals.
#[derive(Debug)]
pub struct SchemaPropertyDelta {
    upserts: SchemaPropertyUpserts,
    removals: Vec<PropertyName>,
}

impl SchemaPropertyDelta {
    /// The upserts.
    pub closed spec fn spec_upserts(self) -> SchemaPropertyUpserts {
        self.upserts
    }

    /// The removals.
    pub closed spec fn spec_removals(self) -> Seq<PropertyName> {
        self.removals@
    }

    /// A delta with the removals sorted and deduplicated.
    pub fn new(upserts: SchemaPropertyUpserts, removals: Vec<PropertyName>) -> (d: SchemaPropertyDelta)
        ensures
            d.spec_upserts() == upserts,
            strictly_sorted_texts(name_texts(d.spec_removals())),
            forall|k: Seq<char>| has_text(d.spec_removals(), k) <==> has_text(removals@, k),
    {
        SchemaPropertyDelta { upserts, removals: sort_dedup_names(&removals) }
    }

    /// Whether nothing changed.
    pub fn is_empty(&self) -> (b: bool)
        ensures
            b == (self.spec_upserts().spec_inline().dom().len() == 0 && self.spec_upserts().spec_refs().dom().len() == 0
                && self.spec_removals().len() == 0),
    {
        self.upserts.is_empty() && self.removals.len() == 0
    }

    /// The upserts.
    pub fn upserts(&self) -> (r: &SchemaPropertyUpserts)
        ensures
            *r == self.spec_upserts(),
    {
        &self.upserts
    }

    /// The removals.
    pub fn removals(&self) -> (r: &[PropertyName])
        ensures
            r@ == self.spec_removals(),
    {
        self.removals.as_slice()
    }

    /// Whether `name` has an upsert of either kind.
    pub fn contains_upsert(&self, name: &PropertyName) -> (b: bool)
        ensures
            b == (self.spec_upserts().spec_inline().contains_key(name@) || self.spec_upserts().spec_refs().contains_key(
                name@,
            )),
    {
        self.upserts.contains_inline(name) || self.upserts.contains_ref(name)
    }
}

// ─────────────────────────────────────────────────────────────────────────────
//  Property bank changes
// ─────────────────────────────────────────────────────────────────────────────

/// The changes of the property bank: upserted properties and sorted,
/// distinct removals.
#[derive(Debug)]
pub struct PropertyBankDelta {
    upserts: PropertyMap,
    removals: Vec<PropertyName>,
}

impl PropertyBankDelta {
    #[verifier::type_invariant]
    spec fn inv(self) -> bool {
        self.upserts.wf()
    }

    /// The upserts.
    pub closed spec fn spec_upserts(self) -> PropertyMap {
        self.upserts
    }

    /// The removals.
    pub closed spec fn spec_removals(self) -> Seq<PropertyName> {
        self.removals@
    }

    /// A delta with the removals sorted and deduplicated.
    pub fn new(upserts: PropertyMap, removals: Vec<PropertyName>) -> (d: PropertyBankDelta)
        requires
            upserts.wf(),
        ensures
            d.spec_upserts() == upserts,
            strictly_sorted_texts(name_texts(d.spec_removals())),
            forall|k: Seq<char>| has_text(d.spec_removals(), k) <==> has_text(removals@, k),
    {
        PropertyBankDelta { upserts, removals: sort_dedup_names(&removals) }
    }

    /// Whether nothing changed.
    pub fn is_empty(&self) -> (b: bool)
        ensures
            b == (self.spec_upserts()@.dom().len() == 0 && self.spec_removals().len() == 0),
    {
        proof {
            use_type_invariant(self);
        }
        self.upserts.is_empty() && self.removals.len() == 0
    }

    /// The upserts.
    pub fn upserts(&self) -> (r: &PropertyMap)
        ensures
            *r == self.spec_upserts(),
            r.wf(),
    {
        proof {
            use_type_invariant(self);
        }
        &self.upserts
    }

    /// The removals.
    pub fn removals(&self) -> (r: &[PropertyName])
        ensures
            r@ == self.spec_removals(),
    {
        self.removals.as_slice()
    }

    /// The upserted names (in insertion order), then the removed ones.
    pub fn iter_changed(&self) -> (r: Vec<PropertyName>)
        ensures
            forall|k: Seq<char>| has_text(r@, k) <==> self.spec_upserts()@.contains_key(k) || has_text(self.spec_removals(), k),
    {
        proof {
            use_type_invariant(self);
            self.upserts.lemma_view();
        }
        let entries = self.upserts.entries();
        let mut keys: Vec<PropertyName> = Vec::new();
        let mut i: usize = 0;
        while i < entries.len()
            invariant
                0 <= i <= entries@.len(),
                entries@.len() == self.upserts.pairs().len(),
                forall|j: int| 0 <= j < entries@.len() ==> (#[trigger] entries@[j]).0@ == self.upserts.pairs()[j].0,
                name_texts(keys@) == Seq::new(i as nat, |j: int| self.upserts.pairs()[j].0),
            decreases entries@.len() - i,
        {
            let ghost old_k = keys@;
            let x = entries[i].0.clone();
            keys.push(x);
            proof {
                assert(name_texts(keys@) =~= name_texts(old_k).push(x@));
                assert(name_texts(keys@) =~= Seq::new((i + 1) as nat, |j: int| self.upserts.pairs()[j].0));
            }
            i = i + 1;
        }
        let r = concat_names(&keys, &self.removals);
        proof {
            let ks = name_texts(keys@);
            let nr = name_texts(self.removals@);
            assert(ks.len() == keys@.len());
            assert(nr.len() == self.removals@.len());
            assert(name_texts(r@).len() == r@.len());
            assert forall|k: Seq<char>| has_text(r@, k) <==> self.upserts@.contains_key(k) || has_text(self.removals@, k) by {
                if has_text(r@, k) {
                    let j = choose|j: int| 0 <= j < r@.len() && #[trigger] r@[j]@ == k;
                    assert(name_texts(r@)[j] == k);
                    if j < keys@.len() {
                        assert(ks[j] == k);
                        assert(self.upserts.pairs()[j].0 == k);
                    } else {
                        assert(nr[j - keys@.len()] == k);
                        assert(self.removals@[j - keys@.len()]@ == k);
                    }
                }
                if self.upserts@.contains_key(k) {
                    let j = choose|j: int| 0 <= j < self.upserts.pairs().len() && #[trigger] self.upserts.pairs()[j].0 == k;
                    assert(ks[j] == k);
                    assert(name_texts(r@)[j] == k);
                    assert(r@[j]@ == k);
                }
                if has_text(self.removals@, k) {
                    let j = choose|j: int| 0 <= j < self.removals@.len() && #[trigger] self.removals@[j]@ == k;
                    assert(nr[j] == k);
                    assert(name_texts(r@)[keys@.len() + j] == k);
                    assert(r@[keys@.len() + j]@ == k);
                }
            }
        }
        r
    }

    /// Every changed name once.
    pub fn to_changed_name_set(&self) -> (r: Vec<PropertyName>)
        ensures
            forall|k: Seq<char>| has_text(r@, k) <==> self.spec_upserts()@.contains_key(k) || has_text(self.spec_removals(), k),
            strictly_sorted_texts(name_texts(r@)),
            name_texts(r@) == bank_changed_texts(*self),
    {
        let all = self.iter_changed();
        let r = sort_dedup_names(&all);
        proof {
            lemma_bank_changed_texts(*self, r@);
        }
        r
    }

    /// Every changed name once, taking the delta apart.
    pub fn into_changed_name_set(self) -> (r: Vec<PropertyName>)
        ensures
            forall|k: Seq<char>| has_text(r@, k) <==> self.spec_upserts()@.contains_key(k) || has_text(self.spec_removals(), k),
            strictly_sorted_texts(name_texts(r@)),
            name_texts(r@) == bank_changed_texts(self),
    {
        self.to_changed_name_set()
    }
}

/// The changed names of a bank delta, upserted or removed, each once and
/// in text order.
pub open spec fn bank_changed_texts(d: PropertyBankDelta) -> Seq<Seq<char>> {
    choose|s: Seq<Seq<char>>|
        strictly_sorted_texts(s) && forall|k: Seq<char>|
            #[trigger] s.contains(k) <==> d.spec_upserts()@.contains_key(k) || has_text(d.spec_removals(), k)
}

/// A sorted list holding each changed name of `d` once is, by text, the
/// list `bank_changed_texts` names.
proof fn lemma_bank_changed_texts(d: PropertyBankDelta, r: Seq<PropertyName>)
    requires
        forall|k: Seq<char>| has_text(r, k) <==> d.spec_upserts()@.contains_key(k) || has_text(d.spec_removals(), k),
        strictly_sorted_texts(name_texts(r)),
    ensures
        name_texts(r) == bank_changed_texts(d),
{
    let t = name_texts(r);
    lemma_name_text_set(r);
    assert forall|k: Seq<char>| #[trigger] t.contains(k) <==> d.spec_upserts()@.contains_key(k) || has_text(d.spec_removals(), k) by {
        assert(t.contains(k) == t.to_set().contains(k));
    }
    let s = bank_changed_texts(d);
    lemma_sorted_texts_unique(t, s);
}

/// A bank delta's changed names come out as the same sorted list whether
/// the delta is borrowed (`to_changed_name_set`) or taken apart
/// (`into_changed_name_set`): both hold each upserted or removed name once,
/// in text order.
pub proof fn lemma_changed_name_sets_agree(d: PropertyBankDelta, r1: Seq<PropertyName>, r2: Seq<PropertyName>)
    requires
        forall|k: Seq<char>| has_text(r1, k) <==> d.spec_upserts()@.contains_key(k) || has_text(d.spec_removals(), k),
        strictly_sorted_texts(name_texts(r1)),
        forall|k: Seq<char>| has_text(r2, k) <==> d.spec_upserts()@.contains_key(k) || has_text(d.spec_removals(), k),
        strictly_sorted_texts(name_texts(r2)),
    ensures
        name_texts(r1) == name_texts(r2),
{
    lemma_name_text_set(r1);
    lemma_name_text_set(r2);
    assert forall|k: Seq<char>| name_texts(r1).contains(k) <==> name_texts(r2).contains(k) by {
        assert(name_texts(r1).contains(k) == name_texts(r1).to_set().contains(k));
        assert(name_texts(r2).contains(k) == name_texts(r2).to_set().contains(k));
    }
    lemma_sorted_texts_unique(name_texts(r1), name_texts(r2));
}

// ─────────────────────────────────────────────────────────────────────────────
//  Delta engine
// ─────────────────────────────────────────────────────────────────────────────

/// A raw entry with its canonical encoding: the bytes whose hash identifies
/// the entry's content.
#[derive(Debug, Clone, PartialEq, Eq)]
pub struct EncodedEntry<T> {
    pub value: T,
    pub encoding: Vec<u8>,
}

/// An entry counts as changed unless the previous snapshot holds its name
/// with the hash of its encoding.
pub open spec fn hash_changed(previous: Map<Seq<char>, Blake3Hash>, name: Seq<char>, encoding: Seq<u8>) -> bool {
    !(previous.contains_key(name) && previous[name]@ == blake3_digest(encoding))
}

/// The changed entries of `pairs`, in order, with their values.
pub open spec fn changed_pairs<T>(
    previous: Map<Seq<char>, Blake3Hash>,
    pairs: Seq<(Seq<char>, EncodedEntry<T>)>,
) -> Seq<(Seq<char>, T)>
    decreases pairs.len(),
{
    if pairs.len() == 0 {
        Seq::empty()
    } else {
        let rest = changed_pairs(previous, pairs.drop_last());
        let p = pairs.last();
        if hash_changed(previous, p.0, p.1.encoding@) {
            rest.push((p.0, p.1.value))
        } else {
            rest
        }
    }
}

/// Every key of `changed_pairs` is a key of `pairs`.
proof fn lemma_changed_pairs_keys<T>(
    previous: Map<Seq<char>, Blake3Hash>,
    pairs: Seq<(Seq<char>, EncodedEntry<T>)>,
    k: Seq<char>,
)
    requires
        exists|i: int| 0 <= i < changed_pairs(previous, pairs).len() && #[trigger] changed_pairs(previous, pairs)[i].0 == k,
    ensures
        exists|j: int| 0 <= j < pairs.len() && #[trigger] pairs[j].0 == k,
    decreases pairs.len(),
{
    let c = changed_pairs(previous, pairs);
    let i = choose|i: int| 0 <= i < c.len() && #[trigger] c[i].0 == k;
    let rest = changed_pairs(previous, pairs.drop_last());
    if i < rest.len() {
        assert(rest[i].0 == k);
        lemma_changed_pairs_keys(previous, pairs.drop_last(), k);
        let j = choose|j: int| 0 <= j < pairs.drop_last().len() && #[trigger] pairs.drop_last()[j].0 == k;
        assert(pairs[j].0 == k);
    } else {
        assert(pairs[pairs.len() - 1].0 == k);
    }
}

/// The outcome of comparing a property map with a previous hash snapshot.
#[derive(Debug)]
pub struct PropertyChangeSet<T> {
    /// New or changed entries, in map order.
    pub upserts: NameMap<T>,
    /// Names of the previous snapshot that are gone, sorted.
    pub removals: Vec<PropertyName>,
    /// The hash of every current entry, in map order.
    pub current_hashes: NameMap<Blake3Hash>,
}

impl<T> PropertyChangeSet<T> {
    /// The upserts, removals, and current hashes.
    pub fn into_parts(self) -> (r: (NameMap<T>, Vec<PropertyName>, NameMap<Blake3Hash>))
        ensures
            r.0 == self.upserts,
            r.1 == self.removals,
            r.2 == self.current_hashes,
    {
        (self.upserts, self.removals, self.current_hashes)
    }
}

/// Compares a property map with the hashes recorded for its previous
/// version.
#[derive(Debug)]
pub struct PropertyDeltaEngine<'data, T> {
    properties: NameMap<EncodedEntry<T>>,
    previous_hashes: &'data NameMap<Blake3Hash>,
}

impl<'data, T> PropertyDeltaEngine<'data, T> {
    /// The entries under comparison.
    pub closed spec fn spec_properties(&self) -> NameMap<EncodedEntry<T>> {
        self.properties
    }

    /// The previous hash snapshot.
    pub closed spec fn spec_previous_hashes(&self) -> NameMap<Blake3Hash> {
        *self.previous_hashes
    }

    /// An engine over `properties` and the previous snapshot.
    pub fn for_map(properties: NameMap<EncodedEntry<T>>, previous_hashes: &'data NameMap<Blake3Hash>) -> (e: Self)
        ensures
            e.spec_properties() == properties,
            e.spec_previous_hashes() == *previous_hashes,
    {
        PropertyDeltaEngine { properties, previous_hashes }
    }

    /// Hashes every entry's encoding, keeps the entries whose hash differs
    /// from the snapshot's (or whose name is new) as upserts, and lists the
    /// snapshot's names that are gone, sorted.
    pub fn compute_change_set(self) -> (c: PropertyChangeSet<T>)
        requires
            self.spec_properties().wf(),
            self.spec_previous_hashes().wf(),
        ensures
            c.upserts.wf(),
            c.upserts.pairs() == changed_pairs(self.spec_previous_hashes()@, self.spec_properties().pairs()),
            c.current_hashes.wf(),
            c.current_hashes.pairs().len() == self.spec_properties().pairs().len(),
            forall|i: int|
                0 <= i < c.current_hashes.pairs().len() ==> (#[trigger] c.current_hashes.pairs()[i]).0
                    == self.spec_properties().pairs()[i].0 && c.current_hashes.pairs()[i].1@
                    == blake3_digest(self.spec_properties().pairs()[i].1.encoding@),
            strictly_sorted_texts(name_texts(c.removals@)),
            forall|k: Seq<char>|
                has_text(c.removals@, k) <==> self.spec_previous_hashes()@.contains_key(k)
                    && !self.spec_properties()@.contains_key(k),
    {
        let PropertyDeltaEngine { properties, previous_hashes } = self;
        let ghost pairs = properties.pairs();
        let ghost prev = previous_hashes@;
        proof {
            properties.lemma_view();
            previous_hashes.lemma_view();
        }
        let ghost props_map = properties@;
        let current_names = properties.names();
        let mut entries = properties.into_entries();
        let ghost orig = entries@;
        let mut upserts: NameMap<T> = NameMap::new();
        let mut current_hashes: NameMap<Blake3Hash> = NameMap::new();
        let mut i: usize = 0;
        let n = entries.len();
        while i < n
            invariant
                0 <= i <= n,
                n == orig.len(),
                orig.len() == pairs.len(),
                keys_unique(pairs),
                forall|j: int| 0 <= j < orig.len() ==> (#[trigger] orig[j]).0@ == pairs[j].0 && orig[j].1 == pairs[j].1,
                entries@ == orig.skip(i as int),
                previous_hashes.wf(),
                previous_hashes@ == prev,
                upserts.wf(),
                upserts.pairs() == changed_pairs(prev, pairs.take(i as int)),
                current_hashes.wf(),
                current_hashes.pairs().len() == i,
                forall|j: int|
                    0 <= j < i ==> (#[trigger] current_hashes.pairs()[j]).0 == pairs[j].0
                        && current_hashes.pairs()[j].1@ == blake3_digest(pairs[j].1.encoding@),
            decreases n - i,
        {
            let (name, entry) = entries.remove(0);
            proof {
                assert(entries@ =~= orig.skip(i + 1));
                assert(name@ == pairs[i as int].0);
                assert(pairs.take(i + 1).drop_last() =~= pairs.take(i as int));
                assert(pairs.take(i + 1).last() == pairs[i as int]);
                current_hashes.lemma_view();
                upserts.lemma_view();
            }
            let hash = Blake3Hash::compute(entry.encoding.as_slice());
            let changed = match previous_hashes.get(&name) {
                Some(old) => !old.same(&hash),
                None => true,
            };
            assert(!current_hashes@.contains_key(name@)) by {
                if current_hashes@.contains_key(name@) {
                    let j = choose|j: int| 0 <= j < current_hashes.pairs().len() && #[trigger] current_hashes.pairs()[j].0 == name@;
                    assert(pairs[j].0 == pairs[i as int].0);
                }
            }
            current_hashes.push_new(name.clone(), hash);
            if changed {
                assert(!upserts@.contains_key(name@)) by {
                    if upserts@.contains_key(name@) {
                        let j = choose|j: int| 0 <= j < upserts.pairs().len() && #[trigger] upserts.pairs()[j].0 == name@;
                        lemma_changed_pairs_keys(prev, pairs.take(i as int), name@);
                        let m = choose|m: int| 0 <= m < pairs.take(i as int).len() && #[trigger] pairs.take(i as int)[m].0 == name@;
                        assert(pairs[m].0 == pairs[i as int].0);
                    }
                }
                upserts.push_new(name, entry.value);
            }
            i = i + 1;
        }
        proof {
            assert(pairs.take(n as int) =~= pairs);
        }
        let previous_names = previous_hashes.names();
        let removals = sorted_difference(&previous_names, &current_names);
        proof {
            assert forall|k: Seq<char>|
                has_text(removals@, k) <==> prev.contains_key(k) && !props_map.contains_key(k) by {
                if prev.contains_key(k) {
                    let j = choose|j: int| 0 <= j < previous_names@.len() && #[trigger] previous_names@[j]@ == k;
                    assert(has_text(previous_names@, k));
                }
                if has_text(previous_names@, k) {
                    let j = choose|j: int| 0 <= j < previous_names@.len() && #[trigger] previous_names@[j]@ == k;
                }
                if props_map.contains_key(k) {
                    let j = choose|j: int| 0 <= j < current_names@.len() && #[trigger] current_names@[j]@ == k;
                    assert(has_text(current_names@, k));
                }
                if has_text(current_names@, k) {
                    let j = choose|j: int| 0 <= j < current_names@.len() && #[trigger] current_names@[j]@ == k;
                }
            }
        }
        PropertyChangeSet { upserts, removals, current_hashes }
    }
}

/// The typed upserts hold exactly the entries of `m`: its inline entries
/// as inline upserts and its references as reference upserts.
pub open spec fn upserts_split(u: SchemaPropertyUpserts, m: Map<Seq<char>, RawProperty>) -> bool {
    &&& forall|k: Seq<char>|
        #![trigger u.spec_inline().contains_key(k)]
        #![trigger m.contains_key(k)]
        u.spec_inline().contains_key(k) <==> m.contains_key(k) && m[k] is Inline
    &&& forall|k: Seq<char>|
        #![trigger u.spec_refs().contains_key(k)]
        #![trigger m.contains_key(k)]
        u.spec_refs().contains_key(k) <==> m.contains_key(k) && m[k] is Ref
    &&& forall|k: Seq<char>|
        #![trigger u.spec_inline()[k]]
        u.spec_inline().contains_key(k) ==> m[k] == RawProperty::Inline(u.spec_inline()[k])
    &&& forall|k: Seq<char>|
        #![trigger u.spec_refs()[k]]
        u.spec_refs().contains_key(k) ==> m[k] == RawProperty::Ref(u.spec_refs()[k])
}

impl<'data> PropertyDeltaEngine<'data, RawProperty> {
    /// The schema delta: changed inline definitions and references, and the
    /// names that are gone.
    pub fn diff_schema(self) -> (d: SchemaPropertyDelta)
        requires
            self.spec_properties().wf(),
            self.spec_previous_hashes().wf(),
        ensures
            upserts_split(
                d.spec_upserts(),
                pairs_to_map(changed_pairs(self.spec_previous_hashes()@, self.spec_properties().pairs())),
            ),
            forall|k: Seq<char>|
                d.spec_upserts().spec_inline().contains_key(k) || d.spec_upserts().spec_refs().contains_key(k)
                    <==> pairs_to_map(changed_pairs(self.spec_previous_hashes()@, self.spec_properties().pairs())).contains_key(k),
            strictly_sorted_texts(name_texts(d.spec_removals())),
            forall|k: Seq<char>|
                has_text(d.spec_removals(), k) <==> self.spec_previous_hashes()@.contains_key(k)
                    && !self.spec_properties()@.contains_key(k),
    {
        let ghost prev = self.spec_previous_hashes()@;
        let ghost props = self.spec_properties().pairs();
        let change_set = self.compute_change_set();
        let (upserts, removals, _current_hashes) = change_set.into_parts();
        let ghost up = upserts.pairs();
        proof {
            upserts.lemma_view();
        }
        let entries = upserts.into_entries();
        let mut typed = SchemaPropertyUpserts::default();
        let mut entries = entries;
        let ghost orig = entries@;
        let n = entries.len();
        let mut i: usize = 0;
        while i < n
            invariant
                0 <= i <= n,
                n == orig.len(),
                orig.len() == up.len(),
                forall|j: int| 0 <= j < orig.len() ==> (#[trigger] orig[j]).0@ == up[j].0 && orig[j].1 == up[j].1,
                entries@ == orig.skip(i as int),
                keys_unique(up),
                upserts_split(typed, pairs_to_map(up.take(i as int))),
            decreases n - i,
        {
            let (name, entry) = entries.remove(0);
            let ghost before = pairs_to_map(up.take(i as int));
            let ghost after = pairs_to_map(up.take(i + 1));
            proof {
                assert(entries@ =~= orig.skip(i + 1));
                assert(up.take(i + 1).drop_last() =~= up.take(i as int));
                assert(up.take(i + 1).last() == up[i as int]);
                assert(after == before.insert(name@, entry));
                assert(keys_unique(up.take(i as int))) by {
                    assert forall|a: int, b: int|
                        0 <= a < up.take(i as int).len() && 0 <= b < up.take(i as int).len() && a != b implies
                        #[trigger] up.take(i as int)[a].0 != #[trigger] up.take(i as int)[b].0 by {
                        assert(up[a].0 != up[b].0);
                    }
                }
                lemma_pairs_to_map(up.take(i as int));
                assert(!before.contains_key(name@)) by {
                    if before.contains_key(name@) {
                        let j = choose|j: int| 0 <= j < up.take(i as int).len() && #[trigger] up.take(i as int)[j].0 == name@;
                        assert(up[j].0 == up[i as int].0);
                    }
                }
            }
            match entry {
                RawProperty::Inline(inline) => {
                    typed.insert_inline(name, inline);
                },
                RawProperty::Ref(r) => {
                    typed.insert_ref(name, r);
                },
            }
            i = i + 1;
        }
        proof {
            assert(up.take(n as int) =~= up);
            let m = pairs_to_map(up);
            assert forall|k: Seq<char>|
                typed.spec_inline().contains_key(k) || typed.spec_refs().contains_key(k) <==> m.contains_key(k) by {
                if m.contains_key(k) {
                    match m[k] {
                        RawProperty::Inline(_) => {},
                        RawProperty::Ref(_) => {},
                    }
                }
            }
        }
        SchemaPropertyDelta::new(typed, removals)
    }
}

// ─────────────────────────────────────────────────────────────────────────────
//  Changed names between two hash snapshots
// ─────────────────────────────────────────────────────────────────────────────

/// The names of `current` whose hash is new or differs from `previous`, in
/// order.
pub open spec fn differing_names(
    previous: Map<Seq<char>, Blake3Hash>,
    current: Seq<(Seq<char>, Blake3Hash)>,
) -> Seq<Seq<char>>
    decreases current.len(),
{
    if current.len() == 0 {
        Seq::empty()
    } else {
        let rest = differing_names(previous, current.drop_last());
        let p = current.last();
        if previous.contains_key(p.0) && previous[p.0]@ == p.1@ {
            rest
        } else {
            rest.push(p.0)
        }
    }
}

/// The names that changed from `previous` to `current`: first the names of
/// `current` whose hash is new or differs, in order, then the names of
/// `previous` that are gone, sorted.
pub fn changed_names(previous: &NameMap<Blake3Hash>, current: &NameMap<Blake3Hash>) -> (r: Vec<PropertyName>)
    requires
        previous.wf(),
        current.wf(),
    ensures
        differing_names(previous@, current.pairs()).len() <= r@.len(),
        name_texts(r@.take(differing_names(previous@, current.pairs()).len() as int))
            == differing_names(previous@, current.pairs()),
        strictly_sorted_texts(name_texts(r@.skip(differing_names(previous@, current.pairs()).len() as int))),
        forall|k: Seq<char>|
            has_text(r@.skip(differing_names(previous@, current.pairs()).len() as int), k)
                <==> previous@.contains_key(k) && !current@.contains_key(k),
{
    let ghost pairs = current.pairs();
    let entries = current.entries();
    let mut upserted: Vec<PropertyName> = Vec::new();
    let mut i: usize = 0;
    while i < entries.len()
        invariant
            0 <= i <= entries@.len(),
            entries@.len() == pairs.len(),
            forall|j: int| 0 <= j < entries@.len() ==> (#[trigger] entries@[j]).0@ == pairs[j].0 && entries@[j].1 == pairs[j].1,
            previous.wf(),
            name_texts(upserted@) == differing_names(previous@, pairs.take(i as int)),
        decreases entries@.len() - i,
    {
        let e = &entries[i];
        let ghost before = upserted@;
        proof {
            assert(pairs.take(i + 1).drop_last() =~= pairs.take(i as int));
            assert(pairs.take(i + 1).last() == pairs[i as int]);
        }
        let unchanged = match previous.get(&e.0) {
            Some(h) => h.same(&e.1),
            None => false,
        };
        if !unchanged {
            upserted.push(e.0.clone());
            proof {
                assert(name_texts(upserted@) =~= name_texts(before).push(e.0@));
            }
        }
        i = i + 1;
    }
    proof {
        assert(pairs.take(entries@.len() as int) =~= pairs);
    }
    let previous_names = previous.names();
    let current_names = current.names();
    let removals = sorted_difference(&previous_names, &current_names);
    let r = concat_names(&upserted, &removals);
    proof {
        let u = upserted@.len() as int;
        assert(name_texts(r@).len() == r@.len());
        assert(name_texts(r@.take(u)) =~= name_texts(upserted@)) by {
            assert forall|j: int| 0 <= j < u implies name_texts(r@.take(u))[j] == name_texts(upserted@)[j] by {
                assert(name_texts(r@)[j] == (name_texts(upserted@) + name_texts(removals@))[j]);
            }
        }
        assert(name_texts(r@.skip(u)) =~= name_texts(removals@)) by {
            assert forall|j: int| 0 <= j < removals@.len() implies name_texts(r@.skip(u))[j] == name_texts(removals@)[j] by {
                assert(name_texts(r@)[u + j] == (name_texts(upserted@) + name_texts(removals@))[u + j]);
            }
        }
        assert forall|k: Seq<char>| has_text(r@.skip(u), k) <==> has_text(removals@, k) by {
            if has_text(r@.skip(u), k) {
                let j = choose|j: int| 0 <= j < r@.skip(u).len() && #[trigger] r@.skip(u)[j]@ == k;
                assert(name_texts(r@.skip(u))[j] == k);
                assert(removals@[j]@ == name_texts(removals@)[j]);
            }
            if has_text(removals@, k) {
                let j = choose|j: int| 0 <= j < removals@.len() && #[trigger] removals@[j]@ == k;
                assert(name_texts(removals@)[j] == k);
                assert(r@.skip(u)[j]@ == name_texts(r@.skip(u))[j]);
            }
        }
        assert forall|k: Seq<char>|
            has_text(removals@, k) <==> previous@.contains_key(k) && !current@.contains_key(k) by {
            if previous@.contains_key(k) {
                let j = choose|j: int| 0 <= j < previous_names@.len() && #[trigger] previous_names@[j]@ == k;
                assert(has_text(previous_names@, k));
            }
            if has_text(previous_names@, k) {
                let j = choose|j: int| 0 <= j < previous_names@.len() && #[trigger] previous_names@[j]@ == k;
            }
            if current@.contains_key(k) {
                let j = choose|j: int| 0 <= j < current_names@.len() && #[trigger] current_names@[j]@ == k;
                assert(has_text(current_names@, k));
            }
            if has_text(current_names@, k) {
                let j = choose|j: int| 0 <= j < current_names@.len() && #[trigger] current_names@[j]@ == k;
            }
        }
        assert(u == differing_names(previous@, current.pairs()).len());
        assert forall|k: Seq<char>|
            has_text(r@.skip(u), k) <==> previous@.contains_key(k) && !current@.contains_key(k) by {
            assert(has_text(r@.skip(u), k) <==> has_text(removals@, k));
        }
    }
    r
}

} // verus!
