//! A lookup index of schemas by name, identifier and file path.

use vstd::prelude::*;

use crate::error::SchemaError;
use crate::identifier::{file_name, file_stem, valid_name, PathKey, SchemaId, SchemaName};
use crate::idmap::IdMap;
use crate::textmap::TextMap;

verus! {

/// One indexed schema: identifier, name, and the path it was read from.
#[derive(Debug)]
pub struct SchemaIndexEntry {
    id: SchemaId,
    name: SchemaName,
    path: Option<PathKey>,
}

/// An entry as plain values: identifier, name text, path text.
pub type EntryModel = (SchemaId, Seq<char>, Option<Seq<char>>);

impl SchemaIndexEntry {
    /// The entry as plain values.
    pub closed spec fn model(self) -> EntryModel {
        (self.id, self.name@, match self.path {
            Some(p) => Some(p@),
            None => None,
        })
    }

    /// An entry without a path.
    pub fn new(id: SchemaId, name: SchemaName) -> (e: SchemaIndexEntry)
        ensures
            e.model() == (id, name@, None::<Seq<char>>),
    {
        SchemaIndexEntry { id, name, path: None }
    }

    /// The entry with its path set.
    pub fn with_path(self, path: PathKey) -> (e: SchemaIndexEntry)
        ensures
            e.model() == (self.model().0, self.model().1, Some(path@)),
    {
        SchemaIndexEntry { id: self.id, name: self.name, path: Some(path) }
    }

    /// The schema identifier.
    pub fn id(&self) -> (r: SchemaId)
        ensures
            r == self.model().0,
    {
        self.id
    }

    /// The schema identifier.
    pub fn id_ref(&self) -> (r: &SchemaId)
        ensures
            *r == self.model().0,
    {
        &self.id
    }

    /// The schema name.
    pub fn name(&self) -> (r: &SchemaName)
        ensures
            r@ == self.model().1,
    {
        &self.name
    }

    /// The path, if known.
    pub fn path(&self) -> (r: Option<&PathKey>)
        ensures
            match r {
                Some(p) => self.model().2 == Some(p@),
                None => self.model().2 is None,
            },
    {
        match &self.path {
            Some(p) => Some(p),
            None => None,
        }
    }
}

/// The index as plain values: the entries in insertion order and the
/// positions each name, identifier and path text points to.
pub struct IndexModel {
    pub entries: Seq<EntryModel>,
    pub names: Map<Seq<char>, usize>,
    pub ids: Map<SchemaId, usize>,
    pub paths: Map<Seq<char>, usize>,
}

/// The empty index.
pub open spec fn empty_model() -> IndexModel {
    IndexModel { entries: Seq::empty(), names: Map::empty(), ids: Map::empty(), paths: Map::empty() }
}

/// Appends `e` and points its name, identifier and path (if any) at it.
pub open spec fn model_insert_entry(m: IndexModel, e: EntryModel) -> IndexModel {
    let idx = m.entries.len() as usize;
    IndexModel {
        entries: m.entries.push(e),
        names: m.names.insert(e.1, idx),
        ids: m.ids.insert(e.0, idx),
        paths: match e.2 {
            Some(p) => m.paths.insert(p, idx),
            None => m.paths,
        },
    }
}

/// Renames the entry of `id` (dropping its old name from the name index),
/// or appends a new entry.
pub open spec fn model_insert_name(m: IndexModel, name: Seq<char>, id: SchemaId) -> IndexModel {
    if m.ids.contains_key(id) {
        let idx = m.ids[id];
        let old = m.entries[idx as int];
        IndexModel {
            entries: m.entries.update(idx as int, (old.0, name, old.2)),
            names: m.names.remove(old.1).insert(name, idx),
            ids: m.ids,
            paths: m.paths,
        }
    } else {
        model_insert_entry(m, (id, name, None))
    }
}

/// Sets the path of the entry of `id`, keeping the path index in step
/// (`drop_old`: the old path is removed from it first).
pub open spec fn model_set_path(m: IndexModel, path: Seq<char>, id: SchemaId, drop_old: bool) -> IndexModel {
    let idx = m.ids[id];
    let old = m.entries[idx as int];
    IndexModel {
        entries: m.entries.update(idx as int, (old.0, old.1, Some(path))),
        names: m.names,
        ids: m.ids,
        paths: (if drop_old && old.2 is Some { m.paths.remove(old.2->0) } else { m.paths }).insert(path, idx),
    }
}

/// The name a path gives a schema: the stem of its file name, if valid.
pub open spec fn path_name(path: Seq<char>) -> Option<Seq<char>> {
    if file_name(path).len() > 0 && valid_name(file_stem(file_name(path))) {
        Some(file_stem(file_name(path)))
    } else {
        None
    }
}

/// Every identifier in the identifier index points at an entry carrying
/// that identifier.
pub open spec fn ids_consistent(m: IndexModel) -> bool {
    forall|id: SchemaId|
        #[trigger] m.ids.contains_key(id) ==> m.ids[id] < m.entries.len() && m.entries[m.ids[id] as int].0 == id
}

/// The empty index is consistent.
pub proof fn lemma_empty_consistent()
    ensures
        ids_consistent(empty_model()),
{
}

/// Appending an entry and setting a path keep the identifier index
/// consistent (an index has fewer entries than `usize::MAX`).
pub proof fn lemma_updates_keep_consistency(m: IndexModel, e: EntryModel, path: Seq<char>, id: SchemaId, drop_old: bool)
    requires
        ids_consistent(m),
        m.entries.len() < usize::MAX,
    ensures
        ids_consistent(model_insert_entry(m, e)),
        m.ids.contains_key(id) ==> ids_consistent(model_set_path(m, path, id, drop_old)),
{
    let m2 = model_insert_entry(m, e);
    assert(m2.entries.len() == m.entries.len() + 1);
    assert forall|k: SchemaId| #[trigger] m2.ids.contains_key(k) implies m2.ids[k] < m2.entries.len()
        && m2.entries[m2.ids[k] as int].0 == k by {
        if k != e.0 {
            assert(m.ids.contains_key(k));
            assert(m2.entries[m.ids[k] as int] == m.entries[m.ids[k] as int]);
        } else {
            assert(m2.ids[k] == m.entries.len());
        }
    }
    if m.ids.contains_key(id) {
        let m3 = model_set_path(m, path, id, drop_old);
        let idx = m.ids[id];
        assert forall|k: SchemaId| #[trigger] m3.ids.contains_key(k) implies m3.ids[k] < m3.entries.len()
            && m3.entries[m3.ids[k] as int].0 == k by {
            assert(m.ids.contains_key(k));
            if m.ids[k] == idx {
                assert(m.entries[idx as int].0 == k);
            }
        }
    }
}

/// Naming a schema keeps the index consistent, and a lookup reads back what
/// was written: the name leads to the schema, and the schema carries the
/// name (an index has fewer entries than `usize::MAX`).
pub proof fn lemma_insert_name_then_lookup(m: IndexModel, name: Seq<char>, id: SchemaId)
    requires
        ids_consistent(m),
        m.entries.len() < usize::MAX,
    ensures
        ids_consistent(model_insert_name(m, name, id)),
        model_insert_name(m, name, id).names.contains_key(name),
        model_insert_name(m, name, id).entries[model_insert_name(m, name, id).names[name] as int].0 == id,
        model_insert_name(m, name, id).ids.contains_key(id),
        model_insert_name(m, name, id).entries[model_insert_name(m, name, id).ids[id] as int].1 == name,
{
    let m2 = model_insert_name(m, name, id);
    if m.ids.contains_key(id) {
        let idx = m.ids[id];
        assert(m.entries[idx as int].0 == id);
        assert forall|k: SchemaId| #[trigger] m2.ids.contains_key(k) implies m2.ids[k] < m2.entries.len()
            && m2.entries[m2.ids[k] as int].0 == k by {
            assert(m.ids.contains_key(k));
            if m.ids[k] == idx {
                assert(m.entries[idx as int].0 == k);
            }
        }
        assert(m2.names[name] == idx);
    } else {
        lemma_updates_keep_consistency(m, (id, name, None), name, id, false);
        assert(m2.names[name] == m.entries.len());
        assert(m2.ids[id] == m.entries.len());
    }
}

/// A schema index: entries with name, identifier and path lookups.
#[derive(Debug)]
pub struct SchemaIndex {
    entries: Vec<SchemaIndexEntry>,
    name_index: TextMap<usize>,
    id_index: IdMap<usize>,
    path_index: TextMap<usize>,
}

impl SchemaIndex {
    /// The index as plain values.
    pub closed spec fn view(self) -> IndexModel {
        IndexModel {
            entries: self.entries@.map_values(|e: SchemaIndexEntry| e.model()),
            names: self.name_index@,
            ids: self.id_index@,
            paths: self.path_index@,
        }
    }

    /// The lookup maps are well formed and point at entries.
    pub closed spec fn wf(self) -> bool {
        &&& self.name_index.wf()
        &&& self.id_index.wf()
        &&& self.path_index.wf()
        &&& forall|k: Seq<char>| #[trigger] self.name_index@.contains_key(k) ==> self.name_index@[k] < self.entries@.len()
        &&& forall|k: SchemaId| #[trigger] self.id_index@.contains_key(k) ==> self.id_index@[k] < self.entries@.len()
        &&& forall|k: Seq<char>| #[trigger] self.path_index@.contains_key(k) ==> self.path_index@[k] < self.entries@.len()
    }

    /// An empty index.
    pub fn new() -> (r: SchemaIndex)
        ensures
            r.wf(),
            r@ == empty_model(),
    {
        let r = SchemaIndex { entries: Vec::new(), name_index: TextMap::new(), id_index: IdMap::new(), path_index: TextMap::new() };
        assert(r@.entries =~= Seq::<EntryModel>::empty());
        r
    }

    /// An empty index expecting about `capacity` entries.
    pub fn with_capacity(capacity: usize) -> (r: SchemaIndex)
        ensures
            r.wf(),
            r@ == empty_model(),
    {
        SchemaIndex::new()
    }

    /// Releases spare capacity; the contents stay the same.
    pub fn shrink_to_fit(&mut self)
        ensures
            final(self)@ == old(self)@,
            final(self).wf() == old(self).wf(),
    {
    }

    fn insert_entry(&mut self, entry: SchemaIndexEntry)
        requires
            old(self).wf(),
        ensures
            final(self).wf(),
            final(self)@ == model_insert_entry(old(self)@, entry.model()),
    {
        let idx = self.entries.len();
        let ghost old_entries = self.entries@;
        self.name_index.insert(crate::text::copy_text(entry.name.as_str()), idx);
        self.id_index.insert(entry.id, idx);
        match &entry.path {
            Some(p) => {
                self.path_index.insert(crate::text::copy_text(p.as_str()), idx);
            },
            None => {},
        }
        self.entries.push(entry);
        proof {
            assert(self@.entries =~= old(self)@.entries.push(entry.model()));
        }
    }

    fn entry_at(&self, idx: usize) -> (r: &SchemaIndexEntry)
        requires
            idx < self.entries@.len(),
        ensures
            r.model() == self@.entries[idx as int],
    {
        &self.entries[idx]
    }

    /// The entry of `id`.
    pub fn get_entry_by_id(&self, id: &SchemaId) -> (r: Option<&SchemaIndexEntry>)
        requires
            self.wf(),
        ensures
            (r is Some) == self@.ids.contains_key(*id),
            r matches Some(e) ==> e.model() == self@.entries[self@.ids[*id] as int],
    {
        match self.id_index.get(id) {
            Some(idx) => Some(self.entry_at(*idx)),
            None => None,
        }
    }

    /// The entry named `name`.
    pub fn get_entry_by_name(&self, name: &SchemaName) -> (r: Option<&SchemaIndexEntry>)
        requires
            self.wf(),
        ensures
            (r is Some) == self@.names.contains_key(name@),
            r matches Some(e) ==> e.model() == self@.entries[self@.names[name@] as int],
    {
        match self.name_index.get(name.as_str()) {
            Some(idx) => Some(self.entry_at(*idx)),
            None => None,
        }
    }

    /// The entry read from `path`.
    pub fn get_entry_by_path(&self, path: &PathKey) -> (r: Option<&SchemaIndexEntry>)
        requires
            self.wf(),
        ensures
            (r is Some) == self@.paths.contains_key(path@),
            r matches Some(e) ==> e.model() == self@.entries[self@.paths[path@] as int],
    {
        match self.path_index.get(path.as_str()) {
            Some(idx) => Some(self.entry_at(*idx)),
            None => None,
        }
    }

    /// The identifier of the schema named `name`.
    pub fn get_id_by_name(&self, name: &SchemaName) -> (r: Option<SchemaId>)
        requires
            self.wf(),
        ensures
            (r is Some) == self@.names.contains_key(name@),
            r matches Some(id) ==> id == self@.entries[self@.names[name@] as int].0,
    {
        match self.get_entry_by_name(name) {
            Some(e) => Some(e.id()),
            None => None,
        }
    }

    /// The name of the schema with identifier `id`.
    pub fn get_name_by_id(&self, id: &SchemaId) -> (r: Option<&SchemaName>)
        requires
            self.wf(),
        ensures
            (r is Some) == self@.ids.contains_key(*id),
            r matches Some(n) ==> n@ == self@.entries[self@.ids[*id] as int].1,
    {
        match self.get_entry_by_id(id) {
            Some(e) => Some(e.name()),
            None => None,
        }
    }

    /// The identifier of the schema read from `path`.
    pub fn get_id_by_path(&self, path: &PathKey) -> (r: Option<SchemaId>)
        requires
            self.wf(),
        ensures
            (r is Some) == self@.paths.contains_key(path@),
            r matches Some(id) ==> id == self@.entries[self@.paths[path@] as int].0,
    {
        match self.get_entry_by_path(path) {
            Some(e) => Some(e.id()),
            None => None,
        }
    }

    /// The entries, in insertion order.
    pub fn entries(&self) -> (r: &Vec<SchemaIndexEntry>)
        ensures
            r@.map_values(|e: SchemaIndexEntry| e.model()) == self@.entries,
    {
        &self.entries
    }

    /// The entries, taking the index apart.
    pub fn into_entries(self) -> (r: Vec<SchemaIndexEntry>)
        ensures
            r@.map_values(|e: SchemaIndexEntry| e.model()) == self@.entries,
    {
        self.entries
    }

    /// The number of entries.
    pub fn len(&self) -> (n: usize)
        ensures
            n == self@.entries.len(),
    {
        self.entries.len()
    }

    /// Whether there are no entries.
    pub fn is_empty(&self) -> (b: bool)
        ensures
            b == (self@.entries.len() == 0),
    {
        self.entries.len() == 0
    }

    /// The (identifier, name) of each entry, in order.
    pub fn iter_name_id(&self) -> (r: Vec<(SchemaId, SchemaName)>)
        ensures
            r@.len() == self@.entries.len(),
            forall|i: int| 0 <= i < r@.len() ==> (#[trigger] r@[i]).0 == self@.entries[i].0 && r@[i].1@ == self@.entries[i].1,
    {
        let mut r: Vec<(SchemaId, SchemaName)> = Vec::new();
        let mut i: usize = 0;
        while i < self.entries.len()
            invariant
                0 <= i <= self.entries@.len(),
                r@.len() == i,
                forall|j: int| 0 <= j < i ==> (#[trigger] r@[j]).0 == self@.entries[j].0 && r@[j].1@ == self@.entries[j].1,
            decreases self.entries@.len() - i,
        {
            let e = &self.entries[i];
            r.push((e.id, e.name.clone()));
            i = i + 1;
        }
        r
    }

    /// The (path, identifier) of each entry with a path, in order.
    pub fn iter_path_id(&self) -> (r: Vec<(PathKey, SchemaId)>)
        ensures
            forall|i: int| 0 <= i < r@.len() ==> exists|j: int| 0 <= j < self@.entries.len() && #[trigger] self@.entries[j].2 == Some((#[trigger] r@[i]).0@)
                && self@.entries[j].0 == r@[i].1,
            r@.len() == self@.entries.filter(|e: EntryModel| e.2 is Some).len(),
    {
        let ghost es = self@.entries;
        let mut r: Vec<(PathKey, SchemaId)> = Vec::new();
        let mut i: usize = 0;
        proof {
            reveal(Seq::filter);
            assert(es.take(0).filter(|e: EntryModel| e.2 is Some) =~= Seq::<EntryModel>::empty());
        }
        while i < self.entries.len()
            invariant
                0 <= i <= self.entries@.len(),
                es == self@.entries,
                forall|k: int| 0 <= k < r@.len() ==> exists|j: int| 0 <= j < es.len() && #[trigger] es[j].2 == Some((#[trigger] r@[k]).0@) && es[j].0 == r@[k].1,
                r@.len() == es.take(i as int).filter(|e: EntryModel| e.2 is Some).len(),
            decreases self.entries@.len() - i,
        {
            let e = &self.entries[i];
            proof {
                assert(es.take(i + 1).drop_last() =~= es.take(i as int));
                assert(es.take(i + 1).last() == e.model());
                assert(es.take(i + 1).filter(|x: EntryModel| x.2 is Some) == (if e.model().2 is Some {
                    es.take(i as int).filter(|x: EntryModel| x.2 is Some).push(e.model())
                } else {
                    es.take(i as int).filter(|x: EntryModel| x.2 is Some)
                })) by {
                    reveal(Seq::filter);
                }
            }
            match &e.path {
                Some(p) => {
                    let ghost before = r@;
                    r.push((p.clone(), e.id));
                    proof {
                        assert(es[i as int] == e.model());
                        assert forall|k: int| 0 <= k < r@.len() implies exists|j: int| 0 <= j < es.len() && #[trigger] es[j].2 == Some((#[trigger] r@[k]).0@) && es[j].0 == r@[k].1 by {
                            if k < before.len() {
                                assert(r@[k] == before[k]);
                            } else {
                                assert(es[i as int].2 == Some(r@[k].0@));
                            }
                        }
                    }
                },
                None => {},
            }
            i = i + 1;
        }
        proof {
            assert(es.take(es.len() as int) =~= es);
        }
        r
    }

    /// Renames the schema `id` (its old name leaves the name index), or adds
    /// it when unknown.
    pub fn insert_name(&mut self, name: SchemaName, id: SchemaId)
        requires
            old(self).wf(),
        ensures
            final(self).wf(),
            final(self)@ == model_insert_name(old(self)@, name@, id),
    {
        match self.id_index.get(&id) {
            Some(idx_ref) => {
                let idx = *idx_ref;
                let old_name = crate::text::copy_text(self.entries[idx].name.as_str());
                let ghost old_entries = self.entries@;
                self.name_index.remove(old_name.as_str());
                self.name_index.insert(crate::text::copy_text(name.as_str()), idx);
                let mut entries: Vec<SchemaIndexEntry> = Vec::new();
                std::mem::swap(&mut entries, &mut self.entries);
                let old_entry = entries.remove(idx);
                let SchemaIndexEntry { id: eid, name: _, path } = old_entry;
                let ghost old_model = old_entries[idx as int].model();
                entries.insert(idx, SchemaIndexEntry { id: eid, name, path });
                self.entries = entries;
                proof {
                    assert(self@.entries =~= old(self)@.entries.update(idx as int, (old_model.0, name@, old_model.2)));
                }
            },
            None => {
                self.insert_entry(SchemaIndexEntry::new(id, name));
            },
        }
    }

    /// Sets the path of the schema `id` (its old path leaves the path index),
    /// or adds the schema, named after its file, when unknown. Fails when the
    /// schema is unknown and the file name gives no valid name.
    pub fn insert_path(&mut self, path: PathKey, id: SchemaId) -> (r: Result<(), SchemaError>)
        requires
            old(self).wf(),
        ensures
            final(self).wf(),
            old(self)@.ids.contains_key(id) ==> r is Ok && final(self)@ == model_set_path(old(self)@, path@, id, true),
            !old(self)@.ids.contains_key(id) ==> (r is Ok <==> path_name(path@) is Some),
            !old(self)@.ids.contains_key(id) && r is Ok ==> final(self)@ == model_insert_entry(
                old(self)@,
                (id, path_name(path@)->0, Some(path@)),
            ),
            r is Err ==> final(self)@ == old(self)@,
    {
        match self.id_index.get(&id) {
            Some(idx_ref) => {
                let idx = *idx_ref;
                proof {
                    assert(self@.ids.contains_key(id) && self@.ids[id] == idx);
                }
                self.set_path(path, idx, true);
                Ok(())
            },
            None => {
                let name = match SchemaName::try_from_path(&path) {
                    Ok(n) => n,
                    Err(e) => {
                        return Err(e);
                    },
                };
                self.insert_entry(SchemaIndexEntry::new(id, name).with_path(path));
                Ok(())
            },
        }
    }

    fn set_path(&mut self, path: PathKey, idx: usize, drop_old: bool)
        requires
            old(self).wf(),
            idx < old(self)@.entries.len(),
            exists|id: SchemaId| old(self)@.ids.contains_key(id) && old(self)@.ids[id] == idx,
        ensures
            final(self).wf(),
            forall|id: SchemaId| old(self)@.ids.contains_key(id) && old(self)@.ids[id] == idx ==> final(self)@ == model_set_path(
                old(self)@,
                path@,
                id,
                drop_old,
            ),
    {
        let ghost old_entries = self.entries@;
        if drop_old {
            match &self.entries[idx].path {
                Some(old_path) => {
                    let key = crate::text::copy_text(old_path.as_str());
                    self.path_index.remove(key.as_str());
                },
                None => {},
            }
        }
        self.path_index.insert(crate::text::copy_text(path.as_str()), idx);
        let mut entries: Vec<SchemaIndexEntry> = Vec::new();
        std::mem::swap(&mut entries, &mut self.entries);
        let old_entry = entries.remove(idx);
        let SchemaIndexEntry { id: eid, name, path: _ } = old_entry;
        let ghost old_model = old_entries[idx as int].model();
        entries.insert(idx, SchemaIndexEntry { id: eid, name, path: Some(path) });
        self.entries = entries;
        proof {
            assert(self@.entries =~= old(self)@.entries.update(idx as int, (old_model.0, old_model.1, Some(path@))));
        }
    }
}

/// The index built by adding each (name, identifier) pair in turn.
pub open spec fn model_from_names(pairs: Seq<(SchemaName, SchemaId)>) -> IndexModel
    decreases pairs.len(),
{
    if pairs.len() == 0 {
        empty_model()
    } else {
        model_insert_entry(model_from_names(pairs.drop_last()), (pairs.last().1, pairs.last().0@, None))
    }
}

/// The index holding one entry per pair and only the name lookup.
pub open spec fn model_names_only(pairs: Seq<(SchemaName, SchemaId)>) -> IndexModel
    decreases pairs.len(),
{
    if pairs.len() == 0 {
        empty_model()
    } else {
        let m = model_names_only(pairs.drop_last());
        IndexModel {
            entries: m.entries.push((pairs.last().1, pairs.last().0@, None)),
            names: m.names.insert(pairs.last().0@, m.entries.len() as usize),
            ids: m.ids,
            paths: m.paths,
        }
    }
}

/// Adds each (path, identifier) pair to `m` in turn: a known identifier
/// gets the path, an unknown one a new entry named after the file. `None`
/// when a needed file name gives no valid name.
pub open spec fn model_add_paths(m: IndexModel, pairs: Seq<(PathKey, SchemaId)>, augment: bool) -> Option<IndexModel>
    decreases pairs.len(),
{
    if pairs.len() == 0 {
        Some(m)
    } else {
        match model_add_paths(m, pairs.drop_last(), augment) {
            None => None,
            Some(m2) => {
                let (p, id) = pairs.last();
                if augment && m2.ids.contains_key(id) {
                    Some(model_set_path(m2, p@, id, false))
                } else {
                    match path_name(p@) {
                        None => None,
                        Some(n) => Some(model_insert_entry(m2, (id, n, Some(p@)))),
                    }
                }
            },
        }
    }
}

impl SchemaIndex {
    /// The index of the (name, identifier) pairs, added in order.
    pub fn from_name_id_pairs(pairs: Vec<(SchemaName, SchemaId)>) -> (r: SchemaIndex)
        ensures
            r.wf(),
            r@ == model_from_names(pairs@),
    {
        let ghost all = pairs@;
        let mut index = SchemaIndex::with_capacity(pairs.len());
        let mut rest = pairs;
        let mut n: usize = 0;
        let total: usize = rest.len();
        proof {
            assert(all.skip(0) =~= all);
            assert(all.take(0) =~= Seq::<(SchemaName, SchemaId)>::empty());
        }
        while rest.len() > 0
            invariant
                n + rest@.len() == all.len(),
                all.len() == total,
                rest@ == all.skip(n as int),
                index.wf(),
                index@ == model_from_names(all.take(n as int)),
            decreases rest@.len(),
        {
            let (name, id) = rest.remove(0);
            proof {
                assert((name, id) == all[n as int]);
                assert(all.take(n + 1).drop_last() =~= all.take(n as int));
            }
            index.insert_entry(SchemaIndexEntry::new(id, name));
            n = n + 1;
        }
        proof {
            assert(all.take(n as int) =~= all);
        }
        index
    }

    /// An index of the pairs with only the name lookup filled in.
    pub fn from_name_id_pairs_only(pairs: Vec<(SchemaName, SchemaId)>) -> (r: SchemaIndex)
        ensures
            r.wf(),
            r@ == model_names_only(pairs@),
    {
        let ghost all = pairs@;
        let mut index = SchemaIndex::new();
        let mut rest = pairs;
        let mut n: usize = 0;
        let total: usize = rest.len();
        proof {
            assert(all.skip(0) =~= all);
            assert(all.take(0) =~= Seq::<(SchemaName, SchemaId)>::empty());
        }
        while rest.len() > 0
            invariant
                n + rest@.len() == all.len(),
                all.len() == total,
                rest@ == all.skip(n as int),
                index.wf(),
                index@ == model_names_only(all.take(n as int)),
            decreases rest@.len(),
        {
            let (name, id) = rest.remove(0);
            proof {
                assert((name, id) == all[n as int]);
                assert(all.take(n + 1).drop_last() =~= all.take(n as int));
            }
            let idx = index.entries.len();
            index.name_index.insert(crate::text::copy_text(name.as_str()), idx);
            let ghost old_entries = index@.entries;
            index.entries.push(SchemaIndexEntry::new(id, name));
            proof {
                assert(index@.entries =~= old_entries.push((id, name@, None)));
            }
            n = n + 1;
        }
        proof {
            assert(all.take(n as int) =~= all);
        }
        index
    }

    fn add_paths(&mut self, pairs: Vec<(PathKey, SchemaId)>, augment: bool) -> (r: Result<(), SchemaError>)
        requires
            old(self).wf(),
        ensures
            final(self).wf(),
            r is Ok <==> model_add_paths(old(self)@, pairs@, augment) is Some,
            r is Ok ==> final(self)@ == model_add_paths(old(self)@, pairs@, augment)->0,
    {
        let ghost all = pairs@;
        let ghost start = self@;
        let mut rest = pairs;
        let mut n: usize = 0;
        let total: usize = rest.len();
        proof {
            assert(all.skip(0) =~= all);
            assert(all.take(0) =~= Seq::<(PathKey, SchemaId)>::empty());
        }
        while rest.len() > 0
            invariant
                n + rest@.len() == all.len(),
                all.len() == total,
                rest@ == all.skip(n as int),
                self.wf(),
                start == old(self)@,
                all == pairs@,
                model_add_paths(start, all.take(n as int), augment) == Some(self@),
            decreases rest@.len(),
        {
            let (path, id) = rest.remove(0);
            proof {
                assert((path, id) == all[n as int]);
                assert(all.take(n + 1).drop_last() =~= all.take(n as int));
                assert(all.take(n + 1).last() == (path, id));
            }
            let known = if augment {
                self.id_index.get(&id)
            } else {
                None
            };
            match known {
                Some(idx_ref) => {
                    let idx = *idx_ref;
                    proof {
                        assert(self@.ids.contains_key(id) && self@.ids[id] == idx);
                    }
                    self.set_path(path, idx, false);
                },
                None => {
                    match SchemaName::try_from_path(&path) {
                        Ok(name) => {
                            self.insert_entry(SchemaIndexEntry::new(id, name).with_path(path));
                        },
                        Err(e) => {
                            proof {
                                let bad = all.take(n + 1);
                                assert(model_add_paths(start, bad, augment) is None);
                                lemma_add_paths_none_persists(start, all, augment, n + 1);
                                assert(all.take(all.len() as int) =~= all);
                            }
                            let r: Result<(), SchemaError> = Err(e);
                            return r;
                        },
                    }
                },
            }
            n = n + 1;
        }
        proof {
            assert(all.take(n as int) =~= all);
        }
        Ok(())
    }

    /// The index of the (path, identifier) pairs, each named after its
    /// file. Fails when a file name gives no valid name.
    pub fn from_path_id_pairs(pairs: Vec<(PathKey, SchemaId)>) -> (r: Result<SchemaIndex, SchemaError>)
        ensures
            r is Ok <==> model_add_paths(empty_model(), pairs@, false) is Some,
            r matches Ok(i) ==> i.wf() && i@ == model_add_paths(empty_model(), pairs@, false)->0,
    {
        let mut index = SchemaIndex::with_capacity(pairs.len());
        match index.add_paths(pairs, false) {
            Ok(()) => Ok(index),
            Err(e) => Err(e),
        }
    }

    /// The index of the name pairs, then the path pairs: a path of a known
    /// identifier is attached to its entry, any other path adds an entry
    /// named after its file. Fails when such a file name gives no valid
    /// name.
    pub fn from_pairs(
        name_pairs: Vec<(SchemaName, SchemaId)>,
        path_pairs: Vec<(PathKey, SchemaId)>,
    ) -> (r: Result<SchemaIndex, SchemaError>)
        ensures
            r is Ok <==> model_add_paths(model_from_names(name_pairs@), path_pairs@, true) is Some,
            r matches Ok(i) ==> i.wf() && i@ == model_add_paths(model_from_names(name_pairs@), path_pairs@, true)->0,
    {
        let mut index = SchemaIndex::from_name_id_pairs(name_pairs);
        match index.add_paths(path_pairs, true) {
            Ok(()) => Ok(index),
            Err(e) => Err(e),
        }
    }
}

proof fn lemma_add_paths_none_persists(m: IndexModel, pairs: Seq<(PathKey, SchemaId)>, augment: bool, k: int)
    requires
        0 <= k <= pairs.len(),
        model_add_paths(m, pairs.take(k), augment) is None,
    ensures
        model_add_paths(m, pairs, augment) is None,
    decreases pairs.len() - k,
{
    if k < pairs.len() {
        assert(pairs.take(k + 1).drop_last() =~= pairs.take(k));
        lemma_add_paths_none_persists(m, pairs, augment, k + 1);
    } else {
        assert(pairs.take(k) =~= pairs);
    }
}

// ─────────────────────────────────────────────────────────────────────────────
//  Pair lists
// ─────────────────────────────────────────────────────────────────────────────

/// (name, identifier) pairs.
#[derive(Debug)]
pub struct NameIdPairs {
    pairs: Vec<(SchemaName, SchemaId)>,
}

impl NameIdPairs {
    /// The pairs.
    pub closed spec fn spec_pairs(self) -> Seq<(SchemaName, SchemaId)> {
        self.pairs@
    }

    /// No pairs.
    pub fn new() -> (r: NameIdPairs)
        ensures
            r.spec_pairs().len() == 0,
    {
        NameIdPairs { pairs: Vec::new() }
    }

    /// No pairs, with room for `capacity`.
    pub fn with_capacity(capacity: usize) -> (r: NameIdPairs)
        ensures
            r.spec_pairs().len() == 0,
    {
        NameIdPairs::new()
    }

    /// The given pairs.
    pub fn from(pairs: Vec<(SchemaName, SchemaId)>) -> (r: NameIdPairs)
        ensures
            r.spec_pairs() == pairs@,
    {
        NameIdPairs { pairs }
    }

    /// The given pairs, collected.
    pub fn from_iter(pairs: Vec<(SchemaName, SchemaId)>) -> (r: NameIdPairs)
        ensures
            r.spec_pairs() == pairs@,
    {
        NameIdPairs { pairs }
    }

    /// Appends a pair.
    pub fn push(&mut self, pair: (SchemaName, SchemaId))
        ensures
            final(self).spec_pairs() == old(self).spec_pairs().push(pair),
    {
        self.pairs.push(pair);
    }

    /// Appends the given pairs.
    pub fn extend(&mut self, more: Vec<(SchemaName, SchemaId)>)
        ensures
            final(self).spec_pairs() == old(self).spec_pairs() + more@,
    {
        let mut more = more;
        self.pairs.append(&mut more);
    }

    /// The pairs, taking the list apart.
    pub fn into_vec(self) -> (r: Vec<(SchemaName, SchemaId)>)
        ensures
            r@ == self.spec_pairs(),
    {
        self.pairs
    }

    /// The pairs.
    pub fn iter(&self) -> (r: &Vec<(SchemaName, SchemaId)>)
        ensures
            r@ == self.spec_pairs(),
    {
        &self.pairs
    }

    /// The number of pairs.
    pub fn len(&self) -> (n: usize)
        ensures
            n == self.spec_pairs().len(),
    {
        self.pairs.len()
    }

    /// Whether there are no pairs.
    pub fn is_empty(&self) -> (b: bool)
        ensures
            b == (self.spec_pairs().len() == 0),
    {
        self.pairs.len() == 0
    }

    /// The first pair.
    pub fn first(&self) -> (r: Option<&(SchemaName, SchemaId)>)
        ensures
            match r {
                Some(p) => self.spec_pairs().len() > 0 && *p == self.spec_pairs()[0],
                None => self.spec_pairs().len() == 0,
            },
    {
        if self.pairs.len() > 0 {
            Some(&self.pairs[0])
        } else {
            None
        }
    }
}

/// (path, identifier) pairs.
#[derive(Debug)]
pub struct PathIdPairs {
    pairs: Vec<(PathKey, SchemaId)>,
}

impl PathIdPairs {
    /// The pairs.
    pub closed spec fn spec_pairs(self) -> Seq<(PathKey, SchemaId)> {
        self.pairs@
    }

    /// No pairs.
    pub fn new() -> (r: PathIdPairs)
        ensures
            r.spec_pairs().len() == 0,
    {
        PathIdPairs { pairs: Vec::new() }
    }

    /// No pairs, with room for `capacity`.
    pub fn with_capacity(capacity: usize) -> (r: PathIdPairs)
        ensures
            r.spec_pairs().len() == 0,
    {
        PathIdPairs::new()
    }

    /// The given pairs.
    pub fn from(pairs: Vec<(PathKey, SchemaId)>) -> (r: PathIdPairs)
        ensures
            r.spec_pairs() == pairs@,
    {
        PathIdPairs { pairs }
    }

    /// The given pairs, collected.
    pub fn from_iter(pairs: Vec<(PathKey, SchemaId)>) -> (r: PathIdPairs)
        ensures
            r.spec_pairs() == pairs@,
    {
        PathIdPairs { pairs }
    }

    /// Appends a pair.
    pub fn push(&mut self, pair: (PathKey, SchemaId))
        ensures
            final(self).spec_pairs() == old(self).spec_pairs().push(pair),
    {
        self.pairs.push(pair);
    }

    /// Appends the given pairs.
    pub fn extend(&mut self, more: Vec<(PathKey, SchemaId)>)
        ensures
            final(self).spec_pairs() == old(self).spec_pairs() + more@,
    {
        let mut more = more;
        self.pairs.append(&mut more);
    }

    /// The pairs, taking the list apart.
    pub fn into_vec(self) -> (r: Vec<(PathKey, SchemaId)>)
        ensures
            r@ == self.spec_pairs(),
    {
        self.pairs
    }

    /// The pairs.
    pub fn iter(&self) -> (r: &Vec<(PathKey, SchemaId)>)
        ensures
            r@ == self.spec_pairs(),
    {
        &self.pairs
    }

    /// The number of pairs.
    pub fn len(&self) -> (n: usize)
        ensures
            n == self.spec_pairs().len(),
    {
        self.pairs.len()
    }

    /// Whether there are no pairs.
    pub fn is_empty(&self) -> (b: bool)
        ensures
            b == (self.spec_pairs().len() == 0),
    {
        self.pairs.len() == 0
    }

    /// The first pair.
    pub fn first(&self) -> (r: Option<&(PathKey, SchemaId)>)
        ensures
            match r {
                Some(p) => self.spec_pairs().len() > 0 && *p == self.spec_pairs()[0],
                None => self.spec_pairs().len() == 0,
            },
    {
        if self.pairs.len() > 0 {
            Some(&self.pairs[0])
        } else {
            None
        }
    }
}

} // verus!
