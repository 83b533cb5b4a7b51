//! Planning a schema load: which schemas are reused as they are, which are
//! re-resolved from a cached expansion, and which are expanded again; the
//! parent links recorded for the schemas that were expanded; and the steps
//! of a load, as a state machine whose reads and writes the caller performs.

use vstd::prelude::*;

use crate::aggregate::Schema;
use crate::extender::ExpandedSchema;
use crate::error::{SchemaError, SchemaInheritanceError, SchemaLoaderError, SchemaRepositoryError};
use crate::identifier::{is_schema_name_error, valid_name, SchemaId, SchemaName};
use crate::idmap::IdMap;
use crate::ingestor::SchemaIngestResult;
use crate::property::PropertyMap;
use crate::raw::RawSchema;
use crate::resolver::copy_ids;
use crate::text::copy_text;

verus! {

// ─────────────────────────────────────────────────────────────────────────────
//  Load plan
// ─────────────────────────────────────────────────────────────────────────────

/// How the schemas of one ingestion pass are processed.
#[derive(Debug)]
pub struct LoadPlan {
    /// Unchanged schemas under an unchanged bank: reused as stored.
    pub fresh_ids: Vec<SchemaId>,
    /// Unchanged schemas under a changed bank, with their cached expansion:
    /// re-resolved without expanding references again.
    pub cached_expansion: Vec<(SchemaId, PropertyMap)>,
    /// New or changed schemas: expanded and resolved in full.
    pub needs_expansion: Vec<(SchemaId, RawSchema)>,
    /// Unchanged schemas under a changed bank with no cached expansion: their
    /// raw form is loaded from the cache, then they are expanded in full.
    pub needs_raw: Vec<SchemaId>,
}

/// The identifiers of the fully reusable schemas.
pub open spec fn plan_fresh(s: Seq<SchemaIngestResult>, bank_is_fresh: bool) -> Seq<SchemaId>
    decreases s.len(),
{
    if s.len() == 0 {
        Seq::empty()
    } else {
        let rest = plan_fresh(s.drop_last(), bank_is_fresh);
        match s.last() {
            SchemaIngestResult::Fresh { id, .. } => if bank_is_fresh { rest.push(id) } else { rest },
            _ => rest,
        }
    }
}

/// The schemas re-resolved from their cached expansion.
pub open spec fn plan_cached(s: Seq<SchemaIngestResult>, bank_is_fresh: bool) -> Seq<(SchemaId, PropertyMap)>
    decreases s.len(),
{
    if s.len() == 0 {
        Seq::empty()
    } else {
        let rest = plan_cached(s.drop_last(), bank_is_fresh);
        match s.last() {
            SchemaIngestResult::Fresh { id, expanded: Some(m) } => if bank_is_fresh { rest } else { rest.push((id, m)) },
            _ => rest,
        }
    }
}

/// The schemas expanded in full from the raw form they carry.
pub open spec fn plan_expansion(s: Seq<SchemaIngestResult>) -> Seq<(SchemaId, RawSchema)>
    decreases s.len(),
{
    if s.len() == 0 {
        Seq::empty()
    } else {
        let rest = plan_expansion(s.drop_last());
        match s.last() {
            SchemaIngestResult::New { id, raw } => rest.push((id, raw)),
            SchemaIngestResult::Stale { id, raw, .. } => rest.push((id, raw)),
            _ => rest,
        }
    }
}

/// The schemas whose raw form must be loaded from the cache.
pub open spec fn plan_raw(s: Seq<SchemaIngestResult>, bank_is_fresh: bool) -> Seq<SchemaId>
    decreases s.len(),
{
    if s.len() == 0 {
        Seq::empty()
    } else {
        let rest = plan_raw(s.drop_last(), bank_is_fresh);
        match s.last() {
            SchemaIngestResult::Fresh { id, expanded: None } => if bank_is_fresh { rest } else { rest.push(id) },
            _ => rest,
        }
    }
}

/// Sorts the schemas of one ingestion pass, in order, by how they are
/// processed: a fresh schema under a fresh bank is reused; a fresh schema
/// under a stale bank is re-resolved from its cached expansion when it has
/// one, else its raw form is loaded; a new or changed schema is expanded.
pub fn plan_load(schemas: Vec<SchemaIngestResult>, bank_is_fresh: bool) -> (p: LoadPlan)
    ensures
        p.fresh_ids@ == plan_fresh(schemas@, bank_is_fresh),
        p.cached_expansion@ == plan_cached(schemas@, bank_is_fresh),
        p.needs_expansion@ == plan_expansion(schemas@),
        p.needs_raw@ == plan_raw(schemas@, bank_is_fresh),
{
    let ghost orig = schemas@;
    let mut rest = schemas;
    let mut fresh_ids: Vec<SchemaId> = Vec::new();
    let mut cached_expansion: Vec<(SchemaId, PropertyMap)> = Vec::new();
    let mut needs_expansion: Vec<(SchemaId, RawSchema)> = Vec::new();
    let mut needs_raw: Vec<SchemaId> = Vec::new();
    let n = rest.len();
    let mut i: usize = 0;
    while i < n
        invariant
            0 <= i <= n,
            n == orig.len(),
            rest@ == orig.skip(i as int),
            fresh_ids@ == plan_fresh(orig.take(i as int), bank_is_fresh),
            cached_expansion@ == plan_cached(orig.take(i as int), bank_is_fresh),
            needs_expansion@ == plan_expansion(orig.take(i as int)),
            needs_raw@ == plan_raw(orig.take(i as int), bank_is_fresh),
        decreases n - i,
    {
        let r = rest.remove(0);
        proof {
            assert(rest@ =~= orig.skip(i + 1));
            assert(orig.take(i + 1).drop_last() =~= orig.take(i as int));
            assert(orig.take(i + 1).last() == orig[i as int]);
        }
        match r {
            SchemaIngestResult::Fresh { id, expanded } => {
                if bank_is_fresh {
                    fresh_ids.push(id);
                } else {
                    match expanded {
                        Some(m) => cached_expansion.push((id, m)),
                        None => needs_raw.push(id),
                    }
                }
            },
            SchemaIngestResult::New { id, raw } => needs_expansion.push((id, raw)),
            SchemaIngestResult::Stale { id, raw, .. } => needs_expansion.push((id, raw)),
        }
        i = i + 1;
    }
    proof {
        assert(orig.take(n as int) =~= orig);
    }
    LoadPlan { fresh_ids, cached_expansion, needs_expansion, needs_raw }
}

impl LoadPlan {
    /// The schemas loaded as known parents: the reused ones, then those
    /// re-resolved from a cached expansion.
    pub fn parent_ids(&self) -> (r: Vec<SchemaId>)
        ensures
            r@ == self.fresh_ids@ + self.cached_expansion@.map_values(|p: (SchemaId, PropertyMap)| p.0),
    {
        let mut r: Vec<SchemaId> = Vec::new();
        let mut i: usize = 0;
        while i < self.fresh_ids.len()
            invariant
                0 <= i <= self.fresh_ids@.len(),
                r@ == self.fresh_ids@.take(i as int),
            decreases self.fresh_ids@.len() - i,
        {
            r.push(self.fresh_ids[i]);
            proof {
                assert(self.fresh_ids@.take(i + 1) =~= self.fresh_ids@.take(i as int).push(self.fresh_ids@[i as int]));
            }
            i = i + 1;
        }
        let ghost ids = self.cached_expansion@.map_values(|p: (SchemaId, PropertyMap)| p.0);
        let mut j: usize = 0;
        while j < self.cached_expansion.len()
            invariant
                0 <= j <= self.cached_expansion@.len(),
                ids == self.cached_expansion@.map_values(|p: (SchemaId, PropertyMap)| p.0),
                r@ == self.fresh_ids@ + ids.take(j as int),
            decreases self.cached_expansion@.len() - j,
        {
            proof {
                assert(self.fresh_ids@.take(self.fresh_ids@.len() as int) =~= self.fresh_ids@);
            }
            r.push(self.cached_expansion[j].0);
            proof {
                assert(ids.take(j + 1) =~= ids.take(j as int).push(ids[j as int]));
            }
            j = j + 1;
        }
        proof {
            assert(ids.take(ids.len() as int) =~= ids);
            assert(self.fresh_ids@.take(self.fresh_ids@.len() as int) =~= self.fresh_ids@);
        }
        r
    }
}

/// Every schema of the pass is unchanged.
pub open spec fn all_unchanged(s: Seq<SchemaIngestResult>) -> bool {
    forall|i: int| 0 <= i < s.len() ==> (#[trigger] s[i]) is Fresh
}

/// A pass in which the bank and every schema file are unchanged expands and
/// re-resolves nothing: every schema is reused as stored, in order.
pub proof fn lemma_unchanged_pass_reuses_all(s: Seq<SchemaIngestResult>)
    requires
        all_unchanged(s),
    ensures
        plan_expansion(s) == Seq::<(SchemaId, RawSchema)>::empty(),
        plan_cached(s, true) == Seq::<(SchemaId, PropertyMap)>::empty(),
        plan_raw(s, true) == Seq::<SchemaId>::empty(),
        plan_fresh(s, true) == s.map_values(|r: SchemaIngestResult| crate::ingestor::result_id(r)),
    decreases s.len(),
{
    if s.len() > 0 {
        assert(s.last() == s[s.len() - 1]);
        assert(all_unchanged(s.drop_last())) by {
            assert forall|i: int| 0 <= i < s.drop_last().len() implies (#[trigger] s.drop_last()[i]) is Fresh by {
                assert(s.drop_last()[i] == s[i]);
            }
        }
        lemma_unchanged_pass_reuses_all(s.drop_last());
        assert(s.map_values(|r: SchemaIngestResult| crate::ingestor::result_id(r)) =~= s.drop_last().map_values(
            |r: SchemaIngestResult| crate::ingestor::result_id(r),
        ).push(crate::ingestor::result_id(s.last())));
    }
}

// ─────────────────────────────────────────────────────────────────────────────
//  Parent links of expanded schemas
// ─────────────────────────────────────────────────────────────────────────────

/// Every raw schema of `s` has a valid name.
pub open spec fn raw_names_valid(s: Seq<(SchemaId, RawSchema)>) -> bool {
    forall|i: int| 0 <= i < s.len() ==> valid_name(#[trigger] s[i].1.name@)
}

/// Pairs each expanded schema's validated name with its identifier, in
/// order; fails on the first invalid name.
pub fn build_name_to_id_map(schemas: &[(SchemaId, RawSchema)]) -> (r: Result<Vec<(SchemaName, SchemaId)>, SchemaLoaderError>)
    ensures
        (r is Ok) == raw_names_valid(schemas@),
        r matches Ok(v) ==> v@.len() == schemas@.len() && forall|i: int|
            0 <= i < v@.len() ==> (#[trigger] v@[i]).0@ == schemas@[i].1.name@ && v@[i].1 == schemas@[i].0,
        r matches Err(e) ==> exists|i: int|
            0 <= i < schemas@.len() && !valid_name(#[trigger] schemas@[i].1.name@) && (forall|j: int|
                0 <= j < i ==> valid_name(#[trigger] schemas@[j].1.name@)) && (e matches SchemaLoaderError::Resolution(se)
                && is_schema_name_error(se, schemas@[i].1.name@)),
{
    let mut v: Vec<(SchemaName, SchemaId)> = Vec::new();
    let mut i: usize = 0;
    while i < schemas.len()
        invariant
            0 <= i <= schemas@.len(),
            v@.len() == i,
            forall|j: int| 0 <= j < i ==> (#[trigger] v@[j]).0@ == schemas@[j].1.name@ && v@[j].1 == schemas@[j].0,
            forall|j: int| 0 <= j < i ==> valid_name(#[trigger] schemas@[j].1.name@),
        decreases schemas@.len() - i,
    {
        match SchemaName::try_new(schemas[i].1.name.as_str()) {
            Ok(name) => v.push((name, schemas[i].0)),
            Err(e) => {
                let r: Result<Vec<(SchemaName, SchemaId)>, SchemaLoaderError> = Err(SchemaLoaderError::Resolution(e));
                return r;
            },
        }
        i = i + 1;
    }
    Ok(v)
}

/// The index of the last pair named `name`, if any.
pub open spec fn last_named_index(pairs: Seq<(SchemaName, SchemaId)>, name: Seq<char>) -> Option<int>
    decreases pairs.len(),
{
    if pairs.len() == 0 {
        None
    } else if pairs.last().0@ == name {
        Some(pairs.len() - 1)
    } else {
        last_named_index(pairs.drop_last(), name)
    }
}

/// The parent a raw schema extends, resolved against the names of the
/// expanded schemas (a later pair wins), or `ParentNotFound`.
pub open spec fn parent_resolution(
    raw: RawSchema,
    name_to_id: Seq<(SchemaName, SchemaId)>,
) -> Result<Option<SchemaId>, SchemaLoaderError> {
    match raw.extends {
        None => Ok(None),
        Some(p) => match last_named_index(name_to_id, p@) {
            Some(i) => Ok(Some(name_to_id[i].1)),
            None => Err(
                SchemaLoaderError::Resolution(SchemaError::Inheritance(SchemaInheritanceError::ParentNotFound { name: p })),
            ),
        },
    }
}

proof fn lemma_last_named_index_bound(pairs: Seq<(SchemaName, SchemaId)>, name: Seq<char>)
    ensures
        last_named_index(pairs, name) matches Some(i) ==> 0 <= i < pairs.len() && pairs[i].0@ == name,
    decreases pairs.len(),
{
    if pairs.len() > 0 && pairs.last().0@ != name {
        lemma_last_named_index_bound(pairs.drop_last(), name);
    }
}

/// Resolves the parent a raw schema extends.
pub fn resolve_parent(raw: &RawSchema, name_to_id: &[(SchemaName, SchemaId)]) -> (r: Result<Option<SchemaId>, SchemaLoaderError>)
    ensures
        match (r, parent_resolution(*raw, name_to_id@)) {
            (Ok(a), Ok(b)) => a == b,
            (Err(SchemaLoaderError::Resolution(SchemaError::Inheritance(SchemaInheritanceError::ParentNotFound { name: a }))),
                Err(SchemaLoaderError::Resolution(SchemaError::Inheritance(SchemaInheritanceError::ParentNotFound { name: b })))) => a@ == b@,
            _ => false,
        },
{
    match raw.extends.as_ref() {
        None => Ok(None),
        Some(p) => {
            let mut i: usize = name_to_id.len();
            proof {
                assert(name_to_id@.take(i as int) =~= name_to_id@);
            }
            while i > 0
                invariant
                    0 <= i <= name_to_id@.len(),
                    raw.extends == Some(*p),
                    last_named_index(name_to_id@, p@) == last_named_index(name_to_id@.take(i as int), p@),
                decreases i,
            {
                let ghost t = name_to_id@.take(i as int);
                proof {
                    assert(t.drop_last() =~= name_to_id@.take(i - 1));
                    assert(t.last() == name_to_id@[i - 1]);
                }
                if crate::text::text_equal(name_to_id[i - 1].0.as_str(), p.as_str()) {
                    proof {
                        assert(t.last().0@ == p@);
                        assert(last_named_index(t, p@) == Some((i - 1) as int));
                    }
                    return Ok(Some(name_to_id[i - 1].1));
                }
                i = i - 1;
            }
            proof {
                assert(name_to_id@.take(0) =~= Seq::<(SchemaName, SchemaId)>::empty());
            }
            Err(
                SchemaLoaderError::Resolution(
                    SchemaError::Inheritance(SchemaInheritanceError::ParentNotFound { name: copy_text(p.as_str()) }),
                ),
            )
        },
    }
}


// ─────────────────────────────────────────────────────────────────────────────
//  Inheritance links of a batch
// ─────────────────────────────────────────────────────────────────────────────

/// The identifier of the last schema of `needs` named `name`, if any.
pub open spec fn last_id_named(needs: Seq<(SchemaId, RawSchema)>, name: Seq<char>) -> Option<SchemaId>
    decreases needs.len(),
{
    if needs.len() == 0 {
        None
    } else if needs.last().1.name@ == name {
        Some(needs.last().0)
    } else {
        last_id_named(needs.drop_last(), name)
    }
}

/// The parent link recorded for `raw`: no parent, or the last schema of
/// `needs` with the name it extends; `None` when no schema of `needs` has
/// that name.
pub open spec fn batch_link(needs: Seq<(SchemaId, RawSchema)>, raw: RawSchema) -> Option<Option<SchemaId>> {
    match raw.extends {
        None => Some(None),
        Some(p) => match last_id_named(needs, p@) {
            Some(id) => Some(Some(id)),
            None => None,
        },
    }
}

/// Every schema of `needs` extends nothing or a schema of `needs`.
pub open spec fn links_resolve(needs: Seq<(SchemaId, RawSchema)>) -> bool {
    forall|i: int| 0 <= i < needs.len() ==> (#[trigger] batch_link(needs, needs[i].1)) is Some
}

proof fn lemma_last_named_matches(v: Seq<(SchemaName, SchemaId)>, needs: Seq<(SchemaId, RawSchema)>, name: Seq<char>)
    requires
        v.len() == needs.len(),
        forall|i: int| 0 <= i < v.len() ==> (#[trigger] v[i]).0@ == needs[i].1.name@ && v[i].1 == needs[i].0,
    ensures
        match last_named_index(v, name) {
            Some(j) => last_id_named(needs, name) == Some(v[j].1),
            None => last_id_named(needs, name) is None,
        },
    decreases v.len(),
{
    if v.len() > 0 {
        assert(v.last() == v[v.len() - 1]);
        if v.last().0@ != name {
            lemma_last_named_matches(v.drop_last(), needs.drop_last(), name);
            if let Some(j) = last_named_index(v.drop_last(), name) {
                lemma_last_named_index_bound(v.drop_last(), name);
                assert(v.drop_last()[j] == v[j]);
            }
        }
    }
}

/// The parent link of each schema of a batch, in order, for the inheritance
/// records: fails on the first invalid name, then on the first schema whose
/// parent is not in the batch.
pub fn inheritance_links(needs: &[(SchemaId, RawSchema)]) -> (r: Result<Vec<(SchemaId, Option<SchemaId>)>, SchemaLoaderError>)
    ensures
        (r is Ok) == (raw_names_valid(needs@) && links_resolve(needs@)),
        r matches Ok(l) ==> l@.len() == needs@.len() && forall|i: int|
            0 <= i < l@.len() ==> (#[trigger] l@[i]).0 == needs@[i].0 && batch_link(needs@, needs@[i].1) == Some(l@[i].1),
        r matches Err(e) ==> e is Resolution,
{
    let map = match build_name_to_id_map(needs) {
        Ok(m) => m,
        Err(e) => {
            return Err(e);
        },
    };
    let mut links: Vec<(SchemaId, Option<SchemaId>)> = Vec::new();
    let mut i: usize = 0;
    while i < needs.len()
        invariant
            i <= needs@.len(),
            map@.len() == needs@.len(),
            forall|k: int| 0 <= k < map@.len() ==> (#[trigger] map@[k]).0@ == needs@[k].1.name@ && map@[k].1 == needs@[k].0,
            raw_names_valid(needs@),
            links@.len() == i,
            forall|k: int| 0 <= k < i ==> (#[trigger] links@[k]).0 == needs@[k].0 && batch_link(needs@, needs@[k].1) == Some(links@[k].1),
        decreases needs@.len() - i,
    {
        let ghost raw = needs@[i as int].1;
        proof {
            if let Some(p) = raw.extends {
                lemma_last_named_matches(map@, needs@, p@);
                lemma_last_named_index_bound(map@, p@);
            }
        }
        match resolve_parent(&needs[i].1, map.as_slice()) {
            Ok(parent) => links.push((needs[i].0, parent)),
            Err(e) => {
                proof {
                    assert(batch_link(needs@, needs@[i as int].1) is None);
                }
                return Err(e);
            },
        }
        i = i + 1;
    }
    proof {
        assert forall|k: int| 0 <= k < needs@.len() implies (#[trigger] batch_link(needs@, needs@[k].1)) is Some by {
            assert(batch_link(needs@, needs@[k].1) == Some(links@[k].1));
        }
    }
    Ok(links)
}


// ─────────────────────────────────────────────────────────────────────────────
//  The steps of a load
// ─────────────────────────────────────────────────────────────────────────────

/// Where a load stands between two steps.
#[derive(Debug)]
pub enum LoadState {
    /// Nothing has been read yet.
    Start,
    /// The pass is planned; the raw forms of the unchanged schemas with no
    /// cached expansion and of those re-resolved from one are being read.
    AwaitingRawViews {
        parent_ids: Vec<SchemaId>,
        cached: Vec<(SchemaId, PropertyMap)>,
        needs: Vec<(SchemaId, RawSchema)>,
        missing: Vec<SchemaId>,
    },
    /// The reused and cached schemas are being read as known parents.
    AwaitingParents { needs: Vec<(SchemaId, RawSchema)>, cached: Vec<(SchemaId, RawSchema, PropertyMap)> },
    /// The schemas that need it are being expanded; the parent links of the
    /// expanded ones are computed.
    AwaitingExpansion {
        cached: Vec<(SchemaId, RawSchema, PropertyMap)>,
        known_parents: IdMap<Schema>,
        links: Result<Vec<(SchemaId, Option<SchemaId>)>, SchemaLoaderError>,
    },
    /// The expanded properties are being stored, for later passes to reuse.
    AwaitingExpansionStored {
        expanded: Vec<ExpandedSchema>,
        cached: Vec<(SchemaId, RawSchema, PropertyMap)>,
        known_parents: IdMap<Schema>,
        links: Result<Vec<(SchemaId, Option<SchemaId>)>, SchemaLoaderError>,
    },
    /// The schemas are being resolved.
    AwaitingResolution { links: Result<Vec<(SchemaId, Option<SchemaId>)>, SchemaLoaderError> },
    /// The resolved schemas are being saved.
    AwaitingSchemasSaved { links: Result<Vec<(SchemaId, Option<SchemaId>)>, SchemaLoaderError> },
    /// The parent links are being saved.
    AwaitingLinksSaved { schemas: Vec<Schema> },
    /// The load finished.
    Done,
    /// The load failed.
    Failed,
}

/// What the caller reports back after performing an action.
#[derive(Debug)]
pub enum LoadEvent {
    /// The ingestion pass: each schema's result, and whether the bank was
    /// unchanged.
    Ingested { schemas: Vec<SchemaIngestResult>, bank_is_fresh: bool },
    /// The raw views read, in the order asked for; `None` where none is stored.
    RawViews { missing: Vec<Option<RawSchema>>, cached: Vec<Option<RawSchema>> },
    /// The stored schemas read as known parents.
    Parents { schemas: Vec<Schema> },
    /// The outcome of expanding the schemas that need it.
    Expanded { result: Result<Vec<ExpandedSchema>, SchemaLoaderError> },
    /// The expanded properties were stored.
    ExpansionsStored,
    /// The outcome of resolving.
    Resolved { result: Result<Vec<Schema>, SchemaLoaderError> },
    /// The resolved schemas were saved; they are handed back.
    SchemasSaved { schemas: Vec<Schema> },
    /// The parent links were saved.
    LinksSaved,
    /// A read or a write failed.
    Failed { error: SchemaLoaderError },
}

/// What the caller is asked to do next.
#[derive(Debug)]
pub enum LoadAction {
    /// Run the ingestion pass.
    Ingest,
    /// Read the stored raw views of these schemas.
    ReadRawViews { missing: Vec<SchemaId>, cached: Vec<SchemaId> },
    /// Read the stored schemas with these identifiers.
    ReadParents { ids: Vec<SchemaId> },
    /// Expand these schemas (see `expand_batch`).
    Expand { needs: Vec<(SchemaId, RawSchema)> },
    /// Store the expanded properties of each expanded schema.
    StoreExpansions { entries: Vec<(SchemaId, PropertyMap)> },
    /// Resolve the expanded schemas and those with a cached expansion (see
    /// `resolve_expanded`) with these known parents.
    Resolve {
        expanded: Vec<ExpandedSchema>,
        cached: Vec<(SchemaId, RawSchema, PropertyMap)>,
        known_parents: IdMap<Schema>,
    },
    /// Save these resolved schemas.
    SaveSchemas { schemas: Vec<Schema> },
    /// Save these parent links.
    SaveLinks { links: Vec<(SchemaId, Option<SchemaId>)> },
    /// The load finished with these freshly resolved schemas.
    Finish { schemas: Vec<Schema> },
    /// The load failed with this error.
    Fail { error: SchemaLoaderError },
    /// The event does not answer the pending action; nothing to do.
    Wait,
}

/// The schemas of `ids` whose raw view was found, with it, in order.
pub open spec fn found_raws(ids: Seq<SchemaId>, raws: Seq<Option<RawSchema>>) -> Seq<(SchemaId, RawSchema)>
    decreases ids.len(),
{
    if ids.len() == 0 {
        Seq::empty()
    } else {
        let rest = found_raws(ids.drop_last(), raws);
        let i = ids.len() - 1;
        if i < raws.len() && raws[i] is Some {
            rest.push((ids.last(), raws[i]->0))
        } else {
            rest
        }
    }
}

/// Each cached expansion with the raw view read for it, in order; or the
/// first schema with none.
pub open spec fn attach_raws(
    cached: Seq<(SchemaId, PropertyMap)>,
    raws: Seq<Option<RawSchema>>,
) -> Result<Seq<(SchemaId, RawSchema, PropertyMap)>, SchemaId>
    decreases cached.len(),
{
    if cached.len() == 0 {
        Ok(Seq::empty())
    } else {
        match attach_raws(cached.drop_last(), raws) {
            Err(id) => Err(id),
            Ok(rest) => {
                let i = cached.len() - 1;
                if i < raws.len() && raws[i] is Some {
                    Ok(rest.push((cached.last().0, raws[i]->0, cached.last().1)))
                } else {
                    Err(cached.last().0)
                }
            },
        }
    }
}

/// The schemas by identifier, a later one replacing an earlier one.
pub open spec fn schemas_by_id(s: Seq<Schema>) -> Map<SchemaId, Schema>
    decreases s.len(),
{
    if s.len() == 0 {
        Map::empty()
    } else {
        schemas_by_id(s.drop_last()).insert(s.last().spec_id(), s.last())
    }
}

/// `links` is what `inheritance_links` gives for `needs`.
pub open spec fn links_for(needs: Seq<(SchemaId, RawSchema)>, links: Result<Vec<(SchemaId, Option<SchemaId>)>, SchemaLoaderError>) -> bool {
    &&& (links is Ok) == (raw_names_valid(needs) && links_resolve(needs))
    &&& links matches Ok(l) ==> l@.len() == needs.len() && forall|i: int|
        0 <= i < l@.len() ==> (#[trigger] l@[i]).0 == needs[i].0 && batch_link(needs, needs[i].1) == Some(l@[i].1)
    &&& links matches Err(e) ==> e is Resolution
}

/// The identifiers of the cached expansions.
pub open spec fn cached_ids(cached: Seq<(SchemaId, PropertyMap)>) -> Seq<SchemaId> {
    cached.map_values(|p: (SchemaId, PropertyMap)| p.0)
}

/// The state and action after `event` in `state`. A failure report ends an
/// unfinished load; an event that does not answer the pending action
/// changes nothing.
pub open spec fn load_step_post(state: LoadState, event: LoadEvent, next: LoadState, action: LoadAction) -> bool {
    match event {
        LoadEvent::Failed { error } => if state is Done || state is Failed {
            next == state && action is Wait
        } else {
            next is Failed && action == (LoadAction::Fail { error })
        },
        _ => match (state, event) {
            (LoadState::Start, LoadEvent::Ingested { schemas, bank_is_fresh }) => {
                let s = schemas@;
                &&& next matches LoadState::AwaitingRawViews { parent_ids, cached, needs, missing }
                    && parent_ids@ == plan_fresh(s, bank_is_fresh) + cached_ids(plan_cached(s, bank_is_fresh))
                    && cached@ == plan_cached(s, bank_is_fresh) && needs@ == plan_expansion(s)
                    && missing@ == plan_raw(s, bank_is_fresh)
                &&& action matches LoadAction::ReadRawViews { missing, cached }
                    && missing@ == plan_raw(s, bank_is_fresh) && cached@ == cached_ids(plan_cached(s, bank_is_fresh))
            },
            (
                LoadState::AwaitingRawViews { parent_ids, cached, needs, missing },
                LoadEvent::RawViews { missing: missing_raws, cached: cached_raws },
            ) => match attach_raws(cached@, cached_raws@) {
                Err(id) => next is Failed && action == (LoadAction::Fail {
                    error: SchemaLoaderError::Repository(SchemaRepositoryError::NotFoundById(id)),
                }),
                Ok(c) => {
                    &&& next matches LoadState::AwaitingParents { needs: n, cached: k }
                        && n@ == needs@ + found_raws(missing@, missing_raws@) && k@ == c
                    &&& action == (LoadAction::ReadParents { ids: parent_ids })
                },
            },
            (LoadState::AwaitingParents { needs, cached }, LoadEvent::Parents { schemas }) => if needs@.len() > 0 {
                &&& next matches LoadState::AwaitingExpansion { cached: c, known_parents: k, links }
                    && c == cached && k.wf() && k@ == schemas_by_id(schemas@) && links_for(needs@, links)
                &&& action == (LoadAction::Expand { needs })
            } else {
                &&& next matches LoadState::AwaitingResolution { links } && links_for(needs@, links)
                &&& action matches LoadAction::Resolve { expanded: x, cached: c, known_parents: k }
                    && x@.len() == 0 && c == cached && k.wf() && k@ == schemas_by_id(schemas@)
            },
            (LoadState::AwaitingExpansion { cached, known_parents, links }, LoadEvent::Expanded { result }) => match result {
                Err(e) => next is Failed && action == (LoadAction::Fail { error: e }),
                Ok(x) => {
                    &&& next == (LoadState::AwaitingExpansionStored { expanded: x, cached, known_parents, links })
                    &&& action matches LoadAction::StoreExpansions { entries } && expansion_entries(x@, entries@)
                },
            },
            (LoadState::AwaitingExpansionStored { expanded, cached, known_parents, links }, LoadEvent::ExpansionsStored) => {
                &&& next == (LoadState::AwaitingResolution { links })
                &&& action == (LoadAction::Resolve { expanded, cached, known_parents })
            },
            (LoadState::AwaitingResolution { links }, LoadEvent::Resolved { result }) => match result {
                Err(e) => next is Failed && action == (LoadAction::Fail { error: e }),
                Ok(v) => if v@.len() == 0 {
                    next is Done && action == (LoadAction::Finish { schemas: v })
                } else {
                    next == (LoadState::AwaitingSchemasSaved { links }) && action == (LoadAction::SaveSchemas { schemas: v })
                },
            },
            (LoadState::AwaitingSchemasSaved { links }, LoadEvent::SchemasSaved { schemas }) => match links {
                Err(e) => next is Failed && action == (LoadAction::Fail { error: e }),
                Ok(l) => next == (LoadState::AwaitingLinksSaved { schemas }) && action == (LoadAction::SaveLinks { links: l }),
            },
            (LoadState::AwaitingLinksSaved { schemas }, LoadEvent::LinksSaved) => next is Done && action
                == (LoadAction::Finish { schemas }),
            _ => next == state && action is Wait,
        },
    }
}

/// `entries` pairs each expanded schema's identifier with its expanded
/// properties, in order.
pub open spec fn expansion_entries(x: Seq<ExpandedSchema>, entries: Seq<(SchemaId, PropertyMap)>) -> bool {
    &&& entries.len() == x.len()
    &&& forall|i: int| 0 <= i < x.len() ==> (#[trigger] entries[i]).0 == x[i].id && entries[i].1@ == x[i].properties@
}

/// The expanded properties of each expanded schema, by identifier.
fn expansions_of(x: &Vec<ExpandedSchema>) -> (r: Vec<(SchemaId, PropertyMap)>)
    ensures
        expansion_entries(x@, r@),
{
    let mut r: Vec<(SchemaId, PropertyMap)> = Vec::new();
    let mut i: usize = 0;
    while i < x.len()
        invariant
            i <= x@.len(),
            r@.len() == i,
            forall|k: int| 0 <= k < i ==> (#[trigger] r@[k]).0 == x@[k].id && r@[k].1@ == x@[k].properties@,
        decreases x@.len() - i,
    {
        let m = x[i].properties.clone();
        r.push((x[i].id, m));
        i = i + 1;
    }
    r
}

/// The identifiers of the cached expansions, in order.
fn ids_of_cached(cached: &Vec<(SchemaId, PropertyMap)>) -> (r: Vec<SchemaId>)
    ensures
        r@ == cached_ids(cached@),
{
    let mut r: Vec<SchemaId> = Vec::new();
    let mut i: usize = 0;
    while i < cached.len()
        invariant
            i <= cached@.len(),
            r@ == cached_ids(cached@).take(i as int),
        decreases cached@.len() - i,
    {
        r.push(cached[i].0);
        proof {
            assert(cached_ids(cached@).take(i + 1) =~= cached_ids(cached@).take(i as int).push(cached@[i as int].0));
        }
        i = i + 1;
    }
    proof {
        assert(cached_ids(cached@).take(cached@.len() as int) =~= cached_ids(cached@));
    }
    r
}

/// The schemas of `ids` whose raw view was found, with it, in order.
fn collect_found(ids: &Vec<SchemaId>, raws: Vec<Option<RawSchema>>) -> (r: Vec<(SchemaId, RawSchema)>)
    ensures
        r@ == found_raws(ids@, raws@),
{
    let ghost all = raws@;
    let mut rest = raws;
    let mut r: Vec<(SchemaId, RawSchema)> = Vec::new();
    let mut i: usize = 0;
    proof {
        assert(all.skip(0) =~= all);
        assert(ids@.take(0) =~= Seq::<SchemaId>::empty());
    }
    while i < ids.len()
        invariant
            i <= ids@.len(),
            rest@ == (if i <= all.len() { all.skip(i as int) } else { Seq::<Option<RawSchema>>::empty() }),
            r@ == found_raws(ids@.take(i as int), all),
        decreases ids@.len() - i,
    {
        proof {
            assert(ids@.take(i + 1).drop_last() =~= ids@.take(i as int));
            assert(ids@.take(i + 1).last() == ids@[i as int]);
        }
        if rest.len() > 0 {
            let raw = rest.remove(0);
            proof {
                assert(rest@ =~= all.skip(i + 1));
                assert(raw == all[i as int]);
            }
            match raw {
                Some(x) => r.push((ids[i], x)),
                None => {},
            }
        }
        i = i + 1;
    }
    proof {
        assert(ids@.take(ids@.len() as int) =~= ids@);
    }
    r
}

/// Each cached expansion with the raw view read for it, in order; or the
/// first schema with none.
fn attach_found(cached: Vec<(SchemaId, PropertyMap)>, raws: Vec<Option<RawSchema>>) -> (r: Result<Vec<(SchemaId, RawSchema, PropertyMap)>, SchemaId>)
    ensures
        match (r, attach_raws(cached@, raws@)) {
            (Ok(a), Ok(b)) => a@ == b,
            (Err(a), Err(b)) => a == b,
            _ => false,
        },
{
    let ghost cs = cached@;
    let ghost all = raws@;
    let mut crest = cached;
    let mut rest = raws;
    let mut r: Vec<(SchemaId, RawSchema, PropertyMap)> = Vec::new();
    let n = crest.len();
    let mut i: usize = 0;
    proof {
        assert(all.skip(0) =~= all);
        assert(cs.skip(0) =~= cs);
        assert(cs.take(0) =~= Seq::<(SchemaId, PropertyMap)>::empty());
    }
    while i < n
        invariant
            i <= n,
            n == cs.len(),
            cs == cached@,
            all == raws@,
            crest@ == cs.skip(i as int),
            rest@ == (if i <= all.len() { all.skip(i as int) } else { Seq::<Option<RawSchema>>::empty() }),
            attach_raws(cs.take(i as int), all) == Ok::<Seq<(SchemaId, RawSchema, PropertyMap)>, SchemaId>(r@),
        decreases n - i,
    {
        proof {
            assert(cs.take(i + 1).drop_last() =~= cs.take(i as int));
            assert(cs.take(i + 1).last() == cs[i as int]);
        }
        let (id, props) = crest.remove(0);
        proof {
            assert(crest@ =~= cs.skip(i + 1));
            assert((id, props) == cs[i as int]);
        }
        if rest.len() == 0 {
            proof {
                assert(attach_raws(cs.take(i + 1), all) == Err::<Seq<(SchemaId, RawSchema, PropertyMap)>, SchemaId>(id));
                lemma_attach_raws_prefix_err(cs, all, i as int + 1);
            }
            return Err(id);
        }
        let raw = rest.remove(0);
        proof {
            assert(rest@ =~= all.skip(i + 1));
            assert(raw == all[i as int]);
        }
        match raw {
            Some(x) => r.push((id, x, props)),
            None => {
                proof {
                    assert(attach_raws(cs.take(i + 1), all) == Err::<Seq<(SchemaId, RawSchema, PropertyMap)>, SchemaId>(id));
                    lemma_attach_raws_prefix_err(cs, all, i as int + 1);
                }
                return Err(id);
            },
        }
        i = i + 1;
    }
    proof {
        assert(cs.take(n as int) =~= cs);
    }
    Ok(r)
}

/// A failure on a prefix is the failure of the whole.
proof fn lemma_attach_raws_prefix_err(cs: Seq<(SchemaId, PropertyMap)>, raws: Seq<Option<RawSchema>>, k: int)
    requires
        0 <= k <= cs.len(),
        attach_raws(cs.take(k), raws) is Err,
    ensures
        attach_raws(cs, raws) == attach_raws(cs.take(k), raws),
    decreases cs.len() - k,
{
    if k < cs.len() {
        assert(cs.take(k + 1).drop_last() =~= cs.take(k));
        lemma_attach_raws_prefix_err(cs, raws, k + 1);
    } else {
        assert(cs.take(k) =~= cs);
    }
}

/// The known parents by identifier.
fn known_map(schemas: Vec<Schema>) -> (m: IdMap<Schema>)
    ensures
        m.wf(),
        m@ == schemas_by_id(schemas@),
{
    let ghost all = schemas@;
    let mut rest = schemas;
    let mut m: IdMap<Schema> = IdMap::new();
    let n = rest.len();
    let mut i: usize = 0;
    proof {
        assert(all.skip(0) =~= all);
        assert(all.take(0) =~= Seq::<Schema>::empty());
    }
    while i < n
        invariant
            i <= n,
            n == all.len(),
            rest@ == all.skip(i as int),
            m.wf(),
            m@ == schemas_by_id(all.take(i as int)),
        decreases n - i,
    {
        let s = rest.remove(0);
        proof {
            assert(rest@ =~= all.skip(i + 1));
            assert(s == all[i as int]);
            assert(all.take(i + 1).drop_last() =~= all.take(i as int));
            assert(all.take(i + 1).last() == all[i as int]);
        }
        let id = *s.id();
        m.insert(id, s);
        i = i + 1;
    }
    proof {
        assert(all.take(n as int) =~= all);
    }
    m
}

/// One step of a load: from the state and the caller's report of the last
/// action, the next state and the next action. The ingestion pass is
/// planned (see `plan_load`); schemas with no cached expansion take the raw
/// view read for them, or are dropped when none is stored; a cached
/// expansion with no raw view fails the load; the reused and cached
/// schemas are read as known parents; the schemas that need it are
/// expanded and their expanded properties stored for later passes; the
/// schemas are resolved; a non-empty result is saved, then the parent links
/// of the expanded schemas, and the load finishes with the resolved schemas.
pub fn load_step(state: LoadState, event: LoadEvent) -> (r: (LoadState, LoadAction))
    ensures
        load_step_post(state, event, r.0, r.1),
{
    match event {
        LoadEvent::Failed { error } => match state {
            LoadState::Done => (LoadState::Done, LoadAction::Wait),
            LoadState::Failed => (LoadState::Failed, LoadAction::Wait),
            _ => (LoadState::Failed, LoadAction::Fail { error }),
        },
        event => match (state, event) {
            (LoadState::Start, LoadEvent::Ingested { schemas, bank_is_fresh }) => {
                let plan = plan_load(schemas, bank_is_fresh);
                let parent_ids = plan.parent_ids();
                let cached = ids_of_cached(&plan.cached_expansion);
                let missing = copy_ids(&plan.needs_raw);
                let LoadPlan { fresh_ids, cached_expansion, needs_expansion, needs_raw } = plan;
                (
                    LoadState::AwaitingRawViews { parent_ids, cached: cached_expansion, needs: needs_expansion, missing: needs_raw },
                    LoadAction::ReadRawViews { missing, cached },
                )
            },
            (
                LoadState::AwaitingRawViews { parent_ids, cached, needs, missing },
                LoadEvent::RawViews { missing: missing_raws, cached: cached_raws },
            ) => match attach_found(cached, cached_raws) {
                Err(id) => (
                    LoadState::Failed,
                    LoadAction::Fail { error: SchemaLoaderError::Repository(SchemaRepositoryError::NotFoundById(id)) },
                ),
                Ok(c) => {
                    let mut n = needs;
                    let mut found = collect_found(&missing, missing_raws);
                    n.append(&mut found);
                    (LoadState::AwaitingParents { needs: n, cached: c }, LoadAction::ReadParents { ids: parent_ids })
                },
            },
            (LoadState::AwaitingParents { needs, cached }, LoadEvent::Parents { schemas }) => {
                let links = inheritance_links(needs.as_slice());
                let known_parents = known_map(schemas);
                if needs.len() > 0 {
                    (LoadState::AwaitingExpansion { cached, known_parents, links }, LoadAction::Expand { needs })
                } else {
                    (
                        LoadState::AwaitingResolution { links },
                        LoadAction::Resolve { expanded: Vec::new(), cached, known_parents },
                    )
                }
            },
            (LoadState::AwaitingExpansion { cached, known_parents, links }, LoadEvent::Expanded { result }) => match result {
                Err(e) => (LoadState::Failed, LoadAction::Fail { error: e }),
                Ok(x) => {
                    let entries = expansions_of(&x);
                    (
                        LoadState::AwaitingExpansionStored { expanded: x, cached, known_parents, links },
                        LoadAction::StoreExpansions { entries },
                    )
                },
            },
            (LoadState::AwaitingExpansionStored { expanded, cached, known_parents, links }, LoadEvent::ExpansionsStored) => (
                LoadState::AwaitingResolution { links },
                LoadAction::Resolve { expanded, cached, known_parents },
            ),
            (LoadState::AwaitingResolution { links }, LoadEvent::Resolved { result }) => match result {
                Err(e) => (LoadState::Failed, LoadAction::Fail { error: e }),
                Ok(v) => if v.len() == 0 {
                    (LoadState::Done, LoadAction::Finish { schemas: v })
                } else {
                    (LoadState::AwaitingSchemasSaved { links }, LoadAction::SaveSchemas { schemas: v })
                },
            },
            (LoadState::AwaitingSchemasSaved { links }, LoadEvent::SchemasSaved { schemas }) => match links {
                Err(e) => (LoadState::Failed, LoadAction::Fail { error: e }),
                Ok(l) => (LoadState::AwaitingLinksSaved { schemas }, LoadAction::SaveLinks { links: l }),
            },
            (LoadState::AwaitingLinksSaved { schemas }, LoadEvent::LinksSaved) => (
                LoadState::Done,
                LoadAction::Finish { schemas },
            ),
            (state, _) => (state, LoadAction::Wait),
        },
    }
}


/// A load over an unchanged vault under an unchanged bank re-resolves
/// nothing: the pass asks for no raw view, reads only the reused schemas as
/// known parents, and resolves an empty batch with no cached expansion
/// (which `resolve_expanded` answers with no schema); a load that resolved
/// nothing then finishes at once, with no schema and no write.
pub proof fn lemma_unchanged_vault_loads_nothing(
    schemas: Vec<SchemaIngestResult>,
    s1: LoadState,
    a1: LoadAction,
    missing_raws: Vec<Option<RawSchema>>,
    cached_raws: Vec<Option<RawSchema>>,
    s2: LoadState,
    a2: LoadAction,
    parents: Vec<Schema>,
    s3: LoadState,
    a3: LoadAction,
    resolved: Vec<Schema>,
    s4: LoadState,
    a4: LoadAction,
)
    requires
        all_unchanged(schemas@),
        load_step_post(LoadState::Start, LoadEvent::Ingested { schemas, bank_is_fresh: true }, s1, a1),
        load_step_post(s1, LoadEvent::RawViews { missing: missing_raws, cached: cached_raws }, s2, a2),
        load_step_post(s2, LoadEvent::Parents { schemas: parents }, s3, a3),
        resolved@.len() == 0,
        load_step_post(s3, LoadEvent::Resolved { result: Ok(resolved) }, s4, a4),
    ensures
        a1 matches LoadAction::ReadRawViews { missing, cached } && missing@.len() == 0 && cached@.len() == 0,
        a2 matches LoadAction::ReadParents { ids } && ids@ == schemas@.map_values(
            |r: SchemaIngestResult| crate::ingestor::result_id(r),
        ),
        a3 matches LoadAction::Resolve { expanded, cached, .. } && expanded@.len() == 0 && cached@.len() == 0,
        s4 is Done,
        a4 matches LoadAction::Finish { schemas } && schemas@.len() == 0,
{
    lemma_unchanged_pass_reuses_all(schemas@);
    let s = schemas@;
    assert(cached_ids(plan_cached(s, true)) =~= Seq::<SchemaId>::empty());
    assert(plan_fresh(s, true) + Seq::<SchemaId>::empty() =~= plan_fresh(s, true));
    assert(found_raws(Seq::<SchemaId>::empty(), missing_raws@) =~= Seq::<(SchemaId, RawSchema)>::empty());
    assert(attach_raws(Seq::<(SchemaId, PropertyMap)>::empty(), cached_raws@) == Ok::<
        Seq<(SchemaId, RawSchema, PropertyMap)>,
        SchemaId,
    >(Seq::empty()));
    assert(Seq::<(SchemaId, RawSchema)>::empty() + Seq::<(SchemaId, RawSchema)>::empty() =~= Seq::<(SchemaId, RawSchema)>::empty());
}

} // verus!
