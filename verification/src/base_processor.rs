//! The decisions of base schema processing, one per stage of the pipeline
//! (entry, timestamps, content, analysis), and the property computations
//! of its construction stage: which bank references a bank change touches,
//! how upserts keep existing identifiers, how a property delta applies, and
//! how changed bank references are re-expanded into the upserts.
//!
//! ```text
//! Entry ── no cached view ──────────────────────────────► CreateNew
//!   └─ view ─► Timestamps ── match, no changed refs ─────► FetchCached
//!                 ├─ match, changed refs ────────────────► Analyze (refs)
//!                 └─ mismatch ─► Content ── match, none ─► SyncTimestamps
//!                                  ├─ match, changed refs ► Analyze (refs)
//!                                  └─ mismatch ──────────► Analyze (content)
//! Analyze ── no current version ─────────────────────────► Rebuild
//!   ├─ content, no semantic change ──────────────────────► SyncMetadata
//!   └─ otherwise ────────────────────────────────────────► Update
//! ```

use vstd::prelude::*;

use crate::bank::PropertyBank;
use crate::base::BaseSchema;
use crate::delta::{
    changed_pairs, upserts_split, EncodedEntry, ExcludesDelta, PropertyBankDelta, PropertyDeltaEngine, SchemaPropertyDelta,
    SchemaPropertyUpserts,
};
use crate::hash::Blake3Hash;
use crate::error::{SchemaError, SchemaLoaderError};
use crate::expander::{expands_ok, expansion, RefExpander};
use crate::identifier::{
    is_property_name_error, is_schema_name_error, valid_name, IdError, PropertyName, SchemaId, SchemaName,
};
use crate::property::{pairs_to_map, NameMap, Property, PropertyMap};
use crate::dereferencer::{has_inline, multiplicity_of, optionality_of, spec_of_raw, Dereferencer};
use crate::raw::{RawProperty, RawPropertyInline, RawPropertyRef, RawSchema};
use crate::sort::{has_text, name_texts, sort_dedup_names, strictly_sorted_texts};
use crate::text::copy_text;

verus! {

// ─────────────────────────────────────────────────────────────────────────────
//  Stage decisions
// ─────────────────────────────────────────────────────────────────────────────

/// What the processor does next.
#[derive(Debug, Clone, Copy, PartialEq, Eq, Structural)]
pub enum ProcessStep {
    /// No cached view: read and parse the file, build a new base schema.
    CreateNew,
    /// Compare the file's timestamps with the cached view's.
    CheckTimestamps,
    /// Reuse the cached base schema as it is.
    FetchCached,
    /// Read the file to compare its content hash.
    ReadContent,
    /// The content is unchanged: record the new timestamps, then reuse the
    /// cached base schema.
    SyncTimestamps,
    /// Parse the content and compute its delta; `references_only` when only
    /// changed bank references call for it.
    Analyze { references_only: bool },
    /// The delta is empty: record the new timestamps and content hash, then
    /// reuse the cached base schema.
    SyncMetadata,
    /// Apply the delta and save the updated base schema.
    Update,
    /// The cached view is unusable: rebuild the base schema from scratch.
    Rebuild,
}

/// The entry decision: a schema without a cached view is new.
pub fn entry_step(view_cached: bool) -> (s: ProcessStep)
    ensures
        s == (if view_cached { ProcessStep::CheckTimestamps } else { ProcessStep::CreateNew }),
{
    if view_cached {
        ProcessStep::CheckTimestamps
    } else {
        ProcessStep::CreateNew
    }
}

/// The timestamp decision, taken before reading the file: matching
/// timestamps reuse the cache unless bank references it depends on changed.
pub fn timestamp_step(timestamps_match: bool, changed_refs: usize) -> (s: ProcessStep)
    ensures
        s == (if !timestamps_match {
            ProcessStep::ReadContent
        } else if changed_refs == 0 {
            ProcessStep::FetchCached
        } else {
            ProcessStep::Analyze { references_only: true }
        }),
{
    if !timestamps_match {
        ProcessStep::ReadContent
    } else if changed_refs == 0 {
        ProcessStep::FetchCached
    } else {
        ProcessStep::Analyze { references_only: true }
    }
}

/// The content decision, on the bytes read: unchanged content only needs
/// its timestamps recorded, unless bank references it depends on changed.
pub fn content_step(content_match: bool, changed_refs: usize) -> (s: ProcessStep)
    ensures
        s == (if !content_match {
            ProcessStep::Analyze { references_only: false }
        } else if changed_refs == 0 {
            ProcessStep::SyncTimestamps
        } else {
            ProcessStep::Analyze { references_only: true }
        }),
{
    if !content_match {
        ProcessStep::Analyze { references_only: false }
    } else if changed_refs == 0 {
        ProcessStep::SyncTimestamps
    } else {
        ProcessStep::Analyze { references_only: true }
    }
}

/// The analysis decision: without a current cached version, or when a
/// reference's bank target is gone, rebuild; an empty content delta only
/// needs the metadata recorded; anything else is an update.
pub fn analysis_step(
    has_current_version: bool,
    references_only: bool,
    target_missing: bool,
    delta_empty: bool,
) -> (s: ProcessStep)
    ensures
        s == (if !has_current_version || (references_only && target_missing) {
            ProcessStep::Rebuild
        } else if !references_only && delta_empty {
            ProcessStep::SyncMetadata
        } else {
            ProcessStep::Update
        }),
{
    if !has_current_version || (references_only && target_missing) {
        ProcessStep::Rebuild
    } else if !references_only && delta_empty {
        ProcessStep::SyncMetadata
    } else {
        ProcessStep::Update
    }
}

// ─────────────────────────────────────────────────────────────────────────────
//  Changed bank references
// ─────────────────────────────────────────────────────────────────────────────

/// `k` is referenced by the cached version and changed by the bank delta.
pub open spec fn relevant_ref(refs: Seq<PropertyName>, delta: PropertyBankDelta, k: Seq<char>) -> bool {
    has_text(refs, k) && (delta.spec_upserts()@.contains_key(k) || has_text(delta.spec_removals(), k))
}

/// The bank names the cached version references (`cached_refs`, none when
/// there is no current version) that the bank delta upserts or removes,
/// sorted; none without a delta or when the delta is empty.
pub fn relevant_bank_refs(
    cached_refs: Option<&Vec<PropertyName>>,
    bank_delta: Option<&PropertyBankDelta>,
) -> (r: Vec<PropertyName>)
    ensures
        strictly_sorted_texts(name_texts(r@)),
        forall|k: Seq<char>|
            has_text(r@, k) <==> (cached_refs matches Some(refs) && bank_delta matches Some(d) && relevant_ref(
                refs@,
                *d,
                k,
            )),
{
    match (cached_refs, bank_delta) {
        (Some(refs), Some(d)) => {
            let changed = d.to_changed_name_set();
            let mut picked: Vec<PropertyName> = Vec::new();
            let mut i: usize = 0;
            while i < refs.len()
                invariant
                    0 <= i <= refs@.len(),
                    forall|k: Seq<char>| has_text(changed@, k) <==> d.spec_upserts()@.contains_key(k) || has_text(d.spec_removals(), k),
                    forall|k: Seq<char>|
                        has_text(picked@, k) <==> (exists|j: int| 0 <= j < i && #[trigger] refs@[j]@ == k) && has_text(changed@, k),
                decreases refs@.len() - i,
            {
                let ghost before = picked@;
                if contains_name(&changed, &refs[i]) {
                    picked.push(refs[i].clone());
                }
                proof {
                    assert forall|k: Seq<char>|
                        has_text(picked@, k) <==> (exists|j: int| 0 <= j < i + 1 && #[trigger] refs@[j]@ == k) && has_text(changed@, k) by {
                        if has_text(picked@, k) {
                            let m = choose|m: int| 0 <= m < picked@.len() && #[trigger] picked@[m]@ == k;
                            if m < before.len() {
                                assert(before[m] == picked@[m]);
                                assert(has_text(before, k));
                            }
                        }
                        if (exists|j: int| 0 <= j < i + 1 && #[trigger] refs@[j]@ == k) && has_text(changed@, k) {
                            let j = choose|j: int| 0 <= j < i + 1 && #[trigger] refs@[j]@ == k;
                            if j < i {
                                assert(has_text(before, k));
                                let m = choose|m: int| 0 <= m < before.len() && #[trigger] before[m]@ == k;
                                assert(picked@[m] == before[m]);
                            } else {
                                assert(picked@[picked@.len() - 1]@ == k);
                            }
                        }
                    }
                }
                i = i + 1;
            }
            let r = sort_dedup_names(&picked);
            proof {
                assert forall|k: Seq<char>| has_text(r@, k) <==> relevant_ref(refs@, *d, k) by {
                    if has_text(refs@, k) {
                        let j = choose|j: int| 0 <= j < refs@.len() && #[trigger] refs@[j]@ == k;
                    }
                    if exists|j: int| 0 <= j < refs@.len() && #[trigger] refs@[j]@ == k {
                        assert(has_text(refs@, k));
                    }
                }
            }
            r
        },
        _ => {
            let r: Vec<PropertyName> = Vec::new();
            proof {
                assert(name_texts(r@) =~= Seq::<Seq<char>>::empty());
            }
            r
        },
    }
}

/// Whether some name of `v` has the text of `name`.
fn contains_name(v: &Vec<PropertyName>, name: &PropertyName) -> (r: bool)
    ensures
        r == has_text(v@, name@),
{
    let mut i: usize = 0;
    while i < v.len()
        invariant
            0 <= i <= v@.len(),
            forall|j: int| 0 <= j < i ==> #[trigger] v@[j]@ != name@,
        decreases v@.len() - i,
    {
        if v[i].same(name) {
            return true;
        }
        i = i + 1;
    }
    false
}

// ─────────────────────────────────────────────────────────────────────────────
//  Applying a property delta
// ─────────────────────────────────────────────────────────────────────────────

/// `q` is `p` under the identifier `id`.
pub open spec fn reidentified(p: Property, q: Property, id: crate::identifier::PropertyId) -> bool {
    &&& q.spec_id() == id
    &&& q.spec_optionality() == p.spec_optionality()
    &&& q.spec_multiplicity() == p.spec_multiplicity()
    &&& q.spec_spec() == p.spec_spec()
}

/// The upserts with each property that already exists under its name
/// keeping the existing property's identifier.
pub fn with_ids(upserts: &PropertyMap, existing: &PropertyMap) -> (r: PropertyMap)
    requires
        upserts.wf(),
        existing.wf(),
    ensures
        r.wf(),
        r@.dom() == upserts@.dom(),
        forall|k: Seq<char>|
            #![trigger r@[k]]
            upserts@.contains_key(k) ==> if existing@.contains_key(k) {
                reidentified(upserts@[k], r@[k], existing@[k].spec_id())
            } else {
                r@[k] == upserts@[k]
            },
{
    proof {
        upserts.lemma_view();
    }
    let entries = upserts.entries();
    let ghost pairs = upserts.pairs();
    let mut r = PropertyMap::new();
    let mut i: usize = 0;
    while i < entries.len()
        invariant
            0 <= i <= entries@.len(),
            entries@.len() == pairs.len(),
            pairs == upserts.pairs(),
            upserts.wf(),
            existing.wf(),
            crate::property::keys_unique(pairs),
            forall|j: int| 0 <= j < entries@.len() ==> (#[trigger] entries@[j]).0@ == pairs[j].0 && entries@[j].1 == pairs[j].1,
            forall|j: int| 0 <= j < pairs.len() ==> #[trigger] upserts@[pairs[j].0] == pairs[j].1,
            r.wf(),
            forall|k: Seq<char>| r@.contains_key(k) <==> exists|j: int| 0 <= j < i && #[trigger] pairs[j].0 == k,
            forall|j: int|
                #![trigger pairs[j]]
                0 <= j < i ==> if existing@.contains_key(pairs[j].0) {
                    reidentified(pairs[j].1, r@[pairs[j].0], existing@[pairs[j].0].spec_id())
                } else {
                    r@[pairs[j].0] == pairs[j].1
                },
        decreases entries@.len() - i,
    {
        let name = &entries[i].0;
        let p = entries[i].1.clone();
        let ghost before = r@;
        let q = match existing.get(name) {
            Some(e) => p.with_id(e.id()),
            None => p,
        };
        r.insert(name.clone(), q);
        proof {
            assert forall|k: Seq<char>| r@.contains_key(k) <==> exists|j: int| 0 <= j < i + 1 && #[trigger] pairs[j].0 == k by {
                if k != name@ && r@.contains_key(k) {
                    assert(before.contains_key(k));
                }
                if k == name@ {
                    assert(pairs[i as int].0 == k);
                }
            }
            assert forall|j: int|
                #![trigger pairs[j]]
                0 <= j < i + 1 implies if existing@.contains_key(pairs[j].0) {
                    reidentified(pairs[j].1, r@[pairs[j].0], existing@[pairs[j].0].spec_id())
                } else {
                    r@[pairs[j].0] == pairs[j].1
                } by {
                if j < i {
                    assert(pairs[j].0 != pairs[i as int].0);
                    assert(r@[pairs[j].0] == before[pairs[j].0]);
                }
            }
        }
        i = i + 1;
    }
    proof {
        assert(r@.dom() =~= upserts@.dom()) by {
            assert forall|k: Seq<char>| r@.contains_key(k) <==> upserts@.contains_key(k) by {}
        }
        assert forall|k: Seq<char>|
            #![trigger r@[k]]
            upserts@.contains_key(k) implies if existing@.contains_key(k) {
                reidentified(upserts@[k], r@[k], existing@[k].spec_id())
            } else {
                r@[k] == upserts@[k]
            } by {
            let j = choose|j: int| 0 <= j < pairs.len() && #[trigger] pairs[j].0 == k;
        }
    }
    r
}

/// The texts of a list of names, as a set.
pub open spec fn name_set(v: Seq<PropertyName>) -> Set<Seq<char>> {
    Set::new(|k: Seq<char>| has_text(v, k))
}

/// Applies a delta to `existing`: every upsert is stored (replacing the
/// property of the same name), then every removed name is dropped.
pub fn apply_property_delta(existing: &PropertyMap, upserts: &PropertyMap, removals: &[PropertyName]) -> (r: PropertyMap)
    requires
        existing.wf(),
        upserts.wf(),
    ensures
        r.wf(),
        r@ == existing@.union_prefer_right(upserts@).remove_keys(name_set(removals@)),
{
    let mut r = existing.clone();
    proof {
        upserts.lemma_view();
    }
    let entries = upserts.entries();
    let ghost pairs = upserts.pairs();
    let mut i: usize = 0;
    while i < entries.len()
        invariant
            0 <= i <= entries@.len(),
            entries@.len() == pairs.len(),
            pairs == upserts.pairs(),
            upserts.wf(),
            crate::property::keys_unique(pairs),
            forall|j: int| 0 <= j < entries@.len() ==> (#[trigger] entries@[j]).0@ == pairs[j].0 && entries@[j].1 == pairs[j].1,
            forall|k: Seq<char>| #[trigger] upserts@.contains_key(k) <==> exists|j: int| 0 <= j < pairs.len() && #[trigger] pairs[j].0 == k,
            forall|j: int| 0 <= j < pairs.len() ==> #[trigger] upserts@[pairs[j].0] == pairs[j].1,
            r.wf(),
            forall|k: Seq<char>|
                #![trigger r@.contains_key(k)]
                r@.contains_key(k) <==> existing@.contains_key(k) || exists|j: int| 0 <= j < i && #[trigger] pairs[j].0 == k,
            forall|k: Seq<char>|
                #![trigger r@[k]]
                r@.contains_key(k) ==> r@[k] == if exists|j: int| 0 <= j < i && #[trigger] pairs[j].0 == k {
                    upserts@[k]
                } else {
                    existing@[k]
                },
        decreases entries@.len() - i,
    {
        let ghost before = r@;
        r.insert(entries[i].0.clone(), entries[i].1.clone());
        proof {
            let n = pairs[i as int].0;
            assert forall|k: Seq<char>|
                #![trigger r@.contains_key(k)]
                r@.contains_key(k) <==> existing@.contains_key(k) || exists|j: int| 0 <= j < i + 1 && #[trigger] pairs[j].0 == k by {
                if k == n {
                    assert(pairs[i as int].0 == k);
                } else if exists|j: int| 0 <= j < i + 1 && #[trigger] pairs[j].0 == k {
                    let j = choose|j: int| 0 <= j < i + 1 && #[trigger] pairs[j].0 == k;
                    assert(j < i);
                }
            }
            assert forall|k: Seq<char>|
                #![trigger r@[k]]
                r@.contains_key(k) implies r@[k] == if exists|j: int| 0 <= j < i + 1 && #[trigger] pairs[j].0 == k {
                    upserts@[k]
                } else {
                    existing@[k]
                } by {
                if k == n {
                    assert(pairs[i as int].0 == k);
                } else {
                    if exists|j: int| 0 <= j < i + 1 && #[trigger] pairs[j].0 == k {
                        let j = choose|j: int| 0 <= j < i + 1 && #[trigger] pairs[j].0 == k;
                        assert(j < i);
                    }
                    if exists|j: int| 0 <= j < i && #[trigger] pairs[j].0 == k {
                        let j = choose|j: int| 0 <= j < i && #[trigger] pairs[j].0 == k;
                        assert(j < i + 1);
                    }
                }
            }
        }
        i = i + 1;
    }
    let ghost merged = r@;
    proof {
        assert(merged =~= existing@.union_prefer_right(upserts@)) by {
            assert forall|k: Seq<char>| #[trigger] merged.contains_key(k) <==> existing@.union_prefer_right(upserts@).contains_key(k) by {
                if upserts@.contains_key(k) {
                    let j = choose|j: int| 0 <= j < pairs.len() && #[trigger] pairs[j].0 == k;
                    assert(merged.contains_key(k));
                }
            }
            assert forall|k: Seq<char>| #[trigger] merged.contains_key(k) implies merged[k] == existing@.union_prefer_right(upserts@)[k] by {
                if upserts@.contains_key(k) {
                    let j = choose|j: int| 0 <= j < pairs.len() && #[trigger] pairs[j].0 == k;
                    assert(exists|j: int| 0 <= j < pairs.len() && #[trigger] pairs[j].0 == k);
                } else if exists|j: int| 0 <= j < pairs.len() && #[trigger] pairs[j].0 == k {
                    let j = choose|j: int| 0 <= j < pairs.len() && #[trigger] pairs[j].0 == k;
                    assert(upserts@.contains_key(k));
                }
            }
        }
    }
    let mut m: usize = 0;
    while m < removals.len()
        invariant
            0 <= m <= removals@.len(),
            r.wf(),
            r@ == merged.remove_keys(name_set(removals@.take(m as int))),
        decreases removals@.len() - m,
    {
        let ghost before = r@;
        r.remove(&removals[m]);
        proof {
            let s1 = name_set(removals@.take(m as int));
            let s2 = name_set(removals@.take(m + 1));
            assert(s2 =~= s1.insert(removals@[m as int]@)) by {
                assert forall|k: Seq<char>| s2.contains(k) <==> s1.insert(removals@[m as int]@).contains(k) by {
                    if has_text(removals@.take(m + 1), k) {
                        let j = choose|j: int| 0 <= j < m + 1 && #[trigger] removals@.take(m + 1)[j]@ == k;
                        if j < m {
                            assert(removals@.take(m as int)[j]@ == k);
                        }
                    }
                    if has_text(removals@.take(m as int), k) {
                        let j = choose|j: int| 0 <= j < m && #[trigger] removals@.take(m as int)[j]@ == k;
                        assert(removals@.take(m + 1)[j]@ == k);
                    }
                    if k == removals@[m as int]@ {
                        assert(removals@.take(m + 1)[m as int]@ == k);
                    }
                }
            }
            assert(r@ =~= merged.remove_keys(s2));
        }
        m = m + 1;
    }
    proof {
        assert(removals@.take(removals@.len() as int) =~= removals@);
    }
    r
}

// ─────────────────────────────────────────────────────────────────────────────
//  Re-expanding changed bank references
// ─────────────────────────────────────────────────────────────────────────────

/// The first entry named `k`.
pub open spec fn entry_named(entries: Seq<(PropertyName, RawPropertyRef)>, k: Seq<char>) -> Option<RawPropertyRef>
    decreases entries.len(),
{
    if entries.len() == 0 {
        None
    } else if entries[0].0@ == k {
        Some(entries[0].1)
    } else {
        entry_named(entries.drop_first(), k)
    }
}

/// The first entry of `entries` named like `name`.
fn find_entry<'a>(entries: &'a Vec<(PropertyName, RawPropertyRef)>, name: &PropertyName) -> (r: Option<&'a RawPropertyRef>)
    ensures
        match (r, entry_named(entries@, name@)) {
            (Some(a), Some(b)) => *a == b,
            (None, None) => true,
            _ => false,
        },
{
    let mut i: usize = 0;
    proof {
        assert(entries@.skip(0) =~= entries@);
    }
    while i < entries.len()
        invariant
            0 <= i <= entries@.len(),
            entry_named(entries@, name@) == entry_named(entries@.skip(i as int), name@),
        decreases entries@.len() - i,
    {
        proof {
            assert(entries@.skip(i as int).drop_first() =~= entries@.skip(i + 1));
        }
        if entries[i].0.same(name) {
            return Some(&entries[i].1);
        }
        i = i + 1;
    }
    None
}

/// The changed reference `k` has an entry whose expansion fails.
pub open spec fn escalates(bank: PropertyBank, entries: Seq<(PropertyName, RawPropertyRef)>, k: Seq<char>) -> bool {
    entry_named(entries, k) matches Some(e) && !expands_ok(bank.spec_properties()@, e)
}

/// Re-expands, in order, each changed bank reference that the schema has an
/// entry for, and stores the expansion in the upserts. When an expansion
/// fails, the reference's name is returned: the base schema must then be
/// rebuilt from scratch.
pub fn merge_bank_upserts(
    bank: &PropertyBank,
    ref_entries: &Vec<(PropertyName, RawPropertyRef)>,
    changed_refs: &Vec<PropertyName>,
    upserts: PropertyMap,
) -> (r: Result<PropertyMap, PropertyName>)
    ensures
        (r is Ok) == (forall|i: int| 0 <= i < changed_refs@.len() ==> !escalates(*bank, ref_entries@, #[trigger] changed_refs@[i]@)),
        r matches Ok(m) ==> {
            &&& m.wf()
            &&& forall|k: Seq<char>|
                #[trigger] m@.contains_key(k) <==> upserts@.contains_key(k) || (has_text(changed_refs@, k)
                    && entry_named(ref_entries@, k) is Some)
            &&& forall|k: Seq<char>|
                #[trigger] m@.contains_key(k) ==> if has_text(changed_refs@, k) && entry_named(ref_entries@, k) is Some {
                    expansion(bank.spec_properties()@, entry_named(ref_entries@, k).unwrap(), Ok::<Property, SchemaError>(m@[k]))
                } else {
                    m@[k] == upserts@[k]
                }
        },
        r matches Err(n) ==> has_text(changed_refs@, n@) && escalates(*bank, ref_entries@, n@),
{
    upserts.known_wf();
    let expander = RefExpander::new(bank);
    let mut merged = upserts;
    let ghost original = merged@;
    let mut i: usize = 0;
    while i < changed_refs.len()
        invariant
            0 <= i <= changed_refs@.len(),
            expander.spec_bank() == *bank,
            merged.wf(),
            forall|j: int| 0 <= j < i ==> !escalates(*bank, ref_entries@, #[trigger] changed_refs@[j]@),
            forall|k: Seq<char>|
                #[trigger] merged@.contains_key(k) <==> original.contains_key(k) || ((exists|j: int|
                    0 <= j < i && #[trigger] changed_refs@[j]@ == k) && entry_named(ref_entries@, k) is Some),
            forall|k: Seq<char>|
                #[trigger] merged@.contains_key(k) ==> if (exists|j: int| 0 <= j < i && #[trigger] changed_refs@[j]@ == k)
                    && entry_named(ref_entries@, k) is Some {
                    expansion(bank.spec_properties()@, entry_named(ref_entries@, k).unwrap(), Ok::<Property, SchemaError>(merged@[k]))
                } else {
                    merged@[k] == original[k]
                },
        decreases changed_refs@.len() - i,
    {
        let name = &changed_refs[i];
        let ghost before = merged@;
        match find_entry(ref_entries, name) {
            None => {},
            Some(entry) => {
                match expander.expand_property(name, entry) {
                    Ok(p) => {
                        merged.insert(name.clone(), p);
                    },
                    Err(e) => {
                        proof {
                            assert(changed_refs@[i as int]@ == name@);
                            assert(!expands_ok(bank.spec_properties()@, *entry)) by {
                                if expands_ok(bank.spec_properties()@, *entry) {
                                    let q = choose|q: Property| #[trigger] expansion(bank.spec_properties()@, *entry, Ok::<Property, SchemaError>(q));
                                    assert(expansion(bank.spec_properties()@, *entry, Err::<Property, SchemaError>(e)));
                                }
                            }
                        }
                        let r: Result<PropertyMap, PropertyName> = Err(name.clone());
                        return r;
                    },
                }
            },
        }
        proof {
            assert(!escalates(*bank, ref_entries@, changed_refs@[i as int]@)) by {
                if let Some(e) = entry_named(ref_entries@, name@) {
                    let q = merged@[name@];
                    assert(expansion(bank.spec_properties()@, e, Ok::<Property, SchemaError>(q)));
                }
            }
            assert forall|k: Seq<char>|
                #[trigger] merged@.contains_key(k) <==> original.contains_key(k) || ((exists|j: int|
                    0 <= j < i + 1 && #[trigger] changed_refs@[j]@ == k) && entry_named(ref_entries@, k) is Some) by {
                if k == name@ {
                    assert(changed_refs@[i as int]@ == k);
                } else if exists|j: int| 0 <= j < i + 1 && #[trigger] changed_refs@[j]@ == k {
                    let j = choose|j: int| 0 <= j < i + 1 && #[trigger] changed_refs@[j]@ == k;
                    assert(j < i);
                }
            }
            assert forall|k: Seq<char>|
                #[trigger] merged@.contains_key(k) implies if (exists|j: int| 0 <= j < i + 1 && #[trigger] changed_refs@[j]@ == k)
                    && entry_named(ref_entries@, k) is Some {
                    expansion(bank.spec_properties()@, entry_named(ref_entries@, k).unwrap(), Ok::<Property, SchemaError>(merged@[k]))
                } else {
                    merged@[k] == original[k]
                } by {
                if k != name@ {
                    if exists|j: int| 0 <= j < i + 1 && #[trigger] changed_refs@[j]@ == k {
                        let j = choose|j: int| 0 <= j < i + 1 && #[trigger] changed_refs@[j]@ == k;
                        assert(j < i);
                    }
                    if exists|j: int| 0 <= j < i && #[trigger] changed_refs@[j]@ == k {
                        let j = choose|j: int| 0 <= j < i && #[trigger] changed_refs@[j]@ == k;
                        assert(j < i + 1);
                    }
                    assert(merged@[k] == before[k]);
                } else {
                    assert(changed_refs@[i as int]@ == k);
                }
            }
        }
        i = i + 1;
    }
    proof {
        assert forall|k: Seq<char>| has_text(changed_refs@, k) <==> exists|j: int| 0 <= j < changed_refs@.len() && #[trigger] changed_refs@[j]@ == k by {}
    }
    Ok(merged)
}


/// `u` is `upserts` with the identifiers of the `existing` properties they
/// replace.
pub open spec fn ids_carried(upserts: Map<Seq<char>, Property>, existing: Map<Seq<char>, Property>, u: Map<Seq<char>, Property>) -> bool {
    &&& u.dom() == upserts.dom()
    &&& forall|k: Seq<char>|
        #![trigger u[k]]
        upserts.contains_key(k) ==> if existing.contains_key(k) {
            reidentified(upserts[k], u[k], existing[k].spec_id())
        } else {
            u[k] == upserts[k]
        }
}

/// The parent list a base schema records for a raw schema's parent name.
pub open spec fn extends_list(extends: Option<String>) -> Seq<String> {
    match extends {
        Some(t) => seq![t],
        None => Seq::empty(),
    }
}

/// The stored base schema of a changed schema file after its property
/// delta: the upserts take the identifiers of the stored properties they
/// replace, are stored over the existing properties, and the removed names
/// are dropped; the name, parent and exclusions come from the raw schema.
/// Also returns the upserts with their carried identifiers, which the delta
/// passes on. Fails when the raw name is invalid.
pub fn updated_base(
    schema_id: SchemaId,
    raw: RawSchema,
    existing: &BaseSchema,
    upserts: &PropertyMap,
    removals: &[PropertyName],
) -> (r: Result<(BaseSchema, PropertyMap), SchemaLoaderError>)
    ensures
        (r is Ok) == valid_name(raw.name@),
        r matches Ok((b, u)) ==> {
            &&& u.wf()
            &&& ids_carried(upserts@, existing.spec_properties()@, u@)
            &&& b.spec_id() == schema_id
            &&& b.spec_name() == raw.name@
            &&& b.spec_properties()@ == existing.spec_properties()@.union_prefer_right(u@).remove_keys(name_set(removals@))
            &&& b.spec_extends() == extends_list(raw.extends)
            &&& b.spec_excludes() == raw.excludes@
        },
        r matches Err(e) ==> e matches SchemaLoaderError::Resolution(se) && crate::identifier::is_schema_name_error(se, raw.name@),
{
    let current = existing.properties();
    upserts.known_wf();
    let carried = with_ids(upserts, current);
    let properties = apply_property_delta(current, &carried, removals);
    let name = match SchemaName::try_new(raw.name.as_str()) {
        Ok(n) => n,
        Err(e) => {
            return Err(SchemaLoaderError::Resolution(e));
        },
    };
    let RawSchema { version, name: raw_name, extends, excludes, properties: raw_properties, metadata } = raw;
    let parents = match extends {
        Some(t) => vec![t],
        None => Vec::new(),
    };
    let b = BaseSchema::new(schema_id, name, properties, parents, excludes);
    Ok((b, carried))
}


/// The name recorded for a schema file whose schema could not be built: its
/// raw name when valid, else `unknown`.
pub open spec fn fallback_name(raw_name: Seq<char>) -> Seq<char> {
    if valid_name(raw_name) {
        raw_name
    } else {
        "unknown"@
    }
}

/// The empty base schema recorded for a schema file whose schema could not
/// be built: no properties, no parent, no exclusions, named by
/// `fallback_name`.
pub fn fallback_base(id: SchemaId, raw_name: &str) -> (b: BaseSchema)
    ensures
        b.spec_id() == id,
        b.spec_name() == fallback_name(raw_name@),
        b.spec_properties()@ == Map::<Seq<char>, Property>::empty(),
        b.spec_extends() == Seq::<String>::empty(),
        b.spec_excludes() == Seq::<String>::empty(),
{
    let name = match SchemaName::try_new(raw_name) {
        Ok(n) => n,
        Err(_) => {
            let unknown = "unknown";
            proof {
                reveal_strlit("unknown");
                vstd::utf8::is_ascii_chars_encode_utf8(unknown@);
                assert(valid_name(unknown@));
            }
            match SchemaName::try_new(unknown) {
                Ok(n) => n,
                Err(_) => vstd::pervasive::unreached(),
            }
        },
    };
    BaseSchema::new(id, name, PropertyMap::new(), Vec::new(), Vec::new())
}


/// The last reference entry of `ps` named `k`, if any.
pub open spec fn last_ref_named(ps: Seq<(String, RawProperty)>, k: Seq<char>) -> Option<RawPropertyRef>
    decreases ps.len(),
{
    if ps.len() == 0 {
        None
    } else if ps.last().0@ == k && ps.last().1 is Ref {
        Some(ps.last().1->Ref_0)
    } else {
        last_ref_named(ps.drop_last(), k)
    }
}

/// The last inline entry of `ps` named `k`, if any.
pub open spec fn last_inline_named(ps: Seq<(String, RawProperty)>, k: Seq<char>) -> Option<RawPropertyInline>
    decreases ps.len(),
{
    if ps.len() == 0 {
        None
    } else if ps.last().0@ == k && ps.last().1 is Inline {
        Some(ps.last().1->Inline_0)
    } else {
        last_inline_named(ps.drop_last(), k)
    }
}

/// `p` is a property made from the inline definition `i`.
pub open spec fn inline_made(i: RawPropertyInline, p: Property) -> bool {
    &&& p.spec_optionality() == optionality_of(i.required)
    &&& p.spec_multiplicity() == multiplicity_of(i.multi)
    &&& p.spec_spec() == spec_of_raw(i.spec)
}

/// The properties a schema is created with: each reference expanded
/// against the bank, and each inline definition made into a property; an
/// inline property replaces a reference of the same name, and a later entry
/// of one kind an earlier one.
pub open spec fn created_props(bank: Map<Seq<char>, Property>, ps: Seq<(String, RawProperty)>, m: Map<Seq<char>, Property>) -> bool {
    &&& forall|k: Seq<char>|
        #[trigger] m.contains_key(k) <==> (last_ref_named(ps, k) is Some || last_inline_named(ps, k) is Some)
    &&& forall|k: Seq<char>|
        #[trigger] m.contains_key(k) ==> match last_inline_named(ps, k) {
            Some(i) => inline_made(i, m[k]),
            None => expansion(bank, last_ref_named(ps, k)->0, Ok::<Property, SchemaError>(m[k])),
        }
}

/// Every property entry has a valid name.
pub open spec fn entry_names_valid(ps: Seq<(String, RawProperty)>) -> bool {
    forall|i: int| 0 <= i < ps.len() ==> valid_name(#[trigger] ps[i].0@)
}

/// Every reference entry expands against the bank.
pub open spec fn refs_expand(bank: Map<Seq<char>, Property>, ps: Seq<(String, RawProperty)>) -> bool {
    forall|i: int| 0 <= i < ps.len() ==> ((#[trigger] ps[i]).1 is Ref ==> expands_ok(bank, ps[i].1->Ref_0))
}

/// The entry at `i`, if a reference, has a valid name and expands.
pub open spec fn ref_ok_at(bank: Map<Seq<char>, Property>, ps: Seq<(String, RawProperty)>, i: int) -> bool {
    ps[i].1 is Ref ==> valid_name(ps[i].0@) && expands_ok(bank, ps[i].1->Ref_0)
}

/// Every reference entry has a valid name and expands.
pub open spec fn refs_ok(bank: Map<Seq<char>, Property>, ps: Seq<(String, RawProperty)>) -> bool {
    forall|i: int| 0 <= i < ps.len() ==> #[trigger] ref_ok_at(bank, ps, i)
}

/// The error of the reference entry at `i`: its name's when invalid, else
/// its expansion's.
pub open spec fn ref_error(bank: Map<Seq<char>, Property>, ps: Seq<(String, RawProperty)>, i: int, e: SchemaError) -> bool {
    if !valid_name(ps[i].0@) {
        is_property_name_error(e, ps[i].0@)
    } else {
        expansion(bank, ps[i].1->Ref_0, Err::<Property, SchemaError>(e))
    }
}

/// The entry at `i`, if inline, has a valid name.
pub open spec fn inline_ok_at(ps: Seq<(String, RawProperty)>, i: int) -> bool {
    ps[i].1 is Inline ==> valid_name(ps[i].0@)
}

/// Every inline entry has a valid name.
pub open spec fn inline_names_ok(ps: Seq<(String, RawProperty)>) -> bool {
    forall|i: int| 0 <= i < ps.len() ==> #[trigger] inline_ok_at(ps, i)
}

/// The base schema of a new schema file: its references expanded against
/// the bank, then its inline properties made (see `created_props`), under
/// its name, with its parent and exclusions. Fails on the first reference
/// whose name is invalid or that does not expand, then on the first inline
/// property whose name is invalid, then on an invalid schema name; making a
/// fresh property identifier can fail only when the random source does.
pub fn created_base(id: SchemaId, raw: RawSchema, bank: &PropertyBank) -> (r: Result<BaseSchema, SchemaLoaderError>)
    ensures
        r matches Ok(b) ==> {
            &&& entry_names_valid(raw.properties@)
            &&& refs_expand(bank.spec_properties()@, raw.properties@)
            &&& valid_name(raw.name@)
            &&& b.spec_id() == id
            &&& b.spec_name() == raw.name@
            &&& created_props(bank.spec_properties()@, raw.properties@, b.spec_properties()@)
            &&& b.spec_extends() == extends_list(raw.extends)
            &&& b.spec_excludes() == raw.excludes@
        },
        r matches Err(e) ==> e is Resolution,
        entry_names_valid(raw.properties@) && refs_expand(bank.spec_properties()@, raw.properties@) && valid_name(raw.name@)
            ==> (r is Ok || r matches Err(SchemaLoaderError::Resolution(SchemaError::Identifier(_)))),
        !refs_ok(bank.spec_properties()@, raw.properties@) ==> (r matches Err(SchemaLoaderError::Resolution(se))
            && exists|i: int| {
                &&& 0 <= i < raw.properties@.len()
                &&& !#[trigger] ref_ok_at(bank.spec_properties()@, raw.properties@, i)
                &&& forall|j: int| 0 <= j < i ==> ref_ok_at(bank.spec_properties()@, raw.properties@, j)
                &&& ref_error(bank.spec_properties()@, raw.properties@, i, se)
            }),
        refs_ok(bank.spec_properties()@, raw.properties@) && !inline_names_ok(raw.properties@) ==> (r matches Err(
            SchemaLoaderError::Resolution(se),
        ) && (se is Identifier || exists|i: int| {
            &&& 0 <= i < raw.properties@.len()
            &&& !#[trigger] inline_ok_at(raw.properties@, i)
            &&& forall|j: int| 0 <= j < i ==> inline_ok_at(raw.properties@, j)
            &&& is_property_name_error(se, raw.properties@[i].0@)
        })),
        refs_ok(bank.spec_properties()@, raw.properties@) && inline_names_ok(raw.properties@) && !valid_name(raw.name@) ==> (r matches Err(
            SchemaLoaderError::Resolution(se),
        ) && (se is Identifier || is_schema_name_error(se, raw.name@))),
        r matches Err(SchemaLoaderError::Resolution(SchemaError::Identifier(_))) ==> has_inline(raw.properties@),
{
    let ghost bm = bank.spec_properties()@;
    let expander = RefExpander::new(bank);
    let deref = Dereferencer::new(bank);
    let RawSchema { version, name, extends, excludes, properties, metadata } = raw;
    let ghost ps = properties@;
    let mut refs = PropertyMap::new();
    let mut i: usize = 0;
    while i < properties.len()
        invariant
            i <= ps.len(),
            ps == properties@,
            ps == raw.properties@,
            bm == bank.spec_properties()@,
            expander.spec_bank() == *bank,
            refs.wf(),
            forall|k: Seq<char>| #[trigger] refs@.contains_key(k) <==> last_ref_named(ps.take(i as int), k) is Some,
            forall|k: Seq<char>|
                #[trigger] refs@.contains_key(k) ==> expansion(bm, last_ref_named(ps.take(i as int), k)->0, Ok::<Property, SchemaError>(refs@[k])),
            forall|j: int| 0 <= j < i ==> #[trigger] ref_ok_at(bm, ps, j),
        decreases ps.len() - i,
    {
        proof {
            assert(ps.take(i + 1).drop_last() =~= ps.take(i as int));
            assert(ps.take(i + 1).last() == ps[i as int]);
        }
        match &properties[i].1 {
            RawProperty::Ref(entry) => {
                let pname = match PropertyName::try_new(properties[i].0.as_str()) {
                    Ok(n) => n,
                    Err(e) => {
                        proof {
                            assert(!ref_ok_at(bm, ps, i as int));
                            assert(ref_error(bm, ps, i as int, e));
                        }
                        return Err(SchemaLoaderError::Resolution(e));
                    },
                };
                match expander.expand_property(&pname, entry) {
                    Ok(p) => {
                        refs.insert(pname, p);
                    },
                    Err(e) => {
                        proof {
                            assert(!expands_ok(bm, *entry));
                            assert(!ref_ok_at(bm, ps, i as int));
                            assert(ref_error(bm, ps, i as int, e));
                        }
                        return Err(SchemaLoaderError::Resolution(e));
                    },
                }
            },
            RawProperty::Inline(_) => {},
        }
        i = i + 1;
    }
    let mut inline = PropertyMap::new();
    let mut j: usize = 0;
    while j < properties.len()
        invariant
            j <= ps.len(),
            ps == properties@,
            ps == raw.properties@,
            bm == bank.spec_properties()@,
            deref.spec_bank() == *bank,
            inline.wf(),
            forall|k: Seq<char>| #[trigger] inline@.contains_key(k) <==> last_inline_named(ps.take(j as int), k) is Some,
            forall|k: Seq<char>| #[trigger] inline@.contains_key(k) ==> inline_made(last_inline_named(ps.take(j as int), k)->0, inline@[k]),
            refs_ok(bm, ps),
            forall|m: int| 0 <= m < j ==> #[trigger] inline_ok_at(ps, m),
        decreases ps.len() - j,
    {
        proof {
            assert(ps.take(j + 1).drop_last() =~= ps.take(j as int));
            assert(ps.take(j + 1).last() == ps[j as int]);
        }
        match &properties[j].1 {
            RawProperty::Inline(entry) => {
                match deref.deref_entry(properties[j].0.as_str(), RawProperty::Inline(*entry)) {
                    Ok((pname, p)) => {
                        inline.insert(pname, p);
                    },
                    Err(e) => {
                        proof {
                            assert(has_inline(ps)) by {
                                assert(ps[j as int].1 is Inline);
                            }
                            if !(e is Identifier) {
                                assert(!inline_ok_at(ps, j as int));
                            }
                        }
                        return Err(SchemaLoaderError::Resolution(e));
                    },
                }
            },
            RawProperty::Ref(_) => {},
        }
        j = j + 1;
    }
    proof {
        assert(ps.take(ps.len() as int) =~= ps);
        assert(inline_names_ok(ps));
        assert(entry_names_valid(ps)) by {
            assert forall|m: int| 0 <= m < ps.len() implies valid_name(#[trigger] ps[m].0@) by {
                assert(ref_ok_at(bm, ps, m));
                assert(inline_ok_at(ps, m));
            }
        }
        assert(refs_expand(bm, ps)) by {
            assert forall|m: int| 0 <= m < ps.len() implies ((#[trigger] ps[m]).1 is Ref ==> expands_ok(bm, ps[m].1->Ref_0)) by {
                assert(ref_ok_at(bm, ps, m));
            }
        }
    }
    let none: Vec<PropertyName> = Vec::new();
    let props = apply_property_delta(&refs, &inline, none.as_slice());
    proof {
        assert(name_set(none@) =~= Set::<Seq<char>>::empty());
        assert(props@ =~= refs@.union_prefer_right(inline@));
    }
    let schema_name = match SchemaName::try_new(name.as_str()) {
        Ok(n) => n,
        Err(e) => {
            return Err(SchemaLoaderError::Resolution(e));
        },
    };
    let parents = match extends {
        Some(t) => vec![t],
        None => Vec::new(),
    };
    Ok(BaseSchema::new(id, schema_name, props, parents, excludes))
}


/// `b` is `raw` created again under some identifier against an empty bank.
pub open spec fn recreated(raw: RawSchema, b: BaseSchema) -> bool {
    &&& entry_names_valid(raw.properties@)
    &&& refs_expand(Map::empty(), raw.properties@)
    &&& b.spec_name() == raw.name@
    &&& created_props(Map::empty(), raw.properties@, b.spec_properties()@)
    &&& b.spec_extends() == extends_list(raw.extends)
    &&& b.spec_excludes() == raw.excludes@
}

/// `b` is the empty fallback schema of `raw`.
pub open spec fn fell_back(raw: RawSchema, b: BaseSchema) -> bool {
    &&& b.spec_name() == fallback_name(raw.name@)
    &&& b.spec_properties()@ == Map::<Seq<char>, Property>::empty()
    &&& b.spec_extends() == Seq::<String>::empty()
    &&& b.spec_excludes() == Seq::<String>::empty()
}

/// The base schema that replaces a changed schema whose bank target is gone:
/// the schema is created again under a fresh identifier with an empty bank
/// (so only a schema without references survives); when that fails, the
/// empty fallback schema under another fresh identifier. Fails only when
/// no fresh identifier can be made.
pub fn escalated_base(raw: RawSchema) -> (r: Result<BaseSchema, IdError>)
    ensures
        r matches Ok(b) ==> recreated(raw, b) || fell_back(raw, b),
        r matches Ok(b) ==> (entry_names_valid(raw.properties@) && refs_expand(Map::empty(), raw.properties@)
            && valid_name(raw.name@)) || fell_back(raw, b),
        r matches Ok(b) ==> (!has_inline(raw.properties@) && entry_names_valid(raw.properties@) && refs_expand(
            Map::empty(),
            raw.properties@,
        ) && valid_name(raw.name@) ==> recreated(raw, b)),
{
    let name = copy_text(raw.name.as_str());
    let id = match SchemaId::new() {
        Ok(id) => id,
        Err(e) => {
            return Err(e);
        },
    };
    let empty = PropertyBank::new();
    match created_base(id, raw, &empty) {
        Ok(b) => Ok(b),
        Err(_) => {
            let other = match SchemaId::new() {
                Ok(id) => id,
                Err(e) => {
                    return Err(e);
                },
            };
            Ok(fallback_base(other, name.as_str()))
        },
    }
}


/// The base schema that replaces a schema whose cached view has no current
/// version: `raw` created again under `id` with an empty bank, or, when
/// that fails, the empty fallback schema under the same identifier.
pub fn rebuilt_base(id: SchemaId, raw: RawSchema) -> (b: BaseSchema)
    ensures
        b.spec_id() == id,
        recreated(raw, b) || fell_back(raw, b),
        (entry_names_valid(raw.properties@) && refs_expand(Map::empty(), raw.properties@) && valid_name(raw.name@))
            || fell_back(raw, b),
        !has_inline(raw.properties@) && entry_names_valid(raw.properties@) && refs_expand(Map::empty(), raw.properties@)
            && valid_name(raw.name@) ==> recreated(raw, b),
{
    let name = copy_text(raw.name.as_str());
    let empty = PropertyBank::new();
    match created_base(id, raw, &empty) {
        Ok(b) => b,
        Err(_) => fallback_base(id, name.as_str()),
    }
}


/// What the cache recorded of a schema's current version, for comparing a
/// changed file against it: the hash of each property's encoding, the
/// excluded names and the parent names.
#[derive(Debug)]
pub struct CachedVersion {
    pub property_hashes: NameMap<Blake3Hash>,
    pub excludes: Vec<PropertyName>,
    pub extends: Vec<String>,
}

/// How a changed schema file compares with its cached version.
#[derive(Debug)]
pub enum Analysis {
    /// No current version is cached: the schema is rebuilt.
    Corrupt,
    /// Nothing that matters changed: only the metadata is synced.
    Unchanged,
    /// Properties, exclusions or parents changed.
    Changed { property_delta: SchemaPropertyDelta, excludes_delta: ExcludesDelta, extends_changed: bool },
}

/// The parent names of the cached version and of the file are the same set.
pub open spec fn extends_same(old: Seq<String>, new: Option<String>) -> bool {
    match new {
        None => old.len() == 0,
        Some(t) => old.len() > 0 && forall|i: int| 0 <= i < old.len() ==> (#[trigger] old[i])@ == t@,
    }
}

/// `d` is the property delta of the encoded entries `encoded` against the
/// recorded hashes `previous`: the entries whose encoding hashes
/// differently (or are new), split into inline definitions and references,
/// and the recorded names that are gone, sorted.
pub open spec fn property_delta_of(
    previous: NameMap<Blake3Hash>,
    encoded: NameMap<EncodedEntry<RawProperty>>,
    d: SchemaPropertyDelta,
) -> bool {
    let changed = pairs_to_map(changed_pairs(previous@, encoded.pairs()));
    &&& upserts_split(d.spec_upserts(), changed)
    &&& forall|k: Seq<char>|
        d.spec_upserts().spec_inline().contains_key(k) || d.spec_upserts().spec_refs().contains_key(k) <==> changed.contains_key(k)
    &&& strictly_sorted_texts(name_texts(d.spec_removals()))
    &&& forall|k: Seq<char>| has_text(d.spec_removals(), k) <==> previous@.contains_key(k) && !encoded@.contains_key(k)
}

/// Compares a changed schema file with its cached version: without a
/// current version the schema is corrupt; otherwise the property delta of
/// its encoded entries against the recorded hashes, the change of its
/// excluded names, and whether its parents changed; `Unchanged` when none
/// of these changed.
pub fn analyze_changed(
    current: Option<&CachedVersion>,
    encoded: NameMap<EncodedEntry<RawProperty>>,
    excludes: &Vec<PropertyName>,
    extends: &Option<String>,
) -> (r: Analysis)
    ensures
        current is None <==> r is Corrupt,
        current matches Some(v) ==> match r {
            Analysis::Changed { property_delta, excludes_delta, extends_changed } => {
                &&& property_delta_of(v.property_hashes, encoded, property_delta)
                &&& forall|k: Seq<char>|
                    has_text(excludes_delta.spec_added(), k) <==> has_text(excludes@, k) && !has_text(v.excludes@, k)
                &&& forall|k: Seq<char>|
                    has_text(excludes_delta.spec_removals(), k) <==> has_text(v.excludes@, k) && !has_text(excludes@, k)
                &&& extends_changed == !extends_same(v.extends@, *extends)
                &&& !(property_delta.spec_upserts().spec_inline().dom().len() == 0
                    && property_delta.spec_upserts().spec_refs().dom().len() == 0
                    && property_delta.spec_removals().len() == 0 && excludes_delta.spec_added().len() == 0
                    && excludes_delta.spec_removals().len() == 0 && !extends_changed)
            },
            Analysis::Unchanged => exists|d: SchemaPropertyDelta| {
                &&& #[trigger] property_delta_of(v.property_hashes, encoded, d)
                &&& d.spec_upserts().spec_inline().dom().len() == 0
                &&& d.spec_upserts().spec_refs().dom().len() == 0
                &&& d.spec_removals().len() == 0
                &&& forall|k: Seq<char>| has_text(excludes@, k) <==> has_text(v.excludes@, k)
                &&& extends_same(v.extends@, *extends)
            },
            Analysis::Corrupt => false,
        },
{
    let v = match current {
        None => {
            return Analysis::Corrupt;
        },
        Some(v) => v,
    };
    encoded.known_wf();
    v.property_hashes.known_wf();
    let ghost enc = encoded;
    let property_delta = PropertyDeltaEngine::for_map(encoded, &v.property_hashes).diff_schema();
    let excludes_delta = ExcludesDelta::from_slices(&v.excludes, excludes);
    let extends_changed = !same_extends(&v.extends, extends);
    if property_delta.is_empty() && excludes_delta.is_empty() && !extends_changed {
        proof {
            assert forall|k: Seq<char>| has_text(excludes@, k) <==> has_text(v.excludes@, k) by {
                if has_text(excludes@, k) && !has_text(v.excludes@, k) {
                    assert(has_text(excludes_delta.spec_added(), k));
                }
                if has_text(v.excludes@, k) && !has_text(excludes@, k) {
                    assert(has_text(excludes_delta.spec_removals(), k));
                }
            }
            assert(property_delta_of(v.property_hashes, enc, property_delta));
        }
        Analysis::Unchanged
    } else {
        Analysis::Changed { property_delta, excludes_delta, extends_changed }
    }
}

/// Whether the cached parent names and the file's parent name are the same
/// set.
fn same_extends(old: &Vec<String>, new: &Option<String>) -> (b: bool)
    ensures
        b == extends_same(old@, *new),
{
    match new {
        None => old.len() == 0,
        Some(t) => {
            if old.len() == 0 {
                return false;
            }
            let mut i: usize = 0;
            while i < old.len()
                invariant
                    i <= old@.len(),
                    old@.len() > 0,
                    *new == Some(*t),
                    forall|j: int| 0 <= j < i ==> (#[trigger] old@[j])@ == t@,
                decreases old@.len() - i,
            {
                if !crate::text::text_equal(old[i].as_str(), t.as_str()) {
                    proof {
                        assert(old@[i as int]@ != t@);
                    }
                    return false;
                }
                i = i + 1;
            }
            true
        },
    }
}


/// The properties a schema's changed entries stand for: each changed
/// reference expanded against the bank, then each changed inline definition
/// made into a property (an inline entry replaces a reference of the same
/// name). Fails on the first reference that does not expand; making a fresh
/// property identifier (for an inline entry) can fail only when the random
/// source does.
pub fn expanded_upserts(bank: &PropertyBank, upserts: &SchemaPropertyUpserts) -> (r: Result<PropertyMap, SchemaLoaderError>)
    ensures
        r matches Ok(m) ==> m.wf() && forall|k: Seq<char>|
            #[trigger] m@.contains_key(k) <==> upserts.spec_refs().contains_key(k) || upserts.spec_inline().contains_key(k),
        r matches Ok(m) ==> forall|k: Seq<char>|
            #[trigger] m@.contains_key(k) ==> if upserts.spec_inline().contains_key(k) {
                inline_made(upserts.spec_inline()[k], m@[k])
            } else {
                expansion(bank.spec_properties()@, upserts.spec_refs()[k], Ok::<Property, SchemaError>(m@[k]))
            },
        r matches Err(e) ==> e is Resolution,
        (forall|k: Seq<char>| #[trigger] upserts.spec_refs().contains_key(k) ==> expands_ok(bank.spec_properties()@, upserts.spec_refs()[k]))
            ==> (r is Ok || r matches Err(SchemaLoaderError::Resolution(SchemaError::Identifier(_)))),
        r matches Err(SchemaLoaderError::Resolution(SchemaError::Identifier(_))) ==> upserts.spec_inline().dom().len() > 0,
{
    let ghost bm = bank.spec_properties()@;
    let expander = RefExpander::new(bank);
    let deref = Dereferencer::new(bank);
    let refs_map = upserts.refs();
    let inline_map = upserts.inline();
    refs_map.known_wf();
    inline_map.known_wf();
    proof {
        refs_map.lemma_view();
        inline_map.lemma_view();
    }
    let refs = refs_map.entries();
    let inlines = inline_map.entries();
    let ghost rp = refs_map.pairs();
    let ghost ip = inline_map.pairs();
    let mut m = PropertyMap::new();
    let mut i: usize = 0;
    while i < refs.len()
        invariant
            i <= refs@.len(),
            refs@.len() == rp.len(),
            rp == refs_map.pairs(),
            refs_map@ == upserts.spec_refs(),
            crate::property::keys_unique(rp),
            forall|j: int| 0 <= j < rp.len() ==> (#[trigger] refs@[j]).0@ == rp[j].0 && refs@[j].1 == rp[j].1,
            forall|j: int| 0 <= j < rp.len() ==> #[trigger] refs_map@[rp[j].0] == rp[j].1,
            forall|k: Seq<char>| #[trigger] refs_map@.contains_key(k) <==> exists|j: int| 0 <= j < rp.len() && #[trigger] rp[j].0 == k,
            bm == bank.spec_properties()@,
            expander.spec_bank() == *bank,
            m.wf(),
            forall|k: Seq<char>| #[trigger] m@.contains_key(k) <==> exists|j: int| 0 <= j < i && #[trigger] rp[j].0 == k,
            forall|j: int| 0 <= j < i ==> expansion(bm, rp[j].1, Ok::<Property, SchemaError>(m@[#[trigger] rp[j].0])),
            forall|j: int| 0 <= j < i ==> expands_ok(bm, #[trigger] refs_map@[rp[j].0]),
        decreases refs@.len() - i,
    {
        let ghost before = m@;
        match expander.expand_property(&refs[i].0, &refs[i].1) {
            Ok(p) => {
                m.insert(refs[i].0.clone(), p);
                proof {
                    assert forall|k: Seq<char>| #[trigger] m@.contains_key(k) <==> exists|j: int| 0 <= j < i + 1 && #[trigger] rp[j].0 == k by {
                        if k == rp[i as int].0 {
                        } else if m@.contains_key(k) {
                            assert(before.contains_key(k));
                        }
                    }
                    assert forall|j: int| 0 <= j < i + 1 implies expansion(bm, rp[j].1, Ok::<Property, SchemaError>(m@[#[trigger] rp[j].0])) by {
                        if j < i {
                            assert(rp[j].0 != rp[i as int].0);
                        }
                    }
                    assert(expansion(bm, rp[i as int].1, Ok::<Property, SchemaError>(p)));
                }
            },
            Err(e) => {
                proof {
                    assert(refs_map@.contains_key(rp[i as int].0));
                    assert(refs_map@[rp[i as int].0] == rp[i as int].1);
                    assert(!expands_ok(bm, refs_map@[rp[i as int].0]));
                    assert(upserts.spec_refs().contains_key(rp[i as int].0));
                }
                return Err(SchemaLoaderError::Resolution(e));
            },
        }
        i = i + 1;
    }
    let ghost after_refs = m@;
    let mut q: usize = 0;
    while q < inlines.len()
        invariant
            q <= inlines@.len(),
            inlines@.len() == ip.len(),
            ip == inline_map.pairs(),
            inline_map@ == upserts.spec_inline(),
            inline_map@.dom().len() == ip.len(),
            refs_map@ == upserts.spec_refs(),
            crate::property::keys_unique(ip),
            forall|j: int| 0 <= j < ip.len() ==> (#[trigger] inlines@[j]).0@ == ip[j].0 && inlines@[j].1 == ip[j].1,
            forall|j: int| 0 <= j < ip.len() ==> #[trigger] inline_map@[ip[j].0] == ip[j].1,
            forall|k: Seq<char>| #[trigger] inline_map@.contains_key(k) <==> exists|j: int| 0 <= j < ip.len() && #[trigger] ip[j].0 == k,
            deref.spec_bank() == *bank,
            bm == bank.spec_properties()@,
            m.wf(),
            forall|k: Seq<char>| #[trigger] m@.contains_key(k) <==> after_refs.contains_key(k) || exists|j: int| 0 <= j < q && #[trigger] ip[j].0 == k,
            forall|k: Seq<char>| #[trigger] after_refs.contains_key(k) <==> refs_map@.contains_key(k),
            forall|k: Seq<char>| after_refs.contains_key(k) && !(exists|j: int| 0 <= j < q && #[trigger] ip[j].0 == k)
                ==> expansion(bm, refs_map@[k], Ok::<Property, SchemaError>(#[trigger] m@[k])),
            forall|j: int| 0 <= j < q ==> inline_made(ip[j].1, m@[#[trigger] ip[j].0]),
        decreases inlines@.len() - q,
    {
        let ghost before = m@;
        match deref.deref_entry(inlines[q].0.as_str(), RawProperty::Inline(inlines[q].1)) {
            Ok((pname, p)) => {
                m.insert(pname, p);
                proof {
                    assert forall|k: Seq<char>| #[trigger] m@.contains_key(k) <==> after_refs.contains_key(k) || exists|j: int| 0 <= j < q + 1 && #[trigger] ip[j].0 == k by {
                        if k == ip[q as int].0 {
                        } else if m@.contains_key(k) {
                            assert(before.contains_key(k));
                        }
                    }
                    assert forall|j: int| 0 <= j < q + 1 implies inline_made(ip[j].1, m@[#[trigger] ip[j].0]) by {
                        if j < q {
                            assert(ip[j].0 != ip[q as int].0);
                        }
                    }
                }
            },
            Err(e) => {
                proof {
                    assert(inline_map@.dom().len() == ip.len());
                }
                return Err(SchemaLoaderError::Resolution(e));
            },
        }
        q = q + 1;
    }
    proof {
        assert forall|k: Seq<char>| #[trigger] m@.contains_key(k) implies if inline_map@.contains_key(k) {
            inline_made(inline_map@[k], m@[k])
        } else {
            expansion(bm, refs_map@[k], Ok::<Property, SchemaError>(m@[k]))
        } by {
            if inline_map@.contains_key(k) {
                let j = choose|j: int| 0 <= j < ip.len() && #[trigger] ip[j].0 == k;
            }
        }
    }
    Ok(m)
}


/// The parent names of a file, as a set: its one parent name, or none.
pub open spec fn parent_name_set(new: Option<String>) -> Set<Seq<char>> {
    match new {
        Some(t) => set![t@],
        None => Set::empty(),
    }
}

/// Parents are reported unchanged (`analyze_changed`) exactly when the
/// cached parent names and the file's parent name are the same set of
/// names; so a schema moved to another parent is always reported changed.
pub proof fn lemma_extends_same_is_set_equality(old: Seq<String>, new: Option<String>)
    ensures
        extends_same(old, new) <==> old.map_values(|s: String| s@).to_set() == parent_name_set(new),
        forall|a: String, b: String| old == seq![a] && new == Some(b) && a@ != b@ ==> !extends_same(old, new),
{
    let vs = old.map_values(|s: String| s@);
    let olds = vs.to_set();
    if extends_same(old, new) {
        assert(olds =~= parent_name_set(new)) by {
            assert forall|k: Seq<char>| olds.contains(k) <==> parent_name_set(new).contains(k) by {
                if olds.contains(k) {
                    let i = choose|i: int| 0 <= i < vs.len() && #[trigger] vs[i] == k;
                    assert(old[i]@ == k);
                }
                if parent_name_set(new).contains(k) {
                    assert(vs[0] == old[0]@);
                    assert(olds.contains(old[0]@));
                }
            }
        }
    }
    if olds == parent_name_set(new) {
        match new {
            None => {
                if old.len() > 0 {
                    assert(olds.contains(vs[0]));
                }
            },
            Some(t) => {
                assert(parent_name_set(new).contains(t@));
                assert(old.len() > 0) by {
                    if old.len() == 0 {
                        assert(olds.contains(t@));
                    }
                }
                assert forall|i: int| 0 <= i < old.len() implies (#[trigger] old[i])@ == t@ by {
                    assert(vs[i] == old[i]@);
                    assert(olds.contains(old[i]@));
                }
            },
        }
    }
    assert forall|a: String, b: String| old == seq![a] && new == Some(b) && a@ != b@ implies !extends_same(old, new) by {
        if old == seq![a] && new == Some(b) {
            assert(old[0] == a);
        }
    }
}

} // verus!
