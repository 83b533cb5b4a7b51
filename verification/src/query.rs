//! The decisions of schema and property-bank reads: when stored metadata
//! says a schema is still fresh, how a stored record becomes a schema or a
//! property again, and which schemas a change makes stale through their
//! descendants.

use vstd::prelude::*;

use crate::aggregate::Schema;
use crate::error::{name_error_text, name_error_to_text, DbError, SchemaError};
use crate::identifier::{is_property_name_error, is_schema_name_error, uuid_text, valid_name, PropertyName, SchemaId};
use crate::idmap::IdMap;
use crate::inheritance::{all_in, closed_under, descendants_closure};
use crate::property::{Multiplicity, Optionality, Property};
use crate::stored::{describes, first_name_error, holds_records, names_valid, parent_list, BankVersion, StoredBankProperty, StoredMetadata, StoredSchema};
use crate::text::push_str;

verus! {

// ─────────────────────────────────────────────────────────────────────────────
//  Freshness
// ─────────────────────────────────────────────────────────────────────────────

/// Stored metadata still describes the file: same bank version, the same
/// creation time when both are known, and not modified after it was
/// stored.
pub open spec fn metadata_fresh(
    stored: StoredMetadata,
    created_at: Option<u64>,
    modified_at: Option<u64>,
    bank_version: BankVersion,
) -> bool {
    &&& stored.bank_version == bank_version
    &&& match (created_at, stored.created_at) {
        (Some(c), Some(s)) => c == s,
        _ => true,
    }
    &&& match (modified_at, stored.modified_at) {
        (Some(m), Some(s)) => m <= s,
        _ => true,
    }
}

/// Whether stored metadata still describes the file.
pub fn check_schema_freshness(
    stored: &StoredMetadata,
    created_at: Option<u64>,
    modified_at: Option<u64>,
    bank_version: BankVersion,
) -> (fresh: bool)
    ensures
        fresh == metadata_fresh(*stored, created_at, modified_at, bank_version),
{
    proof {
        stored.bank_version.lemma_value_injective(bank_version);
    }
    if stored.bank_version.as_u64() != bank_version.as_u64() {
        return false;
    }
    if created_at.is_some() && stored.created_at.is_some() {
        if created_at.unwrap() != stored.created_at.unwrap() {
            return false;
        }
    }
    if modified_at.is_some() && stored.modified_at.is_some() {
        if stored.modified_at.unwrap() < modified_at.unwrap() {
            return false;
        }
    }
    true
}

/// Whether a schema is stale: it is when no metadata is stored for it, or
/// when the stored metadata no longer describes the file.
pub fn is_schema_stale(
    stored: Option<&StoredMetadata>,
    created_at: Option<u64>,
    modified_at: Option<u64>,
    bank_version: BankVersion,
) -> (stale: bool)
    ensures
        stale == match stored {
            Some(m) => !metadata_fresh(*m, created_at, modified_at, bank_version),
            None => true,
        },
{
    match stored {
        Some(m) => !check_schema_freshness(m, created_at, modified_at, bank_version),
        None => true,
    }
}

/// Whether the stored bank is stale: it is when none is stored, or when its
/// version differs from `version`.
pub fn is_bank_stale(stored: Option<&StoredMetadata>, version: BankVersion) -> (stale: bool)
    ensures
        stale == match stored {
            Some(m) => m.bank_version != version,
            None => true,
        },
{
    match stored {
        Some(m) => {
            proof {
                m.bank_version.lemma_value_injective(version);
            }
            m.bank_version.as_u64() != version.as_u64()
        },
        None => true,
    }
}

// ─────────────────────────────────────────────────────────────────────────────
//  Records back to domain values
// ─────────────────────────────────────────────────────────────────────────────

/// The message of a schema stored without metadata.
pub open spec fn missing_metadata_message(id: SchemaId) -> Seq<char> {
    "schema "@ + uuid_text(id.value()) + " exists but metadata is missing (database corruption detected)"@
}

/// The corruption error of a schema stored without metadata.
pub fn missing_metadata_error(id: SchemaId) -> (e: DbError)
    ensures
        e matches DbError::Corruption(m) && m@ == missing_metadata_message(id),
{
    let mut m = String::new();
    push_str(&mut m, "schema ");
    let id_text = id.to_text();
    push_str(&mut m, id_text.as_str());
    push_str(&mut m, " exists but metadata is missing (database corruption detected)");
    proof {
        reveal_strlit("schema ");
        reveal_strlit(" exists but metadata is missing (database corruption detected)");
        assert(m@ =~= missing_metadata_message(id));
    }
    DbError::Corruption(m)
}

/// The schema a stored record describes, checked against its metadata: a
/// schema without metadata is corrupt; a record with an invalid name
/// cannot be decoded.
pub fn schema_from_record(stored: StoredSchema, metadata_exists: bool) -> (r: Result<Schema, DbError>)
    ensures
        (r is Ok) == (metadata_exists && valid_name(stored.name@) && names_valid(stored.properties@)),
        r matches Ok(s) ==> {
            &&& s.spec_id() == stored.id
            &&& s.spec_name() == stored.name@
            &&& s.spec_parents() == parent_list(stored.parent_id)
            &&& holds_records(s.spec_properties()@, stored.properties@)
        },
        !metadata_exists ==> (r matches Err(e) && e matches DbError::Corruption(m) && m@ == missing_metadata_message(stored.id)),
        metadata_exists && r is Err ==> exists|se: SchemaError|
            (r matches Err(e) && e matches DbError::Deserialization(m) && m@ == #[trigger] name_error_text(se)) && (if !valid_name(stored.name@) {
                is_schema_name_error(se, stored.name@)
            } else {
                first_name_error(stored.properties@, se)
            }),
{
    if !metadata_exists {
        return Err(missing_metadata_error(stored.id));
    }
    let ghost name = stored.name@;
    let ghost props = stored.properties@;
    match stored.into_schema() {
        Ok(s) => Ok(s),
        Err(e) => {
            let m = name_error_to_text(&e);
            proof {
                assert(if !valid_name(name) { is_schema_name_error(e, name) } else { first_name_error(props, e) });
            }
            Err(DbError::Deserialization(m))
        },
    }
}

/// The property a stored bank row describes, with its name.
pub fn property_from_record(stored: &StoredBankProperty) -> (r: Result<(PropertyName, Property), DbError>)
    ensures
        (r is Ok) == valid_name(stored.property.name@),
        r matches Ok((n, p)) ==> n@ == stored.property.name@ && describes(p, stored.property),
        r matches Err(e) ==> exists|se: SchemaError|
            e matches DbError::Deserialization(m) && m@ == #[trigger] name_error_text(se) && is_property_name_error(
                se,
                stored.property.name@,
            ),
{
    let sp = &stored.property;
    match PropertyName::try_new(sp.name.as_str()) {
        Ok(name) => {
            let p = Property::new(
                sp.id,
                Optionality::from_required(sp.required),
                Multiplicity::from_multi(sp.multi),
                sp.spec.clone(),
            );
            Ok((name, p))
        },
        Err(e) => {
            let m = name_error_to_text(&e);
            Err(DbError::Deserialization(m))
        },
    }
}

// ─────────────────────────────────────────────────────────────────────────────
//  Descendants and cascading staleness
// ─────────────────────────────────────────────────────────────────────────────

/// The schemas of `parent_ids` and all their descendants along the
/// (parent, child) links, each once: the smallest set that holds the
/// parents and every child of its members.
pub fn list_descendants(parent_ids: &[SchemaId], child_links: &Vec<(SchemaId, SchemaId)>) -> (r: Vec<SchemaId>)
    ensures
        r@.no_duplicates(),
        forall|x: SchemaId| parent_ids@.contains(x) ==> r@.contains(x),
        closed_under(r@.to_set(), child_links@),
        forall|s: Set<SchemaId>|
            all_in(parent_ids@, s) && closed_under(s, child_links@) ==> all_in(r@, s),
{
    descendants_closure(child_links, parent_ids)
}

/// Marks stale every descendant of a stale schema (adding it to the map
/// when it is not there yet); the other entries keep their flag.
pub fn cascade_staleness(staleness: &mut IdMap<bool>, child_links: &Vec<(SchemaId, SchemaId)>)
    requires
        old(staleness).wf(),
    ensures
        final(staleness).wf(),
        exists|closure: Seq<SchemaId>|
            {
                &&& closed_under(closure.to_set(), child_links@)
                &&& forall|x: SchemaId| old(staleness)@.contains_key(x) && old(staleness)@[x] ==> #[trigger] closure.contains(x)
                &&& forall|s: Set<SchemaId>|
                    (forall|x: SchemaId| old(staleness)@.contains_key(x) && old(staleness)@[x] ==> #[trigger] s.contains(x))
                        && closed_under(s, child_links@) ==> all_in(closure, s)
                &&& final(staleness)@ == old(staleness)@.union_prefer_right(
                    Map::new(|x: SchemaId| closure.contains(x), |x: SchemaId| true),
                )
            },
{
    let ghost before = staleness@;
    proof {
        staleness.lemma_view();
    }
    let entries = staleness.entries_vec();
    let mut stale_ids: Vec<SchemaId> = Vec::new();
    let mut i: usize = 0;
    while i < entries.len()
        invariant
            0 <= i <= entries@.len(),
            forall|j: int|
                0 <= j < entries@.len() ==> before.contains_key(#[trigger] entries@[j].0) && before[entries@[j].0]
                    == entries@[j].1,
            forall|x: SchemaId| #[trigger] stale_ids@.contains(x) ==> before.contains_key(x) && before[x],
            forall|j: int| 0 <= j < i && entries@[j].1 ==> stale_ids@.contains(#[trigger] entries@[j].0),
        decreases entries@.len() - i,
    {
        if entries[i].1 {
            let ghost prev = stale_ids@;
            stale_ids.push(entries[i].0);
            proof {
                assert forall|x: SchemaId| #[trigger] stale_ids@.contains(x) implies before.contains_key(x) && before[x] by {
                    let m = choose|m: int| 0 <= m < stale_ids@.len() && #[trigger] stale_ids@[m] == x;
                    if m < prev.len() {
                        assert(prev[m] == x);
                        assert(prev.contains(x));
                    }
                }
                assert forall|j: int| 0 <= j < i + 1 && entries@[j].1 implies stale_ids@.contains(#[trigger] entries@[j].0) by {
                    if j < i {
                        assert(prev.contains(entries@[j].0));
                        let m = choose|m: int| 0 <= m < prev.len() && #[trigger] prev[m] == entries@[j].0;
                        assert(stale_ids@[m] == entries@[j].0);
                    } else {
                        assert(stale_ids@[stale_ids@.len() - 1] == entries@[j].0);
                    }
                }
            }
        }
        i = i + 1;
    }
    proof {
        assert forall|x: SchemaId| before.contains_key(x) && before[x] implies #[trigger] stale_ids@.contains(x) by {
            let j = choose|j: int| 0 <= j < entries@.len() && #[trigger] entries@[j].0 == x;
        }
    }
    let closure = descendants_closure(child_links, stale_ids.as_slice());
    let ghost cl = closure@;
    proof {
        assert forall|s: Set<SchemaId>|
            (forall|x: SchemaId| before.contains_key(x) && before[x] ==> #[trigger] s.contains(x))
                && closed_under(s, child_links@) implies all_in(cl, s) by {
            assert(all_in(stale_ids@, s)) by {
                assert forall|j: int| 0 <= j < stale_ids@.len() implies s.contains(#[trigger] stale_ids@[j]) by {
                    assert(stale_ids@.contains(stale_ids@[j]));
                }
            }
        }
        assert forall|x: SchemaId| before.contains_key(x) && before[x] implies #[trigger] cl.contains(x) by {
            assert(stale_ids@.contains(x));
        }
    }
    let mut k: usize = 0;
    proof {
        assert(before.union_prefer_right(Map::new(|x: SchemaId| cl.take(0).contains(x), |x: SchemaId| true)) =~= before);
    }
    while k < closure.len()
        invariant
            0 <= k <= closure@.len(),
            cl == closure@,
            staleness.wf(),
            staleness@ == before.union_prefer_right(
                Map::new(|x: SchemaId| cl.take(k as int).contains(x), |x: SchemaId| true),
            ),
        decreases closure@.len() - k,
    {
        let ghost prev = staleness@;
        staleness.insert(closure[k], true);
        proof {
            let m_next = Map::new(|x: SchemaId| cl.take(k + 1).contains(x), |x: SchemaId| true);
            assert forall|x: SchemaId| cl.take(k + 1).contains(x) <==> cl.take(k as int).contains(x) || x == cl[k as int] by {
                if cl.take(k + 1).contains(x) {
                    let j = choose|j: int| 0 <= j < k + 1 && #[trigger] cl.take(k + 1)[j] == x;
                    if j < k {
                        assert(cl.take(k as int)[j] == x);
                    }
                }
                if cl.take(k as int).contains(x) {
                    let j = choose|j: int| 0 <= j < k && #[trigger] cl.take(k as int)[j] == x;
                    assert(cl.take(k + 1)[j] == x);
                }
                if x == cl[k as int] {
                    assert(cl.take(k + 1)[k as int] == x);
                }
            }
            let m_k = Map::new(|x: SchemaId| cl.take(k as int).contains(x), |x: SchemaId| true);
            assert(prev == before.union_prefer_right(m_k));
            assert(staleness@ == prev.insert(cl[k as int], true));
            assert forall|x: SchemaId| #[trigger] staleness@.contains_key(x) <==> before.union_prefer_right(m_next).contains_key(x) by {
                assert(m_next.contains_key(x) <==> cl.take(k + 1).contains(x));
                assert(m_k.contains_key(x) <==> cl.take(k as int).contains(x));
            }
            assert forall|x: SchemaId| #[trigger] staleness@.contains_key(x) implies staleness@[x] == before.union_prefer_right(m_next)[x] by {
                assert(m_next.contains_key(x) <==> cl.take(k + 1).contains(x));
                assert(m_k.contains_key(x) <==> cl.take(k as int).contains(x));
            }
            assert(staleness@ =~= before.union_prefer_right(m_next));
        }
        k = k + 1;
    }
    proof {
        assert(cl.take(cl.len() as int) =~= cl);
        assert(closed_under(cl.to_set(), child_links@));
        assert(staleness@ == before.union_prefer_right(Map::new(|x: SchemaId| cl.contains(x), |x: SchemaId| true)));
    }
}


/// A bank property written as a row (`bank_rows`) and read back
/// (`property_from_record`) is the property that was written, under the
/// name it was written with.
pub proof fn lemma_bank_property_round_trip(
    sp: crate::stored::StoredProperty,
    name: Seq<char>,
    p: Property,
    q: Property,
)
    requires
        crate::stored::stored_matches(sp, name, p),
        describes(q, sp),
    ensures
        sp.name@ == name,
        q == p,
{
    q.lemma_ext(p);
}


/// `read` is what the bank rows `rows` describe, in order: each row's name
/// with the property it describes.
pub open spec fn rows_read_as(rows: Seq<StoredBankProperty>, read: Seq<(Seq<char>, Property)>) -> bool {
    &&& read.len() == rows.len()
    &&& forall|i: int| 0 <= i < rows.len() ==> (#[trigger] read[i]).0 == rows[i].property.name@ && describes(read[i].1, rows[i].property)
}

/// Every bank row carries a valid property name.
pub open spec fn row_names_valid(rows: Seq<StoredBankProperty>) -> bool {
    forall|i: int| 0 <= i < rows.len() ==> valid_name(#[trigger] rows[i].property.name@)
}

/// The property map a bank version's rows are read back as: each row's
/// property under its name, a later row replacing an earlier one; fails on
/// the first row whose name is invalid.
pub fn bank_from_rows(rows: &[StoredBankProperty]) -> (r: Result<crate::property::PropertyMap, DbError>)
    ensures
        (r is Ok) == row_names_valid(rows@),
        r matches Ok(m) ==> exists|read: Seq<(Seq<char>, Property)>|
            #[trigger] rows_read_as(rows@, read) && m@ == crate::property::pairs_to_map(read),
{
    let mut m = crate::property::PropertyMap::new();
    let ghost mut read: Seq<(Seq<char>, Property)> = Seq::empty();
    let mut i: usize = 0;
    while i < rows.len()
        invariant
            i <= rows@.len(),
            m.wf(),
            read.len() == i,
            forall|j: int| 0 <= j < i ==> (#[trigger] read[j]).0 == rows@[j].property.name@ && describes(read[j].1, rows@[j].property),
            forall|j: int| 0 <= j < i ==> valid_name(#[trigger] rows@[j].property.name@),
            m@ == crate::property::pairs_to_map(read),
        decreases rows@.len() - i,
    {
        match property_from_record(&rows[i]) {
            Ok((name, p)) => {
                proof {
                    assert(read.push((name@, p)).drop_last() =~= read);
                    read = read.push((name@, p));
                }
                m.insert(name, p);
            },
            Err(e) => {
                return Err(e);
            },
        }
        i = i + 1;
    }
    proof {
        assert(rows_read_as(rows@, read));
    }
    Ok(m)
}

/// A bank written as rows (`bank_rows`) and read back (`bank_from_rows`)
/// is the same bank: every property under its name.
pub proof fn lemma_bank_round_trip(
    bank: Seq<(Seq<char>, Property)>,
    rows: Seq<StoredBankProperty>,
    read: Seq<(Seq<char>, Property)>,
)
    requires
        rows.len() == bank.len(),
        forall|i: int| 0 <= i < rows.len() ==> crate::stored::stored_matches(#[trigger] rows[i].property, bank[i].0, bank[i].1),
        rows_read_as(rows, read),
    ensures
        read == bank,
        crate::property::pairs_to_map(read) == crate::property::pairs_to_map(bank),
{
    assert forall|i: int| 0 <= i < read.len() implies #[trigger] read[i] == bank[i] by {
        assert(crate::stored::stored_matches(rows[i].property, bank[i].0, bank[i].1));
        read[i].1.lemma_ext(bank[i].1);
    }
    assert(read =~= bank);
}

} // verus!
