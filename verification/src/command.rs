//! The decisions of schema and property-bank writes: which bank version is
//! retired, whether a batch of schemas may be saved, the messages of the
//! refusals, and the versioned rows a bank is written as.

use vstd::prelude::*;

use crate::aggregate::Schema;
use crate::bank::PropertyBank;
use crate::error::{property_name_error_text, DbError, PropertyNameError, SchemaError};
use crate::identifier::{uuid_text, valid_name, PropertyName, SchemaId};
use crate::property::{Multiplicity, Optionality};
use crate::stored::{
    is_stored_form, stored_matches, version_prefix, BankVersion, StoredBankProperty, StoredChildSchema, StoredMetadata,
    StoredParentSchema, StoredProperty, StoredSchema,
};
use crate::text::{copy_text, decimal, push_decimal, push_str};

verus! {

/// How many bank versions are kept.
pub const VERSION_RETENTION_COUNT: u64 = 3;

// ─────────────────────────────────────────────────────────────────────────────
//  Version retention
// ─────────────────────────────────────────────────────────────────────────────

/// The bank version whose rows are deleted when a new version is written
/// after `previous`: none until `previous` reaches the retention count,
/// then `previous - 3 + 1`.
pub open spec fn retired_version(previous: Option<BankVersion>) -> Option<u64> {
    match previous {
        Some(v) => if v.value() >= VERSION_RETENTION_COUNT {
            Some((v.value() - VERSION_RETENTION_COUNT + 1) as u64)
        } else {
            None
        },
        None => None,
    }
}

/// The bank version to delete when a new version is written after
/// `previous` (the version recorded so far, if any).
pub fn version_to_delete(previous: Option<BankVersion>) -> (r: Option<BankVersion>)
    ensures
        match (r, retired_version(previous)) {
            (Some(v), Some(n)) => v.value() == n,
            (None, None) => true,
            _ => false,
        },
{
    match previous {
        Some(v) => {
            let current = v.as_u64();
            if current >= VERSION_RETENTION_COUNT {
                Some(BankVersion::from_u64(current - VERSION_RETENTION_COUNT + 1))
            } else {
                None
            }
        },
        None => None,
    }
}

// ─────────────────────────────────────────────────────────────────────────────
//  Batch validation
// ─────────────────────────────────────────────────────────────────────────────

/// Why a batch of schemas is refused.
#[derive(Debug, Clone, PartialEq, Eq)]
pub enum BatchConflict {
    /// The schema at this index repeats the name of an earlier one.
    DuplicateInBatch(usize),
    /// Storage maps the name of the schema at this index to another schema.
    NameTaken(usize),
}

/// Schema `i` repeats the name of an earlier schema of the batch.
pub open spec fn repeats_earlier(names: Seq<(String, SchemaId)>, i: int) -> bool {
    exists|j: int| 0 <= j < i && #[trigger] names[j].0@ == names[i].0@
}

/// Storage maps the name of schema `i` to another schema.
pub open spec fn name_taken(names: Seq<(String, SchemaId)>, existing: Seq<Option<SchemaId>>, i: int) -> bool {
    existing[i] matches Some(e) && e != names[i].1
}

/// Schema `i` is refused.
pub open spec fn refused(names: Seq<(String, SchemaId)>, existing: Seq<Option<SchemaId>>, i: int) -> bool {
    repeats_earlier(names, i) || name_taken(names, existing, i)
}

/// Checks a batch, schema by schema in order: a name that repeats an
/// earlier one of the batch is refused first, then a name that storage maps
/// to another schema (`existing[i]` is what storage maps the name of schema
/// `i` to).
pub fn check_batch_names(names: &[(String, SchemaId)], existing: &[Option<SchemaId>]) -> (r: Result<(), BatchConflict>)
    requires
        names@.len() == existing@.len(),
    ensures
        (r is Ok) == (forall|i: int| 0 <= i < names@.len() ==> !#[trigger] refused(names@, existing@, i)),
        r matches Err(c) ==> {
            let i = match c {
                BatchConflict::DuplicateInBatch(i) => i as int,
                BatchConflict::NameTaken(i) => i as int,
            };
            &&& 0 <= i < names@.len()
            &&& refused(names@, existing@, i)
            &&& forall|j: int| 0 <= j < i ==> !#[trigger] refused(names@, existing@, j)
            &&& (c is DuplicateInBatch) == repeats_earlier(names@, i)
        },
{
    let mut i: usize = 0;
    while i < names.len()
        invariant
            0 <= i <= names@.len(),
            names@.len() == existing@.len(),
            forall|j: int| 0 <= j < i ==> !#[trigger] refused(names@, existing@, j),
        decreases names@.len() - i,
    {
        let mut j: usize = 0;
        while j < i
            invariant
                0 <= j <= i < names@.len(),
                names@.len() == existing@.len(),
                forall|m: int| 0 <= m < i ==> !#[trigger] refused(names@, existing@, m),
                forall|m: int| 0 <= m < j ==> #[trigger] names@[m].0@ != names@[i as int].0@,
            decreases i - j,
        {
            if crate::text::text_equal(names[j].0.as_str(), names[i].0.as_str()) {
                proof {
                    assert(names@[j as int].0@ == names@[i as int].0@);
                    assert(repeats_earlier(names@, i as int));
                    assert(refused(names@, existing@, i as int));
                }
                let r: Result<(), BatchConflict> = Err(BatchConflict::DuplicateInBatch(i));
                return r;
            }
            j = j + 1;
        }
        proof {
            assert(!repeats_earlier(names@, i as int));
        }
        match existing[i] {
            Some(e) => {
                if e != names[i].1 {
                    proof {
                        assert(refused(names@, existing@, i as int));
                    }
                    let r: Result<(), BatchConflict> = Err(BatchConflict::NameTaken(i));
                    return r;
                }
            },
            None => {},
        }
        i = i + 1;
    }
    Ok(())
}

/// The storage error of a refused batch.
pub open spec fn conflict_message(names: Seq<(String, SchemaId)>, c: BatchConflict) -> Seq<char> {
    match c {
        BatchConflict::DuplicateInBatch(i) => "schema name already exists in batch: "@ + names[i as int].0@,
        BatchConflict::NameTaken(i) => "schema name already exists: "@ + names[i as int].0@,
    }
}

/// The storage error reporting a refused batch.
pub fn conflict_error(names: &[(String, SchemaId)], c: BatchConflict) -> (e: DbError)
    requires
        match c {
            BatchConflict::DuplicateInBatch(i) => i < names@.len(),
            BatchConflict::NameTaken(i) => i < names@.len(),
        },
    ensures
        e matches DbError::Transaction(m) && m@ == conflict_message(names@, c),
{
    let mut m = String::new();
    match c {
        BatchConflict::DuplicateInBatch(i) => {
            push_str(&mut m, "schema name already exists in batch: ");
            push_str(&mut m, names[i].0.as_str());
        },
        BatchConflict::NameTaken(i) => {
            push_str(&mut m, "schema name already exists: ");
            push_str(&mut m, names[i].0.as_str());
        },
    }
    proof {
        reveal_strlit("schema name already exists in batch: ");
        reveal_strlit("schema name already exists: ");
        match c {
            BatchConflict::DuplicateInBatch(i) => {
                assert(m@ =~= "schema name already exists in batch: "@ + names@[i as int].0@);
            },
            BatchConflict::NameTaken(i) => {
                assert(m@ =~= "schema name already exists: "@ + names@[i as int].0@);
            },
        }
    }
    DbError::Transaction(m)
}

/// The rows one schema of a batch is saved as: its stored form under its
/// identifier key, its name pointing to its identifier, and its metadata
/// under its identifier key.
#[derive(Debug)]
pub struct SchemaRows {
    pub key: String,
    pub schema: StoredSchema,
    pub name: String,
    pub id: SchemaId,
    pub metadata: StoredMetadata,
}

/// The rows of a batch of schemas saved with their metadata, one entry per
/// schema in order. A batch whose schemas and metadata differ in number is
/// a programming error, so the two lists have the same length.
pub fn batch_rows(schemas: &[Schema], metadata: &[StoredMetadata]) -> (r: Vec<SchemaRows>)
    requires
        schemas@.len() == metadata@.len(),
    ensures
        r@.len() == schemas@.len(),
        forall|i: int|
            0 <= i < r@.len() ==> {
                &&& (#[trigger] r@[i]).key@ == uuid_text(schemas@[i].spec_id().value())
                &&& is_stored_form(r@[i].schema, schemas@[i])
                &&& r@[i].name@ == schemas@[i].spec_name()
                &&& r@[i].id == schemas@[i].spec_id()
                &&& r@[i].metadata == metadata@[i]
            },
{
    let mut r: Vec<SchemaRows> = Vec::new();
    let mut i: usize = 0;
    while i < schemas.len()
        invariant
            0 <= i <= schemas@.len(),
            schemas@.len() == metadata@.len(),
            r@.len() == i,
            forall|k: int|
                0 <= k < i ==> {
                    &&& (#[trigger] r@[k]).key@ == uuid_text(schemas@[k].spec_id().value())
                    &&& is_stored_form(r@[k].schema, schemas@[k])
                    &&& r@[k].name@ == schemas@[k].spec_name()
                    &&& r@[k].id == schemas@[k].spec_id()
                    &&& r@[k].metadata == metadata@[k]
                },
        decreases schemas@.len() - i,
    {
        let schema = &schemas[i];
        let id = *schema.id();
        r.push(
            SchemaRows {
                key: id.to_text(),
                schema: StoredSchema::from_schema(schema),
                name: copy_text(schema.name().as_str()),
                id,
                metadata: metadata[i],
            },
        );
        i = i + 1;
    }
    r
}

/// Metadata for `count` schemas saved without file timestamps: the initial
/// bank version, recorded now.
pub fn default_metadata(count: usize) -> (v: Vec<StoredMetadata>)
    ensures
        v@.len() == count,
        forall|i: int|
            0 <= i < count ==> (#[trigger] v@[i]).bank_version.value() == 0 && v@[i].created_at is None
                && v@[i].modified_at is None,
{
    let mut v: Vec<StoredMetadata> = Vec::new();
    let mut i: usize = 0;
    while i < count
        invariant
            0 <= i <= count,
            v@.len() == i,
            forall|j: int|
                0 <= j < i ==> (#[trigger] v@[j]).bank_version.value() == 0 && v@[j].created_at is None
                    && v@[j].modified_at is None,
        decreases count - i,
    {
        v.push(StoredMetadata::new(BankVersion::initial(), None, None));
        i = i + 1;
    }
    v
}

// ─────────────────────────────────────────────────────────────────────────────
//  Property references of stored schemas
// ─────────────────────────────────────────────────────────────────────────────

/// The outcome of checking one stored property against the bank.
pub open spec fn ref_ok(bank: PropertyBank, p: StoredProperty) -> bool {
    valid_name(p.name@) && bank.spec_properties()@.contains_key(p.name@)
}

/// Every property of every schema is a valid name the bank holds.
pub open spec fn refs_ok(schemas: Seq<StoredSchema>, bank: PropertyBank) -> bool {
    forall|i: int, k: int|
        0 <= i < schemas.len() && 0 <= k < schemas[i].properties@.len() ==> ref_ok(
            bank,
            #[trigger] schemas[i].properties@[k],
        )
}

/// The message of a property missing from the bank.
pub open spec fn missing_ref_message(property: Seq<char>, schema: Seq<char>) -> Seq<char> {
    "property '"@ + property + "' in schema '"@ + schema + "' not found in PropertyBank"@
}

/// Checks that every property of every schema names a property of the
/// bank, schemas and properties in order. The first failure is reported:
/// an invalid name with its error's text, else a missing one.
pub fn check_property_refs(schemas: &[StoredSchema], bank: &PropertyBank) -> (r: Result<(), DbError>)
    ensures
        (r is Ok) == refs_ok(schemas@, *bank),
        r matches Err(e) ==> exists|i: int, k: int|
            0 <= i < schemas@.len() && 0 <= k < schemas@[i].properties@.len() && !ref_ok(
                *bank,
                #[trigger] schemas@[i].properties@[k],
            ) && (forall|i2: int, k2: int|
                (0 <= i2 < i && 0 <= k2 < schemas@[i2].properties@.len()) || (i2 == i && 0 <= k2 < k)
                    ==> ref_ok(*bank, #[trigger] schemas@[i2].properties@[k2])) && (e matches DbError::Transaction(m)
                && if valid_name(schemas@[i].properties@[k].name@) {
                m@ == missing_ref_message(schemas@[i].properties@[k].name@, schemas@[i].name@)
            } else {
                exists|pe: PropertyNameError|
                    m@ == property_name_error_text(pe) && crate::identifier::is_property_name_error(
                        SchemaError::PropertyName(pe),
                        schemas@[i].properties@[k].name@,
                    )
            }),
{
    let mut i: usize = 0;
    while i < schemas.len()
        invariant
            0 <= i <= schemas@.len(),
            forall|i2: int, k2: int|
                0 <= i2 < i && 0 <= k2 < schemas@[i2].properties@.len() ==> ref_ok(
                    *bank,
                    #[trigger] schemas@[i2].properties@[k2],
                ),
        decreases schemas@.len() - i,
    {
        let props = &schemas[i].properties;
        let mut k: usize = 0;
        while k < props.len()
            invariant
                0 <= i < schemas@.len(),
                0 <= k <= props@.len(),
                *props == schemas@[i as int].properties,
                forall|i2: int, k2: int|
                    0 <= i2 < i && 0 <= k2 < schemas@[i2].properties@.len() ==> ref_ok(
                        *bank,
                        #[trigger] schemas@[i2].properties@[k2],
                    ),
                forall|k2: int| 0 <= k2 < k ==> ref_ok(*bank, #[trigger] schemas@[i as int].properties@[k2]),
            decreases props@.len() - k,
        {
            let pname = props[k].name.as_str();
            match PropertyName::try_new(pname) {
                Ok(name) => {
                    if !bank.has(&name) {
                        let mut m = String::new();
                        push_str(&mut m, "property '");
                        push_str(&mut m, pname);
                        push_str(&mut m, "' in schema '");
                        push_str(&mut m, schemas[i].name.as_str());
                        push_str(&mut m, "' not found in PropertyBank");
                        proof {
                            reveal_strlit("property '");
                            reveal_strlit("' in schema '");
                            reveal_strlit("' not found in PropertyBank");
                            assert(m@ =~= missing_ref_message(pname@, schemas@[i as int].name@));
                            assert(!ref_ok(*bank, schemas@[i as int].properties@[k as int]));
                            assert forall|i2: int, k2: int|
                                (0 <= i2 < i && 0 <= k2 < schemas@[i2].properties@.len()) || (i2 == i && 0 <= k2 < k)
                                    implies ref_ok(*bank, #[trigger] schemas@[i2].properties@[k2]) by {}
                        }
                        let r: Result<(), DbError> = Err(DbError::Transaction(m));
                        return r;
                    }
                },
                Err(e) => {
                    let m = match &e {
                        SchemaError::PropertyName(pe) => pe.to_text(),
                        _ => String::new(),
                    };
                    proof {
                        assert(!ref_ok(*bank, schemas@[i as int].properties@[k as int]));
                        assert forall|i2: int, k2: int|
                            (0 <= i2 < i && 0 <= k2 < schemas@[i2].properties@.len()) || (i2 == i && 0 <= k2 < k)
                                implies ref_ok(*bank, #[trigger] schemas@[i2].properties@[k2]) by {}
                        let pe = choose|pe: PropertyNameError| e == SchemaError::PropertyName(pe);
                        assert(m@ == property_name_error_text(pe));
                    }
                    let r: Result<(), DbError> = Err(DbError::Transaction(m));
                    return r;
                },
            }
            k = k + 1;
        }
        i = i + 1;
    }
    Ok(())
}

// ─────────────────────────────────────────────────────────────────────────────
//  Versioned bank rows
// ─────────────────────────────────────────────────────────────────────────────

/// One row of a bank version: its key by property identifier, its key by
/// name, and the stored property.
#[derive(Debug, Clone, PartialEq, Eq)]
pub struct BankRow {
    pub id_key: String,
    pub name_key: String,
    pub row: StoredBankProperty,
}

/// The rows `bank` is written as for `version`: one per property, in bank
/// order, keyed `"<version>:<property id>"` and `"<version>:<name>"`.
pub fn bank_rows(bank: &PropertyBank, version: BankVersion, recorded_at: u64) -> (r: Vec<BankRow>)
    ensures
        r@.len() == bank.spec_properties().pairs().len(),
        forall|i: int|
            0 <= i < r@.len() ==> {
                let (name, p) = bank.spec_properties().pairs()[i];
                &&& (#[trigger] r@[i]).id_key@ == version_prefix(version) + uuid_text(p.spec_id().value())
                &&& r@[i].name_key@ == version_prefix(version) + name
                &&& r@[i].row.bank_version == version
                &&& r@[i].row.recorded_at == recorded_at
                &&& stored_matches(r@[i].row.property, name, p)
            },
{
    let entries = bank.properties().entries();
    let ghost pairs = bank.spec_properties().pairs();
    let mut r: Vec<BankRow> = Vec::new();
    let mut i: usize = 0;
    while i < entries.len()
        invariant
            0 <= i <= entries@.len(),
            pairs == bank.spec_properties().pairs(),
            entries@.len() == pairs.len(),
            forall|j: int|
                0 <= j < entries@.len() ==> (#[trigger] entries@[j]).0@ == pairs[j].0 && entries@[j].1
                    == pairs[j].1,
            r@.len() == i,
            forall|j: int|
                0 <= j < i ==> {
                    let (name, p) = pairs[j];
                    &&& (#[trigger] r@[j]).id_key@ == version_prefix(version) + uuid_text(p.spec_id().value())
                    &&& r@[j].name_key@ == version_prefix(version) + name
                    &&& r@[j].row.bank_version == version
                    &&& r@[j].row.recorded_at == recorded_at
                    &&& stored_matches(r@[j].row.property, name, p)
                },
        decreases entries@.len() - i,
    {
        let name = &entries[i].0;
        let p = &entries[i].1;
        let id_text = p.id().to_text();
        let id_key = StoredBankProperty::key(version, id_text.as_str());
        let name_key = StoredBankProperty::key(version, name.as_str());
        let required = match p.optionality() {
            Optionality::Required => true,
            Optionality::Optional => false,
        };
        let multi = match p.multiplicity() {
            Multiplicity::Many => true,
            Multiplicity::Single => false,
        };
        let property = StoredProperty { id: p.id(), name: copy_text(name.as_str()), required, multi, spec: p.spec() };
        r.push(BankRow { id_key, name_key, row: StoredBankProperty { bank_version: version, recorded_at, property } });
        i = i + 1;
    }
    r
}

// ─────────────────────────────────────────────────────────────────────────────
//  Inheritance writes
// ─────────────────────────────────────────────────────────────────────────────

/// One write of an inheritance update.
#[derive(Debug, Clone, PartialEq, Eq)]
pub enum InheritanceWrite {
    /// Remove the child link stored under the old parent.
    RemoveChild { parent: SchemaId, child: StoredChildSchema },
    /// Store a child link under the new parent.
    InsertChild { parent: SchemaId, child: StoredChildSchema },
    /// Store the child's parent record.
    PutParent { child_id: SchemaId, parent: StoredParentSchema },
}

/// A write as plain values: the parent (or the child, for a parent
/// record), the child (or the new parent), the excluded names and the time.
pub enum WriteModel {
    RemoveChild(SchemaId, SchemaId, Seq<String>, u64),
    InsertChild(SchemaId, SchemaId, Seq<String>, u64),
    PutParent(SchemaId, Option<SchemaId>, Seq<String>, u64),
}

/// A write as plain values.
pub open spec fn write_model(w: InheritanceWrite) -> WriteModel {
    match w {
        InheritanceWrite::RemoveChild { parent, child } => WriteModel::RemoveChild(
            parent,
            child.child_id,
            child.excludes@,
            child.resolved_at,
        ),
        InheritanceWrite::InsertChild { parent, child } => WriteModel::InsertChild(
            parent,
            child.child_id,
            child.excludes@,
            child.resolved_at,
        ),
        InheritanceWrite::PutParent { child_id, parent } => WriteModel::PutParent(
            child_id,
            parent.parent_id,
            parent.excludes@,
            parent.resolved_at,
        ),
    }
}

/// The writes for one relationship: the old child link goes when the child
/// had a parent, the new one comes when it has a parent now, and its parent
/// record is replaced.
pub open spec fn relationship_writes(
    child_id: SchemaId,
    parent_id: Option<SchemaId>,
    excludes: Seq<String>,
    old: Option<StoredParentSchema>,
    now: u64,
) -> Seq<WriteModel> {
    let removal = match old {
        Some(o) => match o.parent_id {
            Some(op) => seq![WriteModel::RemoveChild(op, child_id, o.excludes@, o.resolved_at)],
            None => Seq::empty(),
        },
        None => Seq::empty(),
    };
    let insertion = match parent_id {
        Some(p) => seq![WriteModel::InsertChild(p, child_id, excludes, now)],
        None => Seq::empty(),
    };
    removal + insertion + seq![WriteModel::PutParent(child_id, parent_id, excludes, now)]
}

/// The writes of every relationship, in order.
pub open spec fn all_writes(
    relationships: Seq<(SchemaId, Option<SchemaId>, Vec<String>)>,
    old: Map<SchemaId, StoredParentSchema>,
    now: u64,
) -> Seq<WriteModel>
    decreases relationships.len(),
{
    if relationships.len() == 0 {
        Seq::empty()
    } else {
        let r = relationships.last();
        all_writes(relationships.drop_last(), old, now) + relationship_writes(
            r.0,
            r.1,
            r.2@,
            if old.contains_key(r.0) { Some(old[r.0]) } else { None },
            now,
        )
    }
}

/// The writes that record new parents: for each (child, parent, excluded
/// names) relationship in order, using the child's previous parent record
/// from `old_parents`, all stamped `now`.
pub fn inheritance_writes(
    relationships: &[(SchemaId, Option<SchemaId>, Vec<String>)],
    old_parents: &crate::idmap::IdMap<StoredParentSchema>,
    now: u64,
) -> (r: Vec<InheritanceWrite>)
    requires
        old_parents.wf(),
    ensures
        r@.map_values(|w: InheritanceWrite| write_model(w)) == all_writes(relationships@, old_parents@, now),
{
    let mut r: Vec<InheritanceWrite> = Vec::new();
    let mut i: usize = 0;
    while i < relationships.len()
        invariant
            0 <= i <= relationships@.len(),
            old_parents.wf(),
            r@.map_values(|w: InheritanceWrite| write_model(w)) == all_writes(relationships@.take(i as int), old_parents@, now),
        decreases relationships@.len() - i,
    {
        let (child_id, parent_id, excludes) = (relationships[i].0, relationships[i].1, &relationships[i].2);
        let ghost before = r@;
        let ghost old_rec: Option<StoredParentSchema> = if old_parents@.contains_key(child_id) {
            Some(old_parents@[child_id])
        } else {
            None
        };
        let ghost expected = relationship_writes(child_id, parent_id, excludes@, old_rec, now);
        proof {
            assert(relationships@.take(i + 1).drop_last() =~= relationships@.take(i as int));
            assert(relationships@.take(i + 1).last() == relationships@[i as int]);
        }
        match old_parents.get(&child_id) {
            Some(old) => match old.parent_id {
                Some(op) => {
                    r.push(InheritanceWrite::RemoveChild {
                        parent: op,
                        child: StoredChildSchema { child_id, excludes: old.excludes.clone(), resolved_at: old.resolved_at },
                    });
                },
                None => {},
            },
            None => {},
        }
        match parent_id {
            Some(p) => {
                r.push(InheritanceWrite::InsertChild {
                    parent: p,
                    child: StoredChildSchema { child_id, excludes: excludes.clone(), resolved_at: now },
                });
            },
            None => {},
        }
        r.push(InheritanceWrite::PutParent {
            child_id,
            parent: StoredParentSchema { parent_id, excludes: excludes.clone(), resolved_at: now },
        });
        proof {
            let all = all_writes(relationships@.take(i + 1), old_parents@, now);
            assert(all == all_writes(relationships@.take(i as int), old_parents@, now) + expected);
            assert(r@.map_values(|w: InheritanceWrite| write_model(w)) =~= all);
        }
        i = i + 1;
    }
    proof {
        assert(relationships@.take(relationships@.len() as int) =~= relationships@);
    }
    r
}

} // verus!
