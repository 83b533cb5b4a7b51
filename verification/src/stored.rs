//! Storage records of schemas and the property bank: the plain values that
//! are persisted, their conversion from and back to the domain types, and
//! the keys of versioned property-bank rows (`"<version>:<suffix>"`).

use vstd::prelude::*;

use crate::aggregate::Schema;
use crate::bank::PropertyBank;
use crate::clock::unix_now_secs;
use crate::error::SchemaError;
use crate::identifier::{
    is_property_name_error, is_schema_name_error, valid_name, PropertyId, PropertyName, SchemaId,
    SchemaName,
};
use crate::property::{Multiplicity, Optionality, Property, PropertyMap, PropertySpec};
use crate::text::{copy_text, decimal, push_decimal, push_str};

verus! {

// ─────────────────────────────────────────────────────────────────────────────
//  Bank versions and row keys
// ─────────────────────────────────────────────────────────────────────────────

/// Version number of a persisted property bank.
#[derive(Debug, Clone, Copy, PartialEq, Eq, Structural, Hash)]
pub struct BankVersion {
    value: u64,
}

impl BankVersion {
    /// The version number.
    pub closed spec fn value(self) -> u64 {
        self.value
    }

    /// Versions are equal exactly when their numbers are.
    pub proof fn lemma_value_injective(self, other: BankVersion)
        ensures
            (self.value() == other.value()) == (self == other),
    {
    }

    /// The first version, 0.
    pub fn initial() -> (v: BankVersion)
        ensures
            v.value() == 0,
    {
        BankVersion { value: 0 }
    }

    /// The version numbered `value`.
    pub fn from_u64(value: u64) -> (v: BankVersion)
        ensures
            v.value() == value,
    {
        BankVersion { value }
    }

    /// The version number.
    pub fn as_u64(&self) -> (n: u64)
        ensures
            n == self.value(),
    {
        self.value
    }
}

/// A stored property: its identifier, name, cardinality flags and spec.
#[derive(Debug, Clone, PartialEq, Eq)]
pub struct StoredProperty {
    pub id: PropertyId,
    pub name: String,
    pub required: bool,
    pub multi: bool,
    pub spec: PropertySpec,
}

/// The record of property `p` stored under `name`.
pub open spec fn stored_matches(s: StoredProperty, name: Seq<char>, p: Property) -> bool {
    &&& s.id == p.spec_id()
    &&& s.name@ == name
    &&& s.required == (p.spec_optionality() == Optionality::Required)
    &&& s.multi == (p.spec_multiplicity() == Multiplicity::Many)
    &&& s.spec == p.spec_spec()
}

/// The property a stored record describes.
pub open spec fn describes(p: Property, s: StoredProperty) -> bool {
    &&& p.spec_id() == s.id
    &&& p.spec_optionality() == (if s.required { Optionality::Required } else { Optionality::Optional })
    &&& p.spec_multiplicity() == (if s.multi { Multiplicity::Many } else { Multiplicity::Single })
    &&& p.spec_spec() == s.spec
}

/// The last record of `props` named `k`, if any.
pub open spec fn last_named(props: Seq<StoredProperty>, k: Seq<char>) -> Option<StoredProperty>
    decreases props.len(),
{
    if props.len() == 0 {
        None
    } else if props.last().name@ == k {
        Some(props.last())
    } else {
        last_named(props.drop_last(), k)
    }
}

/// A map holds, under each name, the property the last record of that name
/// describes, and nothing else.
pub open spec fn holds_records(m: Map<Seq<char>, Property>, props: Seq<StoredProperty>) -> bool {
    &&& forall|k: Seq<char>| #[trigger] m.contains_key(k) <==> last_named(props, k) is Some
    &&& forall|k: Seq<char>| #[trigger] m.contains_key(k) ==> describes(m[k], last_named(props, k).unwrap())
}

/// Every record of `props` has a valid name.
pub open spec fn names_valid(props: Seq<StoredProperty>) -> bool {
    forall|i: int| 0 <= i < props.len() ==> valid_name(#[trigger] props[i].name@)
}

/// The error for the first record whose name is invalid.
pub open spec fn first_name_error(props: Seq<StoredProperty>, e: SchemaError) -> bool {
    exists|i: int|
        0 <= i < props.len() && !valid_name(#[trigger] props[i].name@) && (forall|j: int|
            0 <= j < i ==> valid_name(#[trigger] props[j].name@)) && is_property_name_error(e, props[i].name@)
}

/// Builds the records of `m`, in its order.
fn stored_properties(m: &PropertyMap) -> (r: Vec<StoredProperty>)
    ensures
        r@.len() == m.pairs().len(),
        forall|i: int| 0 <= i < r@.len() ==> stored_matches(#[trigger] r@[i], m.pairs()[i].0, m.pairs()[i].1),
{
    let entries = m.entries();
    let mut r: Vec<StoredProperty> = Vec::new();
    let mut i: usize = 0;
    while i < entries.len()
        invariant
            0 <= i <= entries@.len(),
            entries@.len() == m.pairs().len(),
            forall|j: int|
                0 <= j < entries@.len() ==> (#[trigger] entries@[j]).0@ == m.pairs()[j].0 && entries@[j].1
                    == m.pairs()[j].1,
            r@.len() == i,
            forall|j: int| 0 <= j < i ==> stored_matches(#[trigger] r@[j], m.pairs()[j].0, m.pairs()[j].1),
        decreases entries@.len() - i,
    {
        let (name, p) = (&entries[i].0, &entries[i].1);
        let required = match p.optionality() {
            Optionality::Required => true,
            Optionality::Optional => false,
        };
        let multi = match p.multiplicity() {
            Multiplicity::Many => true,
            Multiplicity::Single => false,
        };
        r.push(StoredProperty { id: p.id(), name: copy_text(name.as_str()), required, multi, spec: p.spec() });
        i = i + 1;
    }
    r
}

/// Validates the records' names and builds the property map they describe
/// (a later record replaces an earlier one of the same name).
fn property_map_from(props: Vec<StoredProperty>) -> (r: Result<PropertyMap, SchemaError>)
    ensures
        (r is Ok) == names_valid(props@),
        r matches Ok(m) ==> m.wf() && holds_records(m@, props@),
        r matches Err(e) ==> first_name_error(props@, e),
{
    let mut m = PropertyMap::new();
    let mut i: usize = 0;
    while i < props.len()
        invariant
            0 <= i <= props@.len(),
            m.wf(),
            names_valid(props@.take(i as int)),
            holds_records(m@, props@.take(i as int)),
        decreases props@.len() - i,
    {
        let sp = &props[i];
        let ghost before = m@;
        proof {
            assert(props@.take(i + 1).drop_last() =~= props@.take(i as int));
            assert(props@.take(i + 1).last() == props@[i as int]);
        }
        let name = match PropertyName::try_new(sp.name.as_str()) {
            Ok(n) => n,
            Err(e) => {
                proof {
                    assert(!valid_name(props@[i as int].name@));
                    assert forall|j: int| 0 <= j < i implies valid_name(#[trigger] props@[j].name@) by {
                        assert(props@.take(i as int)[j] == props@[j]);
                    }
                }
                return Err(e);
            },
        };
        let p = Property::new(
            sp.id,
            Optionality::from_required(sp.required),
            Multiplicity::from_multi(sp.multi),
            sp.spec.clone(),
        );
        m.insert(name, p);
        proof {
            let t = props@.take(i + 1);
            assert forall|k: Seq<char>| #[trigger] m@.contains_key(k) <==> last_named(t, k) is Some by {
                if k != sp.name@ {
                    assert(last_named(t, k) == last_named(props@.take(i as int), k));
                }
            }
            assert forall|k: Seq<char>| #[trigger] m@.contains_key(k) implies describes(m@[k], last_named(t, k).unwrap()) by {
                if k != sp.name@ {
                    assert(last_named(t, k) == last_named(props@.take(i as int), k));
                    assert(m@[k] == before[k]);
                }
            }
            assert forall|j: int| 0 <= j < i + 1 implies valid_name(#[trigger] t[j].name@) by {
                if j < i {
                    assert(t[j] == props@.take(i as int)[j]);
                }
            }
        }
        i = i + 1;
    }
    proof {
        assert(props@.take(props@.len() as int) =~= props@);
    }
    Ok(m)
}

// ─────────────────────────────────────────────────────────────────────────────
//  Stored schema
// ─────────────────────────────────────────────────────────────────────────────

/// The persisted form of a schema.
#[derive(Debug, Clone, PartialEq, Eq)]
pub struct StoredSchema {
    pub id: SchemaId,
    pub name: String,
    pub parent_id: Option<SchemaId>,
    pub properties: Vec<StoredProperty>,
}

/// The first of `parents`, if any.
pub open spec fn first_parent(parents: Seq<SchemaId>) -> Option<SchemaId> {
    if parents.len() > 0 { Some(parents[0]) } else { None }
}

/// The parent list of an optional parent.
pub open spec fn parent_list(parent: Option<SchemaId>) -> Seq<SchemaId> {
    match parent {
        Some(p) => seq![p],
        None => Seq::empty(),
    }
}

/// `stored` is the record of `schema`: its identifier, name, first parent,
/// and each property in map order.
pub open spec fn is_stored_form(stored: StoredSchema, schema: Schema) -> bool {
    &&& stored.id == schema.spec_id()
    &&& stored.name@ == schema.spec_name()
    &&& stored.parent_id == first_parent(schema.spec_parents())
    &&& stored.properties@.len() == schema.spec_properties().pairs().len()
    &&& forall|i: int|
        0 <= i < stored.properties@.len() ==> stored_matches(
            #[trigger] stored.properties@[i],
            schema.spec_properties().pairs()[i].0,
            schema.spec_properties().pairs()[i].1,
        )
}

/// `back` is the schema read back from `stored`.
pub open spec fn is_read_back(back: Schema, stored: StoredSchema) -> bool {
    &&& back.spec_id() == stored.id
    &&& back.spec_name() == stored.name@
    &&& back.spec_parents() == parent_list(stored.parent_id)
    &&& back.spec_children() == Seq::<SchemaId>::empty()
    &&& holds_records(back.spec_properties()@, stored.properties@)
}

impl StoredSchema {
    /// The record of `schema`: its identifier, name, first parent, and each
    /// property in map order.
    pub fn from_schema(schema: &Schema) -> (s: StoredSchema)
        ensures
            is_stored_form(s, *schema),
    {
        let parents = schema.parents();
        let parent_id = if parents.len() > 0 { Some(parents[0]) } else { None };
        StoredSchema {
            id: *schema.id(),
            name: copy_text(schema.name().as_str()),
            parent_id,
            properties: stored_properties(schema.properties()),
        }
    }

    /// The schema this record describes: the name and every property name
    /// are validated (the schema name first, then the properties in order),
    /// the parent becomes the parent list, there are no children, and the
    /// schema is recorded now.
    pub fn into_schema(self) -> (r: Result<Schema, SchemaError>)
        ensures
            (r is Ok) == (valid_name(self.name@) && names_valid(self.properties@)),
            r matches Ok(s) ==> is_read_back(s, self),
            r matches Err(e) ==> if !valid_name(self.name@) {
                is_schema_name_error(e, self.name@)
            } else {
                first_name_error(self.properties@, e)
            },
    {
        let StoredSchema { id, name, parent_id, properties } = self;
        let schema_name = match SchemaName::try_new(name.as_str()) {
            Ok(n) => n,
            Err(e) => return Err(e),
        };
        let map = match property_map_from(properties) {
            Ok(m) => m,
            Err(e) => return Err(e),
        };
        let mut parents: Vec<SchemaId> = Vec::new();
        match parent_id {
            Some(p) => parents.push(p),
            None => {},
        }
        proof {
            assert(parents@ =~= parent_list(parent_id));
        }
        Ok(Schema::new(id, schema_name, parents, Vec::new(), map))
    }
}

// ─────────────────────────────────────────────────────────────────────────────
//  Stored property bank
// ─────────────────────────────────────────────────────────────────────────────

/// The persisted form of a property bank.
#[derive(Debug, Clone, PartialEq, Eq)]
pub struct StoredPropertyBank {
    pub bank_version: BankVersion,
    pub recorded_at: u64,
    pub properties: Vec<StoredProperty>,
}

impl StoredPropertyBank {
    /// The bank this record describes, with its recording time; every
    /// property name is validated in order.
    pub fn into_bank(self) -> (r: Result<PropertyBank, SchemaError>)
        ensures
            (r is Ok) == names_valid(self.properties@),
            r matches Ok(b) ==> holds_records(b.spec_properties()@, self.properties@)
                && b.spec_recorded_at() == self.recorded_at,
            r matches Err(e) ==> first_name_error(self.properties@, e),
    {
        let StoredPropertyBank { bank_version: _, recorded_at, properties } = self;
        match property_map_from(properties) {
            Ok(m) => {
                let mut bank = PropertyBank::from(m);
                bank.set_recorded_at(recorded_at);
                Ok(bank)
            },
            Err(e) => Err(e),
        }
    }
}

/// Staleness metadata recorded with a persisted schema or bank: the bank
/// version, the file timestamps, and when it was recorded (seconds since
/// the Unix epoch).
#[derive(Debug, Clone, Copy, PartialEq, Eq, Structural)]
pub struct StoredMetadata {
    pub bank_version: BankVersion,
    pub created_at: Option<u64>,
    pub modified_at: Option<u64>,
    pub recorded_at: u64,
}

impl StoredMetadata {
    /// Metadata for `bank_version` and the file timestamps, recorded now.
    pub fn new(bank_version: BankVersion, created_at: Option<u64>, modified_at: Option<u64>) -> (m: StoredMetadata)
        ensures
            m.bank_version == bank_version,
            m.created_at == created_at,
            m.modified_at == modified_at,
    {
        StoredMetadata { bank_version, created_at, modified_at, recorded_at: unix_now_secs() }
    }
}

/// A child link of a schema: the child and the names it excludes.
#[derive(Debug, Clone, PartialEq, Eq)]
pub struct StoredChildSchema {
    pub child_id: SchemaId,
    pub excludes: Vec<String>,
    pub resolved_at: u64,
}

/// The parent link of a schema: the parent, if any, and the names the
/// schema excludes.
#[derive(Debug, Clone, PartialEq, Eq)]
pub struct StoredParentSchema {
    pub parent_id: Option<SchemaId>,
    pub excludes: Vec<String>,
    pub resolved_at: u64,
}

/// One property of one persisted bank version.
#[derive(Debug, Clone, PartialEq, Eq)]
pub struct StoredBankProperty {
    pub bank_version: BankVersion,
    pub recorded_at: u64,
    pub property: StoredProperty,
}

/// The key prefix of a bank version's rows: the version in decimal and `:`.
pub open spec fn version_prefix(version: BankVersion) -> Seq<char> {
    decimal(version.value() as nat).push(':')
}

impl StoredBankProperty {
    /// The row key `"<version>:<suffix>"`.
    pub fn key(version: BankVersion, suffix: &str) -> (k: String)
        ensures
            k@ == version_prefix(version) + suffix@,
    {
        let mut k = StoredBankProperty::prefix(version);
        push_str(&mut k, suffix);
        k
    }

    /// The prefix `"<version>:"` shared by every row of `version`.
    pub fn prefix(version: BankVersion) -> (p: String)
        ensures
            p@ == version_prefix(version),
    {
        let mut p = String::new();
        push_decimal(&mut p, version.as_u64());
        push_str(&mut p, ":");
        proof {
            reveal_strlit(":");
            assert(Seq::<char>::empty() + decimal(version.value() as nat) + ":"@ =~= version_prefix(version));
        }
        p
    }
}

// ─────────────────────────────────────────────────────────────────────────────
//  Round trip
// ─────────────────────────────────────────────────────────────────────────────

/// `last_named` finds the last record of a name, if there is one.
proof fn lemma_last_named(props: Seq<StoredProperty>, k: Seq<char>)
    ensures
        (last_named(props, k) is Some) == (exists|i: int| 0 <= i < props.len() && #[trigger] props[i].name@ == k),
        last_named(props, k) matches Some(x) ==> exists|i: int|
            0 <= i < props.len() && #[trigger] props[i] == x && x.name@ == k,
    decreases props.len(),
{
    if props.len() > 0 {
        lemma_last_named(props.drop_last(), k);
        if props.last().name@ == k {
            assert(props[props.len() - 1] == props.last());
        } else {
            if exists|i: int| 0 <= i < props.len() && #[trigger] props[i].name@ == k {
                let i = choose|i: int| 0 <= i < props.len() && #[trigger] props[i].name@ == k;
                assert(props.drop_last()[i].name@ == k);
            }
            if let Some(x) = last_named(props.drop_last(), k) {
                let i = choose|i: int| 0 <= i < props.drop_last().len() && #[trigger] props.drop_last()[i] == x && x.name@ == k;
                assert(props[i] == x);
            }
        }
    }
}

/// A schema stored and read back keeps its identifier, name, first parent
/// and properties, and reading it back succeeds: every name a schema holds
/// is valid.
pub proof fn lemma_stored_schema_round_trip(schema: Schema, stored: StoredSchema, back: Schema)
    requires
        valid_name(schema.spec_name()),
        schema.spec_properties().wf(),
        forall|i: int|
            0 <= i < schema.spec_properties().pairs().len() ==> valid_name(
                #[trigger] schema.spec_properties().pairs()[i].0,
            ),
        is_stored_form(stored, schema),
        is_read_back(back, stored),
    ensures
        valid_name(stored.name@),
        names_valid(stored.properties@),
        back.spec_id() == schema.spec_id(),
        back.spec_name() == schema.spec_name(),
        back.spec_parents() == parent_list(first_parent(schema.spec_parents())),
        back.spec_properties()@ == schema.spec_properties()@,
{
    let pairs = schema.spec_properties().pairs();
    let props = stored.properties@;
    schema.spec_properties().lemma_view();
    assert forall|i: int| 0 <= i < props.len() implies valid_name(#[trigger] props[i].name@) by {
        assert(stored_matches(props[i], pairs[i].0, pairs[i].1));
    }
    let m = back.spec_properties()@;
    let orig = schema.spec_properties()@;
    assert forall|k: Seq<char>| #[trigger] m.contains_key(k) <==> orig.contains_key(k) by {
        lemma_last_named(props, k);
        if m.contains_key(k) {
            let i = choose|i: int| 0 <= i < props.len() && #[trigger] props[i].name@ == k;
            assert(stored_matches(props[i], pairs[i].0, pairs[i].1));
            assert(pairs[i].0 == k);
        }
        if orig.contains_key(k) {
            let i = choose|i: int| 0 <= i < pairs.len() && #[trigger] pairs[i].0 == k;
            assert(stored_matches(props[i], pairs[i].0, pairs[i].1));
            assert(props[i].name@ == k);
        }
    }
    assert forall|k: Seq<char>| #[trigger] m.contains_key(k) implies m[k] == orig[k] by {
        lemma_last_named(props, k);
        let x = last_named(props, k).unwrap();
        let i = choose|i: int| 0 <= i < props.len() && #[trigger] props[i] == x && x.name@ == k;
        assert(stored_matches(props[i], pairs[i].0, pairs[i].1));
        assert(pairs[i].0 == k);
        assert(orig[pairs[i].0] == pairs[i].1);
        let p = pairs[i].1;
        assert(describes(m[k], x));
        assert(m[k].spec_optionality() == p.spec_optionality()) by {
            if p.spec_optionality() == Optionality::Required {
            } else {
                assert(p.spec_optionality() == Optionality::Optional);
            }
        }
        assert(m[k].spec_multiplicity() == p.spec_multiplicity()) by {
            if p.spec_multiplicity() == Multiplicity::Many {
            } else {
                assert(p.spec_multiplicity() == Multiplicity::Single);
            }
        }
        m[k].lemma_ext(p);
    }
    assert(m =~= orig);
}

} // verus!
