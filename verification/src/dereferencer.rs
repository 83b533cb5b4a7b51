//! Resolves the properties of raw schemas: inline definitions are validated
//! and `$ref` pointers are looked up in the property bank with their
//! overrides applied.

use vstd::prelude::*;

use crate::bank::PropertyBank;
use crate::error::{PropertyRefError, SchemaError};
use crate::expander::{apply_same_kind_overrides, is_type_mismatch, override_mismatch, overridden_spec, type_mismatch};
use crate::identifier::{is_property_name_error, valid_name, PropertyName, PropertyId, SchemaId};
use crate::property::{spec_kind_name, DateSpec, FileSpec, Multiplicity, Optionality, Property, PropertySpec, StringSpec};
use crate::raw::{override_kinds, parse_bank_ref, ref_target, RawProperty, RawPropertyRef, RawPropertySpec, RawSchema};
use crate::text::{copy_text, text_less, text_lt};

verus! {

/// The specification kind an inline property declares.
pub open spec fn spec_of_raw(s: RawPropertySpec) -> PropertySpec {
    match s {
        RawPropertySpec::Bool => PropertySpec::Bool,
        RawPropertySpec::Number => PropertySpec::Number,
        RawPropertySpec::String => PropertySpec::String(StringSpec { options: None, pattern: None }),
        RawPropertySpec::Date => PropertySpec::Date(DateSpec { format: None }),
        RawPropertySpec::File => PropertySpec::File(FileSpec { directory: None, file_class: None }),
    }
}

/// The optionality a `required` flag gives.
pub open spec fn optionality_of(required: bool) -> Optionality {
    if required { Optionality::Required } else { Optionality::Optional }
}

/// The multiplicity a `multi` flag gives.
pub open spec fn multiplicity_of(multi: bool) -> Multiplicity {
    if multi { Multiplicity::Many } else { Multiplicity::Single }
}

/// What resolving the entry named `name` gives against `bank`.
pub open spec fn deref_result(
    bank: Map<Seq<char>, Property>,
    name: Seq<char>,
    entry: RawProperty,
    res: Result<(PropertyName, Property), SchemaError>,
) -> bool {
    match entry {
        RawProperty::Inline(i) => if !valid_name(name) {
            res matches Err(e) && is_property_name_error(e, name)
        } else {
            (res matches Ok(np) && np.0@ == name && np.1.spec_optionality() == optionality_of(i.required)
                && np.1.spec_multiplicity() == multiplicity_of(i.multi) && np.1.spec_spec() == spec_of_raw(i.spec))
            || res matches Err(SchemaError::Identifier(_))
        },
        RawProperty::Ref(r) => match ref_target(r.ref_path@) {
            None => res matches Err(e) && e matches SchemaError::PropertyRef(
                PropertyRefError::MalformedBankReferencePath { reference },
            ) && reference@ == r.ref_path@,
            Some(t) => if !bank.contains_key(t) {
                res matches Err(e) && e matches SchemaError::PropertyRef(
                    PropertyRefError::TargetPropertyNotFoundInBank { reference },
                ) && reference@ == r.ref_path@
            } else {
                let base = bank[t];
                match override_mismatch(base.spec_spec(), r) {
                    Some(actual) => res matches Err(e) && is_type_mismatch(e, spec_kind_name(base.spec_spec()), actual),
                    None => if !valid_name(name) {
                        res matches Err(e) && is_property_name_error(e, name)
                    } else {
                        res matches Ok(np) && np.0@ == name && np.1.spec_id() == base.spec_id()
                            && np.1.spec_optionality() == (match r.required {
                                Some(req) => optionality_of(req),
                                None => base.spec_optionality(),
                            })
                            && np.1.spec_multiplicity() == (match r.multi {
                                Some(m) => multiplicity_of(m),
                                None => base.spec_multiplicity(),
                            })
                            && np.1.spec_spec() == overridden_spec(base.spec_spec(), r, false)
                    },
                }
            },
        },
    }
}

/// Resolving the entry succeeds.
pub open spec fn deref_ok(bank: Map<Seq<char>, Property>, name: Seq<char>, entry: RawProperty) -> bool {
    exists|np: (PropertyName, Property)| #[trigger] deref_result(bank, name, entry, Ok::<(PropertyName, Property), SchemaError>(np))
}

/// A raw schema with its properties resolved, sorted by name.
#[derive(Debug)]
pub struct DereferencedSchema {
    pub name: String,
    pub extends: Option<String>,
    pub excludes: Vec<String>,
    pub properties: Vec<(PropertyName, Property)>,
}

/// Resolves raw schemas against a property bank.
#[derive(Debug)]
pub struct Dereferencer<'bank> {
    bank: &'bank PropertyBank,
}

/// `np` is the resolution of some entry with its name.
pub open spec fn has_source(bank: Map<Seq<char>, Property>, entries: Seq<(String, RawProperty)>, np: (PropertyName, Property)) -> bool {
    exists|j: int| 0 <= j < entries.len() && (#[trigger] entries[j]).0@ == np.0@
        && deref_result(bank, entries[j].0@, entries[j].1, Ok::<(PropertyName, Property), SchemaError>(np))
}

/// Some resolved property carries `name`.
pub open spec fn has_result_named(props: Seq<(PropertyName, Property)>, name: Seq<char>) -> bool {
    exists|i: int| 0 <= i < props.len() && (#[trigger] props[i]).0@ == name
}

/// `d` is `raw` resolved: same name, parent and exclusions; its properties
/// are the resolutions of the raw entries, sorted by name.
pub open spec fn derefs_to(bank: Map<Seq<char>, Property>, raw: RawSchema, d: DereferencedSchema) -> bool {
    &&& d.name == raw.name
    &&& d.extends == raw.extends
    &&& d.excludes == raw.excludes
    &&& d.properties@.len() == raw.properties@.len()
    &&& forall|a: int, b: int| 0 <= a < b < d.properties@.len() ==> !text_lt(#[trigger] d.properties@[b].0@, #[trigger] d.properties@[a].0@)
    &&& forall|i: int| 0 <= i < d.properties@.len() ==> #[trigger] has_source(bank, raw.properties@, d.properties@[i])
    &&& forall|j: int| 0 <= j < raw.properties@.len() ==> #[trigger] has_result_named(d.properties@, raw.properties@[j].0@)
}

/// Some entry of `ps` is an inline definition (one that needs a fresh
/// property identifier).
pub open spec fn has_inline(ps: Seq<(String, RawProperty)>) -> bool {
    exists|j: int| 0 <= j < ps.len() && (#[trigger] ps[j]).1 is Inline
}

/// Some schema of the batch has an inline entry.
pub open spec fn batch_has_inline(schemas: Seq<(SchemaId, RawSchema)>) -> bool {
    exists|i: int| 0 <= i < schemas.len() && has_inline((#[trigger] schemas[i]).1.properties@)
}

impl<'bank> Dereferencer<'bank> {
    /// The bank the dereferencer reads.
    pub closed spec fn spec_bank(self) -> PropertyBank {
        *self.bank
    }

    /// A dereferencer over `bank`.
    pub fn new(bank: &'bank PropertyBank) -> (r: Dereferencer<'bank>)
        ensures
            r.spec_bank() == *bank,
    {
        Dereferencer { bank }
    }

    /// The specification a reference resolves to: overrides must fit the
    /// base kind, the first conflicting kind (number, string, date, file)
    /// being reported; otherwise the same-kind overrides are applied, each
    /// given value replacing the base's.
    pub fn apply_spec_overrides(base: PropertySpec, ref_entry: &RawPropertyRef) -> (r: Result<PropertySpec, SchemaError>)
        ensures
            crate::expander::spec_result_ok(base, *ref_entry, false, r),
    {
        let (has_num, has_str, has_dt, has_fl) = override_kinds(ref_entry);
        match base {
            PropertySpec::Bool => {
                if has_num {
                    return Err(type_mismatch("bool", "number"));
                }
                if has_str {
                    return Err(type_mismatch("bool", "string"));
                }
                if has_dt {
                    return Err(type_mismatch("bool", "date"));
                }
                if has_fl {
                    return Err(type_mismatch("bool", "file"));
                }
                Ok(base)
            },
            PropertySpec::Number => {
                if has_str {
                    return Err(type_mismatch("number", "string"));
                }
                if has_dt {
                    return Err(type_mismatch("number", "date"));
                }
                if has_fl {
                    return Err(type_mismatch("number", "file"));
                }
                Ok(base)
            },
            PropertySpec::String(_) => {
                if has_num {
                    return Err(type_mismatch("string", "number"));
                }
                if has_dt {
                    return Err(type_mismatch("string", "date"));
                }
                if has_fl {
                    return Err(type_mismatch("string", "file"));
                }
                Ok(apply_same_kind_overrides(base, ref_entry, false))
            },
            PropertySpec::Date(_) => {
                if has_num {
                    return Err(type_mismatch("date", "number"));
                }
                if has_str {
                    return Err(type_mismatch("date", "string"));
                }
                if has_fl {
                    return Err(type_mismatch("date", "file"));
                }
                Ok(apply_same_kind_overrides(base, ref_entry, false))
            },
            PropertySpec::File(_) => {
                if has_num {
                    return Err(type_mismatch("file", "number"));
                }
                if has_str {
                    return Err(type_mismatch("file", "string"));
                }
                if has_dt {
                    return Err(type_mismatch("file", "date"));
                }
                Ok(apply_same_kind_overrides(base, ref_entry, false))
            },
        }
    }

    /// Resolves a `$ref` entry named `name`: the bank property it points to,
    /// with the overrides applied.
    pub fn apply_ref_overrides(bank: &PropertyBank, name: &str, ref_entry: &RawPropertyRef) -> (r: Result<(PropertyName, Property), SchemaError>)
        ensures
            deref_result(bank.spec_properties()@, name@, RawProperty::Ref(*ref_entry), r),
    {
        let target = match parse_bank_ref(ref_entry.ref_path.as_str()) {
            Ok(t) => t,
            Err(e) => {
                return Err(e);
            },
        };
        let base = match bank.get(&target) {
            Some(p) => p.clone(),
            None => {
                return Err(
                    SchemaError::PropertyRef(
                        PropertyRefError::TargetPropertyNotFoundInBank { reference: copy_text(ref_entry.ref_path.as_str()) },
                    ),
                );
            },
        };
        let optionality = match ref_entry.required {
            Some(req) => Optionality::from_required(req),
            None => base.optionality(),
        };
        let multiplicity = match ref_entry.multi {
            Some(m) => Multiplicity::from_multi(m),
            None => base.multiplicity(),
        };
        let spec = match Dereferencer::apply_spec_overrides(base.spec(), ref_entry) {
            Ok(s) => s,
            Err(e) => {
                return Err(e);
            },
        };
        let prop_name = match PropertyName::try_new(name) {
            Ok(n) => n,
            Err(e) => {
                return Err(e);
            },
        };
        Ok((prop_name, Property::new(base.id(), optionality, multiplicity, spec)))
    }

    /// Resolves one property entry named `name`. An inline definition gets a
    /// fresh identifier.
    pub fn deref_entry(&self, name: &str, entry: RawProperty) -> (r: Result<(PropertyName, Property), SchemaError>)
        ensures
            deref_result(self.spec_bank().spec_properties()@, name@, entry, r),
    {
        match entry {
            RawProperty::Inline(inline) => {
                let prop_name = match PropertyName::try_new(name) {
                    Ok(n) => n,
                    Err(e) => {
                        return Err(e);
                    },
                };
                let spec = match inline.spec {
                    RawPropertySpec::Bool => PropertySpec::Bool,
                    RawPropertySpec::Number => PropertySpec::Number,
                    RawPropertySpec::String => PropertySpec::string(),
                    RawPropertySpec::Date => PropertySpec::date(),
                    RawPropertySpec::File => PropertySpec::file(),
                };
                let optionality = Optionality::from_required(inline.required);
                let multiplicity = Multiplicity::from_multi(inline.multi);
                let id = match PropertyId::new() {
                    Ok(id) => id,
                    Err(e) => {
                        return Err(SchemaError::Identifier(e));
                    },
                };
                Ok((prop_name, Property::new(id, optionality, multiplicity, spec)))
            },
            RawProperty::Ref(ref_entry) => Dereferencer::apply_ref_overrides(self.bank, name, &ref_entry),
        }
    }
}

/// `sorted` holds the entries of `entries` reordered by `perm`, names never
/// decreasing.
pub open spec fn sorted_entries(
    entries: Seq<(String, RawProperty)>,
    sorted: Seq<(String, RawProperty)>,
    perm: Seq<int>,
    taken: int,
) -> bool {
    &&& sorted.len() == taken
    &&& perm.len() == taken
    &&& perm.no_duplicates()
    &&& forall|k: int| 0 <= k < taken ==> 0 <= #[trigger] perm[k] < taken && sorted[k] == entries[perm[k]]
    &&& forall|j: int| 0 <= j < taken ==> #[trigger] perm.contains(j)
    &&& forall|a: int, b: int| 0 <= a < b < taken ==> !text_lt(#[trigger] sorted[b].0@, #[trigger] sorted[a].0@)
}

/// The entries sorted by name (stable), with the permutation used.
fn sort_entries(entries: Vec<(String, RawProperty)>) -> (r: (Vec<(String, RawProperty)>, Ghost<Seq<int>>))
    ensures
        sorted_entries(entries@, r.0@, r.1@, entries@.len() as int),
{
    let ghost all = entries@;
    let mut rest = entries;
    let mut out: Vec<(String, RawProperty)> = Vec::new();
    let ghost mut perm: Seq<int> = Seq::empty();
    let mut t: usize = 0;
    let total: usize = rest.len();
    proof {
        assert(all.skip(0) =~= all);
    }
    while rest.len() > 0
        invariant
            t + rest@.len() == all.len(),
            all.len() == total,
            rest@ == all.skip(t as int),
            sorted_entries(all, out@, perm, t as int),
        decreases rest@.len(),
    {
        let e = rest.remove(0);
        proof {
            assert(e == all[t as int]);
        }
        let mut p: usize = 0;
        let mut stop = false;
        while p < out.len() && !stop
            invariant
                0 <= p <= out@.len(),
                e == all[t as int],
                forall|a: int| 0 <= a < p ==> !text_lt(e.0@, #[trigger] out@[a].0@),
                stop ==> p < out@.len() && text_lt(e.0@, out@[p as int].0@),
            decreases out@.len() - p, if stop { 0int } else { 1int },
        {
            if text_less(e.0.as_str(), out[p].0.as_str()) {
                stop = true;
            } else {
                p = p + 1;
            }
        }
        let ghost before = out@;
        let ghost pb = perm;
        out.insert(p, e);
        proof {
            perm = pb.insert(p as int, t as int);
            assert(out@ =~= before.insert(p as int, all[t as int]));
            assert(perm.no_duplicates()) by {
                assert forall|a: int, b: int| 0 <= a < b < perm.len() implies perm[a] != perm[b] by {
                    let oa = if a < p { a } else if a == p { -1 } else { a - 1 };
                    let ob = if b < p { b } else if b == p { -1 } else { b - 1 };
                    if oa >= 0 && ob >= 0 {
                        assert(pb[oa] != pb[ob]);
                    } else if oa < 0 {
                        assert(pb[ob] < t);
                    } else {
                        assert(pb[oa] < t);
                    }
                }
            }
            assert forall|k: int| 0 <= k < t + 1 implies 0 <= #[trigger] perm[k] < t + 1 && out@[k] == all[perm[k]] by {
                if k < p {
                    assert(perm[k] == pb[k]);
                } else if k > p {
                    assert(perm[k] == pb[k - 1]);
                }
            }
            assert forall|j: int| 0 <= j < t + 1 implies #[trigger] perm.contains(j) by {
                if j < t {
                    assert(pb.contains(j));
                    let k = choose|k: int| 0 <= k < pb.len() && #[trigger] pb[k] == j;
                    if k < p {
                        assert(perm[k] == j);
                    } else {
                        assert(perm[k + 1] == j);
                    }
                } else {
                    assert(perm[p as int] == j);
                }
            }
            assert forall|a: int, b: int| 0 <= a < b < t + 1 implies !text_lt(#[trigger] out@[b].0@, #[trigger] out@[a].0@) by {
                let xs = e.0@;
                if b < p {
                    assert(before[a] == out@[a] && before[b] == out@[b]);
                } else if a > p {
                    assert(before[a - 1] == out@[a] && before[b - 1] == out@[b]);
                } else if a == p {
                    let nb = before[b - 1].0@;
                    let np = before[p as int].0@;
                    assert(text_lt(xs, np));
                    if b - 1 > p {
                        assert(!text_lt(nb, np));
                        crate::text::lemma_text_lt_total(nb, np);
                        if nb != np {
                            crate::text::lemma_text_lt_transitive(xs, np, nb);
                        }
                    }
                    assert(text_lt(xs, nb));
                    crate::text::lemma_text_lt_asymmetric(xs, nb);
                } else if b == p {
                    assert(before[a] == out@[a]);
                } else {
                    assert(before[a] == out@[a] && before[b - 1] == out@[b]);
                }
            }
        }
        t = t + 1;
    }
    (out, Ghost(perm))
}

proof fn lemma_sorted_results(
    bank: Map<Seq<char>, Property>,
    entries: Seq<(String, RawProperty)>,
    sorted_all: Seq<(String, RawProperty)>,
    perm: Seq<int>,
    props: Seq<(PropertyName, Property)>,
)
    requires
        sorted_entries(entries, sorted_all, perm, entries.len() as int),
        props.len() == entries.len(),
        forall|i: int| 0 <= i < props.len() ==> (#[trigger] props[i]).0@ == sorted_all[i].0@ && deref_result(
            bank,
            sorted_all[i].0@,
            sorted_all[i].1,
            Ok::<(PropertyName, Property), SchemaError>(props[i]),
        ),
    ensures
        forall|a: int, b: int| 0 <= a < b < props.len() ==> !text_lt(#[trigger] props[b].0@, #[trigger] props[a].0@),
        forall|i: int| 0 <= i < props.len() ==> #[trigger] has_source(bank, entries, props[i]),
        forall|j: int| 0 <= j < entries.len() ==> #[trigger] has_result_named(props, entries[j].0@),
        forall|j: int| 0 <= j < entries.len() ==> deref_ok(bank, (#[trigger] entries[j]).0@, entries[j].1),
{
    let n = entries.len() as int;
    assert forall|i: int| 0 <= i < props.len() implies #[trigger] has_source(bank, entries, props[i]) by {
        if 0 <= i < props.len() {
            let j = perm[i];
            assert(sorted_all[i] == entries[j]);
            assert(0 <= j < entries.len() && entries[j].0@ == props[i].0@
                && deref_result(bank, entries[j].0@, entries[j].1, Ok::<(PropertyName, Property), SchemaError>(props[i])));
        }
    }
    assert forall|j: int| 0 <= j < entries.len() implies #[trigger] has_result_named(props, entries[j].0@) by {
        if 0 <= j < entries.len() {
            assert(perm.contains(j));
            let i = choose|i: int| 0 <= i < perm.len() && #[trigger] perm[i] == j;
            assert(sorted_all[i] == entries[j]);
            assert(props[i].0@ == entries[j].0@);
            assert(0 <= i < props.len());
        }
    }
    assert forall|a: int, b: int| 0 <= a < b < props.len() implies !text_lt(#[trigger] props[b].0@, #[trigger] props[a].0@) by {
        assert(!text_lt(sorted_all[b].0@, sorted_all[a].0@));
    }
    assert forall|j: int| 0 <= j < entries.len() implies deref_ok(bank, (#[trigger] entries[j]).0@, entries[j].1) by {
        assert(perm.contains(j));
        let i = choose|i: int| 0 <= i < perm.len() && #[trigger] perm[i] == j;
        assert(sorted_all[i] == entries[j]);
        assert(deref_result(bank, entries[j].0@, entries[j].1, Ok::<(PropertyName, Property), SchemaError>(props[i])));
    }
}

impl<'bank> Dereferencer<'bank> {
    /// Resolves the properties of one raw schema, sorted by name, stopping at
    /// the first failure (in name order).
    pub fn deref_one(&self, raw: RawSchema) -> (r: Result<DereferencedSchema, SchemaError>)
        ensures
            r is Ok ==> forall|j: int| 0 <= j < raw.properties@.len() ==> deref_ok(
                self.spec_bank().spec_properties()@,
                (#[trigger] raw.properties@[j]).0@,
                raw.properties@[j].1,
            ),
            (forall|j: int| 0 <= j < raw.properties@.len() ==> deref_ok(
                self.spec_bank().spec_properties()@,
                (#[trigger] raw.properties@[j]).0@,
                raw.properties@[j].1,
            )) ==> (r is Ok || r matches Err(SchemaError::Identifier(_))),
            r matches Ok(d) ==> derefs_to(self.spec_bank().spec_properties()@, raw, d),
            r matches Err(e) ==> exists|j: int| 0 <= j < raw.properties@.len() && #[trigger] deref_result(
                self.spec_bank().spec_properties()@,
                raw.properties@[j].0@,
                raw.properties@[j].1,
                Err::<(PropertyName, Property), SchemaError>(e),
            ),
    {
        let ghost bank = self.spec_bank().spec_properties()@;
        let ghost entries = raw.properties@;
        let RawSchema { name, extends, excludes, properties, .. } = raw;
        let (sorted, Ghost(perm)) = sort_entries(properties);
        let ghost sorted_all = sorted@;
        let n: usize = sorted.len();
        let mut rest = sorted;
        let mut out: Vec<(PropertyName, Property)> = Vec::new();
        let mut k: usize = 0;
        proof {
            assert(sorted_all.skip(0) =~= sorted_all);
        }
        while rest.len() > 0
            invariant
                k + rest@.len() == sorted_all.len(),
                sorted_all.len() == n,
                n == entries.len(),
                rest@ == sorted_all.skip(k as int),
                bank == self.spec_bank().spec_properties()@,
                entries == raw.properties@,
                sorted_entries(entries, sorted_all, perm, n as int),
                out@.len() == k,
                forall|i: int| 0 <= i < k ==> (#[trigger] out@[i]).0@ == sorted_all[i].0@ && deref_result(
                    bank,
                    sorted_all[i].0@,
                    sorted_all[i].1,
                    Ok::<(PropertyName, Property), SchemaError>(out@[i]),
                ),
            decreases rest@.len(),
        {
            let (pname, entry) = rest.remove(0);
            proof {
                assert((pname, entry) == sorted_all[k as int]);
            }
            match self.deref_entry(pname.as_str(), entry) {
                Ok(np) => {
                    out.push(np);
                },
                Err(e) => {
                    let r: Result<DereferencedSchema, SchemaError> = Err(e);
                    proof {
                        let j = perm[k as int];
                        assert(sorted_all[k as int] == entries[j]);
                        assert(deref_result(bank, entries[j].0@, entries[j].1, Err::<(PropertyName, Property), SchemaError>(r->Err_0)));
                        assert(r->Err_0 is Identifier || !deref_ok(bank, entries[j].0@, entries[j].1));
                    }
                    return r;
                },
            }
            k = k + 1;
        }
        proof {
            lemma_sorted_results(bank, entries, sorted_all, perm, out@);
        }
        let d = DereferencedSchema { name, extends, excludes, properties: out };
        proof {
            assert(derefs_to(bank, raw, d));
        }
        Ok(d)
    }

    /// Resolves a batch of raw schemas, in order, stopping at the first
    /// schema that fails.
    pub fn deref(&self, schemas: Vec<(SchemaId, RawSchema)>) -> (r: Result<Vec<(SchemaId, DereferencedSchema)>, SchemaError>)
        ensures
            r matches Ok(v) ==> v@.len() == schemas@.len() && forall|i: int| 0 <= i < v@.len() ==> (#[trigger] v@[i]).0
                == schemas@[i].0 && derefs_to(self.spec_bank().spec_properties()@, schemas@[i].1, v@[i].1),
            r is Ok ==> forall|i: int| 0 <= i < schemas@.len() ==> forall|j: int| 0 <= j < (#[trigger] schemas@[i]).1.properties@.len()
                ==> deref_ok(self.spec_bank().spec_properties()@, schemas@[i].1.properties@[j].0@, schemas@[i].1.properties@[j].1),
            (forall|i: int| 0 <= i < schemas@.len() ==> forall|j: int| 0 <= j < (#[trigger] schemas@[i]).1.properties@.len()
                ==> deref_ok(self.spec_bank().spec_properties()@, schemas@[i].1.properties@[j].0@, schemas@[i].1.properties@[j].1))
                ==> (r is Ok || r matches Err(SchemaError::Identifier(_))),
            r matches Err(e) ==> exists|i: int, j: int|
                0 <= i < schemas@.len() && 0 <= j < schemas@[i].1.properties@.len() && #[trigger] deref_result(
                    self.spec_bank().spec_properties()@,
                    schemas@[i].1.properties@[j].0@,
                    schemas@[i].1.properties@[j].1,
                    Err::<(PropertyName, Property), SchemaError>(e),
                ),
            r matches Err(SchemaError::Identifier(_)) ==> batch_has_inline(schemas@),
    {
        let ghost all = schemas@;
        let mut rest = schemas;
        let mut out: Vec<(SchemaId, DereferencedSchema)> = Vec::new();
        let mut i: usize = 0;
        let total: usize = rest.len();
        proof {
            assert(all.skip(0) =~= all);
        }
        while rest.len() > 0
            invariant
                i + rest@.len() == all.len(),
                all.len() == total,
                all == schemas@,
                rest@ == all.skip(i as int),
                out@.len() == i,
                forall|q: int| 0 <= q < i ==> (#[trigger] out@[q]).0 == all[q].0 && derefs_to(self.spec_bank().spec_properties()@, all[q].1, out@[q].1),
                forall|q: int| 0 <= q < i ==> forall|j: int| 0 <= j < (#[trigger] all[q]).1.properties@.len()
                    ==> deref_ok(self.spec_bank().spec_properties()@, all[q].1.properties@[j].0@, all[q].1.properties@[j].1),
            decreases rest@.len(),
        {
            let (id, raw) = rest.remove(0);
            proof {
                assert((id, raw) == all[i as int]);
            }
            match self.deref_one(raw) {
                Ok(d) => {
                    out.push((id, d));
                },
                Err(e) => {
                    let r: Result<Vec<(SchemaId, DereferencedSchema)>, SchemaError> = Err(e);
                    proof {
                        let raw_i = all[i as int].1;
                        let j = choose|j: int| 0 <= j < raw_i.properties@.len() && #[trigger] deref_result(
                            self.spec_bank().spec_properties()@,
                            raw_i.properties@[j].0@,
                            raw_i.properties@[j].1,
                            Err::<(PropertyName, Property), SchemaError>(e),
                        );
                        assert(e is Identifier || !deref_ok(self.spec_bank().spec_properties()@, raw_i.properties@[j].0@, raw_i.properties@[j].1));
                        assert(schemas@[i as int].1.properties@[j] == raw_i.properties@[j]);
                        if e is Identifier {
                            assert(raw_i.properties@[j].1 is Inline);
                            assert(has_inline(all[i as int].1.properties@));
                        }
                    }
                    return r;
                },
            }
            i = i + 1;
        }
        Ok(out)
    }
}


/// A dereferenced reference entry (`Dereferencer::deref_entry`) takes its
/// bank property's identifier and kind, and each override it gives: its
/// string pattern replaces the bank's pattern, which stays when it gives
/// none; likewise a date's format and a file's directory and class.
pub proof fn lemma_deref_ref_overrides(
    bank: Map<Seq<char>, Property>,
    name: Seq<char>,
    r: RawPropertyRef,
    np: (PropertyName, Property),
)
    requires
        deref_result(bank, name, RawProperty::Ref(r), Ok::<(PropertyName, Property), SchemaError>(np)),
    ensures
        np.0@ == name,
        ref_target(r.ref_path@) is Some && bank.contains_key(ref_target(r.ref_path@)->0),
        np.1.spec_id() == crate::expander::ref_base(bank, r).spec_id(),
        crate::expander::ref_base(bank, r).spec_spec() is String ==> np.1.spec_spec() is String
            && np.1.spec_spec()->String_0.pattern == crate::expander::given_or_base(
            r.string.pattern,
            crate::expander::ref_base(bank, r).spec_spec()->String_0.pattern,
        ),
        crate::expander::ref_base(bank, r).spec_spec() is Date ==> np.1.spec_spec() is Date
            && np.1.spec_spec()->Date_0.format == crate::expander::given_or_base(
            r.date.format,
            crate::expander::ref_base(bank, r).spec_spec()->Date_0.format,
        ),
        crate::expander::ref_base(bank, r).spec_spec() is File ==> np.1.spec_spec() is File
            && np.1.spec_spec()->File_0.directory == crate::expander::given_or_base(
            r.file.directory,
            crate::expander::ref_base(bank, r).spec_spec()->File_0.directory,
        ),
{
    crate::expander::lemma_same_kind_overrides(crate::expander::ref_base(bank, r).spec_spec(), r, false, np.1.spec_spec());
}

} // verus!
