use lithos_core::bank::PropertyBank;
use lithos_core::dereferencer::Dereferencer;
use lithos_core::identifier::{PropertyId, PropertyName, SchemaId};
use lithos_core::property::{Multiplicity, Optionality, Property, PropertySpec};
use lithos_core::raw::{
    RawDateSpec, RawFileSpec, RawNumberSpec, RawProperty, RawPropertyInline, RawPropertyRef,
    RawPropertySpec, RawSchema, RawSchemaMetadata, RawSchemaVersion, RawStringSpec,
};

fn inline_bool_entry() -> RawProperty {
    RawProperty::Inline(RawPropertyInline { required: true, multi: false, spec: RawPropertySpec::Bool })
}

fn ref_entry(path: &str, number: RawNumberSpec) -> RawProperty {
    RawProperty::Ref(RawPropertyRef {
        ref_path: path.into(),
        required: None,
        multi: None,
        number,
        string: RawStringSpec { options: None, pattern: None },
        date: RawDateSpec { format: None },
        file: RawFileSpec { directory: None, file_class: None },
    })
}

fn no_numbers() -> RawNumberSpec {
    RawNumberSpec { has_min: false, has_max: false, has_step: false }
}

fn bank_with_status() -> PropertyBank {
    let mut bank = PropertyBank::new();
    bank.insert(
        PropertyName::try_new("status").unwrap(),
        Property::new(PropertyId::from_u128(9), Optionality::Required, Multiplicity::Single, PropertySpec::Bool),
    );
    bank
}

#[test]
fn inline_bool_resolves_correctly() {
    let bank = PropertyBank::new();
    let deref = Dereferencer::new(&bank);
    let (name, prop) = deref.deref_entry("flag", inline_bool_entry()).unwrap();
    assert_eq!(name.as_str(), "flag");
    assert_eq!(prop.optionality(), Optionality::Required);
    assert_eq!(prop.multiplicity(), Multiplicity::Single);
}

#[test]
fn ref_resolves_from_bank_with_overrides_and_errors() {
    let bank = bank_with_status();
    let deref = Dereferencer::new(&bank);
    let (_, prop) = deref.deref_entry("status", ref_entry("property_bank#/status", no_numbers())).unwrap();
    assert_eq!(prop.id(), PropertyId::from_u128(9));
    let mismatch = deref.deref_entry(
        "status",
        ref_entry("property_bank#/status", RawNumberSpec { has_min: true, has_max: false, has_step: false }),
    );
    assert!(mismatch.is_err());
    assert!(deref.deref_entry("missing", ref_entry("property_bank#/missing", no_numbers())).is_err());
    assert!(deref.deref_entry("status", ref_entry("#property_bank/status", no_numbers())).is_ok());
    assert!(deref.deref_entry("status", ref_entry("bank/status", no_numbers())).is_err());
}

#[test]
fn empty_batch_returns_empty() {
    let bank = PropertyBank::new();
    let deref = Dereferencer::new(&bank);
    let result = deref.deref(vec![]).unwrap();
    assert!(result.is_empty());
}

#[test]
fn properties_sorted_by_name() {
    let bank = PropertyBank::new();
    let deref = Dereferencer::new(&bank);
    let props = vec![("z".to_string(), inline_bool_entry()), ("a".to_string(), inline_bool_entry())];
    let raw = RawSchema { version: RawSchemaVersion::default(), name: "test".into(), extends: None, excludes: Vec::new(), properties: props, metadata: RawSchemaMetadata::default() };
    let id = SchemaId::new().unwrap();
    let result = deref.deref(vec![(id, raw)]).unwrap();
    let derefed = &result[0].1;
    assert_eq!(derefed.properties[0].0.as_str(), "a");
    assert_eq!(derefed.properties[1].0.as_str(), "z");
}

#[test]
fn extends_and_excludes_carried_forward() {
    let bank = PropertyBank::new();
    let deref = Dereferencer::new(&bank);
    let raw = RawSchema {
        version: RawSchemaVersion::default(),
        metadata: RawSchemaMetadata::default(),
        name: "child".into(),
        extends: Some("parent".into()),
        excludes: vec!["old-prop".into()],
        properties: Vec::new(),
    };
    let id = SchemaId::new().unwrap();
    let result = deref.deref(vec![(id, raw)]).unwrap();
    let derefed = &result[0].1;
    assert_eq!(derefed.extends.as_deref(), Some("parent"));
    assert_eq!(derefed.excludes.len(), 1);
    assert_eq!(derefed.excludes[0].as_str(), "old-prop");
}

#[test]
fn ref_resolves_from_bank() {
    let bank = bank_with_status();
    let deref = Dereferencer::new(&bank);
    let (name, _prop) = deref.deref_entry("status", ref_entry("property_bank#/status", no_numbers())).unwrap();
    assert_eq!(name.as_str(), "status");
}

#[test]
fn ref_overrides_cardinality_and_multiplicity() {
    let bank = bank_with_status();
    let deref = Dereferencer::new(&bank);
    let entry = RawProperty::Ref(RawPropertyRef {
        ref_path: "property_bank#/status".into(),
        required: Some(false),
        multi: Some(true),
        number: no_numbers(),
        string: RawStringSpec { options: None, pattern: None },
        date: RawDateSpec { format: None },
        file: RawFileSpec { directory: None, file_class: None },
    });
    let (_, prop) = deref.deref_entry("status", entry).unwrap();
    assert_eq!(prop.optionality(), Optionality::Optional);
    assert_eq!(prop.multiplicity(), Multiplicity::Many);
}

#[test]
fn ref_type_mismatch_returns_error() {
    let bank = bank_with_status();
    let deref = Dereferencer::new(&bank);
    let entry = ref_entry("property_bank#/status", RawNumberSpec { has_min: true, has_max: false, has_step: false });
    let result = deref.deref_entry("status", entry);
    assert!(
        matches!(
            result,
            Err(lithos_core::error::SchemaError::PropertyRef(lithos_core::error::PropertyRefError::TypeMismatch { .. }))
        ),
        "Expected a type mismatch, got: {result:?}"
    );
}

#[test]
fn ref_missing_in_bank_returns_error() {
    let bank = PropertyBank::new();
    let deref = Dereferencer::new(&bank);
    let result = deref.deref_entry("missing", ref_entry("property_bank#/missing", no_numbers()));
    assert!(
        matches!(
            result,
            Err(lithos_core::error::SchemaError::PropertyRef(
                lithos_core::error::PropertyRefError::TargetPropertyNotFoundInBank { .. }
            ))
        ),
        "Expected a missing target, got: {result:?}"
    );
}
