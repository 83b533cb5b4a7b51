use lithos_core::base_processor::{analyze_changed, Analysis, CachedVersion};
use lithos_core::hash::Blake3Hash;
use lithos_core::property::NameMap;
use lithos_core::bank::PropertyBank;
use lithos_core::base::BaseSchema;
use lithos_core::base_processor::{
    analysis_step, apply_property_delta, content_step, entry_step, merge_bank_upserts,
    relevant_bank_refs, timestamp_step, with_ids, ProcessStep,
};
use lithos_core::delta::PropertyBankDelta;
use lithos_core::identifier::{PropertyId, PropertyName, SchemaId, SchemaName};
use lithos_core::property::{Multiplicity, Optionality, Property, PropertyMap, PropertySpec};
use lithos_core::raw::{RawDateSpec, RawFileSpec, RawNumberSpec, RawPropertyRef, RawStringSpec};

fn name(s: &str) -> PropertyName {
    PropertyName::try_new(s).unwrap()
}

fn prop(id: u128, spec: PropertySpec) -> Property {
    Property::new(PropertyId::from_u128(id), Optionality::Optional, Multiplicity::Single, spec)
}

fn map(entries: &[(&str, Property)]) -> PropertyMap {
    let mut m = PropertyMap::new();
    for (n, p) in entries {
        m.insert(name(n), p.clone());
    }
    m
}

fn reference(path: &str, required: Option<bool>) -> RawPropertyRef {
    RawPropertyRef {
        ref_path: path.into(),
        required,
        multi: None,
        number: RawNumberSpec { has_min: false, has_max: false, has_step: false },
        string: RawStringSpec { options: None, pattern: None },
        date: RawDateSpec { format: None },
        file: RawFileSpec { directory: None, file_class: None },
    }
}

#[test]
fn stage_decisions_follow_the_pipeline() {
    assert_eq!(entry_step(false), ProcessStep::CreateNew);
    assert_eq!(entry_step(true), ProcessStep::CheckTimestamps);
    assert_eq!(timestamp_step(true, 0), ProcessStep::FetchCached);
    assert_eq!(timestamp_step(true, 2), ProcessStep::Analyze { references_only: true });
    assert_eq!(timestamp_step(false, 2), ProcessStep::ReadContent);
    assert_eq!(content_step(true, 0), ProcessStep::SyncTimestamps);
    assert_eq!(content_step(true, 1), ProcessStep::Analyze { references_only: true });
    assert_eq!(content_step(false, 0), ProcessStep::Analyze { references_only: false });
    assert_eq!(analysis_step(false, false, false, true), ProcessStep::Rebuild);
    assert_eq!(analysis_step(true, true, true, false), ProcessStep::Rebuild);
    assert_eq!(analysis_step(true, false, false, true), ProcessStep::SyncMetadata);
    assert_eq!(analysis_step(true, true, false, true), ProcessStep::Update);
    assert_eq!(analysis_step(true, false, false, false), ProcessStep::Update);
}

#[test]
fn relevant_refs_are_referenced_and_changed() {
    let delta = PropertyBankDelta::new(map(&[("status", prop(1, PropertySpec::Bool))]), vec![name("old")]);
    let refs = vec![name("title"), name("status"), name("old")];
    let r = relevant_bank_refs(Some(&refs), Some(&delta));
    let got: Vec<&str> = r.iter().map(|n| n.as_str()).collect();
    assert_eq!(got, vec!["old", "status"]);
    assert!(relevant_bank_refs(None, Some(&delta)).is_empty());
    assert!(relevant_bank_refs(Some(&refs), None).is_empty());
    let empty = PropertyBankDelta::new(PropertyMap::new(), vec![]);
    assert!(relevant_bank_refs(Some(&refs), Some(&empty)).is_empty());
}

#[test]
fn upserts_keep_existing_ids() {
    let existing = map(&[("title", prop(1, PropertySpec::string()))]);
    let upserts = map(&[("title", prop(9, PropertySpec::date())), ("due", prop(5, PropertySpec::date()))]);
    let r = with_ids(&upserts, &existing);
    let title = r.get(&name("title")).unwrap();
    assert_eq!(title.id(), PropertyId::from_u128(1));
    assert_eq!(title.spec(), PropertySpec::date());
    assert_eq!(r.get(&name("due")).unwrap().id(), PropertyId::from_u128(5));
    assert_eq!(r.len(), 2);
}

#[test]
fn property_delta_applies_upserts_then_removals() {
    let existing = map(&[("title", prop(1, PropertySpec::string())), ("gone", prop(2, PropertySpec::Bool))]);
    let upserts = map(&[("title", prop(1, PropertySpec::date())), ("due", prop(3, PropertySpec::date()))]);
    let r = apply_property_delta(&existing, &upserts, &[name("gone"), name("never")]);
    assert_eq!(r.len(), 2);
    assert_eq!(r.get(&name("title")).unwrap().spec(), PropertySpec::date());
    assert!(r.has(&name("due")));
    assert!(!r.has(&name("gone")));
}

#[test]
fn bank_upserts_reexpand_changed_references() {
    let mut bank = PropertyBank::new();
    bank.insert(name("status"), prop(7, PropertySpec::Bool));
    let entries = vec![
        (name("status"), reference("property_bank#/status", Some(true))),
        (name("missing"), reference("property_bank#/missing", None)),
    ];
    let merged = merge_bank_upserts(&bank, &entries, &vec![name("status"), name("other")], PropertyMap::new())
        .unwrap();
    let status = merged.get(&name("status")).unwrap();
    assert_eq!(status.id(), PropertyId::from_u128(7));
    assert_eq!(status.optionality(), Optionality::Required);
    assert_eq!(merged.len(), 1);

    let escalated = merge_bank_upserts(&bank, &entries, &vec![name("missing")], PropertyMap::new());
    assert_eq!(escalated.unwrap_err().as_str(), "missing");
}

#[test]
fn base_schema_keeps_its_parts() {
    let b = BaseSchema::new(
        SchemaId::from_u128(4),
        SchemaName::try_new("task").unwrap(),
        map(&[("title", prop(1, PropertySpec::string()))]),
        vec!["base".into()],
        vec!["old".into()],
    );
    assert_eq!(b.id(), SchemaId::from_u128(4));
    assert_eq!(b.name().as_str(), "task");
    assert_eq!(b.properties().len(), 1);
    assert_eq!(b.extends(), &["base".to_string()]);
    assert_eq!(b.excludes(), &["old".to_string()]);
}

fn raw_schema(schema_name: &str, extends: Option<&str>) -> lithos_core::raw::RawSchema {
    lithos_core::raw::RawSchema {
        version: lithos_core::raw::RawSchemaVersion::default(),
        name: schema_name.into(),
        extends: extends.map(Into::into),
        excludes: vec!["draft".to_string()],
        properties: Vec::new(),
        metadata: lithos_core::raw::RawSchemaMetadata::default(),
    }
}

#[test]
fn updated_base_keeps_stored_ids_and_drops_removals() {
    let existing = BaseSchema::new(
        SchemaId::from_u128(5),
        SchemaName::try_new("note").unwrap(),
        map(&[("title", prop(1, PropertySpec::Bool)), ("old", prop(2, PropertySpec::Bool))]),
        vec![],
        vec![],
    );
    let upserts = map(&[("title", prop(77, PropertySpec::string())), ("body", prop(78, PropertySpec::Bool))]);
    let (base, carried) = lithos_core::base_processor::updated_base(
        SchemaId::from_u128(5),
        raw_schema("note", Some("base")),
        &existing,
        &upserts,
        &[name("old")],
    )
    .unwrap();
    assert_eq!(carried.get(&name("title")).unwrap().id(), PropertyId::from_u128(1));
    assert_eq!(carried.get(&name("body")).unwrap().id(), PropertyId::from_u128(78));
    assert_eq!(base.id(), SchemaId::from_u128(5));
    assert_eq!(base.name().as_str(), "note");
    assert_eq!(base.properties().len(), 2);
    assert_eq!(base.properties().get(&name("title")).unwrap().id(), PropertyId::from_u128(1));
    assert!(!base.properties().has(&name("old")));
    assert_eq!(base.extends(), &["base".to_string()]);
    assert_eq!(base.excludes(), &["draft".to_string()]);
    let refused = lithos_core::base_processor::updated_base(
        SchemaId::from_u128(5),
        raw_schema("Bad Name", None),
        &existing,
        &upserts,
        &[],
    );
    assert!(refused.is_err());
}

#[test]
fn fallback_base_is_empty_and_named_unknown_when_name_is_invalid() {
    let kept = lithos_core::base_processor::fallback_base(SchemaId::from_u128(3), "note");
    assert_eq!(kept.name().as_str(), "note");
    assert_eq!(kept.properties().len(), 0);
    let unknown = lithos_core::base_processor::fallback_base(SchemaId::from_u128(3), "Not Valid");
    assert_eq!(unknown.name().as_str(), "unknown");
    assert_eq!(unknown.id(), SchemaId::from_u128(3));
    assert!(unknown.extends().is_empty() && unknown.excludes().is_empty());
}

#[test]
fn created_base_expands_references_and_makes_inline_properties() {
    let mut bank = PropertyBank::new();
    bank.insert(name("status"), prop(40, PropertySpec::Bool));
    let mut raw = raw_schema("note", None);
    raw.properties = vec![
        ("status".to_string(), lithos_core::raw::RawProperty::Ref(reference("property_bank#/status", Some(true)))),
        (
            "flag".to_string(),
            lithos_core::raw::RawProperty::Inline(lithos_core::raw::RawPropertyInline {
                required: false,
                multi: true,
                spec: lithos_core::raw::RawPropertySpec::Bool,
            }),
        ),
    ];
    let base = lithos_core::base_processor::created_base(SchemaId::from_u128(6), raw, &bank).unwrap();
    assert_eq!(base.id(), SchemaId::from_u128(6));
    assert_eq!(base.name().as_str(), "note");
    assert_eq!(base.properties().len(), 2);
    let status = base.properties().get(&name("status")).unwrap();
    assert_eq!(status.id(), PropertyId::from_u128(40));
    assert_eq!(status.optionality(), Optionality::Required);
    let flag = base.properties().get(&name("flag")).unwrap();
    assert_eq!(flag.optionality(), Optionality::Optional);
    assert_eq!(flag.multiplicity(), Multiplicity::Many);
    assert_eq!(base.excludes(), &["draft".to_string()]);
}

#[test]
fn created_base_refuses_an_unknown_reference() {
    let mut raw = raw_schema("note", None);
    raw.properties =
        vec![("status".to_string(), lithos_core::raw::RawProperty::Ref(reference("property_bank#/status", None)))];
    let r = lithos_core::base_processor::created_base(SchemaId::from_u128(6), raw, &PropertyBank::new());
    assert!(matches!(r, Err(lithos_core::error::SchemaLoaderError::Resolution(_))));
}

#[test]
fn escalated_schema_with_a_reference_falls_back_to_an_empty_schema() {
    let mut raw = raw_schema("note", None);
    raw.properties =
        vec![("status".to_string(), lithos_core::raw::RawProperty::Ref(reference("property_bank#/status", None)))];
    let base = lithos_core::base_processor::escalated_base(raw).unwrap();
    assert_eq!(base.name().as_str(), "note");
    assert_eq!(base.properties().len(), 0);
    assert!(base.excludes().is_empty());
    let inline_only = raw_schema("memo", None);
    let kept = lithos_core::base_processor::escalated_base(inline_only).unwrap();
    assert_eq!(kept.name().as_str(), "memo");
    assert_eq!(kept.excludes(), &["draft".to_string()]);
}

#[test]
fn created_base_reports_the_first_failing_reference_then_names() {
    let mut raw = raw_schema("note", None);
    raw.properties = vec![
        ("Bad Ref".to_string(), lithos_core::raw::RawProperty::Ref(reference("property_bank#/status", None))),
        (
            "Bad Inline".to_string(),
            lithos_core::raw::RawProperty::Inline(lithos_core::raw::RawPropertyInline {
                required: false,
                multi: false,
                spec: lithos_core::raw::RawPropertySpec::Bool,
            }),
        ),
    ];
    let r = lithos_core::base_processor::created_base(SchemaId::from_u128(6), raw, &PropertyBank::new());
    assert!(matches!(
        r,
        Err(lithos_core::error::SchemaLoaderError::Resolution(lithos_core::error::SchemaError::PropertyName(_)))
    ));
    let mut bad_schema = raw_schema("Bad Schema", None);
    bad_schema.properties = vec![];
    let r = lithos_core::base_processor::created_base(SchemaId::from_u128(6), bad_schema, &PropertyBank::new());
    assert!(matches!(
        r,
        Err(lithos_core::error::SchemaLoaderError::Resolution(lithos_core::error::SchemaError::SchemaName(_)))
    ));
}

#[test]
fn rebuilt_base_keeps_the_identifier() {
    let kept = lithos_core::base_processor::rebuilt_base(SchemaId::from_u128(12), raw_schema("memo", None));
    assert_eq!(kept.id(), SchemaId::from_u128(12));
    assert_eq!(kept.name().as_str(), "memo");
    let mut raw = raw_schema("memo", None);
    raw.properties =
        vec![("status".to_string(), lithos_core::raw::RawProperty::Ref(reference("property_bank#/status", None)))];
    let fallback = lithos_core::base_processor::rebuilt_base(SchemaId::from_u128(12), raw);
    assert_eq!(fallback.id(), SchemaId::from_u128(12));
    assert_eq!(fallback.properties().len(), 0);
}

fn encoded_entry(prop: lithos_core::raw::RawProperty, bytes: &[u8]) -> lithos_core::delta::EncodedEntry<lithos_core::raw::RawProperty> {
    lithos_core::delta::EncodedEntry { value: prop, encoding: bytes.to_vec() }
}

fn bool_inline() -> lithos_core::raw::RawProperty {
    lithos_core::raw::RawProperty::Inline(lithos_core::raw::RawPropertyInline {
        required: true,
        multi: false,
        spec: lithos_core::raw::RawPropertySpec::Bool,
    })
}

#[test]
fn analyze_changed_reports_corrupt_unchanged_and_changed() {
    let mut encoded = NameMap::new();
    encoded.insert(name("title"), encoded_entry(bool_inline(), b"title-v1"));
    assert!(matches!(analyze_changed(None, encoded, &vec![], &None), Analysis::Corrupt));

    let mut hashes = NameMap::new();
    hashes.insert(name("title"), Blake3Hash::compute(b"title-v1"));
    let version = CachedVersion { property_hashes: hashes, excludes: vec![name("draft")], extends: vec!["base".to_string()] };
    let mut same = NameMap::new();
    same.insert(name("title"), encoded_entry(bool_inline(), b"title-v1"));
    let unchanged = analyze_changed(Some(&version), same, &vec![name("draft")], &Some("base".to_string()));
    assert!(matches!(unchanged, Analysis::Unchanged));

    let mut changed = NameMap::new();
    changed.insert(name("title"), encoded_entry(bool_inline(), b"title-v2"));
    match analyze_changed(Some(&version), changed, &vec![], &None) {
        Analysis::Changed { property_delta, excludes_delta, extends_changed } => {
            assert!(property_delta.contains_upsert(&name("title")));
            assert_eq!(excludes_delta.removals(), &[name("draft")]);
            assert!(extends_changed);
        },
        other => panic!("unexpected analysis {other:?}"),
    }
}

#[test]
fn expanded_upserts_expand_references_and_make_inline_properties() {
    let mut bank = PropertyBank::new();
    bank.insert(name("status"), prop(40, PropertySpec::Bool));
    let mut upserts = lithos_core::delta::SchemaPropertyUpserts::new();
    upserts.insert_ref(name("status"), reference("property_bank#/status", Some(true)));
    upserts.insert_inline(
        name("flag"),
        lithos_core::raw::RawPropertyInline { required: false, multi: false, spec: lithos_core::raw::RawPropertySpec::Bool },
    );
    let m = lithos_core::base_processor::expanded_upserts(&bank, &upserts).unwrap();
    assert_eq!(m.len(), 2);
    assert_eq!(m.get(&name("status")).unwrap().id(), PropertyId::from_u128(40));
    assert_eq!(m.get(&name("flag")).unwrap().optionality(), Optionality::Optional);
    let mut missing = lithos_core::delta::SchemaPropertyUpserts::new();
    missing.insert_ref(name("gone"), reference("property_bank#/gone", None));
    assert!(lithos_core::base_processor::expanded_upserts(&bank, &missing).is_err());
}
