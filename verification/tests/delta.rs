use lithos_core::delta::{
    changed_names, EncodedEntry, ExcludesDelta, PropertyBankDelta, PropertyDeltaEngine, SchemaPropertyDelta,
    SchemaPropertyUpserts,
};
use lithos_core::hash::Blake3Hash;
use lithos_core::property::NameMap;
use lithos_core::raw::RawProperty;
use lithos_core::identifier::{PropertyId, PropertyName};
use lithos_core::property::{Multiplicity, Optionality, Property, PropertyMap, PropertySpec};
use lithos_core::raw::{RawPropertyInline, RawPropertySpec};

fn name(s: &str) -> PropertyName {
    PropertyName::try_new(s).expect("valid test property name")
}

#[test]
fn should_compute_diff_correctly_when_slices_overlap() {
    let old = vec![name("a"), name("b")];
    let new = vec![name("b"), name("c")];
    let delta = ExcludesDelta::from_slices(&old, &new);
    assert_eq!(delta.added().len(), 1, "Expected 1 added property, found {:?}", delta.added());
    assert_eq!(delta.removals().len(), 1, "Expected 1 removed property, found {:?}", delta.removals());
    assert_eq!(delta.added().first().expect("added should have 1 element").as_str(), "c");
    assert_eq!(delta.removals().first().expect("removals should have 1 element").as_str(), "a");
}

#[test]
fn should_report_is_empty_when_no_changes_exist() {
    let names = vec![name("a")];
    let delta = ExcludesDelta::from_slices(&names, &names);
    assert!(delta.is_empty(), "Delta should be empty when slices match");
}

#[test]
fn should_iterate_all_changed_names() {
    let old = vec![name("removed")];
    let new = vec![name("added")];
    let delta = ExcludesDelta::from_slices(&old, &new);
    let changed = delta.iter_changed();
    assert!(changed.contains(&name("removed")), "Iterator missing removal");
    assert!(changed.contains(&name("added")), "Iterator missing addition");
}

#[test]
fn should_convert_to_set_correctly() {
    let old = vec![name("a")];
    let new = vec![name("b")];
    let delta = ExcludesDelta::from_slices(&old, &new);
    let set = delta.to_changed_name_set();
    assert_eq!(set.len(), 2, "Set should contain both added and removed");
}

#[test]
fn should_detect_presence_of_inline_and_refs() {
    let mut upserts = SchemaPropertyUpserts::default();
    let n = name("prop");
    upserts.insert_inline(n.clone(), RawPropertyInline { required: false, multi: false, spec: RawPropertySpec::String });
    assert!(upserts.contains_inline(&n));
    assert!(!upserts.contains_ref(&n));
    assert!(!upserts.is_empty());
}

#[test]
fn should_provide_access_to_underlying_maps() {
    let upserts = SchemaPropertyUpserts::default();
    assert!(upserts.inline().is_empty());
    assert!(upserts.refs().is_empty());
}

#[test]
fn should_normalize_removals_when_unsorted_or_duplicate() {
    let upserts = SchemaPropertyUpserts::default();
    let removals = vec![name("b"), name("a"), name("b")];
    let delta = SchemaPropertyDelta::new(upserts, removals);
    let normalized = delta.removals();
    assert_eq!(normalized.len(), 2, "Expected deduplicated removals, found {normalized:?}");
    assert_eq!(normalized.first().expect("normalized should have 2 elements").as_str(), "a");
    assert_eq!(normalized.get(1).expect("normalized should have 2 elements").as_str(), "b");
}

#[test]
fn should_detect_upsert_regardless_of_type() {
    let mut upserts = SchemaPropertyUpserts::default();
    let n = name("prop");
    upserts.insert_inline(n.clone(), RawPropertyInline { required: false, multi: false, spec: RawPropertySpec::String });
    let delta = SchemaPropertyDelta::new(upserts, Vec::new());
    assert!(delta.contains_upsert(&n));
}

#[test]
fn should_support_borrowed_and_owned_set_conversion() {
    let mut map = PropertyMap::new();
    map.insert(
        name("a"),
        Property::new(PropertyId::new().unwrap(), Optionality::Optional, Multiplicity::Single, PropertySpec::string()),
    );
    let removals = vec![name("b")];
    let delta = PropertyBankDelta::new(map, removals);
    assert!(delta.to_changed_name_set().contains(&name("a")));
    assert!(delta.to_changed_name_set().contains(&name("b")));
    let into_set = delta.into_changed_name_set();
    assert!(into_set.contains(&name("a")));
    assert!(into_set.contains(&name("b")));
}

fn string_entry() -> EncodedEntry<RawProperty> {
    EncodedEntry {
        value: RawProperty::Inline(RawPropertyInline { required: false, multi: false, spec: RawPropertySpec::String }),
        encoding: br#"{"type":"string"}"#.to_vec(),
    }
}

#[test]
fn should_detect_changed_entries_via_hash_mismatch() {
    let mut map = NameMap::new();
    map.insert(name("prop"), string_entry());

    // Previous hash for same name but different content (bool type)
    let old_hash = Blake3Hash::compute(br#"{"type":"bool"}"#);
    let mut previous_hashes = NameMap::new();
    previous_hashes.insert(name("prop"), old_hash);

    let engine = PropertyDeltaEngine::for_map(map, &previous_hashes);
    let change_set = engine.compute_change_set();

    assert!(change_set.upserts.has(&name("prop")), "Changed property should be in upserts");
    assert!(change_set.removals.is_empty(), "No properties were removed");
}

#[test]
fn should_identify_removals_when_keys_disappear() {
    let map: NameMap<EncodedEntry<RawProperty>> = NameMap::new();

    let mut previous_hashes = NameMap::new();
    previous_hashes.insert(name("old"), Blake3Hash::zero());

    let engine = PropertyDeltaEngine::for_map(map, &previous_hashes);
    let change_set = engine.compute_change_set();

    assert_eq!(change_set.removals.len(), 1);
    assert_eq!(change_set.removals.first().expect("removals should have 1 element").as_str(), "old");
}

#[test]
fn should_ignore_entries_with_matching_hashes() {
    let entry = string_entry();
    let hash = Blake3Hash::compute(&entry.encoding);

    let mut map = NameMap::new();
    map.insert(name("stable"), entry);

    let mut previous_hashes = NameMap::new();
    previous_hashes.insert(name("stable"), hash);

    let engine = PropertyDeltaEngine::for_map(map, &previous_hashes);
    let change_set = engine.compute_change_set();

    assert!(change_set.upserts.is_empty(), "Unchanged property should not be in upserts");
}

#[test]
fn change_set_records_current_hashes_and_sorted_removals() {
    let mut map = NameMap::new();
    map.insert(name("b"), string_entry());
    let mut previous_hashes = NameMap::new();
    previous_hashes.insert(name("z"), Blake3Hash::zero());
    previous_hashes.insert(name("c"), Blake3Hash::zero());
    let change_set = PropertyDeltaEngine::for_map(map, &previous_hashes).compute_change_set();
    let (upserts, removals, current) = change_set.into_parts();
    assert!(upserts.has(&name("b")));
    let removed: Vec<&str> = removals.iter().map(|n| n.as_str()).collect();
    assert_eq!(removed, vec!["c", "z"]);
    assert_eq!(current.get(&name("b")), Some(&Blake3Hash::compute(br#"{"type":"string"}"#)));
}

#[test]
fn diff_schema_splits_inline_and_ref_upserts() {
    let mut map = NameMap::new();
    map.insert(name("inline"), string_entry());
    let previous_hashes = NameMap::new();
    let delta = PropertyDeltaEngine::for_map(map, &previous_hashes).diff_schema();
    assert!(delta.contains_upsert(&name("inline")));
    assert!(delta.upserts().contains_inline(&name("inline")));
    assert!(delta.removals().is_empty());
}

#[test]
fn changed_names_between_hash_snapshots() {
    let mut old = NameMap::new();
    old.insert(name("keep"), Blake3Hash::compute(b"1"));
    old.insert(name("edit"), Blake3Hash::compute(b"2"));
    old.insert(name("gone"), Blake3Hash::compute(b"3"));
    let mut new = NameMap::new();
    new.insert(name("keep"), Blake3Hash::compute(b"1"));
    new.insert(name("edit"), Blake3Hash::compute(b"22"));
    new.insert(name("fresh"), Blake3Hash::compute(b"4"));
    let changed: Vec<String> = changed_names(&old, &new).iter().map(|n| n.as_str().to_string()).collect();
    assert_eq!(changed, vec!["edit", "fresh", "gone"]);
}

#[test]
fn changed_name_set_counts_added_and_removed_names() {
    let d = ExcludesDelta::from_slices(&vec![name("a")], &vec![name("b")]);
    let set = d.to_changed_name_set();
    assert_eq!(set.len(), 2);
    assert_eq!(set, vec![name("a"), name("b")]);
}

#[test]
fn borrowed_and_owned_change_sets_agree() {
    let mut upserts = PropertyMap::new();
    upserts.insert(
        name("b"),
        Property::new(PropertyId::from_u128(1), Optionality::Optional, Multiplicity::Single, PropertySpec::Bool),
    );
    let d = PropertyBankDelta::new(upserts, vec![name("a")]);
    let borrowed = d.to_changed_name_set();
    assert_eq!(borrowed, vec![name("a"), name("b")]);
    assert_eq!(d.into_changed_name_set(), borrowed);
}
