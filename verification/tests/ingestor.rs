use lithos_core::bank::PropertyBank;
use lithos_core::hash::Blake3Hash;
use lithos_core::identifier::{PropertyName, SchemaId};
use lithos_core::ingestor::{
    changed_bank_properties, check_timestamps, select_schema_files, content_unchanged, CacheCheck, CachedFile,
    IngestResult, PropertyBankResult, SchemaIngestResult,
};
use lithos_core::property::{NameMap, PropertyMap};
use lithos_core::raw::{RawSchema, RawSchemaMetadata, RawSchemaVersion};

fn raw_schema() -> RawSchema {
    RawSchema {
        version: RawSchemaVersion::default(),
        name: "test".into(),
        extends: None,
        excludes: vec![],
        properties: Vec::new(),
        metadata: RawSchemaMetadata::default(),
    }
}

#[test]
fn new_variant_returns_bank() {
    let bank = PropertyBank::default();
    let result = PropertyBankResult::New(bank.clone());

    assert_eq!(result.bank(), &bank);
    assert!(result.is_new());
    assert!(!result.is_fresh());
    assert!(!result.is_stale());
    assert_eq!(result.changed_properties(), &[]);
}

#[test]
fn fresh_variant_returns_bank() {
    let bank = PropertyBank::default();
    let result = PropertyBankResult::Fresh(bank.clone());

    assert_eq!(result.bank(), &bank);
    assert!(result.is_fresh());
    assert!(!result.is_new());
    assert!(!result.is_stale());
    assert_eq!(result.changed_properties(), &[]);
}

#[test]
fn stale_variant_returns_bank_and_changed() {
    let bank = PropertyBank::default();
    let prop1 = PropertyName::try_new("title").unwrap();
    let prop2 = PropertyName::try_new("status").unwrap();
    let changed = vec![prop1.clone(), prop2.clone()];

    let result = PropertyBankResult::Stale { bank: bank.clone(), changed: changed.clone() };

    assert_eq!(result.bank(), &bank);
    assert!(result.is_stale());
    assert!(!result.is_new());
    assert!(!result.is_fresh());
    assert_eq!(result.changed_properties(), changed.as_slice());
}

#[test]
fn into_bank_consumes_and_returns_bank() {
    let bank = PropertyBank::default();
    let result = PropertyBankResult::New(bank.clone());

    let extracted = result.into_bank();
    assert_eq!(extracted, bank);
}

#[test]
fn into_bank_works_for_all_variants() {
    let bank = PropertyBank::default();

    let new_result = PropertyBankResult::New(bank.clone());
    assert_eq!(new_result.into_bank(), bank);

    let fresh_result = PropertyBankResult::Fresh(bank.clone());
    assert_eq!(fresh_result.into_bank(), bank);

    let stale_result = PropertyBankResult::Stale { bank: bank.clone(), changed: vec![] };
    assert_eq!(stale_result.into_bank(), bank);
}

#[test]
fn new_variant_returns_id_and_raw() {
    let id = SchemaId::new().unwrap();
    let raw = raw_schema();

    let result = SchemaIngestResult::New { id, raw: raw.clone() };

    assert_eq!(result.id(), id);
    assert!(result.is_new());
    assert!(!result.is_fresh());
    assert!(!result.is_stale());
    assert!(result.raw().is_some());
    assert!(result.expanded().is_none());
}

#[test]
fn fresh_variant_returns_id_and_expanded() {
    let id = SchemaId::new().unwrap();
    let expanded = Some(PropertyMap::new());

    let result = SchemaIngestResult::Fresh { id, expanded: expanded.clone() };

    assert_eq!(result.id(), id);
    assert!(result.is_fresh());
    assert!(!result.is_new());
    assert!(!result.is_stale());
    assert!(result.raw().is_none());
    assert_eq!(result.expanded(), expanded.as_ref());
}

#[test]
fn stale_variant_returns_id_raw_and_expanded() {
    let id = SchemaId::new().unwrap();
    let raw = raw_schema();
    let expanded = Some(PropertyMap::new());

    let result = SchemaIngestResult::Stale { id, raw: raw.clone(), expanded: expanded.clone() };

    assert_eq!(result.id(), id);
    assert!(result.is_stale());
    assert!(!result.is_new());
    assert!(!result.is_fresh());
    assert!(result.raw().is_some());
    assert_eq!(result.expanded(), expanded.as_ref());
}

#[test]
fn ingest_result_carries_its_value() {
    let fresh = IngestResult::Fresh(7u32);
    assert!(fresh.is_fresh() && !fresh.is_stale());
    assert_eq!(*fresh.as_ref(), 7);
    assert_eq!(fresh.into_inner(), 7);

    let stale = IngestResult::Stale("x".to_string());
    assert!(stale.is_stale() && !stale.is_fresh());
    assert_eq!(stale.into_inner(), "x");
}

fn cached(created: Option<u64>, modified: Option<u64>, content: &[u8]) -> CachedFile {
    CachedFile { created_at: created, modified_at: modified, content_hash: Blake3Hash::compute(content) }
}

#[test]
fn timestamp_check_decides_new_fresh_or_read() {
    let c = cached(Some(10), Some(20), b"content");
    assert_eq!(check_timestamps(false, None, Some(10), Some(20)), CacheCheck::New);
    assert_eq!(check_timestamps(true, Some(&c), Some(10), Some(20)), CacheCheck::Fresh);
    assert_eq!(check_timestamps(true, Some(&c), Some(10), Some(21)), CacheCheck::ReadContent);
    assert_eq!(check_timestamps(true, Some(&c), None, Some(20)), CacheCheck::ReadContent);
    assert_eq!(check_timestamps(true, None, Some(10), Some(20)), CacheCheck::ReadContent);
}

#[test]
fn content_hash_check_detects_edits() {
    let c = cached(Some(10), Some(20), b"content");
    assert!(content_unchanged(Some(&c), b"content"));
    assert!(!content_unchanged(Some(&c), b"content!"));
    assert!(!content_unchanged(None, b"content"));
}

fn hashes(entries: &[(&str, &[u8])]) -> NameMap<Blake3Hash> {
    let mut m = NameMap::new();
    for (name, content) in entries {
        m.insert(PropertyName::try_new(name).unwrap(), Blake3Hash::compute(content));
    }
    m
}

fn names(v: &[PropertyName]) -> Vec<&str> {
    v.iter().map(|n| n.as_str()).collect()
}

#[test]
fn changed_bank_properties_without_previous_hashes_lists_every_name() {
    let new = hashes(&[("title", b"a"), ("status", b"b")]);
    assert_eq!(names(&changed_bank_properties(None, &new)), vec!["title", "status"]);
}

#[test]
fn changed_bank_properties_lists_changes_then_removals() {
    let old = hashes(&[("title", b"a"), ("status", b"b"), ("zeta", b"z"), ("alpha", b"y")]);
    let new = hashes(&[("title", b"a"), ("status", b"B"), ("due", b"d")]);
    assert_eq!(
        names(&changed_bank_properties(Some(&old), &new)),
        vec!["status", "due", "alpha", "zeta"]
    );
}

fn strings(v: &[&str]) -> Vec<String> {
    v.iter().map(|s| s.to_string()).collect()
}

#[test]
fn schema_files_are_grouped_by_extension_without_the_bank() {
    let listed = strings(&[
        "schemas/task.yaml",
        "schemas/note.json",
        "schemas/property_bank.json",
        "schemas/sub/deep.toml",
        "schemas/readme.md",
        "schemas/list.yml",
        "schemas/.json",
    ]);
    assert_eq!(
        select_schema_files(&listed, "property_bank.json"),
        strings(&["schemas/note.json", "schemas/sub/deep.toml", "schemas/task.yaml", "schemas/list.yml"])
    );
}

#[test]
fn custom_bank_file_name_is_excluded() {
    let listed = strings(&["schemas/bank.toml", "schemas/property_bank.json"]);
    assert_eq!(select_schema_files(&listed, "bank.toml"), strings(&["schemas/property_bank.json"]));
}

#[test]
fn recorded_file_is_fresh_on_the_next_ingestion() {
    let content = b"{\"name\": \"note\"}";
    let recorded = lithos_core::ingestor::record_file(Some(10), Some(20), content);
    assert_eq!(
        lithos_core::ingestor::check_timestamps(true, Some(&recorded), Some(10), Some(20)),
        lithos_core::ingestor::CacheCheck::Fresh
    );
    assert_eq!(
        lithos_core::ingestor::check_timestamps(true, Some(&recorded), Some(10), Some(99)),
        lithos_core::ingestor::CacheCheck::ReadContent
    );
    assert!(lithos_core::ingestor::content_unchanged(Some(&recorded), content));
    assert!(!lithos_core::ingestor::content_unchanged(Some(&recorded), b"changed"));
}
