use lithos_core::error::DbError;
use lithos_core::identifier::{PropertyId, SchemaId};
use lithos_core::idmap::IdMap;
use lithos_core::property::{Multiplicity, Optionality, PropertySpec};
use lithos_core::query::{
    cascade_staleness, check_schema_freshness, is_bank_stale, is_schema_stale, list_descendants,
    missing_metadata_error, property_from_record, schema_from_record,
};
use lithos_core::stored::{BankVersion, StoredBankProperty, StoredMetadata, StoredProperty, StoredSchema};

fn meta(version: u64, created: Option<u64>, modified: Option<u64>) -> StoredMetadata {
    StoredMetadata { bank_version: BankVersion::from_u64(version), created_at: created, modified_at: modified, recorded_at: 0 }
}

fn id(n: u128) -> SchemaId {
    SchemaId::from_u128(n)
}

#[test]
fn freshness_requires_same_version_identity_and_no_later_edit() {
    let v = BankVersion::from_u64(2);
    let m = meta(2, Some(10), Some(20));
    assert!(check_schema_freshness(&m, Some(10), Some(20), v));
    assert!(check_schema_freshness(&m, Some(10), Some(15), v));
    assert!(!check_schema_freshness(&m, Some(10), Some(21), v));
    assert!(!check_schema_freshness(&m, Some(11), Some(20), v));
    assert!(!check_schema_freshness(&m, Some(10), Some(20), BankVersion::from_u64(3)));
    assert!(check_schema_freshness(&m, None, None, v));
    assert!(check_schema_freshness(&meta(2, None, None), Some(1), Some(99), v));
}

#[test]
fn missing_metadata_means_stale() {
    let v = BankVersion::from_u64(1);
    assert!(is_schema_stale(None, Some(1), Some(1), v));
    assert!(!is_schema_stale(Some(&meta(1, Some(1), Some(1))), Some(1), Some(1), v));
    assert!(is_bank_stale(None, v));
    assert!(is_bank_stale(Some(&meta(0, None, None)), v));
    assert!(!is_bank_stale(Some(&meta(1, None, None)), v));
}

#[test]
fn records_without_metadata_are_corrupt() {
    let s = id(0x018c_0000_0000_7000_8000_0000_0000_0101);
    assert_eq!(
        missing_metadata_error(s),
        DbError::Corruption(
            "schema 018c0000-0000-7000-8000-000000000101 exists but metadata is missing (database corruption detected)"
                .into()
        )
    );
    let stored = StoredSchema { id: s, name: "note".into(), parent_id: None, properties: vec![] };
    assert!(matches!(schema_from_record(stored.clone(), false), Err(DbError::Corruption(_))));
    assert_eq!(schema_from_record(stored, true).unwrap().name().as_str(), "note");
    let bad = StoredSchema { id: s, name: "Bad".into(), parent_id: None, properties: vec![] };
    assert_eq!(
        schema_from_record(bad, true).unwrap_err(),
        DbError::Deserialization("invalid schema name: Bad".into())
    );
}

#[test]
fn bank_rows_become_properties() {
    let row = StoredBankProperty {
        bank_version: BankVersion::from_u64(1),
        recorded_at: 0,
        property: StoredProperty {
            id: PropertyId::from_u128(3),
            name: "title".into(),
            required: true,
            multi: true,
            spec: PropertySpec::string(),
        },
    };
    let (name, p) = property_from_record(&row).unwrap();
    assert_eq!(name.as_str(), "title");
    assert_eq!(p.id(), PropertyId::from_u128(3));
    assert_eq!(p.optionality(), Optionality::Required);
    assert_eq!(p.multiplicity(), Multiplicity::Many);

    let mut bad = row.clone();
    bad.property.name = String::new();
    assert_eq!(
        property_from_record(&bad).unwrap_err(),
        DbError::Deserialization("property name cannot be empty".into())
    );
}

#[test]
fn descendants_follow_child_links_transitively() {
    let links = vec![(id(1), id(2)), (id(2), id(3)), (id(4), id(5))];
    let mut d = list_descendants(&[id(1)], &links);
    d.sort();
    assert_eq!(d, vec![id(1), id(2), id(3)]);
}

#[test]
fn staleness_cascades_to_descendants() {
    let links = vec![(id(1), id(2)), (id(2), id(3))];
    let mut map = IdMap::new();
    map.insert(id(1), true);
    map.insert(id(2), false);
    map.insert(id(9), false);
    cascade_staleness(&mut map, &links);
    assert_eq!(map.get(&id(1)), Some(&true));
    assert_eq!(map.get(&id(2)), Some(&true));
    assert_eq!(map.get(&id(3)), Some(&true));
    assert_eq!(map.get(&id(9)), Some(&false));
}

#[test]
fn bank_rows_read_back_as_the_written_properties() {
    let mut bank = lithos_core::bank::PropertyBank::new();
    let title = lithos_core::identifier::PropertyName::try_new("title").unwrap();
    let written = lithos_core::property::Property::new(
        lithos_core::identifier::PropertyId::from_u128(11),
        lithos_core::property::Optionality::Required,
        lithos_core::property::Multiplicity::Many,
        lithos_core::property::PropertySpec::Bool,
    );
    bank.insert(title.clone(), written.clone());
    let rows = lithos_core::command::bank_rows(&bank, lithos_core::stored::BankVersion::initial(), 42);
    assert_eq!(rows.len(), 1);
    let (name, read) = lithos_core::query::property_from_record(&rows[0].row).unwrap();
    assert_eq!(name, title);
    assert_eq!(read, written);
}

#[test]
fn bank_read_back_from_its_rows_holds_the_same_properties() {
    let mut bank = lithos_core::bank::PropertyBank::new();
    let title = lithos_core::identifier::PropertyName::try_new("title").unwrap();
    let flag = lithos_core::identifier::PropertyName::try_new("flag").unwrap();
    let p1 = lithos_core::property::Property::new(
        lithos_core::identifier::PropertyId::from_u128(1),
        lithos_core::property::Optionality::Required,
        lithos_core::property::Multiplicity::Single,
        lithos_core::property::PropertySpec::string(),
    );
    let p2 = lithos_core::property::Property::new(
        lithos_core::identifier::PropertyId::from_u128(2),
        lithos_core::property::Optionality::Optional,
        lithos_core::property::Multiplicity::Many,
        lithos_core::property::PropertySpec::Bool,
    );
    bank.insert(title.clone(), p1.clone());
    bank.insert(flag.clone(), p2.clone());
    let rows = lithos_core::command::bank_rows(&bank, lithos_core::stored::BankVersion::initial(), 7);
    let stored: Vec<_> = rows.into_iter().map(|r| r.row).collect();
    let read = lithos_core::query::bank_from_rows(&stored).unwrap();
    assert_eq!(read.len(), 2);
    assert_eq!(read.get(&title), Some(&p1));
    assert_eq!(read.get(&flag), Some(&p2));
}
