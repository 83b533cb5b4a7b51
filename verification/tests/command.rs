use lithos_core::bank::PropertyBank;
use lithos_core::command::{
    inheritance_writes, InheritanceWrite,
    batch_rows, bank_rows, check_batch_names, check_property_refs, conflict_error, default_metadata,
    version_to_delete, BatchConflict,
};
use lithos_core::error::{DbError, PropertyNameError};
use lithos_core::aggregate::Schema;
use lithos_core::identifier::{PropertyId, PropertyName, SchemaId, SchemaName};
use lithos_core::property::{Multiplicity, Optionality, Property, PropertySpec};
use lithos_core::idmap::IdMap;
use lithos_core::stored::{BankVersion, StoredChildSchema, StoredParentSchema, StoredProperty, StoredSchema};

fn id(n: u128) -> SchemaId {
    SchemaId::from_u128(n)
}

#[test]
fn retention_keeps_three_versions() {
    assert_eq!(version_to_delete(None), None);
    assert_eq!(version_to_delete(Some(BankVersion::from_u64(2))), None);
    assert_eq!(version_to_delete(Some(BankVersion::from_u64(3))).map(|v| v.as_u64()), Some(1));
    assert_eq!(version_to_delete(Some(BankVersion::from_u64(5))).map(|v| v.as_u64()), Some(3));
}

#[test]
fn batch_names_must_be_unique_and_free() {
    let names = vec![("note".to_string(), id(1)), ("task".to_string(), id(2))];
    assert_eq!(check_batch_names(&names, &[None, Some(id(2))]), Ok(()));
    assert_eq!(check_batch_names(&names, &[None, Some(id(7))]), Err(BatchConflict::NameTaken(1)));

    let dup = vec![("note".to_string(), id(1)), ("note".to_string(), id(2))];
    assert_eq!(check_batch_names(&dup, &[None, Some(id(9))]), Err(BatchConflict::DuplicateInBatch(1)));
    assert_eq!(
        conflict_error(&dup, BatchConflict::DuplicateInBatch(1)),
        DbError::Transaction("schema name already exists in batch: note".into())
    );
    assert_eq!(
        conflict_error(&names, BatchConflict::NameTaken(1)),
        DbError::Transaction("schema name already exists: task".into())
    );
}

#[test]
fn batch_rows_pair_each_schema_with_its_metadata() {
    let id = SchemaId::from_u128(0x018C_0000_0000_7000_8000_0000_0000_0E01);
    let schema = Schema::new(id, SchemaName::try_new("task").unwrap(), vec![], vec![], lithos_core::property::PropertyMap::new());
    let metadata = default_metadata(1);
    let rows = batch_rows(&[schema], &metadata);
    assert_eq!(rows.len(), 1);
    assert_eq!(rows[0].key, "018c0000-0000-7000-8000-000000000e01");
    assert_eq!(rows[0].name, "task");
    assert_eq!(rows[0].id, id);
    assert_eq!(rows[0].schema.name, "task");
    assert_eq!(rows[0].metadata, metadata[0]);
}

#[test]
fn default_metadata_uses_initial_version() {
    let m = default_metadata(2);
    assert_eq!(m.len(), 2);
    assert!(m.iter().all(|x| x.bank_version.as_u64() == 0 && x.created_at.is_none()));
}

fn bank_with(names: &[&str]) -> PropertyBank {
    let mut bank = PropertyBank::new();
    for (i, n) in names.iter().enumerate() {
        bank.insert(
            PropertyName::try_new(n).unwrap(),
            Property::new(
                PropertyId::from_u128(0x018c_0000_0000_7000_8000_0000_0000_0100 + i as u128),
                Optionality::Required,
                Multiplicity::Single,
                PropertySpec::Bool,
            ),
        );
    }
    bank
}

fn schema(name: &str, props: &[&str]) -> StoredSchema {
    StoredSchema {
        id: id(1),
        name: name.into(),
        parent_id: None,
        properties: props
            .iter()
            .map(|p| StoredProperty {
                id: PropertyId::from_u128(1),
                name: p.to_string(),
                required: true,
                multi: false,
                spec: PropertySpec::Bool,
            })
            .collect(),
    }
}

#[test]
fn property_references_must_exist_in_bank() {
    let bank = bank_with(&["title", "done"]);
    assert_eq!(check_property_refs(&[schema("note", &["title"]), schema("task", &["done"])], &bank), Ok(()));
    assert_eq!(
        check_property_refs(&[schema("note", &["title"]), schema("task", &["due", "x"])], &bank),
        Err(DbError::Transaction("property 'due' in schema 'task' not found in PropertyBank".into()))
    );
    assert_eq!(
        check_property_refs(&[schema("note", &[""])], &bank),
        Err(DbError::Transaction("property name cannot be empty".into()))
    );
}

#[test]
fn property_name_errors_have_text() {
    assert_eq!(
        PropertyNameError::NameExceedsMaxLength { len: 70, max: 64 }.to_text(),
        "property name too long: 70 (max 64)"
    );
    assert_eq!(
        PropertyNameError::ContainsInvalidCharacters { name: "A".into() }.to_text(),
        "invalid property name: A"
    );
}

#[test]
fn bank_rows_are_keyed_by_version() {
    let bank = bank_with(&["title"]);
    let rows = bank_rows(&bank, BankVersion::from_u64(3), 77);
    assert_eq!(rows.len(), 1);
    assert_eq!(rows[0].id_key, "3:018c0000-0000-7000-8000-000000000100");
    assert_eq!(rows[0].name_key, "3:title");
    assert_eq!(rows[0].row.recorded_at, 77);
    assert_eq!(rows[0].row.property.name, "title");
    assert!(rows[0].row.property.required && !rows[0].row.property.multi);
}

#[test]
fn inheritance_writes_move_child_links() {

    let child = id(10);
    let old_parent = id(1);
    let new_parent = id(2);
    let mut old = IdMap::new();
    old.insert(child, StoredParentSchema { parent_id: Some(old_parent), excludes: vec!["a".into()], resolved_at: 5 });

    let writes = inheritance_writes(&[(child, Some(new_parent), vec!["b".into()]), (id(11), None, vec![])], &old, 9);
    assert_eq!(
        writes,
        vec![
            InheritanceWrite::RemoveChild {
                parent: old_parent,
                child: StoredChildSchema { child_id: child, excludes: vec!["a".into()], resolved_at: 5 },
            },
            InheritanceWrite::InsertChild {
                parent: new_parent,
                child: StoredChildSchema { child_id: child, excludes: vec!["b".into()], resolved_at: 9 },
            },
            InheritanceWrite::PutParent {
                child_id: child,
                parent: StoredParentSchema { parent_id: Some(new_parent), excludes: vec!["b".into()], resolved_at: 9 },
            },
            InheritanceWrite::PutParent {
                child_id: id(11),
                parent: StoredParentSchema { parent_id: None, excludes: vec![], resolved_at: 9 },
            },
        ]
    );
}
