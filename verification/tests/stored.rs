use lithos_core::aggregate::Schema;
use lithos_core::bank::PropertyBank;
use lithos_core::error::{PropertyNameError, SchemaError, SchemaNameError};
use lithos_core::identifier::{PropertyId, PropertyName, SchemaId, SchemaName};
use lithos_core::property::{Multiplicity, Optionality, Property, PropertyMap, PropertySpec};
use lithos_core::stored::{
    BankVersion, StoredBankProperty, StoredMetadata, StoredProperty, StoredPropertyBank,
    StoredSchema,
};

const TEST_SCHEMA_ID: u128 = 0x018C_0000_0000_7000_8000_0000_0000_0801;
const TEST_PROP_ID: u128 = 0x018C_0000_0000_7000_8000_0000_0000_0802;

fn make_schema() -> Schema {
    let name = SchemaName::try_new("test-stored").expect("valid name");
    Schema::new(SchemaId::from_u128(TEST_SCHEMA_ID), name, vec![], vec![], PropertyMap::new())
}

#[test]
fn to_stored_round_trips_to_schema() {
    let schema = make_schema();
    let stored = StoredSchema::from_schema(&schema);

    assert_eq!(stored.id, SchemaId::from_u128(TEST_SCHEMA_ID), "ID should match");
    assert_eq!(stored.name.as_str(), "test-stored", "Name should match");
    assert!(stored.parent_id.is_none(), "No parent");
    assert!(stored.properties.is_empty(), "No properties");
    let recovered = stored.into_schema().expect("Round-trip should succeed");
    assert_eq!(recovered.name().as_str(), "test-stored", "Name round-trip should match");
}

#[test]
fn to_stored_includes_properties() {
    let prop_name = PropertyName::try_new("flag").expect("valid name");
    let prop = Property::new(
        PropertyId::from_u128(TEST_PROP_ID),
        Optionality::Required,
        Multiplicity::Single,
        PropertySpec::Bool,
    );
    let mut props = PropertyMap::new();
    props.insert(prop_name, prop);

    let schema_name = SchemaName::try_new("with-props").expect("valid name");
    let schema =
        Schema::new(SchemaId::from_u128(TEST_SCHEMA_ID), schema_name, vec![], vec![], props);

    let stored = StoredSchema::from_schema(&schema);

    assert_eq!(stored.properties.len(), 1, "One property stored");
    let sp = stored.properties.first().expect("One property stored");
    assert_eq!(sp.name.as_str(), "flag", "Property name stored");
    assert!(sp.required, "Required flag stored correctly");
    assert!(!sp.multi, "Multi flag stored correctly");
}

#[test]
fn stored_schema_keeps_first_parent_and_restores_it() {
    let parent = SchemaId::from_u128(7);
    let name = SchemaName::try_new("child").unwrap();
    let schema = Schema::new(SchemaId::from_u128(8), name, vec![parent], vec![], PropertyMap::new());
    let stored = StoredSchema::from_schema(&schema);
    assert_eq!(stored.parent_id, Some(parent));
    let back = stored.into_schema().unwrap();
    assert_eq!(back.parents(), &[parent]);
    assert!(back.children().is_empty());
}

fn stored_prop(name: &str) -> StoredProperty {
    StoredProperty {
        id: PropertyId::from_u128(1),
        name: name.to_string(),
        required: false,
        multi: true,
        spec: PropertySpec::string(),
    }
}

#[test]
fn into_schema_rejects_invalid_names_in_order() {
    let bad_schema = StoredSchema {
        id: SchemaId::from_u128(1),
        name: String::new(),
        parent_id: None,
        properties: vec![stored_prop("Bad Name")],
    };
    assert_eq!(
        bad_schema.into_schema().unwrap_err(),
        SchemaError::SchemaName(SchemaNameError::NameIsEmpty)
    );

    let bad_prop = StoredSchema {
        id: SchemaId::from_u128(1),
        name: "ok".into(),
        parent_id: None,
        properties: vec![stored_prop("fine"), stored_prop("Bad Name"), stored_prop("")],
    };
    assert_eq!(
        bad_prop.into_schema().unwrap_err(),
        SchemaError::PropertyName(PropertyNameError::ContainsInvalidCharacters {
            name: "Bad Name".into()
        })
    );
}

#[test]
fn stored_bank_restores_properties_and_time() {
    let stored = StoredPropertyBank {
        bank_version: BankVersion::from_u64(4),
        recorded_at: 99,
        properties: vec![stored_prop("title"), stored_prop("status")],
    };
    let bank: PropertyBank = stored.into_bank().unwrap();
    assert_eq!(bank.recorded_at(), 99);
    let title = bank.get(&PropertyName::try_new("title").unwrap()).unwrap();
    assert_eq!(title.optionality(), Optionality::Optional);
    assert_eq!(title.multiplicity(), Multiplicity::Many);
    assert_eq!(title.spec(), PropertySpec::string());
    assert!(bank.has(&PropertyName::try_new("status").unwrap()));
}

#[test]
fn bank_row_keys_are_version_prefixed() {
    let v = BankVersion::from_u64(12);
    assert_eq!(StoredBankProperty::prefix(v), "12:");
    assert_eq!(StoredBankProperty::key(v, "title"), "12:title");
    assert_eq!(StoredBankProperty::prefix(BankVersion::initial()), "0:");
}

#[test]
fn stored_metadata_keeps_version_and_times() {
    let m = StoredMetadata::new(BankVersion::from_u64(2), Some(5), None);
    assert_eq!(m.bank_version.as_u64(), 2);
    assert_eq!(m.created_at, Some(5));
    assert_eq!(m.modified_at, None);
}
