use lithos_core::aggregate::Schema;
use lithos_core::identifier::{PropertyId, PropertyName, SchemaId, SchemaName};
use lithos_core::property::{Multiplicity, Optionality, Property, PropertyMap, PropertySpec};

#[test]
fn schema_new_creates_with_empty_properties() {
    let id = SchemaId::new().unwrap();
    let name = SchemaName::try_new("test").unwrap();
    let schema = Schema::new(id, name.clone(), Vec::new(), vec![], PropertyMap::new());
    assert_eq!(schema.id(), &id);
    assert_eq!(schema.name(), &name);
    assert!(schema.parents().is_empty());
    assert!(schema.properties().is_empty());
}

#[test]
fn schema_accessors_work() {
    let id = SchemaId::new().unwrap();
    let parent_id = SchemaId::new().unwrap();
    let name = SchemaName::try_new("child-schema").unwrap();
    let schema = Schema::new(id, name.clone(), vec![parent_id], vec![], PropertyMap::new());
    assert_eq!(schema.id(), &id);
    assert_eq!(schema.name(), &name);
    assert_eq!(schema.parents(), &[parent_id]);
}

#[test]
fn schema_finds_properties_by_name_and_id() {
    let pid = PropertyId::from_u128(42);
    let mut props = PropertyMap::new();
    props.insert(
        PropertyName::try_new("title").unwrap(),
        Property::new(pid, Optionality::Required, Multiplicity::Single, PropertySpec::string()),
    );
    let schema = Schema::new(SchemaId::new().unwrap(), SchemaName::try_new("note").unwrap(), vec![], vec![], props);
    let by_name = schema.find_property_by_name(&PropertyName::try_new("title").unwrap()).unwrap();
    assert_eq!(by_name.id(), pid);
    assert!(schema.find_property(&pid).is_some());
    assert!(schema.find_property(&PropertyId::from_u128(7)).is_none());
    assert!(schema.find_property_by_name(&PropertyName::try_new("other").unwrap()).is_none());
}
