use lithos_core::error::SchemaError;
use lithos_core::identifier::{PropertyId, PropertyName};
use lithos_core::merger::Merger;
use lithos_core::property::{Multiplicity, Optionality, Property, PropertyMap, PropertySpec};

fn bool_property(optionality: Optionality) -> Property {
    Property::new(PropertyId::new().unwrap(), optionality, Multiplicity::Single, PropertySpec::Bool)
}

fn map_properties(props: Vec<(&str, Property)>) -> Result<PropertyMap, SchemaError> {
    let mut m = PropertyMap::new();
    for (name, p) in props {
        m.insert(PropertyName::try_new(name)?, p);
    }
    Ok(m)
}

#[test]
fn child_inherits_parent_properties() -> Result<(), SchemaError> {
    let parent = map_properties(vec![("from-parent", bool_property(Optionality::Required))])?;
    let child = map_properties(vec![("from-child", bool_property(Optionality::Required))])?;

    let merged = Merger::inherit_properties(&parent, &child, &[]);
    let prop_names: Vec<&str> = merged.entries().iter().map(|(n, _)| n.as_str()).collect();
    assert!(prop_names.contains(&"from-parent"), "Child should inherit parent's property; got: {prop_names:?}");
    assert!(prop_names.contains(&"from-child"), "Child should have own property; got: {prop_names:?}");
    Ok(())
}

#[test]
fn child_override_beats_parent() -> Result<(), SchemaError> {
    let parent = map_properties(vec![("shared", bool_property(Optionality::Required))])?;
    let child = map_properties(vec![("shared", bool_property(Optionality::Optional))])?;

    let merged = Merger::inherit_properties(&parent, &child, &[]);
    let stored_prop = merged.get(&PropertyName::try_new("shared")?).expect("shared property exists");
    assert_eq!(stored_prop.optionality(), Optionality::Optional);
    Ok(())
}

#[test]
fn excludes_filter_parent_properties() -> Result<(), SchemaError> {
    let parent = map_properties(vec![("skip", bool_property(Optionality::Required))])?;
    let child = map_properties(vec![("keep", bool_property(Optionality::Required))])?;

    let excludes = vec![PropertyName::try_new("skip")?];
    let merged = Merger::inherit_properties(&parent, &child, &excludes);
    assert!(merged.has(&PropertyName::try_new("keep")?));
    assert!(!merged.has(&PropertyName::try_new("skip")?));
    Ok(())
}
