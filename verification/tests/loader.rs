use lithos_core::error::{SchemaError, SchemaInheritanceError, SchemaLoaderError, SchemaNameError};
use lithos_core::identifier::{PropertyName, SchemaId, SchemaName};
use lithos_core::ingestor::SchemaIngestResult;
use lithos_core::loader::{build_name_to_id_map, plan_load, resolve_parent};
use lithos_core::property::PropertyMap;
use lithos_core::raw::{RawSchema, RawSchemaMetadata, RawSchemaVersion};

fn raw(name: &str, extends: Option<&str>) -> RawSchema {
    RawSchema {
        version: RawSchemaVersion::default(),
        name: name.into(),
        extends: extends.map(Into::into),
        excludes: vec![],
        properties: Vec::new(),
        metadata: RawSchemaMetadata::default(),
    }
}

fn id(n: u128) -> SchemaId {
    SchemaId::from_u128(n)
}

fn cached_map() -> PropertyMap {
    let mut m = PropertyMap::new();
    m.insert(
        PropertyName::try_new("title").unwrap(),
        lithos_core::property::Property::new(
            lithos_core::identifier::PropertyId::from_u128(9),
            lithos_core::property::Optionality::Optional,
            lithos_core::property::Multiplicity::Single,
            lithos_core::property::PropertySpec::string(),
        ),
    );
    m
}

#[test]
fn cached_expansion_used_when_bank_stale_schema_fresh() {
    // Bank stale + schema fresh with a cached expansion: the cached
    // expansion is reused and the schema is not expanded again.
    let plan = plan_load(
        vec![SchemaIngestResult::Fresh { id: id(1), expanded: Some(cached_map()) }],
        false,
    );
    assert!(plan.fresh_ids.is_empty());
    assert!(plan.needs_expansion.is_empty());
    assert!(plan.needs_raw.is_empty());
    assert_eq!(plan.cached_expansion.len(), 1);
    assert_eq!(plan.cached_expansion[0].0, id(1));
    assert_eq!(plan.cached_expansion[0].1, cached_map());
    assert_eq!(plan.parent_ids(), vec![id(1)]);
}

#[test]
fn fresh_schemas_are_reused_when_bank_is_fresh() {
    let plan = plan_load(
        vec![
            SchemaIngestResult::Fresh { id: id(1), expanded: Some(cached_map()) },
            SchemaIngestResult::Fresh { id: id(2), expanded: None },
        ],
        true,
    );
    assert_eq!(plan.fresh_ids, vec![id(1), id(2)]);
    assert!(plan.cached_expansion.is_empty() && plan.needs_raw.is_empty() && plan.needs_expansion.is_empty());
}

#[test]
fn changed_and_new_schemas_are_expanded_in_order() {
    let plan = plan_load(
        vec![
            SchemaIngestResult::Stale { id: id(3), raw: raw("b", None), expanded: None },
            SchemaIngestResult::Fresh { id: id(4), expanded: None },
            SchemaIngestResult::New { id: id(5), raw: raw("a", Some("b")) },
        ],
        false,
    );
    let expanded: Vec<(SchemaId, String)> =
        plan.needs_expansion.iter().map(|(i, r)| (*i, r.name.clone())).collect();
    assert_eq!(expanded, vec![(id(3), "b".to_string()), (id(5), "a".to_string())]);
    assert_eq!(plan.needs_raw, vec![id(4)]);
    assert!(plan.parent_ids().is_empty());
}

#[test]
fn name_map_and_parent_resolution() {
    let schemas = vec![(id(1), raw("base", None)), (id(2), raw("task", Some("base")))];
    let names = build_name_to_id_map(&schemas).unwrap();
    assert_eq!(names.len(), 2);
    assert_eq!(names[1].0, SchemaName::try_new("task").unwrap());
    assert_eq!(resolve_parent(&schemas[1].1, &names).unwrap(), Some(id(1)));
    assert_eq!(resolve_parent(&schemas[0].1, &names).unwrap(), None);
    assert_eq!(
        resolve_parent(&raw("orphan", Some("missing")), &names).unwrap_err(),
        SchemaLoaderError::Resolution(SchemaError::Inheritance(SchemaInheritanceError::ParentNotFound {
            name: "missing".into()
        }))
    );
}

#[test]
fn name_map_rejects_invalid_names() {
    let schemas = vec![(id(1), raw("", None))];
    assert_eq!(
        build_name_to_id_map(&schemas).unwrap_err(),
        SchemaLoaderError::Resolution(SchemaError::SchemaName(SchemaNameError::NameIsEmpty))
    );
}
