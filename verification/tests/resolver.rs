use lithos_core::aggregate::Schema;
use lithos_core::bank::PropertyBank;
use lithos_core::error::{SchemaError, SchemaInheritanceError, SchemaLoaderError, SchemaRepositoryError};
use lithos_core::extender::{ExpandedSchema, Extender};
use lithos_core::identifier::{PropertyId, PropertyName, SchemaId, SchemaName};
use lithos_core::idmap::IdMap;
use lithos_core::ingestor::SchemaIngestResult;
use lithos_core::loader::{inheritance_links, load_step, LoadAction, LoadEvent, LoadState};
use lithos_core::property::{Multiplicity, Optionality, Property, PropertyMap, PropertySpec};
use lithos_core::raw::{
    RawDateSpec, RawFileSpec, RawNumberSpec, RawProperty, RawPropertyInline, RawPropertyRef, RawPropertySpec,
    RawSchema, RawSchemaMetadata, RawSchemaVersion, RawStringSpec,
};
use lithos_core::resolver::{
    build_and_merge, expand_batch, merge_tree, resolve_all, resolve_batch, resolve_cached, resolve_expanded,
};

fn id(n: u128) -> SchemaId {
    SchemaId::from_u128(n)
}

fn inline_bool() -> RawProperty {
    RawProperty::Inline(RawPropertyInline { required: true, multi: false, spec: RawPropertySpec::Bool })
}

fn status_ref() -> RawProperty {
    RawProperty::Ref(RawPropertyRef {
        ref_path: "property_bank#/status".into(),
        required: None,
        multi: None,
        number: RawNumberSpec { has_min: false, has_max: false, has_step: false },
        string: RawStringSpec { options: None, pattern: None },
        date: RawDateSpec { format: None },
        file: RawFileSpec { directory: None, file_class: None },
    })
}

fn raw(name: &str, extends: Option<&str>, excludes: &[&str], props: Vec<(&str, RawProperty)>) -> RawSchema {
    RawSchema {
        version: RawSchemaVersion::default(),
        name: name.into(),
        extends: extends.map(Into::into),
        excludes: excludes.iter().map(|e| (*e).to_string()).collect(),
        properties: props.into_iter().map(|(n, p)| (n.to_string(), p)).collect(),
        metadata: RawSchemaMetadata::default(),
    }
}

fn status_bank() -> PropertyBank {
    let mut bank = PropertyBank::new();
    bank.insert(
        PropertyName::try_new("status").unwrap(),
        Property::new(PropertyId::from_u128(9), Optionality::Required, Multiplicity::Single, PropertySpec::Bool),
    );
    bank
}

fn prop(n: u128) -> Property {
    Property::new(PropertyId::from_u128(n), Optionality::Optional, Multiplicity::Single, PropertySpec::Bool)
}

fn map_of(names: &[(&str, u128)]) -> PropertyMap {
    let mut m = PropertyMap::new();
    for (name, n) in names {
        m.insert(PropertyName::try_new(name).unwrap(), prop(*n));
    }
    m
}

fn has(schema: &Schema, name: &str) -> bool {
    schema.properties().has(&PropertyName::try_new(name).unwrap())
}

fn stored(n: u128, name: &str, props: PropertyMap) -> Schema {
    Schema::new(id(n), SchemaName::try_new(name).unwrap(), vec![], vec![], props)
}

#[test]
fn batch_child_inherits_parent_properties_minus_excludes() {
    let bank = status_bank();
    let needs = vec![
        (id(2), raw("note", Some("base"), &["status"], vec![("body", inline_bool())])),
        (id(1), raw("base", None, &[], vec![("title", inline_bool()), ("status", status_ref())])),
    ];
    let out = resolve_batch(&bank, needs, &IdMap::new()).unwrap();
    assert_eq!(out.len(), 2);
    assert_eq!(*out[0].id(), id(1));
    assert_eq!(out[0].name().as_str(), "base");
    assert!(has(&out[0], "title") && has(&out[0], "status"));
    assert_eq!(out[0].children(), &[id(2)]);
    assert_eq!(*out[1].id(), id(2));
    assert_eq!(out[1].parents(), &[id(1)]);
    assert!(has(&out[1], "title"));
    assert!(has(&out[1], "body"));
    assert!(!has(&out[1], "status"));
    assert_eq!(out[1].properties().len(), 2);
}

#[test]
fn batch_child_inherits_from_known_parent() {
    let mut known = IdMap::new();
    known.insert(id(7), stored(7, "base", map_of(&[("title", 3)])));
    let needs = vec![(id(8), raw("note", Some("base"), &[], vec![("body", inline_bool())]))];
    let out = resolve_batch(&PropertyBank::new(), needs, &known).unwrap();
    assert_eq!(out.len(), 1);
    assert_eq!(out[0].parents(), &[id(7)]);
    assert!(has(&out[0], "title") && has(&out[0], "body"));
}

#[test]
fn batch_with_unknown_parent_is_refused() {
    let needs = vec![(id(2), raw("note", Some("missing"), &[], vec![]))];
    let r = resolve_batch(&PropertyBank::new(), needs, &IdMap::new());
    assert!(matches!(r, Err(SchemaLoaderError::Resolution(_))));
}

#[test]
fn batch_with_unresolved_reference_is_refused() {
    let needs = vec![(id(1), raw("base", None, &[], vec![("status", status_ref())]))];
    let r = resolve_batch(&PropertyBank::new(), needs, &IdMap::new());
    assert!(matches!(r, Err(SchemaLoaderError::Resolution(_))));
}

#[test]
fn batch_with_invalid_excluded_name_is_refused() {
    let needs = vec![(id(1), raw("base", None, &["bad name!"], vec![]))];
    let r = resolve_batch(&PropertyBank::new(), needs, &IdMap::new());
    assert!(matches!(r, Err(SchemaLoaderError::Resolution(SchemaError::PropertyName(_)))));
}

#[test]
fn merge_tree_follows_tree_order() {
    let expanded = vec![
        ExpandedSchema {
            id: id(2),
            name: "note".into(),
            extends: Some(SchemaName::try_new("base").unwrap()),
            excludes: vec![],
            properties: map_of(&[("body", 5)]),
        },
        ExpandedSchema {
            id: id(1),
            name: "base".into(),
            extends: None,
            excludes: vec![],
            properties: map_of(&[("title", 4)]),
        },
    ];
    let known = IdMap::new();
    let tree = Extender::build(expanded, &known).unwrap();
    let out = merge_tree(&tree, &known);
    assert_eq!(out.len(), 2);
    assert_eq!(*out[0].id(), id(1));
    assert_eq!(*out[1].id(), id(2));
    assert!(has(&out[1], "title") && has(&out[1], "body"));
}

#[test]
fn build_and_merge_reports_cycles() {
    let expanded = vec![
        ExpandedSchema {
            id: id(1),
            name: "a".into(),
            extends: Some(SchemaName::try_new("b").unwrap()),
            excludes: vec![],
            properties: PropertyMap::new(),
        },
        ExpandedSchema {
            id: id(2),
            name: "b".into(),
            extends: Some(SchemaName::try_new("a").unwrap()),
            excludes: vec![],
            properties: PropertyMap::new(),
        },
    ];
    let r = build_and_merge(expanded, &IdMap::new());
    assert!(matches!(r, Err(SchemaLoaderError::Resolution(_))));
}

#[test]
fn cached_expansion_is_merged_without_dereferencing() {
    let mut known = IdMap::new();
    known.insert(id(7), stored(7, "base", map_of(&[("title", 3)])));
    let cached = vec![(id(9), raw("memo", Some("base"), &["title"], vec![("ignored", status_ref())]), map_of(&[("body", 5)]))];
    let out = resolve_cached(cached, &known).unwrap();
    assert_eq!(out.len(), 1);
    assert_eq!(out[0].name().as_str(), "memo");
    assert!(has(&out[0], "body"));
    assert!(!has(&out[0], "title"));
    assert!(!has(&out[0], "ignored"));
}

#[test]
fn resolve_all_puts_expanded_before_cached() {
    let needs = vec![(id(1), raw("base", None, &[], vec![("title", inline_bool())]))];
    let cached = vec![(id(9), raw("memo", None, &[], vec![]), map_of(&[("body", 5)]))];
    let out = resolve_all(&PropertyBank::new(), needs, cached, &IdMap::new()).unwrap();
    assert_eq!(out.len(), 2);
    assert_eq!(*out[0].id(), id(1));
    assert_eq!(*out[1].id(), id(9));
    let none = resolve_all(&PropertyBank::new(), vec![], vec![], &IdMap::new()).unwrap();
    assert!(none.is_empty());
}

#[test]
fn inheritance_links_resolve_within_the_batch() {
    let needs = vec![(id(1), raw("base", None, &[], vec![])), (id(2), raw("note", Some("base"), &[], vec![]))];
    let links = inheritance_links(&needs).unwrap();
    assert_eq!(links, vec![(id(1), None), (id(2), Some(id(1)))]);
    let outside = vec![(id(2), raw("note", Some("stored"), &[], vec![]))];
    assert!(matches!(
        inheritance_links(&outside),
        Err(SchemaLoaderError::Resolution(SchemaError::Inheritance(SchemaInheritanceError::ParentNotFound { .. })))
    ));
}

#[test]
fn load_steps_through_a_full_pass() {
    let (state, action) = load_step(LoadState::Start, LoadEvent::LinksSaved);
    assert!(matches!(state, LoadState::Start));
    assert!(matches!(action, LoadAction::Wait));

    let schemas = vec![
        SchemaIngestResult::New { id: id(1), raw: raw("base", None, &[], vec![("title", inline_bool())]) },
        SchemaIngestResult::Fresh { id: id(9), expanded: Some(map_of(&[("body", 5)])) },
        SchemaIngestResult::Fresh { id: id(4), expanded: None },
    ];
    let (state, action) = load_step(state, LoadEvent::Ingested { schemas, bank_is_fresh: false });
    match action {
        LoadAction::ReadRawViews { missing, cached } => {
            assert_eq!(missing, vec![id(4)]);
            assert_eq!(cached, vec![id(9)]);
        },
        other => panic!("unexpected action {other:?}"),
    }
    let (state, action) = load_step(
        state,
        LoadEvent::RawViews {
            missing: vec![Some(raw("child", Some("base"), &[], vec![]))],
            cached: vec![Some(raw("memo", None, &[], vec![]))],
        },
    );
    match action {
        LoadAction::ReadParents { ids } => assert_eq!(ids, vec![id(9)]),
        other => panic!("unexpected action {other:?}"),
    }
    let (state, action) = load_step(state, LoadEvent::Parents { schemas: vec![] });
    let expanded = match action {
        LoadAction::Expand { needs } => {
            assert_eq!(needs.len(), 2);
            assert_eq!(needs[0].0, id(1));
            assert_eq!(needs[1].0, id(4));
            expand_batch(&PropertyBank::new(), needs)
        },
        other => panic!("unexpected action {other:?}"),
    };
    let (state, action) = load_step(state, LoadEvent::Expanded { result: expanded });
    match action {
        LoadAction::StoreExpansions { entries } => {
            assert_eq!(entries.len(), 2);
            assert_eq!(entries[0].0, id(1));
            assert!(entries[0].1.has(&PropertyName::try_new("title").unwrap()));
            assert_eq!(entries[1].0, id(4));
        },
        other => panic!("unexpected action {other:?}"),
    }
    let (state, action) = load_step(state, LoadEvent::ExpansionsStored);
    let result = match action {
        LoadAction::Resolve { expanded, cached, known_parents } => {
            assert_eq!(expanded.len(), 2);
            assert_eq!(cached.len(), 1);
            resolve_expanded(expanded, cached, &known_parents)
        },
        other => panic!("unexpected action {other:?}"),
    };
    let (state, action) = load_step(state, LoadEvent::Resolved { result });
    let saved = match action {
        LoadAction::SaveSchemas { schemas } => {
            assert_eq!(schemas.len(), 3);
            schemas
        },
        other => panic!("unexpected action {other:?}"),
    };
    let (state, action) = load_step(state, LoadEvent::SchemasSaved { schemas: saved });
    match action {
        LoadAction::SaveLinks { links } => assert_eq!(links, vec![(id(1), None), (id(4), Some(id(1)))]),
        other => panic!("unexpected action {other:?}"),
    }
    let (state, action) = load_step(state, LoadEvent::LinksSaved);
    assert!(matches!(state, LoadState::Done));
    match action {
        LoadAction::Finish { schemas } => assert_eq!(schemas.len(), 3),
        other => panic!("unexpected action {other:?}"),
    }
}

#[test]
fn load_fails_without_a_raw_view_for_a_cached_expansion() {
    let schemas = vec![SchemaIngestResult::Fresh { id: id(9), expanded: Some(map_of(&[("body", 5)])) }];
    let (state, _) = load_step(LoadState::Start, LoadEvent::Ingested { schemas, bank_is_fresh: false });
    let (state, action) = load_step(state, LoadEvent::RawViews { missing: vec![], cached: vec![None] });
    assert!(matches!(state, LoadState::Failed));
    assert!(matches!(
        action,
        LoadAction::Fail { error: SchemaLoaderError::Repository(SchemaRepositoryError::NotFoundById(x)) } if x == id(9)
    ));
}

#[test]
fn load_with_nothing_to_resolve_finishes_without_saving() {
    let schemas = vec![SchemaIngestResult::Fresh { id: id(3), expanded: None }];
    let (state, action) = load_step(LoadState::Start, LoadEvent::Ingested { schemas, bank_is_fresh: true });
    assert!(matches!(action, LoadAction::ReadRawViews { ref missing, ref cached } if missing.is_empty() && cached.is_empty()));
    let (state, action) = load_step(state, LoadEvent::RawViews { missing: vec![], cached: vec![] });
    assert!(matches!(action, LoadAction::ReadParents { ref ids } if *ids == vec![id(3)]));
    let (state, action) = load_step(state, LoadEvent::Parents { schemas: vec![stored(3, "base", PropertyMap::new())] });
    let result = match action {
        LoadAction::Resolve { expanded, cached, known_parents } => {
            assert!(expanded.is_empty() && cached.is_empty());
            assert_eq!(known_parents.len(), 1);
            resolve_expanded(expanded, cached, &known_parents)
        },
        other => panic!("unexpected action {other:?}"),
    };
    let (state, action) = load_step(state, LoadEvent::Resolved { result });
    assert!(matches!(state, LoadState::Done));
    assert!(matches!(action, LoadAction::Finish { ref schemas } if schemas.is_empty()));
}

#[test]
fn reported_failure_ends_an_unfinished_load() {
    let error = SchemaLoaderError::Repository(SchemaRepositoryError::PropertyBankNotFound);
    let (state, action) = load_step(LoadState::Start, LoadEvent::Failed { error: error.clone() });
    assert!(matches!(state, LoadState::Failed));
    assert!(matches!(action, LoadAction::Fail { error: e } if e == error));
    let (state, action) = load_step(LoadState::Done, LoadEvent::Failed { error });
    assert!(matches!(state, LoadState::Done));
    assert!(matches!(action, LoadAction::Wait));
}

#[test]
fn expand_batch_checks_names_and_references() {
    let needs = vec![(id(1), raw("base", None, &[], vec![("status", status_ref())]))];
    let expanded = expand_batch(&status_bank(), needs).unwrap();
    assert_eq!(expanded.len(), 1);
    assert_eq!(expanded[0].id, id(1));
    assert!(expanded[0].properties.has(&PropertyName::try_new("status").unwrap()));
    let bad = vec![(id(1), raw("base", Some("Bad Parent"), &[], vec![]))];
    assert!(matches!(expand_batch(&PropertyBank::new(), bad), Err(SchemaLoaderError::Resolution(SchemaError::SchemaName(_)))));
}

#[test]
fn resolving_nothing_gives_nothing() {
    let none = resolve_expanded(vec![], vec![], &IdMap::new()).unwrap();
    assert!(none.is_empty());
}
