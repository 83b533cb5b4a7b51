use lithos_core::discovery::{cached_schema_id, detect_deleted_schemas, is_cold_start, separate_property_bank};
use lithos_core::identifier::SchemaId;
use lithos_core::inheritance::{InheritanceGraph, SchemaGraphBuilder};

#[test]
fn property_bank_is_separated_from_schemas() {
    let entries = vec![
        ("schemas/task.json".to_string(), 1),
        ("schemas/property_bank.json".to_string(), 2),
        ("schemas/note.yaml".to_string(), 3),
    ];
    let (bank, schemas) = separate_property_bank(entries, "schemas/property_bank.json");
    assert_eq!(bank, Some(2));
    assert_eq!(
        schemas,
        vec![("schemas/task.json".to_string(), 1), ("schemas/note.yaml".to_string(), 3)]
    );
    let (none, all) = separate_property_bank(vec![("a".to_string(), 0)], "b");
    assert_eq!(none, None);
    assert_eq!(all.len(), 1);
}

#[test]
fn cached_schemas_get_their_stored_id() {
    let id = SchemaId::from_u128(5);
    assert_eq!(cached_schema_id(true, Some(id)).unwrap(), Some(id));
    assert!(cached_schema_id(true, None).unwrap().is_some());
    assert_eq!(cached_schema_id(false, Some(id)).unwrap(), None);
}

#[test]
fn deleted_schemas_are_those_missing_from_the_scan() {
    let a = SchemaId::from_u128(1);
    let b = SchemaId::from_u128(2);
    let c = SchemaId::from_u128(3);
    let mut builder = SchemaGraphBuilder::new();
    builder.add_node(a, ());
    builder.add_node(b, ());
    builder.add_node(c, ());
    builder.add_parent(b, a);
    let graph = InheritanceGraph::try_from(builder.build()).unwrap();
    let deleted = detect_deleted_schemas(&graph, &[b]);
    let mut sorted = deleted.clone();
    sorted.sort();
    assert_eq!(sorted, vec![a, c]);
    let expected: Vec<SchemaId> = graph.topo_order().iter().copied().filter(|x| *x != b).collect();
    assert_eq!(deleted, expected);
}

#[test]
fn cold_start_means_nothing_cached() {
    assert!(is_cold_start(false, false, false));
    assert!(!is_cold_start(true, false, false));
    assert!(!is_cold_start(false, true, false));
    assert!(!is_cold_start(false, false, true));
}
