use lithos_core::aggregate::Schema;
use lithos_core::error::{SchemaError, SchemaInheritanceError, SchemaResolutionError};
use lithos_core::extender::{ExpandedSchema, Extender, NodeDepth};
use lithos_core::identifier::{SchemaId, SchemaName};
use lithos_core::idmap::IdMap;
use lithos_core::property::PropertyMap;

fn expanded(id: SchemaId, name: &str, extends: Option<&str>) -> ExpandedSchema {
    ExpandedSchema {
        id,
        name: name.into(),
        extends: extends.map(|p| SchemaName::try_new(p).unwrap()),
        excludes: Vec::new(),
        properties: PropertyMap::new(),
    }
}

#[test]
fn node_depth_root() {
    let depth = NodeDepth::root();
    assert_eq!(depth.get(), 1);
}

#[test]
fn node_depth_increment() {
    let depth = NodeDepth::root().increment();
    assert_eq!(depth.get(), 2);
    let depth = depth.increment();
    assert_eq!(depth.get(), 3);
}

#[test]
fn node_depth_exceeds() {
    let depth = NodeDepth::root().increment().increment();
    assert!(!depth.exceeds(10));
    assert!(!depth.exceeds(3));
    assert!(depth.exceeds(2));
}

#[test]
fn node_depth_display() {
    let depth = NodeDepth::root().increment().increment();
    assert_eq!(depth.to_text(), "3");
}

#[test]
fn node_depth_saturates_on_increment() {
    let max_depth = NodeDepth::new(usize::MAX);
    let result = max_depth.increment();
    assert_eq!(result.get(), usize::MAX);
}

#[test]
fn extender_orders_parent_before_child_and_links_children() {
    let parent_id = SchemaId::from_u128(1);
    let child_id = SchemaId::from_u128(2);
    let tree = Extender::build(
        vec![expanded(child_id, "child", Some("parent")), expanded(parent_id, "parent", None)],
        &IdMap::new(),
    )
    .unwrap();
    assert_eq!(tree.nodes(), &[parent_id, child_id]);
    assert_eq!(tree.roots(), &[parent_id]);
    let parent = tree.get(parent_id).unwrap();
    assert!(parent.children.contains(&child_id));
    assert_eq!(parent.depth.get(), 1);
    assert_eq!(tree.get(child_id).unwrap().depth.get(), 2);
}

#[test]
fn extender_reports_missing_parent_and_cycles() {
    let id = SchemaId::from_u128(3);
    let missing = Extender::build(vec![expanded(id, "child", Some("nonexistent"))], &IdMap::new());
    assert!(matches!(missing, Err(SchemaError::Inheritance(SchemaInheritanceError::ParentNotFound { .. }))));
    let a = SchemaId::from_u128(10);
    let b = SchemaId::from_u128(11);
    let c = SchemaId::from_u128(12);
    let cycle = Extender::build(
        vec![expanded(a, "a", Some("c")), expanded(b, "b", Some("a")), expanded(c, "c", Some("b"))],
        &IdMap::new(),
    );
    assert!(matches!(cycle, Err(SchemaError::Inheritance(SchemaInheritanceError::CircularInheritance { .. }))));
}

#[test]
fn extender_accepts_known_parent() {
    let parent_id = SchemaId::from_u128(1);
    let child_id = SchemaId::from_u128(2);
    let mut known = IdMap::new();
    known.insert(parent_id, Schema::new(parent_id, SchemaName::try_new("parent").unwrap(), vec![], vec![], PropertyMap::new()));
    let tree = Extender::build(vec![expanded(child_id, "child", Some("parent"))], &known).unwrap();
    assert_eq!(tree.nodes(), &[child_id]);
    assert_eq!(tree.get(child_id).unwrap().parent_id, Some(parent_id));
}

#[test]
fn extender_rejects_duplicate_names() {
    let result = Extender::build(
        vec![expanded(SchemaId::from_u128(1), "dup", None), expanded(SchemaId::from_u128(2), "dup", None)],
        &IdMap::new(),
    );
    assert!(result.is_err());
}

const PARENT_ID: u128 = 0x018C_0000_0000_7000_8000_0000_0000_0001;
const CHILD_ID: u128 = 0x018C_0000_0000_7000_8000_0000_0000_0002;
const ORPHAN_ID: u128 = 0x018C_0000_0000_7000_8000_0000_0000_0003;

#[test]
fn empty_input_returns_empty_tree() -> Result<(), SchemaError> {
    let tree = Extender::build(vec![], &IdMap::new())?;
    assert!(tree.nodes().is_empty());
    assert!(tree.roots().is_empty());
    Ok(())
}

#[test]
fn single_root_schema() -> Result<(), SchemaError> {
    let id = SchemaId::from_u128(PARENT_ID);
    let tree = Extender::build(vec![expanded(id, "root", None)], &IdMap::new())?;
    assert_eq!(tree.nodes(), &[id]);
    assert_eq!(tree.roots(), &[id]);
    assert!(tree.get(id).is_some());
    Ok(())
}

#[test]
fn parent_before_child_in_order() -> Result<(), SchemaError> {
    let parent_id = SchemaId::from_u128(PARENT_ID);
    let child_id = SchemaId::from_u128(CHILD_ID);
    let tree = Extender::build(
        vec![expanded(child_id, "child", Some("parent")), expanded(parent_id, "parent", None)],
        &IdMap::new(),
    )?;
    let order = tree.nodes();
    let parent_pos = order.iter().position(|&x| x == parent_id).expect("parent in order");
    let child_pos = order.iter().position(|&x| x == child_id).expect("child in order");
    assert!(parent_pos < child_pos, "Parent must appear before child in topological order");
    Ok(())
}

#[test]
fn external_db_parent_is_accepted() -> Result<(), SchemaError> {
    let parent_id = SchemaId::from_u128(PARENT_ID);
    let child_id = SchemaId::from_u128(CHILD_ID);
    let parent_schema = Schema::new(parent_id, SchemaName::try_new("parent")?, vec![], vec![], PropertyMap::new());
    let mut known_parents = IdMap::new();
    known_parents.insert(parent_id, parent_schema);
    let tree = Extender::build(vec![expanded(child_id, "child", Some("parent"))], &known_parents)?;
    assert_eq!(tree.nodes(), &[child_id]);
    Ok(())
}

#[test]
fn missing_parent_returns_error() {
    let child_id = SchemaId::from_u128(CHILD_ID);
    let result = Extender::build(vec![expanded(child_id, "child", Some("nonexistent"))], &IdMap::new());
    assert!(
        matches!(result, Err(SchemaError::Inheritance(SchemaInheritanceError::ParentNotFound { .. }))),
        "Expected ParentNotFound, got: {result:?}"
    );
}

#[test]
fn cycle_detection_returns_error() {
    let id = SchemaId::from_u128(ORPHAN_ID);
    let result = Extender::build(vec![expanded(id, "self", Some("self"))], &IdMap::new());
    assert!(
        matches!(
            result,
            Err(SchemaError::Inheritance(
                SchemaInheritanceError::CircularInheritance { .. } | SchemaInheritanceError::ParentNotFound { .. }
            ))
        ),
        "Expected cycle or missing parent error, got: {result:?}"
    );
}

#[test]
fn cycle_detection_multi_node_cycle() {
    let id_a = SchemaId::from_u128(0x018C_0000_0000_7000_8000_0000_0000_1001);
    let id_b = SchemaId::from_u128(0x018C_0000_0000_7000_8000_0000_0000_1002);
    let id_c = SchemaId::from_u128(0x018C_0000_0000_7000_8000_0000_0000_1003);
    let result = Extender::build(
        vec![expanded(id_a, "a", Some("c")), expanded(id_b, "b", Some("a")), expanded(id_c, "c", Some("b"))],
        &IdMap::new(),
    );
    assert!(
        matches!(result, Err(SchemaError::Inheritance(SchemaInheritanceError::CircularInheritance { .. }))),
        "Should detect multi-node cycle, got: {result:?}"
    );
}

#[test]
fn children_wired_on_in_batch_parent() -> Result<(), SchemaError> {
    let parent_id = SchemaId::from_u128(PARENT_ID);
    let child_id = SchemaId::from_u128(CHILD_ID);
    let tree = Extender::build(
        vec![expanded(parent_id, "parent", None), expanded(child_id, "child", Some("parent"))],
        &IdMap::new(),
    )?;
    let parent_node = tree.get(parent_id).expect("parent node");
    assert!(parent_node.children.contains(&child_id), "Parent node should list child as a child");
    Ok(())
}

#[test]
fn node_depth_default_is_root_and_converts_to_usize() {
    assert_eq!(NodeDepth::default(), NodeDepth::root());
    assert_eq!(usize::from(NodeDepth::default()), 1);
    assert_eq!(usize::from(NodeDepth::new(7)), 7);
}

#[test]
fn cycle_error_names_a_schema_on_the_cycle() {
    let root = SchemaId::from_u128(20);
    let a = SchemaId::from_u128(21);
    let b = SchemaId::from_u128(22);
    let tail = SchemaId::from_u128(23);
    let result = Extender::build(
        vec![
            expanded(root, "root", None),
            expanded(tail, "tail", Some("a")),
            expanded(a, "a", Some("b")),
            expanded(b, "b", Some("a")),
        ],
        &IdMap::new(),
    );
    match result {
        Err(SchemaError::Inheritance(SchemaInheritanceError::CircularInheritance { name })) => {
            assert!(name == "a" || name == "b", "unexpected cycle member {name}");
        }
        other => panic!("expected a circular inheritance error, got {other:?}"),
    }
}

#[test]
fn order_is_breadth_first_with_names_sorted() {
    let zeta = SchemaId::from_u128(30);
    let alpha = SchemaId::from_u128(31);
    let mid2 = SchemaId::from_u128(32);
    let mid1 = SchemaId::from_u128(33);
    let under_zeta = SchemaId::from_u128(34);
    let leaf = SchemaId::from_u128(35);
    let tree = Extender::build(
        vec![
            expanded(leaf, "leaf", Some("mid1")),
            expanded(zeta, "zeta", None),
            expanded(mid2, "mid2", Some("alpha")),
            expanded(under_zeta, "c", Some("zeta")),
            expanded(alpha, "alpha", None),
            expanded(mid1, "mid1", Some("alpha")),
        ],
        &IdMap::new(),
    )
    .unwrap();
    assert_eq!(tree.nodes(), &[alpha, zeta, mid1, mid2, under_zeta, leaf]);
    assert_eq!(tree.roots(), &[alpha, zeta]);
    assert_eq!(tree.get(leaf).unwrap().depth.get(), 3);
}

#[test]
fn duplicate_batch_names_fail_even_when_a_known_schema_has_the_name() {
    let known_id = SchemaId::from_u128(40);
    let mut known = IdMap::new();
    known.insert(known_id, Schema::new(known_id, SchemaName::try_new("dup").unwrap(), vec![], vec![], PropertyMap::new()));
    let result = Extender::build(
        vec![expanded(SchemaId::from_u128(41), "dup", None), expanded(SchemaId::from_u128(42), "dup", None)],
        &known,
    );
    match result {
        Err(SchemaError::Resolution(SchemaResolutionError::DuplicateSchemaName { name })) => assert_eq!(name, "dup"),
        other => panic!("expected a duplicate name error, got {other:?}"),
    }
}
