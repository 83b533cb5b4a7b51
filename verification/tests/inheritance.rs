use lithos_core::identifier::SchemaId;
use lithos_core::inheritance::{affected_subtree, InheritanceGraph, SchemaGraphBuilder};

#[test]
fn affected_subtree_computes_all_descendants() {
    let a = SchemaId::new().unwrap();
    let b = SchemaId::new().unwrap();
    let c = SchemaId::new().unwrap();
    let d = SchemaId::new().unwrap();
    let e = SchemaId::new().unwrap();
    let mut builder = SchemaGraphBuilder::new();
    builder.add_node(a, ());
    builder.add_node(b, ());
    builder.add_node(c, ());
    builder.add_node(d, ());
    builder.add_node(e, ());
    builder.add_parent(b, a);
    builder.add_parent(c, b);
    builder.add_parent(d, b);
    builder.add_parent(e, c);
    let graph = builder.build();
    let changed = vec![b];
    let affected = affected_subtree(graph.as_inner(), &changed);
    assert!(affected.contains(&b));
    assert!(affected.contains(&c));
    assert!(affected.contains(&d));
    assert!(affected.contains(&e));
    assert!(!affected.contains(&a));
}

#[test]
fn affected_subtree_handles_multiple_roots() {
    let a = SchemaId::new().unwrap();
    let b = SchemaId::new().unwrap();
    let c = SchemaId::new().unwrap();
    let mut builder = SchemaGraphBuilder::new();
    builder.add_node(a, ());
    builder.add_node(b, ());
    builder.add_node(c, ());
    builder.add_parent(c, a);
    let graph = builder.build();
    let changed = vec![a, b];
    let affected = affected_subtree(graph.as_inner(), &changed);
    assert!(affected.contains(&a));
    assert!(affected.contains(&b));
    assert!(affected.contains(&c));
}

#[test]
fn inheritance_graph_validates_dag() {
    let parent = SchemaId::new().unwrap();
    let child = SchemaId::new().unwrap();
    let mut builder = SchemaGraphBuilder::new();
    builder.add_node(parent, ());
    builder.add_node(child, ());
    builder.add_parent(child, parent);
    let graph = builder.build();
    let dag = InheritanceGraph::try_from(graph).expect("valid DAG");
    assert_eq!(dag.roots(), &[parent]);
    assert_eq!(dag.topo_order().first(), Some(&parent));
    assert!(dag.topo_order().contains(&child));
    assert_eq!(dag.parents_of(child), &[parent]);
    assert_eq!(dag.children_of(parent), &[child]);
}

#[test]
fn inheritance_graph_detects_cycles() {
    let a = SchemaId::new().unwrap();
    let b = SchemaId::new().unwrap();
    let mut builder = SchemaGraphBuilder::new();
    builder.add_node(a, ());
    builder.add_node(b, ());
    builder.add_parent(a, b);
    builder.add_parent(b, a);
    let graph = builder.build();
    assert!(graph.topo_order().is_err());
    let result = InheritanceGraph::try_from(graph);
    assert!(result.is_err());
}

#[test]
fn node_ids_sorted_orders_by_value() {
    let mut builder = SchemaGraphBuilder::new();
    builder.add_node(SchemaId::from_u128(5), ());
    builder.add_node(SchemaId::from_u128(2), ());
    builder.add_node(SchemaId::from_u128(9), ());
    let graph = builder.build();
    assert_eq!(
        graph.node_ids_sorted(),
        vec![SchemaId::from_u128(2), SchemaId::from_u128(5), SchemaId::from_u128(9)]
    );
}

#[test]
fn inheritance_graph_computes_depths() {
    let parent = SchemaId::from_u128(1);
    let child = SchemaId::from_u128(2);

    let mut builder = SchemaGraphBuilder::new();
    builder.add_node(parent, ());
    builder.add_node(child, ());
    builder.add_parent(child, parent);

    let graph = builder.build();
    let adjacency = lithos_core::graph::AdjacencyMap::from_graph(graph.as_inner());
    let order = graph.topo_order().expect("valid DAG");
    let dag = InheritanceGraph::try_from(graph).expect("valid DAG");
    assert_eq!(dag.topo_order(), order.as_slice());

    let depths = lithos_core::graph::compute_depths(&lithos_core::idmap::IdMap::new(), &order, &order, &adjacency);

    assert_eq!(depths.get(&parent).map(|d| d.as_usize()), Some(lithos_core::graph::NodeDepth::root().as_usize()));
    assert_eq!(depths.get(&child).map(|d| d.as_usize()), Some(lithos_core::graph::NodeDepth::new(1).as_usize()));
}

#[test]
fn to_dag_graph_rebuilds_the_same_links() {
    let a = SchemaId::from_u128(1);
    let b = SchemaId::from_u128(2);
    let c = SchemaId::from_u128(3);
    let mut builder = SchemaGraphBuilder::new();
    builder.add_node(a, 10u32);
    builder.add_node(b, 20u32);
    builder.add_node(c, 30u32);
    builder.add_parent(b, a);
    builder.add_parent(c, b);
    let dag = builder.build().try_into_dag().unwrap();
    let copy = dag.to_dag_graph().unwrap();
    assert_eq!(copy.parents_of(b), &[a]);
    assert_eq!(copy.parents_of(c), &[b]);
    assert!(copy.parents_of(a).is_empty());
    assert_eq!(copy.topo_order(), &[a, b, c]);
    assert_eq!(copy.iter().len(), 3);
}
