use lithos_core::graph::{compute_depths, AdjacencyMap, ChildParentsMap, Edge, EdgeAccessor, Graph, Node, NodeDepth};
use lithos_core::identifier::SchemaId;
use lithos_core::idmap::IdMap;

#[test]
fn node_depth_root_is_zero() {
    assert_eq!(NodeDepth::root().as_usize(), 0);
}

#[test]
fn graph_from_child_parents_builds_edges() {
    let parent = SchemaId::new().unwrap();
    let child = SchemaId::new().unwrap();
    let mut map = ChildParentsMap::new();
    map.insert(child, vec![parent]);
    map.insert(parent, Vec::new());
    let graph: Graph<(), ()> = Graph::from_child_parents_map(map, |_id, _parents| ());
    assert_eq!(graph.edges().len(), 1);
    let edge = graph.edges().first().expect("edge");
    assert_eq!(edge.from(), parent);
    assert_eq!(edge.to(), child);
}

#[test]
fn adjacency_lists_are_sorted_and_deduplicated() {
    let a = SchemaId::from_u128(1);
    let b = SchemaId::from_u128(2);
    let c = SchemaId::from_u128(3);
    let adj = AdjacencyMap::from_nodes_and_edges(&[a], &[(c, a), (b, a), (c, a)]);
    assert_eq!(adj.parents_of(a), &[b, c]);
    assert_eq!(adj.children_of(c), &[a]);
    assert_eq!(adj.node_count(), 1);
    assert!(adj.parents_of(SchemaId::from_u128(99)).is_empty());
}

#[test]
fn depths_follow_parents() {
    let a = SchemaId::from_u128(1);
    let b = SchemaId::from_u128(2);
    let c = SchemaId::from_u128(3);
    let adj = AdjacencyMap::from_nodes_and_edges(&[a, b, c], &[(a, b), (b, c)]);
    let depths = compute_depths(&IdMap::new(), &[a, b, c], &[a, b, c], &adj);
    assert_eq!(depths.get(&a).map(|d| d.as_usize()), Some(0));
    assert_eq!(depths.get(&b).map(|d| d.as_usize()), Some(1));
    assert_eq!(depths.get(&c).map(|d| d.as_usize()), Some(2));
}

#[test]
fn remove_node_drops_its_edges() {
    let a = SchemaId::from_u128(1);
    let b = SchemaId::from_u128(2);
    let mut g: Graph<u8, ()> = Graph::new();
    g.add_node(a, 1);
    g.add_node(b, 2);
    g.add_edge_with(a, b, ());
    let removed = g.remove_node(a);
    assert_eq!(removed.map(|n| *n.payload()), Some(1));
    assert!(g.edges().is_empty());
    assert!(g.node(b).is_some());
    assert!(g.node(a).is_none());
}

#[test]
fn node_depth_increment_saturates() {
    assert_eq!(NodeDepth::new(usize::MAX).increment().as_usize(), usize::MAX);
    assert_eq!(NodeDepth::new(4).increment().as_usize(), 5);
}

#[test]
fn payload_and_relation_can_be_changed_in_place() {
    let mut node = Node::new(5u32);
    *node.payload_mut() += 1;
    assert_eq!(*node.payload(), 6);
    assert_eq!(node.depth().as_usize(), 0);

    let mut edge = Edge::new(SchemaId::from_u128(1), SchemaId::from_u128(2), 1u8);
    *edge.relation_mut() = 9;
    assert_eq!(*edge.relation(), 9);
    assert_eq!(edge.from(), SchemaId::from_u128(1));
}

#[test]
fn adjacency_map_serves_edge_accessor() {
    let a = SchemaId::from_u128(1);
    let b = SchemaId::from_u128(2);
    let adj = AdjacencyMap::from_nodes_and_edges(&[a, b], &[(a, b)]);
    assert_eq!(EdgeAccessor::children_of(&adj, a), &[b]);
    assert_eq!(EdgeAccessor::parents_of(&adj, b), &[a]);
}

#[test]
fn reset_depths_puts_listed_nodes_back_at_the_root() {
    let a = SchemaId::from_u128(1);
    let b = SchemaId::from_u128(2);
    let c = SchemaId::from_u128(3);
    let mut graph: Graph<Node<u8>, ()> = Graph::new();
    graph.add_node(a, Node::new(1));
    graph.add_node(b, Node::new(2));
    graph.add_edge(a, b);
    let mut deep = Node::new(3);
    deep.set_depth(NodeDepth::new(4));
    graph.add_node(c, deep);
    assert_eq!(graph.node(c).expect("node").payload().depth().as_usize(), 4);
    graph.reset_depths(&[c, SchemaId::from_u128(99)]);
    assert_eq!(graph.node_depth(a).map(|d| d.as_usize()), Some(0));
    let payload = graph.node(c).expect("node").payload();
    assert_eq!(payload.depth().as_usize(), 0);
    assert_eq!(*payload.payload(), 3);
    assert_eq!(graph.edges().len(), 1);
    assert_eq!(graph.nodes().len(), 3);
}

#[test]
fn node_count_covers_nodes_and_edge_targets_only() {
    let x = SchemaId::from_u128(1);
    let y = SchemaId::from_u128(2);
    let mut graph: Graph<(), ()> = Graph::new();
    graph.add_edge(x, y);
    let adj = AdjacencyMap::from_graph(&graph);
    assert_eq!(adj.node_count(), 1);
    assert_eq!(adj.children_of(x), &[y]);
    assert_eq!(adj.parents_of(y), &[x]);
    assert_eq!(AdjacencyMap::from_nodes_and_edges(&[x], &[(x, y)]).node_count(), 2);
}
