//! Schema graphs: nodes with depths and payloads, directed parent→child
//! edges, adjacency lists, and depth computation over a topological order.

use vstd::prelude::*;

use crate::identifier::SchemaId;
use crate::idmap::{key_seq, IdMap};
use crate::sort::{contains_id, sort_dedup_ids, strictly_increasing_ids};

verus! {

// ─────────────────────────────────────────────────────────────────────────────
//  Depth
// ─────────────────────────────────────────────────────────────────────────────

/// Depth of a node: 0 for a root, one more than its deepest parent otherwise.
#[derive(Debug, Clone, Copy, PartialEq, Eq, Structural, Hash, PartialOrd, Ord)]
pub struct NodeDepth {
    depth: usize,
}

impl NodeDepth {
    /// The depth as a number.
    pub closed spec fn value(self) -> usize {
        self.depth
    }

    /// Depths are equal exactly when their numbers are.
    pub broadcast proof fn lemma_value_injective(a: NodeDepth, b: NodeDepth)
        ensures
            (#[trigger] a.value() == #[trigger] b.value()) == (a == b),
    {
    }

    /// The depth of a root.
    pub fn root() -> (d: NodeDepth)
        ensures
            d.value() == 0,
    {
        NodeDepth { depth: 0 }
    }

    /// The depth `depth`.
    pub fn new(depth: usize) -> (d: NodeDepth)
        ensures
            d.value() == depth,
    {
        NodeDepth { depth }
    }

    /// The depth as a number.
    pub fn as_usize(self) -> (n: usize)
        ensures
            n == self.value(),
    {
        self.depth
    }

    /// One level deeper, staying at `usize::MAX` once there.
    pub fn increment(self) -> (d: NodeDepth)
        ensures
            d.value() == saturating_inc(self.value()),
    {
        if self.depth == usize::MAX {
            NodeDepth { depth: self.depth }
        } else {
            NodeDepth { depth: self.depth + 1 }
        }
    }
}

/// `n + 1`, saturating at `usize::MAX`.
pub open spec fn saturating_inc(n: usize) -> usize {
    if n == usize::MAX {
        n
    } else {
        (n + 1) as usize
    }
}

// ─────────────────────────────────────────────────────────────────────────────
//  Nodes and edges
// ─────────────────────────────────────────────────────────────────────────────

/// A graph node: its depth and payload. New nodes are roots.
#[derive(Debug, Clone)]
pub struct Node<T> {
    depth: NodeDepth,
    payload: T,
}

impl<T> Node<T> {
    /// The node's depth.
    pub closed spec fn spec_depth(self) -> NodeDepth {
        self.depth
    }

    /// The node's payload.
    pub closed spec fn spec_payload(self) -> T {
        self.payload
    }

    /// A root node carrying `payload`.
    pub fn new(payload: T) -> (n: Node<T>)
        ensures
            n.spec_depth().value() == 0,
            n.spec_payload() == payload,
    {
        Node { depth: NodeDepth::root(), payload }
    }

    /// The node's depth.
    pub fn depth(&self) -> (d: NodeDepth)
        ensures
            d == self.spec_depth(),
    {
        self.depth
    }

    /// Sets the node's depth.
    pub fn set_depth(&mut self, depth: NodeDepth)
        ensures
            final(self).spec_depth() == depth,
            final(self).spec_payload() == old(self).spec_payload(),
    {
        self.depth = depth;
    }

    /// The payload, for in-place changes; the depth stays.
    pub fn payload_mut(&mut self) -> (r: &mut T)
        ensures
            *r == old(self).spec_payload(),
            final(self).spec_payload() == *final(r),
            final(self).spec_depth() == old(self).spec_depth(),
    {
        &mut self.payload
    }

    /// The node's payload.
    pub fn payload(&self) -> (p: &T)
        ensures
            *p == self.spec_payload(),
    {
        &self.payload
    }

    /// The node's payload, taking the node apart.
    pub fn into_payload(self) -> (p: T)
        ensures
            p == self.spec_payload(),
    {
        self.payload
    }
}

/// A directed edge `from → to` (parent to child) with a relation value.
#[derive(Debug, Clone)]
pub struct Edge<R> {
    from: SchemaId,
    to: SchemaId,
    relation: R,
}

impl<R> Edge<R> {
    /// The edge's source.
    pub closed spec fn spec_from(self) -> SchemaId {
        self.from
    }

    /// The edge's target.
    pub closed spec fn spec_to(self) -> SchemaId {
        self.to
    }

    /// The edge's relation value.
    pub closed spec fn spec_relation(self) -> R {
        self.relation
    }

    /// The edge `from → to`.
    pub fn new(from: SchemaId, to: SchemaId, relation: R) -> (e: Edge<R>)
        ensures
            e.spec_from() == from,
            e.spec_to() == to,
            e.spec_relation() == relation,
    {
        Edge { from, to, relation }
    }

    /// The edge's source.
    pub fn from(&self) -> (id: SchemaId)
        ensures
            id == self.spec_from(),
    {
        self.from
    }

    /// The edge's target.
    pub fn to(&self) -> (id: SchemaId)
        ensures
            id == self.spec_to(),
    {
        self.to
    }

    /// The edge's relation value.
    pub fn relation(&self) -> (r: &R)
        ensures
            *r == self.spec_relation(),
    {
        &self.relation
    }

    /// The relation value, for in-place changes; the endpoints stay.
    pub fn relation_mut(&mut self) -> (r: &mut R)
        ensures
            *r == old(self).spec_relation(),
            final(self).spec_relation() == *final(r),
            final(self).spec_from() == old(self).spec_from(),
            final(self).spec_to() == old(self).spec_to(),
    {
        &mut self.relation
    }
}

/// The `(from, to)` pairs of a sequence of edges.
pub open spec fn edge_pairs<R>(edges: Seq<Edge<R>>) -> Seq<(SchemaId, SchemaId)> {
    edges.map_values(|e: Edge<R>| (e.spec_from(), e.spec_to()))
}

// ─────────────────────────────────────────────────────────────────────────────
//  Graph
// ─────────────────────────────────────────────────────────────────────────────

/// A directed graph of schema nodes (distinct identifiers, insertion order)
/// and parent→child edges.
#[derive(Debug)]
pub struct Graph<T, R> {
    nodes: IdMap<Node<T>>,
    edges: Vec<Edge<R>>,
}

impl<T, R> Graph<T, R> {
    #[verifier::type_invariant]
    spec fn inv(self) -> bool {
        self.nodes.wf()
    }

    /// The nodes by identifier.
    pub closed spec fn spec_nodes(self) -> Map<SchemaId, Node<T>> {
        self.nodes@
    }

    /// The node identifiers and nodes, in insertion order.
    pub closed spec fn spec_node_pairs(self) -> Seq<(SchemaId, Node<T>)> {
        self.nodes.pairs()
    }

    /// The edges, in insertion order.
    pub closed spec fn spec_edges(self) -> Seq<Edge<R>> {
        self.edges@
    }

    /// An empty graph.
    pub fn new() -> (g: Graph<T, R>)
        ensures
            g.spec_nodes() == Map::<SchemaId, Node<T>>::empty(),
            g.spec_node_pairs().len() == 0,
            g.spec_edges().len() == 0,
    {
        Graph { nodes: IdMap::new(), edges: Vec::new() }
    }

    /// The nodes.
    pub fn nodes(&self) -> (r: &IdMap<Node<T>>)
        ensures
            r@ == self.spec_nodes(),
            r.pairs() == self.spec_node_pairs(),
            r.wf(),
    {
        proof {
            use_type_invariant(self);
        }
        &self.nodes
    }

    /// The edges.
    pub fn edges(&self) -> (r: &Vec<Edge<R>>)
        ensures
            r@ == self.spec_edges(),
    {
        &self.edges
    }

    /// The nodes and edges, taking the graph apart.
    pub fn into_parts(self) -> (r: (IdMap<Node<T>>, Vec<Edge<R>>))
        ensures
            r.0@ == self.spec_nodes(),
            r.0.pairs() == self.spec_node_pairs(),
            r.0.wf(),
            r.1@ == self.spec_edges(),
    {
        proof {
            use_type_invariant(&self);
        }
        (self.nodes, self.edges)
    }

    /// Adds (or replaces) the node `id` as a root carrying `payload`.
    pub fn add_node(&mut self, id: SchemaId, payload: T)
        ensures
            final(self).spec_nodes() == old(self).spec_nodes().insert(id, final(self).spec_nodes()[id]),
            final(self).spec_nodes()[id].spec_depth().value() == 0,
            final(self).spec_nodes()[id].spec_payload() == payload,
            final(self).spec_edges() == old(self).spec_edges(),
            !old(self).spec_nodes().contains_key(id) ==> final(self).spec_node_pairs() == old(self).spec_node_pairs().push(
                (id, final(self).spec_nodes()[id]),
            ),
            old(self).spec_nodes().contains_key(id) ==> key_seq(final(self).spec_node_pairs()) == key_seq(
                old(self).spec_node_pairs(),
            ),
    {
        proof {
            use_type_invariant(&*self);
        }
        let mut nodes = IdMap::new();
        std::mem::swap(&mut nodes, &mut self.nodes);
        nodes.insert(id, Node::new(payload));
        self.nodes = nodes;
    }

    /// Removes the node `id` and every edge that touches it, giving the node back.
    pub fn remove_node(&mut self, id: SchemaId) -> (r: Option<Node<T>>)
        ensures
            final(self).spec_nodes() == old(self).spec_nodes().remove(id),
            r == (if old(self).spec_nodes().contains_key(id) {
                Some(old(self).spec_nodes()[id])
            } else {
                None::<Node<T>>
            }),
            final(self).spec_edges() == old(self).spec_edges().filter(
                |e: Edge<R>| e.spec_from() != id && e.spec_to() != id,
            ),
    {
        proof {
            use_type_invariant(&*self);
        }
        let mut edges: Vec<Edge<R>> = Vec::new();
        std::mem::swap(&mut edges, &mut self.edges);
        let ghost old_edges = edges@;
        let mut kept: Vec<Edge<R>> = Vec::new();
        let ghost keep = |e: Edge<R>| e.spec_from() != id && e.spec_to() != id;
        let mut rest = edges;
        proof {
            reveal(Seq::filter);
            assert(old_edges.take(0).filter(keep) =~= Seq::<Edge<R>>::empty());
        }
        while rest.len() > 0
            invariant
                rest@.len() <= old_edges.len(),
                rest@ == old_edges.skip(old_edges.len() - rest@.len()),
                kept@ == old_edges.take(old_edges.len() - rest@.len()).filter(keep),
                forall|x: Edge<R>| #[trigger] keep(x) == (x.spec_from() != id && x.spec_to() != id),
            decreases rest@.len(),
        {
            let ghost n = old_edges.len() - rest@.len();
            let e = rest.remove(0);
            proof {
                assert(e == old_edges[n]);
                assert(old_edges.take(n + 1).drop_last() =~= old_edges.take(n));
                assert(old_edges.take(n + 1).last() == e);
                assert(old_edges.take(n + 1).filter(keep) == (if keep(e) {
                    old_edges.take(n).filter(keep).push(e)
                } else {
                    old_edges.take(n).filter(keep)
                })) by {
                    reveal(Seq::filter);
                }
            }
            if e.from != id && e.to != id {
                kept.push(e);
            }
        }
        proof {
            assert(old_edges.take(old_edges.len() as int) =~= old_edges);
        }
        self.edges = kept;
        let mut nodes = IdMap::new();
        std::mem::swap(&mut nodes, &mut self.nodes);
        let r = nodes.remove(&id);
        self.nodes = nodes;
        r
    }

    /// The node `id`.
    pub fn node(&self, id: SchemaId) -> (r: Option<&Node<T>>)
        ensures
            (r is Some) == self.spec_nodes().contains_key(id),
            r matches Some(n) ==> *n == self.spec_nodes()[id],
    {
        proof {
            use_type_invariant(self);
        }
        self.nodes.get(&id)
    }

    /// The depth of node `id`.
    pub fn node_depth(&self, id: SchemaId) -> (r: Option<NodeDepth>)
        ensures
            (r is Some) == self.spec_nodes().contains_key(id),
            r matches Some(d) ==> d == self.spec_nodes()[id].spec_depth(),
    {
        match self.node(id) {
            Some(n) => Some(n.depth()),
            None => None,
        }
    }

    /// Adds the edge `from → to` with the given relation.
    pub fn add_edge_with(&mut self, from: SchemaId, to: SchemaId, relation: R)
        ensures
            final(self).spec_edges().len() == old(self).spec_edges().len() + 1,
            edge_pairs(final(self).spec_edges()) == edge_pairs(old(self).spec_edges()).push((from, to)),
            final(self).spec_edges().last().spec_relation() == relation,
            final(self).spec_nodes() == old(self).spec_nodes(),
            final(self).spec_node_pairs() == old(self).spec_node_pairs(),
    {
        proof {
            use_type_invariant(&*self);
        }
        let mut edges: Vec<Edge<R>> = Vec::new();
        std::mem::swap(&mut edges, &mut self.edges);
        edges.push(Edge::new(from, to, relation));
        self.edges = edges;
        proof {
            assert(edge_pairs(self.edges@) =~= edge_pairs(old(self).edges@).push((from, to)));
        }
    }

    /// Adds the edge `from → to` with the default relation.
    pub fn add_edge(&mut self, from: SchemaId, to: SchemaId)
        where R: Default,
        ensures
            final(self).spec_edges().len() == old(self).spec_edges().len() + 1,
            edge_pairs(final(self).spec_edges()) == edge_pairs(old(self).spec_edges()).push((from, to)),
            final(self).spec_nodes() == old(self).spec_nodes(),
            final(self).spec_node_pairs() == old(self).spec_node_pairs(),
    {
        self.add_edge_with(from, to, R::default());
    }

    /// Removes every edge `from → to`.
    pub fn remove_edge(&mut self, from: SchemaId, to: SchemaId)
        ensures
            final(self).spec_edges() == old(self).spec_edges().filter(
                |e: Edge<R>| !(e.spec_from() == from && e.spec_to() == to),
            ),
            final(self).spec_nodes() == old(self).spec_nodes(),
    {
        proof {
            use_type_invariant(&*self);
        }
        let mut edges: Vec<Edge<R>> = Vec::new();
        std::mem::swap(&mut edges, &mut self.edges);
        let ghost old_edges = edges@;
        let mut kept: Vec<Edge<R>> = Vec::new();
        let ghost keep = |e: Edge<R>| !(e.spec_from() == from && e.spec_to() == to);
        let mut rest = edges;
        proof {
            reveal(Seq::filter);
            assert(old_edges.take(0).filter(keep) =~= Seq::<Edge<R>>::empty());
        }
        while rest.len() > 0
            invariant
                rest@.len() <= old_edges.len(),
                rest@ == old_edges.skip(old_edges.len() - rest@.len()),
                kept@ == old_edges.take(old_edges.len() - rest@.len()).filter(keep),
                forall|x: Edge<R>| #[trigger] keep(x) == !(x.spec_from() == from && x.spec_to() == to),
            decreases rest@.len(),
        {
            let ghost n = old_edges.len() - rest@.len();
            let e = rest.remove(0);
            proof {
                assert(e == old_edges[n]);
                assert(old_edges.take(n + 1).drop_last() =~= old_edges.take(n));
                assert(old_edges.take(n + 1).last() == e);
                assert(old_edges.take(n + 1).filter(keep) == (if keep(e) {
                    old_edges.take(n).filter(keep).push(e)
                } else {
                    old_edges.take(n).filter(keep)
                })) by {
                    reveal(Seq::filter);
                }
            }
            if !(e.from == from && e.to == to) {
                kept.push(e);
            }
        }
        proof {
            assert(old_edges.take(old_edges.len() as int) =~= old_edges);
        }
        self.edges = kept;
    }

    /// Puts every listed node that the graph holds, and its payload, back at
    /// the root depth; the other nodes and the edges stay as they are.
    pub fn reset_depths(&mut self, ids: &[SchemaId])
        where T: NodeDepthMut,
        ensures
            final(self).spec_nodes().dom() == old(self).spec_nodes().dom(),
            final(self).spec_edges() == old(self).spec_edges(),
            forall|k: SchemaId|
                #![trigger final(self).spec_nodes()[k]]
                final(self).spec_nodes().contains_key(k) && ids@.contains(k)
                    ==> final(self).spec_nodes()[k].spec_depth().value() == 0,
            forall|k: SchemaId|
                #![trigger final(self).spec_nodes()[k]]
                final(self).spec_nodes().contains_key(k) && !ids@.contains(k)
                    ==> final(self).spec_nodes()[k] == old(self).spec_nodes()[k],
    {
        proof {
            use_type_invariant(&*self);
        }
        let mut nodes = IdMap::new();
        std::mem::swap(&mut nodes, &mut self.nodes);
        let ghost orig = nodes@;
        let mut i: usize = 0;
        while i < ids.len()
            invariant
                i <= ids.len(),
                nodes.wf(),
                nodes@.dom() == orig.dom(),
                forall|k: SchemaId|
                    #![trigger nodes@[k]]
                    nodes@.contains_key(k) && ids@.take(i as int).contains(k)
                        ==> nodes@[k].spec_depth().value() == 0,
                forall|k: SchemaId|
                    #![trigger nodes@[k]]
                    nodes@.contains_key(k) && !ids@.take(i as int).contains(k) ==> nodes@[k] == orig[k],
            decreases ids.len() - i,
        {
            let id = ids[i];
            let ghost before = nodes@;
            match nodes.remove(&id) {
                Some(mut node) => {
                    node.depth = NodeDepth::root();
                    node.payload.set_depth(NodeDepth::root());
                    nodes.insert(id, node);
                    proof {
                        assert(nodes@.dom() =~= before.dom());
                    }
                },
                None => {
                    proof {
                        assert(nodes@ =~= before);
                    }
                },
            }
            proof {
                assert(ids@.take(i + 1) =~= ids@.take(i as int).push(id));
                assert(ids@.take(i + 1)[i as int] == id);
                assert forall|k: SchemaId| nodes@.contains_key(k) && ids@.take(i + 1).contains(k) implies #[trigger] nodes@[k].spec_depth().value() == 0 by {
                    if k != id {
                        assert(ids@.take(i as int).contains(k));
                    }
                }
                assert forall|k: SchemaId| nodes@.contains_key(k) && !ids@.take(i + 1).contains(k) implies #[trigger] nodes@[k] == orig[k] by {
                    assert(k != id);
                    assert(!ids@.take(i as int).contains(k));
                }
            }
            i = i + 1;
        }
        proof {
            assert(ids@.take(ids.len() as int) =~= ids@);
        }
        self.nodes = nodes;
    }
}

// ─────────────────────────────────────────────────────────────────────────────
//  Adjacency
// ─────────────────────────────────────────────────────────────────────────────

/// `id` is an endpoint of one of the first `k` pairs.
pub open spec fn endpoint_before(edges: Seq<(SchemaId, SchemaId)>, k: int, id: SchemaId) -> bool {
    exists|j: int| 0 <= j < k && (#[trigger] edges[j]).0 == id || 0 <= j < k && edges[j].1 == id
}

/// `id` is an endpoint of some pair.
pub open spec fn is_endpoint(edges: Seq<(SchemaId, SchemaId)>, id: SchemaId) -> bool {
    endpoint_before(edges, edges.len() as int, id)
}

/// One of the first `k` pairs is `p`.
pub open spec fn pair_before(edges: Seq<(SchemaId, SchemaId)>, k: int, p: (SchemaId, SchemaId)) -> bool {
    exists|j: int| 0 <= j < k && #[trigger] edges[j] == p
}

/// `x` is one of the first `k` elements of `s`.
pub open spec fn id_before(s: Seq<SchemaId>, k: int, x: SchemaId) -> bool {
    exists|j: int| 0 <= j < k && #[trigger] s[j] == x
}

/// The pairs with their ends swapped.
pub open spec fn swap_pairs(edges: Seq<(SchemaId, SchemaId)>) -> Seq<(SchemaId, SchemaId)> {
    edges.map_values(|p: (SchemaId, SchemaId)| (p.1, p.0))
}

proof fn lemma_swap_pairs(edges: Seq<(SchemaId, SchemaId)>, a: SchemaId, b: SchemaId)
    ensures
        edges.contains((a, b)) <==> swap_pairs(edges).contains((b, a)),
{
    if edges.contains((a, b)) {
        let j = choose|j: int| 0 <= j < edges.len() && #[trigger] edges[j] == (a, b);
        assert(swap_pairs(edges)[j] == (b, a));
    }
    if swap_pairs(edges).contains((b, a)) {
        let j = choose|j: int| 0 <= j < swap_pairs(edges).len() && #[trigger] swap_pairs(edges)[j] == (b, a);
        assert(edges[j] == (a, b));
    }
}

/// The sources of the pairs that end at `k`.
fn sources_into(edges: &[(SchemaId, SchemaId)], k: SchemaId) -> (r: Vec<SchemaId>)
    ensures
        forall|x: SchemaId| r@.contains(x) <==> edges@.contains((x, k)),
{
    let mut r: Vec<SchemaId> = Vec::new();
    let mut i: usize = 0;
    while i < edges.len()
        invariant
            0 <= i <= edges@.len(),
            forall|x: SchemaId| r@.contains(x) <==> pair_before(edges@, i as int, (x, k)),
        decreases edges@.len() - i,
    {
        let e = edges[i];
        let ghost old_r = r@;
        if e.1 == k {
            r.push(e.0);
        }
        proof {
            assert forall|x: SchemaId| r@.contains(x) <==> pair_before(edges@, i + 1, (x, k)) by {
                if pair_before(edges@, i + 1, (x, k)) {
                    let j = choose|j: int| 0 <= j < i + 1 && #[trigger] edges@[j] == (x, k);
                    if j < i {
                        assert(pair_before(edges@, i as int, (x, k)));
                        assert(old_r.contains(x));
                        let m = choose|m: int| 0 <= m < old_r.len() && #[trigger] old_r[m] == x;
                        assert(r@[m] == x);
                    } else {
                        assert(r@[r@.len() - 1] == x);
                    }
                }
                if r@.contains(x) {
                    let m = choose|m: int| 0 <= m < r@.len() && #[trigger] r@[m] == x;
                    if m < old_r.len() {
                        assert(old_r[m] == x);
                        assert(old_r.contains(x));
                        let j = choose|j: int| 0 <= j < i && #[trigger] edges@[j] == (x, k);
                        assert(pair_before(edges@, i + 1, (x, k)));
                    } else {
                        assert(edges@[i as int] == (x, k));
                        assert(pair_before(edges@, i + 1, (x, k)));
                    }
                }
            }
        }
        i = i + 1;
    }
    r
}

/// The pairs of `edges` with their ends swapped.
fn reversed_pairs(edges: &[(SchemaId, SchemaId)]) -> (r: Vec<(SchemaId, SchemaId)>)
    ensures
        r@ == swap_pairs(edges@),
{
    let mut r: Vec<(SchemaId, SchemaId)> = Vec::new();
    let mut i: usize = 0;
    while i < edges.len()
        invariant
            0 <= i <= edges@.len(),
            r@.len() == i,
            forall|j: int| 0 <= j < i ==> #[trigger] r@[j] == (edges@[j].1, edges@[j].0),
        decreases edges@.len() - i,
    {
        r.push((edges[i].1, edges[i].0));
        i = i + 1;
    }
    assert(r@ =~= swap_pairs(edges@));
    r
}

/// The sorted, duplicate-free parents and children of `id`.
fn neighbor_lists(
    edges: &[(SchemaId, SchemaId)],
    reversed: &[(SchemaId, SchemaId)],
    id: SchemaId,
) -> (r: (Vec<SchemaId>, Vec<SchemaId>))
    requires
        reversed@ == swap_pairs(edges@),
    ensures
        forall|x: SchemaId| r.0@.contains(x) <==> edges@.contains((x, id)),
        forall|x: SchemaId| r.1@.contains(x) <==> edges@.contains((id, x)),
        strictly_increasing_ids(r.0@),
        strictly_increasing_ids(r.1@),
{
    let parents = sort_dedup_ids(&sources_into(edges, id));
    let children = sort_dedup_ids(&sources_into(reversed, id));
    proof {
        assert forall|x: SchemaId| children@.contains(x) <==> edges@.contains((id, x)) by {
            lemma_swap_pairs(edges@, id, x);
        }
    }
    (parents, children)
}

/// Sorted, duplicate-free parent and child lists of each node.
#[derive(Debug)]
pub struct AdjacencyMap {
    entries: IdMap<(Vec<SchemaId>, Vec<SchemaId>)>,
    counted: IdMap<()>,
    empty: Vec<SchemaId>,
}

/// `id` is the target of one of the first `k` pairs.
pub open spec fn target_before(edges: Seq<(SchemaId, SchemaId)>, k: int, id: SchemaId) -> bool {
    exists|j: int| 0 <= j < k && (#[trigger] edges[j]).1 == id
}

/// `id` is the target of one of the pairs.
pub open spec fn is_target(edges: Seq<(SchemaId, SchemaId)>, id: SchemaId) -> bool {
    target_before(edges, edges.len() as int, id)
}

impl AdjacencyMap {
    #[verifier::type_invariant]
    spec fn inv(self) -> bool {
        &&& self.entries.wf()
        &&& self.counted.wf()
        &&& self.empty@.len() == 0
    }

    /// Whether `id` has an entry.
    pub closed spec fn spec_has(self, id: SchemaId) -> bool {
        self.entries@.contains_key(id)
    }

    /// The identifiers the map counts as nodes: the given nodes and the
    /// targets of the edges.
    pub closed spec fn spec_keys(self) -> Set<SchemaId> {
        self.counted@.dom()
    }

    /// The parents of `id` (empty when it has no entry).
    pub closed spec fn spec_parents(self, id: SchemaId) -> Seq<SchemaId> {
        if self.entries@.contains_key(id) {
            self.entries@[id].0@
        } else {
            Seq::empty()
        }
    }

    /// The children of `id` (empty when it has no entry).
    pub closed spec fn spec_children(self, id: SchemaId) -> Seq<SchemaId> {
        if self.entries@.contains_key(id) {
            self.entries@[id].1@
        } else {
            Seq::empty()
        }
    }

    /// Adjacency of the given nodes and `(from, to)` edges. Every node and
    /// every edge endpoint gets an entry; the parents of a node are the
    /// sources of the edges into it, its children the targets of the edges
    /// out of it, each list sorted and without duplicates. The nodes and the
    /// edge targets are counted as the map's nodes.
    pub fn from_nodes_and_edges(nodes: &[SchemaId], edges: &[(SchemaId, SchemaId)]) -> (a: AdjacencyMap)
        ensures
            forall|id: SchemaId| #[trigger] a.spec_has(id) <==> (nodes@.contains(id) || is_endpoint(edges@, id)),
            forall|id: SchemaId| #[trigger] a.spec_keys().contains(id) <==> (nodes@.contains(id) || is_target(edges@, id)),
            forall|id: SchemaId, x: SchemaId| #[trigger] a.spec_parents(id).contains(x) <==> edges@.contains((x, id)),
            forall|id: SchemaId, x: SchemaId| #[trigger] a.spec_children(id).contains(x) <==> edges@.contains((id, x)),
            forall|id: SchemaId| #[trigger] strictly_increasing_ids(a.spec_parents(id)),
            forall|id: SchemaId| #[trigger] strictly_increasing_ids(a.spec_children(id)),
    {
        let reversed = reversed_pairs(edges);
        let mut entries: IdMap<(Vec<SchemaId>, Vec<SchemaId>)> = IdMap::new();
        let mut counted: IdMap<()> = IdMap::new();
        let mut i: usize = 0;
        while i < nodes.len()
            invariant
                0 <= i <= nodes@.len(),
                entries.wf(),
                counted.wf(),
                forall|id: SchemaId| #[trigger] counted@.contains_key(id) <==> id_before(nodes@, i as int, id),
                reversed@ == swap_pairs(edges@),
                forall|id: SchemaId| #[trigger] entries@.contains_key(id) <==> id_before(nodes@, i as int, id),
                forall|id: SchemaId| #[trigger] entries@.contains_key(id) ==> {
                    &&& forall|x: SchemaId| entries@[id].0@.contains(x) <==> edges@.contains((x, id))
                    &&& forall|x: SchemaId| entries@[id].1@.contains(x) <==> edges@.contains((id, x))
                    &&& strictly_increasing_ids(entries@[id].0@)
                    &&& strictly_increasing_ids(entries@[id].1@)
                },
            decreases nodes@.len() - i,
        {
            let id = nodes[i];
            if !entries.has(&id) {
                let lists = neighbor_lists(edges, reversed.as_slice(), id);
                entries.insert(id, lists);
            }
            counted.insert(id, ());
            proof {
                assert forall|x: SchemaId| id_before(nodes@, i + 1, x) <==> (id_before(nodes@, i as int, x) || x == id) by {
                    if id_before(nodes@, i + 1, x) {
                        let j = choose|j: int| 0 <= j < i + 1 && #[trigger] nodes@[j] == x;
                        if j < i {
                            assert(id_before(nodes@, i as int, x));
                        }
                    }
                    if id_before(nodes@, i as int, x) {
                        let j = choose|j: int| 0 <= j < i && #[trigger] nodes@[j] == x;
                        assert(id_before(nodes@, i + 1, x));
                    }
                    if x == id {
                        assert(nodes@[i as int] == x);
                    }
                }
            }
            i = i + 1;
        }
        proof {
            assert forall|id: SchemaId| id_before(nodes@, nodes@.len() as int, id) <==> nodes@.contains(id) by {
                if nodes@.contains(id) {
                    let j = choose|j: int| 0 <= j < nodes@.len() && nodes@[j] == id;
                    assert(id_before(nodes@, nodes@.len() as int, id));
                }
            }
        }
        let mut k: usize = 0;
        while k < edges.len()
            invariant
                0 <= k <= edges@.len(),
                entries.wf(),
                counted.wf(),
                forall|id: SchemaId| #[trigger] counted@.contains_key(id) <==> (nodes@.contains(id)
                    || target_before(edges@, k as int, id)),
                reversed@ == swap_pairs(edges@),
                forall|id: SchemaId| #[trigger] entries@.contains_key(id) <==> (nodes@.contains(id)
                    || endpoint_before(edges@, k as int, id)),
                forall|id: SchemaId| #[trigger] entries@.contains_key(id) ==> {
                    &&& forall|x: SchemaId| entries@[id].0@.contains(x) <==> edges@.contains((x, id))
                    &&& forall|x: SchemaId| entries@[id].1@.contains(x) <==> edges@.contains((id, x))
                    &&& strictly_increasing_ids(entries@[id].0@)
                    &&& strictly_increasing_ids(entries@[id].1@)
                },
            decreases edges@.len() - k,
        {
            let e = edges[k];
            let mut t: usize = 0;
            while t < 2
                invariant
                    0 <= t <= 2,
                    e == edges@[k as int],
                    0 <= k < edges@.len(),
                    entries.wf(),
                    reversed@ == swap_pairs(edges@),
                    forall|id: SchemaId| #[trigger] entries@.contains_key(id) <==> (nodes@.contains(id)
                        || endpoint_before(edges@, k as int, id) || (t > 0 && id == e.0) || (t > 1 && id == e.1)),
                    forall|id: SchemaId| #[trigger] entries@.contains_key(id) ==> {
                        &&& forall|x: SchemaId| entries@[id].0@.contains(x) <==> edges@.contains((x, id))
                        &&& forall|x: SchemaId| entries@[id].1@.contains(x) <==> edges@.contains((id, x))
                        &&& strictly_increasing_ids(entries@[id].0@)
                        &&& strictly_increasing_ids(entries@[id].1@)
                    },
                decreases 2 - t,
            {
                let id = if t == 0 { e.0 } else { e.1 };
                if !entries.has(&id) {
                    let lists = neighbor_lists(edges, reversed.as_slice(), id);
                    entries.insert(id, lists);
                }
                t = t + 1;
            }
            counted.insert(e.1, ());
            proof {
                assert forall|id: SchemaId| target_before(edges@, k + 1, id) <==> (target_before(edges@, k as int, id) || id == e.1) by {
                    if target_before(edges@, k + 1, id) {
                        let j = choose|j: int| 0 <= j < k + 1 && (#[trigger] edges@[j]).1 == id;
                        if j < k {
                            assert(target_before(edges@, k as int, id));
                        }
                    }
                    if target_before(edges@, k as int, id) {
                        let j = choose|j: int| 0 <= j < k && (#[trigger] edges@[j]).1 == id;
                        assert(target_before(edges@, k + 1, id));
                    }
                    if id == e.1 {
                        assert(edges@[k as int] == e);
                        assert(target_before(edges@, k + 1, id));
                    }
                }
            }
            proof {
                assert forall|id: SchemaId| endpoint_before(edges@, k + 1, id) <==> (endpoint_before(edges@, k as int, id) || id == e.0 || id == e.1) by {
                    if endpoint_before(edges@, k + 1, id) {
                        let j = choose|j: int| 0 <= j < k + 1 && (#[trigger] edges@[j]).0 == id || 0 <= j < k + 1 && edges@[j].1 == id;
                        if j < k {
                            assert(endpoint_before(edges@, k as int, id));
                        }
                    }
                    if endpoint_before(edges@, k as int, id) {
                        let j = choose|j: int| 0 <= j < k && (#[trigger] edges@[j]).0 == id || 0 <= j < k && edges@[j].1 == id;
                        assert(endpoint_before(edges@, k + 1, id));
                    }
                    if id == e.0 || id == e.1 {
                        assert(edges@[k as int] == e);
                        assert(endpoint_before(edges@, k + 1, id));
                    }
                }
            }
            k = k + 1;
        }
        proof {
            assert(edges@.take(edges@.len() as int) =~= edges@);
        }
        AdjacencyMap { entries, counted, empty: Vec::new() }
    }

    /// Adjacency of a graph's nodes and edges.
    pub fn from_graph<T, R>(graph: &Graph<T, R>) -> (a: AdjacencyMap)
        ensures
            forall|id: SchemaId| #[trigger] a.spec_has(id) <==> (graph.spec_nodes().contains_key(id)
                || is_endpoint(edge_pairs(graph.spec_edges()), id)),
            forall|id: SchemaId| #[trigger] a.spec_keys().contains(id) <==> (graph.spec_nodes().contains_key(id)
                || is_target(edge_pairs(graph.spec_edges()), id)),
            forall|id: SchemaId, x: SchemaId| #[trigger] a.spec_parents(id).contains(x) <==> edge_pairs(graph.spec_edges()).contains((x, id)),
            forall|id: SchemaId, x: SchemaId| #[trigger] a.spec_children(id).contains(x) <==> edge_pairs(graph.spec_edges()).contains((id, x)),
            forall|id: SchemaId| #[trigger] strictly_increasing_ids(a.spec_parents(id)),
            forall|id: SchemaId| #[trigger] strictly_increasing_ids(a.spec_children(id)),
    {
        let node_map = graph.nodes();
        let entries = node_map.entries();
        let mut ids: Vec<SchemaId> = Vec::new();
        let mut i: usize = 0;
        proof {
            node_map.lemma_view();
        }
        while i < entries.len()
            invariant
                0 <= i <= entries@.len(),
                entries@.len() == node_map.pairs().len(),
                forall|j: int| 0 <= j < entries@.len() ==> (#[trigger] entries@[j]).0 == node_map.pairs()[j].0,
                ids@.len() == i,
                forall|j: int| 0 <= j < i ==> #[trigger] ids@[j] == entries@[j].0,
            decreases entries@.len() - i,
        {
            ids.push(entries[i].0);
            i = i + 1;
        }
        let graph_edges = graph.edges();
        let mut pairs: Vec<(SchemaId, SchemaId)> = Vec::new();
        let mut j: usize = 0;
        while j < graph_edges.len()
            invariant
                0 <= j <= graph_edges@.len(),
                pairs@ == edge_pairs(graph_edges@.take(j as int)),
            decreases graph_edges@.len() - j,
        {
            pairs.push((graph_edges[j].from(), graph_edges[j].to()));
            proof {
                assert(edge_pairs(graph_edges@.take(j + 1)) =~= edge_pairs(graph_edges@.take(j as int)).push(
                    (graph_edges@[j as int].spec_from(), graph_edges@[j as int].spec_to())));
            }
            j = j + 1;
        }
        proof {
            assert(graph_edges@.take(graph_edges@.len() as int) =~= graph_edges@);
            assert forall|id: SchemaId| ids@.contains(id) <==> graph.spec_nodes().contains_key(id) by {
                if ids@.contains(id) {
                    let k = choose|k: int| 0 <= k < ids@.len() && #[trigger] ids@[k] == id;
                    assert(node_map.pairs()[k].0 == id);
                }
                if graph.spec_nodes().contains_key(id) {
                    let k = choose|k: int| 0 <= k < node_map.pairs().len() && #[trigger] node_map.pairs()[k].0 == id;
                    assert(ids@[k] == id);
                }
            }
        }
        AdjacencyMap::from_nodes_and_edges(ids.as_slice(), pairs.as_slice())
    }

    /// The parents of `id`, sorted (empty when it has no entry).
    pub fn parents_of(&self, id: SchemaId) -> (r: &[SchemaId])
        ensures
            r@ == self.spec_parents(id),
    {
        proof {
            use_type_invariant(self);
        }
        match self.entries.get(&id) {
            Some(e) => e.0.as_slice(),
            None => {
                assert(self.empty@ =~= Seq::<SchemaId>::empty());
                self.empty.as_slice()
            },
        }
    }

    /// The children of `id`, sorted (empty when it has no entry).
    pub fn children_of(&self, id: SchemaId) -> (r: &[SchemaId])
        ensures
            r@ == self.spec_children(id),
    {
        proof {
            use_type_invariant(self);
        }
        match self.entries.get(&id) {
            Some(e) => e.1.as_slice(),
            None => {
                assert(self.empty@ =~= Seq::<SchemaId>::empty());
                self.empty.as_slice()
            },
        }
    }

    /// The number of nodes the map counts (see [`AdjacencyMap::spec_keys`]).
    pub fn node_count(&self) -> (n: usize)
        ensures
            n == self.spec_keys().len(),
            self.spec_keys().finite(),
    {
        proof {
            use_type_invariant(self);
            self.counted.lemma_view();
        }
        self.counted.len()
    }
}

/// The `(from, to)` pairs of the edges, in order.
pub fn pairs_of<R>(edges: &Vec<Edge<R>>) -> (r: Vec<(SchemaId, SchemaId)>)
    ensures
        r@ == edge_pairs(edges@),
{
    let mut pairs: Vec<(SchemaId, SchemaId)> = Vec::new();
    let mut j: usize = 0;
    while j < edges.len()
        invariant
            0 <= j <= edges@.len(),
            pairs@.len() == j,
            forall|k: int| 0 <= k < j ==> #[trigger] pairs@[k] == (edges@[k].spec_from(), edges@[k].spec_to()),
        decreases edges@.len() - j,
    {
        pairs.push((edges[j].from(), edges[j].to()));
        j = j + 1;
    }
    assert(pairs@ =~= edge_pairs(edges@));
    pairs
}

// ─────────────────────────────────────────────────────────────────────────────
//  Child → parents map
// ─────────────────────────────────────────────────────────────────────────────

/// Parents listed per child.
#[derive(Debug)]
pub struct ChildParentsMap {
    entries: IdMap<Vec<SchemaId>>,
}

/// `n` holds the elements of `v` in increasing order, once each.
pub open spec fn normalized_from(n: Seq<SchemaId>, v: Seq<SchemaId>) -> bool {
    &&& strictly_increasing_ids(n)
    &&& forall|x: SchemaId| n.contains(x) <==> v.contains(x)
}

impl ChildParentsMap {
    #[verifier::type_invariant]
    spec fn inv(self) -> bool {
        self.entries.wf()
    }

    /// The parents of each child.
    pub closed spec fn spec_map(self) -> Map<SchemaId, Vec<SchemaId>> {
        self.entries@
    }

    /// An empty map.
    pub fn new() -> (m: ChildParentsMap)
        ensures
            m.spec_map() == Map::<SchemaId, Vec<SchemaId>>::empty(),
    {
        ChildParentsMap { entries: IdMap::new() }
    }

    /// The map with the given entries.
    pub fn with_entries(entries: IdMap<Vec<SchemaId>>) -> (m: ChildParentsMap)
        requires
            entries.wf(),
        ensures
            m.spec_map() == entries@,
    {
        ChildParentsMap { entries }
    }

    /// Sets the parents of `id`.
    pub fn insert(&mut self, id: SchemaId, parents: Vec<SchemaId>)
        ensures
            final(self).spec_map() == old(self).spec_map().insert(id, parents),
    {
        proof {
            use_type_invariant(&*self);
        }
        let mut entries = IdMap::new();
        std::mem::swap(&mut entries, &mut self.entries);
        entries.insert(id, parents);
        self.entries = entries;
    }

    /// The entries, taking the map apart.
    pub fn into_inner(self) -> (r: IdMap<Vec<SchemaId>>)
        ensures
            r@ == self.spec_map(),
            r.wf(),
    {
        proof {
            use_type_invariant(&self);
        }
        self.entries
    }

    /// Sorts `parents` and removes duplicates.
    pub fn normalize_parents(parents: &mut Vec<SchemaId>)
        ensures
            normalized_from(final(parents)@, old(parents)@),
    {
        let sorted = sort_dedup_ids(parents);
        *parents = sorted;
    }

    /// Sorts and deduplicates every parent list.
    pub fn normalize_all(&mut self)
        ensures
            final(self).spec_map().dom() == old(self).spec_map().dom(),
            forall|id: SchemaId| #[trigger] final(self).spec_map().contains_key(id) ==> normalized_from(
                final(self).spec_map()[id]@,
                old(self).spec_map()[id]@,
            ),
    {
        proof {
            use_type_invariant(&*self);
        }
        let mut out: IdMap<Vec<SchemaId>> = IdMap::new();
        let entries = self.entries.entries();
        let ghost pairs = self.entries.pairs();
        proof {
            self.entries.lemma_view();
        }
        let mut i: usize = 0;
        while i < entries.len()
            invariant
                0 <= i <= entries@.len(),
                entries@.len() == pairs.len(),
                pairs == self.entries.pairs(),
                self.entries.wf(),
                forall|j: int| 0 <= j < entries@.len() ==> (#[trigger] entries@[j]).0 == pairs[j].0 && entries@[j].1 == pairs[j].1,
                forall|id: SchemaId| #[trigger] self.entries@.contains_key(id) <==> exists|j: int|
                    0 <= j < pairs.len() && #[trigger] pairs[j].0 == id,
                forall|j: int| 0 <= j < pairs.len() ==> #[trigger] self.entries@[pairs[j].0] == pairs[j].1,
                out.wf(),
                forall|id: SchemaId| #[trigger] out@.contains_key(id) <==> exists|j: int|
                    0 <= j < i && #[trigger] pairs[j].0 == id,
                forall|id: SchemaId| #[trigger] out@.contains_key(id) ==> normalized_from(out@[id]@, self.entries@[id]@),
            decreases entries@.len() - i,
        {
            let id = entries[i].0;
            let sorted = sort_dedup_ids(&entries[i].1);
            out.insert(id, sorted);
            proof {
                assert forall|x: SchemaId| #[trigger] out@.contains_key(x) <==> exists|j: int|
                    0 <= j < i + 1 && #[trigger] pairs[j].0 == x by {
                    if x == id {
                        assert(pairs[i as int].0 == x);
                    }
                }
            }
            i = i + 1;
        }
        proof {
            assert(out@.dom() =~= self.entries@.dom());
        }
        self.entries = out;
    }
}

// ─────────────────────────────────────────────────────────────────────────────
//  Graph construction, depths, and reachability
// ─────────────────────────────────────────────────────────────────────────────

/// The depth a parent contributes: from the depths computed so far when it
/// is affected, else from the base depths; 0 when unknown.
pub open spec fn parent_depth_of(
    base: Map<SchemaId, NodeDepth>,
    affected: Seq<SchemaId>,
    done: Map<SchemaId, NodeDepth>,
    p: SchemaId,
) -> usize {
    if affected.contains(p) {
        if done.contains_key(p) {
            done[p].value()
        } else {
            0
        }
    } else if base.contains_key(p) {
        base[p].value()
    } else {
        0
    }
}

/// The largest depth among `parents` (0 for none).
pub open spec fn max_parent_depth(
    base: Map<SchemaId, NodeDepth>,
    affected: Seq<SchemaId>,
    done: Map<SchemaId, NodeDepth>,
    parents: Seq<SchemaId>,
) -> usize
    decreases parents.len(),
{
    if parents.len() == 0 {
        0
    } else {
        let m = max_parent_depth(base, affected, done, parents.drop_last());
        let d = parent_depth_of(base, affected, done, parents.last());
        if m < d {
            d
        } else {
            m
        }
    }
}

/// The depth of a node with the given parents: 0 for a root, else one more
/// (saturating) than its deepest parent.
pub open spec fn depth_with_parents(
    base: Map<SchemaId, NodeDepth>,
    affected: Seq<SchemaId>,
    done: Map<SchemaId, NodeDepth>,
    parents: Seq<SchemaId>,
) -> usize {
    if parents.len() == 0 {
        0
    } else {
        saturating_inc(max_parent_depth(base, affected, done, parents))
    }
}

/// The depth numbers after visiting `order` front to back, each visit
/// (re)computing the depth of that node from its parents.
pub open spec fn depths_along(
    base: Map<SchemaId, NodeDepth>,
    affected: Seq<SchemaId>,
    order: Seq<SchemaId>,
    adjacency: AdjacencyMap,
) -> Map<SchemaId, usize>
    decreases order.len(),
{
    if order.len() == 0 {
        Map::empty()
    } else {
        let done = depths_along(base, affected, order.drop_last(), adjacency);
        let id = order.last();
        done.insert(id, depth_with_parents(base, affected, as_depths(done), adjacency.spec_parents(id)))
    }
}

/// Depth numbers as depths.
pub open spec fn as_depths(m: Map<SchemaId, usize>) -> Map<SchemaId, NodeDepth> {
    m.map_values(|n: usize| NodeDepth::of(n))
}

impl NodeDepth {
    /// The depth with number `n`.
    pub closed spec fn of(n: usize) -> NodeDepth {
        NodeDepth { depth: n }
    }

    /// The number of `of(n)` is `n`.
    pub broadcast proof fn lemma_of(n: usize)
        ensures
            #[trigger] NodeDepth::of(n).value() == n,
    {
    }
}

/// Depths of the nodes in `order`, visited front to back: a node without
/// parents is a root; otherwise its depth is one more than the deepest of
/// its parents, where an affected parent's depth is the one computed here
/// (0 if not yet computed) and any other parent's depth is its base depth
/// (0 if unknown).
pub fn compute_depths(
    base_nodes: &IdMap<NodeDepth>,
    affected: &[SchemaId],
    order: &[SchemaId],
    adjacency: &AdjacencyMap,
) -> (r: IdMap<NodeDepth>)
    requires
        base_nodes.wf(),
    ensures
        r.wf(),
        r@ == as_depths(depths_along(base_nodes@, affected@, order@, *adjacency)),
{
    broadcast use NodeDepth::lemma_of;

    let mut done: IdMap<NodeDepth> = IdMap::new();
    let mut i: usize = 0;
    proof {
        assert(done@ =~= as_depths(depths_along(base_nodes@, affected@, order@.take(0), *adjacency)));
    }
    while i < order.len()
        invariant
            0 <= i <= order@.len(),
            base_nodes.wf(),
            done.wf(),
            done@ == as_depths(depths_along(base_nodes@, affected@, order@.take(i as int), *adjacency)),
        decreases order@.len() - i,
    {
        let id = order[i];
        let parents = adjacency.parents_of(id);
        let ghost dm = depths_along(base_nodes@, affected@, order@.take(i as int), *adjacency);
        let mut max_depth: usize = 0;
        let mut j: usize = 0;
        while j < parents.len()
            invariant
                0 <= j <= parents@.len(),
                base_nodes.wf(),
                done.wf(),
                done@ == as_depths(dm),
                max_depth == max_parent_depth(base_nodes@, affected@, done@, parents@.take(j as int)),
            decreases parents@.len() - j,
        {
            let p = parents[j];
            let d: usize = if contains_id(affected, p) {
                match done.get(&p) {
                    Some(x) => x.as_usize(),
                    None => 0,
                }
            } else {
                match base_nodes.get(&p) {
                    Some(x) => x.as_usize(),
                    None => 0,
                }
            };
            proof {
                assert(parents@.take(j + 1).drop_last() =~= parents@.take(j as int));
            }
            if max_depth < d {
                max_depth = d;
            }
            j = j + 1;
        }
        proof {
            assert(parents@.take(parents@.len() as int) =~= parents@);
        }
        let new_depth = if parents.len() == 0 {
            NodeDepth::root()
        } else {
            NodeDepth::new(max_depth).increment()
        };
        done.insert(id, new_depth);
        proof {
            assert(order@.take(i + 1).drop_last() =~= order@.take(i as int));
            let nd = depths_along(base_nodes@, affected@, order@.take(i + 1), *adjacency);
            assert(nd == dm.insert(id, depth_with_parents(base_nodes@, affected@, as_depths(dm), adjacency.spec_parents(id))));
            assert(done@ =~= as_depths(nd)) by {
                assert(new_depth.value() == depth_with_parents(base_nodes@, affected@, as_depths(dm), adjacency.spec_parents(id)));
                assert(NodeDepth::of(new_depth.value()) == new_depth) by {
                    NodeDepth::lemma_value_injective(NodeDepth::of(new_depth.value()), new_depth);
                }
            }
        }
        i = i + 1;
    }
    proof {
        assert(order@.take(order@.len() as int) =~= order@);
    }
    done
}

impl<T, R> Graph<T, R> {
    /// A graph with a root node per child of `map`, carrying the payload made
    /// from the child and its parents (sorted, without duplicates), and an
    /// edge `parent → child` for each distinct parent listed.
    pub fn from_child_parents_map<F>(map: ChildParentsMap, create_payload: F) -> (g: Graph<T, R>)
        where
            F: Fn(SchemaId, &[SchemaId]) -> T,
            R: Default,
        requires
            forall|id: SchemaId, ps: &[SchemaId]| #[trigger] create_payload.requires((id, ps)),
        ensures
            g.spec_nodes().dom() == map.spec_map().dom(),
            forall|id: SchemaId| #[trigger] g.spec_nodes().contains_key(id) ==> {
                &&& g.spec_nodes()[id].spec_depth().value() == 0
                &&& exists|ps: &[SchemaId]|
                    normalized_from(ps@, map.spec_map()[id]@) && #[trigger] create_payload.ensures(
                        (id, ps),
                        g.spec_nodes()[id].spec_payload(),
                    )
            },
            forall|a: SchemaId, b: SchemaId| #[trigger] edge_pairs(g.spec_edges()).contains((a, b)) <==> (
                map.spec_map().contains_key(b) && map.spec_map()[b]@.contains(a)),
            edge_pairs(g.spec_edges()).no_duplicates(),
    {
        let mut map = map;
        let ghost orig = map.spec_map();
        map.normalize_all();
        let inner = map.into_inner();
        let entries = inner.entries();
        let ghost pairs = inner.pairs();
        proof {
            inner.lemma_view();
        }
        let mut g: Graph<T, R> = Graph::new();
        let mut i: usize = 0;
        while i < entries.len()
            invariant
                0 <= i <= entries@.len(),
                inner.wf(),
                entries@.len() == pairs.len(),
                pairs == inner.pairs(),
                ids_unique_pairs(pairs),
                forall|j: int| 0 <= j < entries@.len() ==> (#[trigger] entries@[j]).0 == pairs[j].0 && entries@[j].1 == pairs[j].1,
                forall|j: int| 0 <= j < pairs.len() ==> #[trigger] inner@[pairs[j].0] == pairs[j].1,
                forall|id: SchemaId| #[trigger] inner@.contains_key(id) <==> exists|j: int|
                    0 <= j < pairs.len() && #[trigger] pairs[j].0 == id,
                inner@.dom() == orig.dom(),
                forall|id: SchemaId| #[trigger] inner@.contains_key(id) ==> normalized_from(inner@[id]@, orig[id]@),
                forall|id: SchemaId, ps: &[SchemaId]| #[trigger] create_payload.requires((id, ps)),
                forall|id: SchemaId| #[trigger] g.spec_nodes().contains_key(id) <==> exists|j: int|
                    0 <= j < i && #[trigger] pairs[j].0 == id,
                forall|id: SchemaId| #[trigger] g.spec_nodes().contains_key(id) ==> {
                    &&& g.spec_nodes()[id].spec_depth().value() == 0
                    &&& exists|ps: &[SchemaId]|
                        normalized_from(ps@, orig[id]@) && #[trigger] create_payload.ensures(
                            (id, ps),
                            g.spec_nodes()[id].spec_payload(),
                        )
                },
                forall|a: SchemaId, b: SchemaId| #[trigger] edge_pairs(g.spec_edges()).contains((a, b)) <==> (
                    exists|j: int| 0 <= j < i && #[trigger] pairs[j].0 == b) && inner@.contains_key(b) && inner@[b]@.contains(a),
                edge_pairs(g.spec_edges()).no_duplicates(),
            decreases entries@.len() - i,
        {
            let id = entries[i].0;
            let parents = &entries[i].1;
            let ps = parents.as_slice();
            let payload = create_payload(id, ps);
            let ghost nodes_before = g.spec_nodes();
            g.add_node(id, payload);
            proof {
                assert(pairs[i as int].0 == id);
                assert(inner@.contains_key(id));
                assert(inner@[id] == *parents);
                assert(normalized_from(parents@, orig[id]@));
                assert(create_payload.ensures((id, ps), g.spec_nodes()[id].spec_payload()));
                assert forall|x: SchemaId| #[trigger] g.spec_nodes().contains_key(x) <==> exists|j: int|
                    0 <= j < i + 1 && #[trigger] pairs[j].0 == x by {
                    if x == id {
                        assert(pairs[i as int].0 == x);
                    }
                }
                assert forall|x: SchemaId| #[trigger] g.spec_nodes().contains_key(x) implies {
                    &&& g.spec_nodes()[x].spec_depth().value() == 0
                    &&& exists|ps: &[SchemaId]|
                        normalized_from(ps@, orig[x]@) && #[trigger] create_payload.ensures(
                            (x, ps),
                            g.spec_nodes()[x].spec_payload(),
                        )
                } by {
                    if x == id {
                        assert(normalized_from(ps@, orig[x]@));
                    } else {
                        assert(nodes_before.contains_key(x));
                        assert(g.spec_nodes()[x] == nodes_before[x]);
                    }
                }
                // no edge into `id` exists yet: its key was not processed before
                assert forall|a: SchemaId| !edge_pairs(g.spec_edges()).contains((a, id)) by {
                    if edge_pairs(g.spec_edges()).contains((a, id)) {
                        let j = choose|j: int| 0 <= j < i && #[trigger] pairs[j].0 == id;
                        assert(pairs[j].0 == pairs[i as int].0);
                    }
                }
            }
            let mut k: usize = 0;
            while k < parents.len()
                invariant
                    0 <= i < entries@.len(),
                    0 <= k <= parents@.len(),
                    id == pairs[i as int].0,
                    *parents == pairs[i as int].1,
                    inner@[id] == *parents,
                    strictly_increasing_ids(parents@),
                    g.spec_nodes().contains_key(id),
                    forall|x: SchemaId| #[trigger] g.spec_nodes().contains_key(x) <==> exists|j: int|
                        0 <= j < i + 1 && #[trigger] pairs[j].0 == x,
                    forall|x: SchemaId| #[trigger] g.spec_nodes().contains_key(x) ==> {
                        &&& g.spec_nodes()[x].spec_depth().value() == 0
                        &&& exists|ps: &[SchemaId]|
                            normalized_from(ps@, orig[x]@) && #[trigger] create_payload.ensures(
                                (x, ps),
                                g.spec_nodes()[x].spec_payload(),
                            )
                    },
                    forall|a: SchemaId, b: SchemaId| #[trigger] edge_pairs(g.spec_edges()).contains((a, b)) <==> (
                        ((exists|j: int| 0 <= j < i && #[trigger] pairs[j].0 == b) && inner@.contains_key(b) && inner@[b]@.contains(a))
                        || (b == id && parents@.take(k as int).contains(a))),
                    forall|j: int| 0 <= j < i ==> #[trigger] pairs[j].0 != id,
                    edge_pairs(g.spec_edges()).no_duplicates(),
                decreases parents@.len() - k,
            {
                let p = parents[k];
                let ghost old_edges = edge_pairs(g.spec_edges());
                proof {
                    assert(!old_edges.contains((p, id))) by {
                        if old_edges.contains((p, id)) {
                            if exists|j: int| 0 <= j < i && #[trigger] pairs[j].0 == id {
                                let j = choose|j: int| 0 <= j < i && #[trigger] pairs[j].0 == id;
                                assert(pairs[j].0 != id);
                            }
                            assert(parents@.take(k as int).contains(p));
                            let m = choose|m: int| 0 <= m < k && #[trigger] parents@.take(k as int)[m] == p;
                            assert(parents@[m] == parents@[k as int]);
                            assert(parents@[m].value() < parents@[k as int].value());
                        }
                    }
                }
                g.add_edge(p, id);
                proof {
                    assert(parents@.take(k + 1) =~= parents@.take(k as int).push(p));
                    assert forall|a: SchemaId, b: SchemaId| #[trigger] edge_pairs(g.spec_edges()).contains((a, b)) <==> (
                        ((exists|j: int| 0 <= j < i && #[trigger] pairs[j].0 == b) && inner@.contains_key(b) && inner@[b]@.contains(a))
                        || (b == id && parents@.take(k + 1).contains(a))) by {
                        if (a, b) == (p, id) {
                            assert(edge_pairs(g.spec_edges())[old_edges.len() as int] == (a, b));
                            assert(parents@.take(k + 1)[k as int] == a);
                        } else {
                            if edge_pairs(g.spec_edges()).contains((a, b)) {
                                let q = choose|q: int| 0 <= q < edge_pairs(g.spec_edges()).len() && #[trigger] edge_pairs(g.spec_edges())[q] == (a, b);
                                assert(old_edges[q] == (a, b));
                                assert(old_edges.contains((a, b)));
                            }
                            if old_edges.contains((a, b)) {
                                let q = choose|q: int| 0 <= q < old_edges.len() && #[trigger] old_edges[q] == (a, b);
                                assert(edge_pairs(g.spec_edges())[q] == (a, b));
                            }
                            if b == id && parents@.take(k + 1).contains(a) {
                                let m = choose|m: int| 0 <= m < k + 1 && #[trigger] parents@.take(k + 1)[m] == a;
                                assert(parents@.take(k as int)[m] == a);
                            }
                        }
                    }
                    assert(edge_pairs(g.spec_edges()).no_duplicates()) by {
                        let ne = edge_pairs(g.spec_edges());
                        assert forall|x: int, y: int| 0 <= x < ne.len() && 0 <= y < ne.len() && x != y implies ne[x] != ne[y] by {
                            if x < old_edges.len() && y < old_edges.len() {
                                assert(old_edges[x] == ne[x] && old_edges[y] == ne[y]);
                            } else if x < old_edges.len() {
                                assert(old_edges[x] == ne[x]);
                                assert(old_edges.contains(ne[x]));
                            } else {
                                assert(old_edges[y] == ne[y]);
                                assert(old_edges.contains(ne[y]));
                            }
                        }
                    }
                }
                k = k + 1;
            }
            proof {
                assert(parents@.take(parents@.len() as int) =~= parents@);
                assert forall|a: SchemaId, b: SchemaId| #[trigger] edge_pairs(g.spec_edges()).contains((a, b)) <==> (
                    (exists|j: int| 0 <= j < i + 1 && #[trigger] pairs[j].0 == b) && inner@.contains_key(b) && inner@[b]@.contains(a)) by {
                    if b == id {
                        assert(pairs[i as int].0 == b);
                    }
                    if exists|j: int| 0 <= j < i + 1 && #[trigger] pairs[j].0 == b {
                        let j = choose|j: int| 0 <= j < i + 1 && #[trigger] pairs[j].0 == b;
                        if b != id {
                            assert(j < i);
                        }
                    }
                }
            }
            i = i + 1;
        }
        proof {
            assert(g.spec_nodes().dom() =~= orig.dom()) by {
                assert forall|x: SchemaId| g.spec_nodes().contains_key(x) <==> orig.contains_key(x) by {
                    assert(inner@.contains_key(x) == orig.contains_key(x));
                }
            }
            assert forall|a: SchemaId, b: SchemaId| #[trigger] edge_pairs(g.spec_edges()).contains((a, b)) <==> (
                orig.contains_key(b) && orig[b]@.contains(a)) by {
                if orig.contains_key(b) {
                    assert(inner@.contains_key(b));
                    assert(normalized_from(inner@[b]@, orig[b]@));
                }
            }
        }
        g
    }
}

/// No two pairs share a key.
pub open spec fn ids_unique_pairs<V>(pairs: Seq<(SchemaId, V)>) -> bool {
    forall|i: int, j: int|
        0 <= i < pairs.len() && 0 <= j < pairs.len() && i != j ==> #[trigger] pairs[i].0 != #[trigger] pairs[j].0
}

// ─────────────────────────────────────────────────────────────────────────────
//  Accessor traits
// ─────────────────────────────────────────────────────────────────────────────

/// A node that knows its identifier and depth.
pub trait NodeAccessor {
    /// The node's depth.
    fn depth(&self) -> NodeDepth;

    /// The node's identifier.
    fn id(&self) -> SchemaId;
}

/// A node whose depth can be set.
pub trait NodeDepthMut {
    /// Sets the node's depth.
    fn set_depth(&mut self, depth: NodeDepth);
}

/// A structure that lists each node's children and parents.
pub trait EdgeAccessor {
    /// The children of `id`.
    fn children_of(&self, id: SchemaId) -> &[SchemaId];

    /// The parents of `id`.
    fn parents_of(&self, id: SchemaId) -> &[SchemaId];
}

impl EdgeAccessor for AdjacencyMap {
    fn children_of(&self, id: SchemaId) -> (r: &[SchemaId])
        ensures
            r@ == self.spec_children(id),
    {
        AdjacencyMap::children_of(self, id)
    }

    fn parents_of(&self, id: SchemaId) -> (r: &[SchemaId])
        ensures
            r@ == self.spec_parents(id),
    {
        AdjacencyMap::parents_of(self, id)
    }
}

impl<T> NodeDepthMut for Node<T> {
    fn set_depth(&mut self, depth: NodeDepth)
        ensures
            final(self).spec_depth() == depth,
            final(self).spec_payload() == old(self).spec_payload(),
    {
        Node::set_depth(self, depth)
    }
}


/// The base depth of `q`, 0 when it has none.
pub open spec fn known_depth(base: Map<SchemaId, NodeDepth>, q: SchemaId) -> usize {
    if base.contains_key(q) {
        base[q].value()
    } else {
        0
    }
}

proof fn lemma_max_parent_depth_bounds(
    base: Map<SchemaId, NodeDepth>,
    affected: Seq<SchemaId>,
    done: Map<SchemaId, NodeDepth>,
    parents: Seq<SchemaId>,
)
    ensures
        forall|j: int| 0 <= j < parents.len() ==> max_parent_depth(base, affected, done, parents) >= parent_depth_of(
            base,
            affected,
            done,
            #[trigger] parents[j],
        ),
        parents.len() > 0 ==> exists|j: int|
            0 <= j < parents.len() && max_parent_depth(base, affected, done, parents) == parent_depth_of(
                base,
                affected,
                done,
                #[trigger] parents[j],
            ),
    decreases parents.len(),
{
    if parents.len() > 0 {
        let rest = parents.drop_last();
        lemma_max_parent_depth_bounds(base, affected, done, rest);
        assert forall|j: int| 0 <= j < parents.len() implies max_parent_depth(base, affected, done, parents) >= parent_depth_of(
            base,
            affected,
            done,
            #[trigger] parents[j],
        ) by {
            if j < parents.len() - 1 {
                assert(rest[j] == parents[j]);
            }
        }
        if rest.len() > 0 {
            let j = choose|j: int|
                0 <= j < rest.len() && max_parent_depth(base, affected, done, rest) == parent_depth_of(
                    base,
                    affected,
                    done,
                    #[trigger] rest[j],
                );
            assert(rest[j] == parents[j]);
        }
        assert(parents[parents.len() - 1] == parents.last());
    }
}

proof fn lemma_depths_along_visit(base: Map<SchemaId, NodeDepth>, affected: Seq<SchemaId>, order: Seq<SchemaId>, adj: AdjacencyMap, x: SchemaId)
    requires
        order.contains(x),
    ensures
        depths_along(base, affected, order, adj).contains_key(x),
        exists|done: Map<SchemaId, NodeDepth>|
            depths_along(base, affected, order, adj)[x] == #[trigger] depth_with_parents(base, affected, done, adj.spec_parents(x)),
    decreases order.len(),
{
    if order.last() == x {
        let done = as_depths(depths_along(base, affected, order.drop_last(), adj));
        assert(depths_along(base, affected, order, adj)[x] == depth_with_parents(base, affected, done, adj.spec_parents(x)));
    } else {
        let i = choose|i: int| 0 <= i < order.len() && order[i] == x;
        assert(order.drop_last()[i] == x);
        lemma_depths_along_visit(base, affected, order.drop_last(), adj, x);
    }
}

/// Depths from `compute_depths`: a visited node without parents is a root
/// (depth 0); a node with parents is deeper than each parent outside the
/// affected set that has a base depth (one more than the deepest, unless
/// the count is saturated); and when no parent is affected, its depth is
/// exactly one more (saturating) than the base depth of its deepest parent,
/// a parent without a base depth counting as 0.
pub proof fn lemma_depths_follow_parents(
    base: Map<SchemaId, NodeDepth>,
    affected: Seq<SchemaId>,
    order: Seq<SchemaId>,
    adj: AdjacencyMap,
    x: SchemaId,
)
    requires
        order.contains(x),
    ensures
        depths_along(base, affected, order, adj).contains_key(x),
        adj.spec_parents(x).len() == 0 ==> depths_along(base, affected, order, adj)[x] == 0,
        forall|j: int|
            0 <= j < adj.spec_parents(x).len() && !affected.contains(#[trigger] adj.spec_parents(x)[j]) && base.contains_key(
                adj.spec_parents(x)[j],
            ) && base[adj.spec_parents(x)[j]].value() < usize::MAX ==> depths_along(base, affected, order, adj)[x]
                > base[adj.spec_parents(x)[j]].value(),
        adj.spec_parents(x).len() > 0 && (forall|j: int| 0 <= j < adj.spec_parents(x).len() ==> !affected.contains(
            #[trigger] adj.spec_parents(x)[j],
        )) ==> exists|j: int|
            0 <= j < adj.spec_parents(x).len() && depths_along(base, affected, order, adj)[x] == saturating_inc(
                known_depth(base, #[trigger] adj.spec_parents(x)[j]),
            ),
{
    lemma_depths_along_visit(base, affected, order, adj, x);
    let done = choose|done: Map<SchemaId, NodeDepth>|
        depths_along(base, affected, order, adj)[x] == #[trigger] depth_with_parents(base, affected, done, adj.spec_parents(x));
    let ps = adj.spec_parents(x);
    lemma_max_parent_depth_bounds(base, affected, done, ps);
    assert forall|j: int|
        0 <= j < ps.len() && !affected.contains(#[trigger] ps[j]) && base.contains_key(ps[j]) && base[ps[j]].value() < usize::MAX
            implies depths_along(base, affected, order, adj)[x] > base[ps[j]].value() by {
        assert(parent_depth_of(base, affected, done, ps[j]) == base[ps[j]].value());
    }
    if ps.len() > 0 && (forall|j: int| 0 <= j < ps.len() ==> !affected.contains(#[trigger] ps[j])) {
        let j = choose|j: int|
            0 <= j < ps.len() && max_parent_depth(base, affected, done, ps) == parent_depth_of(base, affected, done, #[trigger] ps[j]);
        assert(parent_depth_of(base, affected, done, ps[j]) == known_depth(base, ps[j]));
    }
}


proof fn lemma_depths_along_after_last_visit(
    base: Map<SchemaId, NodeDepth>,
    affected: Seq<SchemaId>,
    order: Seq<SchemaId>,
    adj: AdjacencyMap,
    x: SchemaId,
    i: int,
)
    requires
        0 <= i < order.len(),
        order[i] == x,
        forall|m: int| i < m < order.len() ==> order[m] != x,
    ensures
        depths_along(base, affected, order, adj).contains_key(x),
        depths_along(base, affected, order, adj)[x] == depths_along(base, affected, order.take(i + 1), adj)[x],
    decreases order.len(),
{
    if order.len() == i + 1 {
        assert(order.take(i + 1) =~= order);
    } else {
        assert(order.last() != x) by {
            assert(order[order.len() - 1] == order.last());
        }
        let rest = order.drop_last();
        assert forall|m: int| i < m < rest.len() implies rest[m] != x by {
            assert(rest[m] == order[m]);
        }
        lemma_depths_along_after_last_visit(base, affected, rest, adj, x, i);
        assert(rest.take(i + 1) =~= order.take(i + 1));
    }
}

/// Depths from `compute_depths`: a node is deeper than each of its affected
/// parents as that parent's depth stood when the node was last visited
/// (one more, unless the count is saturated).
pub proof fn lemma_depth_exceeds_affected_parents(
    base: Map<SchemaId, NodeDepth>,
    affected: Seq<SchemaId>,
    order: Seq<SchemaId>,
    adj: AdjacencyMap,
    x: SchemaId,
    i: int,
    p: SchemaId,
)
    requires
        0 <= i < order.len(),
        order[i] == x,
        forall|m: int| i < m < order.len() ==> order[m] != x,
        adj.spec_parents(x).contains(p),
        affected.contains(p),
        depths_along(base, affected, order.take(i), adj).contains_key(p),
        depths_along(base, affected, order.take(i), adj)[p] < usize::MAX,
    ensures
        depths_along(base, affected, order, adj)[x] > depths_along(base, affected, order.take(i), adj)[p],
{
    broadcast use NodeDepth::lemma_of;

    lemma_depths_along_after_last_visit(base, affected, order, adj, x, i);
    let t = order.take(i + 1);
    assert(t.drop_last() =~= order.take(i));
    assert(t.last() == x);
    let dm = depths_along(base, affected, order.take(i), adj);
    let done = as_depths(dm);
    let ps = adj.spec_parents(x);
    lemma_max_parent_depth_bounds(base, affected, done, ps);
    let j = choose|j: int| 0 <= j < ps.len() && ps[j] == p;
    assert(parent_depth_of(base, affected, done, ps[j]) == dm[p]);
}

} // verus!
