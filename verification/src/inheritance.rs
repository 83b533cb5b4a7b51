//! Schema inheritance graphs: a builder, the graph the pipeline processes,
//! and the validated acyclic graph with its topological order and roots.

use vstd::prelude::*;

use crate::error::SchemaInheritanceError;
use crate::graph::{
    edge_pairs, is_endpoint, pairs_of, AdjacencyMap, Graph, Node,
};
use crate::identifier::SchemaId;
use crate::idmap::{id_pairs_to_map, key_seq, IdMap};
use crate::sort::{contains_id, lemma_distinct_within, sort_dedup_ids, strictly_increasing_ids};

verus! {

// ─────────────────────────────────────────────────────────────────────────────
//  Topological order
// ─────────────────────────────────────────────────────────────────────────────

/// `a` occurs before `b` in `order`.
pub open spec fn precedes(order: Seq<SchemaId>, a: SchemaId, b: SchemaId) -> bool {
    exists|i: int, j: int| 0 <= i < j < order.len() && #[trigger] order[i] == a && #[trigger] order[j] == b
}

/// `order` lists each node once and puts the source of every edge before
/// its target.
pub open spec fn is_topological(
    order: Seq<SchemaId>,
    nodes: Set<SchemaId>,
    edges: Seq<(SchemaId, SchemaId)>,
) -> bool {
    &&& order.no_duplicates()
    &&& forall|x: SchemaId| order.contains(x) <==> nodes.contains(x)
    &&& forall|k: int| 0 <= k < edges.len() ==> precedes(order, #[trigger] edges[k].0, edges[k].1)
}

/// Some order of the nodes is topological for the edges.
pub open spec fn has_topological_order(nodes: Set<SchemaId>, edges: Seq<(SchemaId, SchemaId)>) -> bool {
    exists|order: Seq<SchemaId>| is_topological(order, nodes, edges)
}

/// Every edge endpoint is a node.
pub open spec fn endpoints_are_nodes(nodes: Set<SchemaId>, edges: Seq<(SchemaId, SchemaId)>) -> bool {
    forall|k: int| 0 <= k < edges.len() ==> nodes.contains(#[trigger] edges[k].0) && nodes.contains(edges[k].1)
}

pub proof fn lemma_first_member(o: Seq<SchemaId>, r: Set<SchemaId>, i: int) -> (m: int)
    requires
        0 <= i < o.len(),
        r.contains(o[i]),
    ensures
        0 <= m <= i,
        r.contains(o[m]),
        forall|j: int| 0 <= j < m ==> !r.contains(#[trigger] o[j]),
    decreases i,
{
    if exists|j: int| 0 <= j < i && r.contains(#[trigger] o[j]) {
        let j = choose|j: int| 0 <= j < i && r.contains(#[trigger] o[j]);
        lemma_first_member(o, r, j)
    } else {
        i
    }
}

/// When every node outside `placed` has an edge from another node outside
/// `placed`, and some node is outside it, no topological order exists.
proof fn lemma_stuck_means_cycle(
    nodes: Set<SchemaId>,
    edges: Seq<(SchemaId, SchemaId)>,
    placed: Seq<SchemaId>,
    x0: SchemaId,
)
    requires
        nodes.contains(x0),
        !placed.contains(x0),
        forall|x: SchemaId|
            nodes.contains(x) && !placed.contains(x) ==> exists|k: int|
                0 <= k < edges.len() && (#[trigger] edges[k]).1 == x && !placed.contains(edges[k].0),
    ensures
        !has_topological_order(nodes, edges),
{
    if has_topological_order(nodes, edges) {
        let o = choose|o: Seq<SchemaId>| is_topological(o, nodes, edges);
        let r = Set::new(|x: SchemaId| nodes.contains(x) && !placed.contains(x));
        assert(o.contains(x0));
        let i0 = choose|i: int| 0 <= i < o.len() && o[i] == x0;
        assert(r.contains(o[i0]));
        let m = lemma_first_member(o, r, i0);
        let x = o[m];
        assert(nodes.contains(x) && !placed.contains(x));
        let k = choose|k: int| 0 <= k < edges.len() && (#[trigger] edges[k]).1 == x && !placed.contains(edges[k].0);
        assert(precedes(o, edges[k].0, edges[k].1));
        let (a, b) = choose|a: int, b: int|
            0 <= a < b < o.len() && #[trigger] o[a] == edges[k].0 && #[trigger] o[b] == edges[k].1;
        assert(b == m) by {
            if b != m {
                assert(o[b] == o[m]);
            }
        }
        assert(o.contains(edges[k].0));
        assert(nodes.contains(edges[k].0));
        assert(r.contains(o[a]));
    }
}

/// The placed nodes are distinct nodes, each after all of its parents.
pub open spec fn placed_prefix(order: Seq<SchemaId>, ids: Seq<SchemaId>, edges: Seq<(SchemaId, SchemaId)>) -> bool {
    &&& order.no_duplicates()
    &&& forall|x: SchemaId| order.contains(x) ==> ids.contains(x)
    &&& forall|q: int| 0 <= q < edges.len() && order.contains(#[trigger] edges[q].1)
        ==> precedes(order, edges[q].0, edges[q].1)
}

/// `x` is placed, or one of its parents is not.
pub open spec fn blocked(order: Seq<SchemaId>, edges: Seq<(SchemaId, SchemaId)>, x: SchemaId) -> bool {
    order.contains(x) || exists|q: int|
        0 <= q < edges.len() && (#[trigger] edges[q]).1 == x && !order.contains(edges[q].0)
}

/// Whether all parents of `x` are placed.
fn parents_placed(edges: &Vec<(SchemaId, SchemaId)>, order: &Vec<SchemaId>, x: SchemaId) -> (r: bool)
    ensures
        r == forall|q: int| 0 <= q < edges@.len() && #[trigger] edges@[q].1 == x ==> order@.contains(edges@[q].0),
{
    let mut q: usize = 0;
    while q < edges.len()
        invariant
            0 <= q <= edges@.len(),
            forall|t: int| 0 <= t < q && #[trigger] edges@[t].1 == x ==> order@.contains(edges@[t].0),
        decreases edges@.len() - q,
    {
        if edges[q].1 == x && !contains_id(order.as_slice(), edges[q].0) {
            assert(edges@[q as int].1 == x);
            return false;
        }
        q = q + 1;
    }
    true
}

/// The first node (in `ids` order) that is unplaced and whose parents are
/// all placed.
fn find_ready(ids: &Vec<SchemaId>, edges: &Vec<(SchemaId, SchemaId)>, order: &Vec<SchemaId>) -> (r: Option<SchemaId>)
    ensures
        r matches Some(x) ==> ids@.contains(x) && !order@.contains(x) && forall|q: int|
            0 <= q < edges@.len() && #[trigger] edges@[q].1 == x ==> order@.contains(edges@[q].0),
        r is None ==> forall|j: int| 0 <= j < ids@.len() ==> blocked(order@, edges@, #[trigger] ids@[j]),
{
    let mut i: usize = 0;
    while i < ids.len()
        invariant
            0 <= i <= ids@.len(),
            forall|j: int| 0 <= j < i ==> blocked(order@, edges@, #[trigger] ids@[j]),
        decreases ids@.len() - i,
    {
        let x = ids[i];
        if !contains_id(order.as_slice(), x) && parents_placed(edges, order, x) {
            assert(ids@[i as int] == x);
            return Some(x);
        }
        i = i + 1;
    }
    None
}

proof fn lemma_place(before: Seq<SchemaId>, ids: Seq<SchemaId>, edges: Seq<(SchemaId, SchemaId)>, x: SchemaId)
    requires
        placed_prefix(before, ids, edges),
        ids.contains(x),
        !before.contains(x),
        forall|q: int| 0 <= q < edges.len() && #[trigger] edges[q].1 == x ==> before.contains(edges[q].0),
    ensures
        placed_prefix(before.push(x), ids, edges),
{
    let order = before.push(x);
    assert(order.no_duplicates()) by {
        assert forall|a: int, b: int| 0 <= a < b < order.len() implies order[a] != order[b] by {
            if b == order.len() - 1 {
                assert(before[a] == order[a]);
            } else {
                assert(before[a] == order[a] && before[b] == order[b]);
            }
        }
    }
    assert forall|y: SchemaId| order.contains(y) implies ids.contains(y) by {
        if y != x {
            let j = choose|j: int| 0 <= j < order.len() && #[trigger] order[j] == y;
            assert(before[j] == y);
        }
    }
    assert forall|q: int| 0 <= q < edges.len() && order.contains(#[trigger] edges[q].1)
        implies precedes(order, edges[q].0, edges[q].1) by {
        let c = edges[q].1;
        let p = edges[q].0;
        if c == x {
            assert(before.contains(p));
            let a = choose|a: int| 0 <= a < before.len() && #[trigger] before[a] == p;
            assert(order[a] == p && order[before.len() as int] == c);
        } else {
            let j = choose|j: int| 0 <= j < order.len() && #[trigger] order[j] == c;
            assert(before[j] == c);
            assert(before.contains(c));
            assert(precedes(before, p, c));
            let (a, b) = choose|a: int, b: int| 0 <= a < b < before.len() && #[trigger] before[a] == p && #[trigger] before[b] == c;
            assert(order[a] == p && order[b] == c);
        }
    }
}

/// A topological order of `ids` for the `(parent, child)` edges: nodes are
/// placed one at a time, each time the first one (in `ids` order) whose
/// parents are all placed. Fails exactly when an edge names an unknown node
/// or no topological order exists.
pub(crate) fn topological_order(ids: &Vec<SchemaId>, edges: &Vec<(SchemaId, SchemaId)>) -> (r: Option<Vec<SchemaId>>)
    requires
        ids@.no_duplicates(),
    ensures
        r is Some <==> (endpoints_are_nodes(ids@.to_set(), edges@) && has_topological_order(ids@.to_set(), edges@)),
        r matches Some(o) ==> is_topological(o@, ids@.to_set(), edges@),
{
    let mut k: usize = 0;
    while k < edges.len()
        invariant
            0 <= k <= edges@.len(),
            forall|q: int| 0 <= q < k ==> ids@.contains(#[trigger] edges@[q].0) && ids@.contains(edges@[q].1),
        decreases edges@.len() - k,
    {
        let e = edges[k];
        let has_from = contains_id(ids.as_slice(), e.0);
        let has_to = contains_id(ids.as_slice(), e.1);
        if !has_from || !has_to {
            proof {
                assert(!endpoints_are_nodes(ids@.to_set(), edges@)) by {
                    if endpoints_are_nodes(ids@.to_set(), edges@) {
                        assert(ids@.to_set().contains(edges@[k as int].0));
                        assert(ids@.to_set().contains(edges@[k as int].1));
                    }
                }
            }
            return None;
        }
        proof {
            assert(ids@.contains(edges@[k as int].0) && ids@.contains(edges@[k as int].1));
            assert forall|q: int| 0 <= q < k + 1 implies ids@.contains(#[trigger] edges@[q].0) && ids@.contains(edges@[q].1) by {
                if q < k {
                    assert(ids@.contains(edges@[q].0));
                }
            }
        }
        k = k + 1;
    }
    proof {
        assert(endpoints_are_nodes(ids@.to_set(), edges@));
    }
    let mut order: Vec<SchemaId> = Vec::new();
    while order.len() < ids.len()
        invariant
            ids@.no_duplicates(),
            endpoints_are_nodes(ids@.to_set(), edges@),
            placed_prefix(order@, ids@, edges@),
        decreases ids@.len() - order@.len(),
    {
        proof {
            crate::sort::lemma_distinct_within(order@, ids@);
        }
        match find_ready(ids, edges, &order) {
            Some(x) => {
                let ghost before = order@;
                order.push(x);
                proof {
                    lemma_place(before, ids@, edges@, x);
                }
            },
            None => {
                proof {
                    assert(exists|x: SchemaId| ids@.contains(x) && !order@.contains(x)) by {
                        if forall|x: SchemaId| ids@.contains(x) ==> order@.contains(x) {
                            crate::sort::lemma_distinct_within(ids@, order@);
                        }
                    }
                    let x0 = choose|x: SchemaId| ids@.contains(x) && !order@.contains(x);
                    assert forall|y: SchemaId| ids@.to_set().contains(y) && !order@.contains(y) implies exists|k: int|
                        0 <= k < edges@.len() && (#[trigger] edges@[k]).1 == y && !order@.contains(edges@[k].0) by {
                        let j = choose|j: int| 0 <= j < ids@.len() && #[trigger] ids@[j] == y;
                        assert(blocked(order@, edges@, ids@[j]));
                    }
                    lemma_stuck_means_cycle(ids@.to_set(), edges@, order@, x0);
                }
                return None;
            },
        }
    }
    proof {
        crate::sort::lemma_distinct_within(order@, ids@);
        assert forall|x: SchemaId| order@.contains(x) <==> ids@.to_set().contains(x) by {
            if ids@.contains(x) && !order@.contains(x) {
                // the order holds as many distinct ids as there are ids, so it misses none
                let extended = order@.push(x);
                assert(extended.no_duplicates()) by {
                    assert forall|a: int, b: int| 0 <= a < b < extended.len() implies extended[a] != extended[b] by {
                        if b == extended.len() - 1 {
                            assert(order@[a] == extended[a]);
                        } else {
                            assert(order@[a] == extended[a] && order@[b] == extended[b]);
                        }
                    }
                }
                assert forall|y: SchemaId| extended.contains(y) implies ids@.contains(y) by {
                    if y != x {
                        let j = choose|j: int| 0 <= j < extended.len() && #[trigger] extended[j] == y;
                        assert(order@[j] == y);
                    }
                }
                crate::sort::lemma_distinct_within(extended, ids@);
            }
        }
        assert forall|k: int| 0 <= k < edges@.len() implies precedes(order@, #[trigger] edges@[k].0, edges@[k].1) by {
            assert(ids@.to_set().contains(edges@[k].0));
            assert(ids@.to_set().contains(edges@[k].1));
            assert(order@.contains(edges@[k].1));
        }
        assert(is_topological(order@, ids@.to_set(), edges@));
    }
    Some(order)
}

// ─────────────────────────────────────────────────────────────────────────────
//  Builder
// ─────────────────────────────────────────────────────────────────────────────

/// Builds a schema inheritance graph from nodes and child→parent links.
#[derive(Debug)]
pub struct SchemaGraphBuilder<T> {
    nodes: IdMap<T>,
    edges: Vec<(SchemaId, SchemaId)>,
}

impl<T> Default for SchemaGraphBuilder<T> {
    /// An empty builder.
    fn default() -> (b: SchemaGraphBuilder<T>)
        ensures
            b.spec_nodes() == Map::<SchemaId, T>::empty(),
            b.spec_ids().len() == 0,
            b.spec_edges().len() == 0,
    {
        SchemaGraphBuilder::new()
    }
}

impl<T> SchemaGraphBuilder<T> {
    #[verifier::type_invariant]
    spec fn inv(self) -> bool {
        &&& self.nodes.wf()
        &&& self.edges@.no_duplicates()
    }

    /// The payloads added so far, by identifier.
    pub closed spec fn spec_nodes(self) -> Map<SchemaId, T> {
        self.nodes@
    }

    /// The node identifiers in the order they were first added.
    pub closed spec fn spec_ids(self) -> Seq<SchemaId> {
        key_seq(self.nodes.pairs())
    }

    /// The `(parent, child)` links added so far, each once, in order.
    pub closed spec fn spec_edges(self) -> Seq<(SchemaId, SchemaId)> {
        self.edges@
    }

    /// An empty builder.
    pub fn new() -> (b: SchemaGraphBuilder<T>)
        ensures
            b.spec_nodes() == Map::<SchemaId, T>::empty(),
            b.spec_ids().len() == 0,
            b.spec_edges().len() == 0,
    {
        let b = SchemaGraphBuilder { nodes: IdMap::new(), edges: Vec::new() };
        assert(b.spec_ids() =~= Seq::<SchemaId>::empty());
        b
    }

    /// An empty builder expecting about `capacity` nodes.
    pub fn with_capacity(capacity: usize) -> (b: SchemaGraphBuilder<T>)
        ensures
            b.spec_nodes() == Map::<SchemaId, T>::empty(),
            b.spec_ids().len() == 0,
            b.spec_edges().len() == 0,
    {
        SchemaGraphBuilder::new()
    }

    /// Adds (or replaces) the node `id` with its payload.
    pub fn add_node(&mut self, id: SchemaId, payload: T)
        ensures
            final(self).spec_nodes() == old(self).spec_nodes().insert(id, payload),
            final(self).spec_edges() == old(self).spec_edges(),
    {
        proof {
            use_type_invariant(&*self);
        }
        let mut nodes = IdMap::new();
        std::mem::swap(&mut nodes, &mut self.nodes);
        nodes.insert(id, payload);
        self.nodes = nodes;
    }

    /// Records that `child` extends `parent` (once, however often it is added).
    pub fn add_parent(&mut self, child: SchemaId, parent: SchemaId)
        ensures
            final(self).spec_nodes() == old(self).spec_nodes(),
            final(self).spec_ids() == old(self).spec_ids(),
            final(self).spec_edges() == (if old(self).spec_edges().contains((parent, child)) {
                old(self).spec_edges()
            } else {
                old(self).spec_edges().push((parent, child))
            }),
    {
        proof {
            use_type_invariant(&*self);
        }
        let mut i: usize = 0;
        while i < self.edges.len()
            invariant
                0 <= i <= self.edges@.len(),
                forall|j: int| 0 <= j < i ==> self.edges@[j] != (parent, child),
            decreases self.edges@.len() - i,
        {
            if self.edges[i].0 == parent && self.edges[i].1 == child {
                assert(self.edges@[i as int] == (parent, child));
                return;
            }
            i = i + 1;
        }
        let mut edges: Vec<(SchemaId, SchemaId)> = Vec::new();
        std::mem::swap(&mut edges, &mut self.edges);
        let ghost before = edges@;
        edges.push((parent, child));
        proof {
            assert(edges@.no_duplicates()) by {
                assert forall|a: int, b: int| 0 <= a < b < edges@.len() implies edges@[a] != edges@[b] by {
                    if b == edges@.len() - 1 {
                        assert(before[a] == edges@[a]);
                    } else {
                        assert(before[a] == edges@[a] && before[b] == edges@[b]);
                    }
                }
            }
        }
        self.edges = edges;
    }

    /// The processing graph with the builder's nodes and links.
    pub fn build(self) -> (g: ProcessingGraph<T>)
        ensures
            g.spec_payloads() == self.spec_nodes(),
            g.spec_ids() == self.spec_ids(),
            g.spec_edges() == self.spec_edges(),
    {
        proof {
            use_type_invariant(&self);
        }
        let ghost ids = self.spec_ids();
        let ghost node_map = self.nodes@;
        let ghost node_pairs = self.nodes.pairs();
        proof {
            self.nodes.lemma_view();
        }
        let SchemaGraphBuilder { nodes, edges } = self;
        let mut entries = nodes.into_entries();
        let total: usize = entries.len();
        proof {
            assert(node_pairs.skip(0) =~= node_pairs);
            assert(node_pairs.len() == total);
        }
        let mut graph: Graph<T, ()> = Graph::new();
        let mut n: usize = 0;
        while entries.len() > 0
            invariant
                n + entries@.len() == node_pairs.len(),
                node_pairs.len() <= usize::MAX,
                entries@ == node_pairs.skip(n as int),
                crate::idmap::ids_unique(node_pairs),
                forall|k: int| 0 <= k < node_pairs.len() ==> #[trigger] node_map[node_pairs[k].0] == node_pairs[k].1,
                graph.spec_node_pairs().len() == n,
                forall|k: int| 0 <= k < n ==> (#[trigger] graph.spec_node_pairs()[k]).0 == node_pairs[k].0,
                forall|x: SchemaId| #[trigger] graph.spec_nodes().contains_key(x) <==> exists|k: int|
                    0 <= k < n && #[trigger] node_pairs[k].0 == x,
                forall|k: int| 0 <= k < n ==> #[trigger] graph.spec_nodes()[node_pairs[k].0].spec_payload() == node_pairs[k].1,
                graph.spec_edges().len() == 0,
            decreases entries@.len(),
        {
            let (id, payload) = entries.remove(0);
            let ghost old_graph_pairs = graph.spec_node_pairs();
            let ghost old_graph_nodes = graph.spec_nodes();
            proof {
                assert((id, payload) == node_pairs[n as int]);
                assert(!old_graph_nodes.contains_key(id)) by {
                    if old_graph_nodes.contains_key(id) {
                        let k = choose|k: int| 0 <= k < n && #[trigger] node_pairs[k].0 == id;
                        assert(node_pairs[k].0 == node_pairs[n as int].0);
                    }
                }
            }
            graph.add_node(id, payload);
            proof {
                assert forall|x: SchemaId| #[trigger] graph.spec_nodes().contains_key(x) <==> exists|k: int|
                    0 <= k < n + 1 && #[trigger] node_pairs[k].0 == x by {
                    if x == id {
                        assert(node_pairs[n as int].0 == x);
                    }
                }
                assert forall|k: int| 0 <= k < n + 1 implies #[trigger] graph.spec_nodes()[node_pairs[k].0].spec_payload() == node_pairs[k].1 by {
                    if k < n {
                        assert(node_pairs[k].0 != id) by {
                            assert(node_pairs[k].0 != node_pairs[n as int].0);
                        }
                    }
                }
            }
            n = n + 1;
        }
        let mut k: usize = 0;
        while k < edges.len()
            invariant
                0 <= k <= edges@.len(),
                graph.spec_node_pairs().len() == node_pairs.len(),
                forall|q: int| 0 <= q < node_pairs.len() ==> (#[trigger] graph.spec_node_pairs()[q]).0 == node_pairs[q].0,
                forall|x: SchemaId| #[trigger] graph.spec_nodes().contains_key(x) <==> exists|q: int|
                    0 <= q < node_pairs.len() && #[trigger] node_pairs[q].0 == x,
                forall|q: int| 0 <= q < node_pairs.len() ==> #[trigger] graph.spec_nodes()[node_pairs[q].0].spec_payload() == node_pairs[q].1,
                edge_pairs(graph.spec_edges()) == edges@.take(k as int),
            decreases edges@.len() - k,
        {
            let e = edges[k];
            graph.add_edge_with(e.0, e.1, ());
            proof {
                assert(edges@.take(k + 1) =~= edges@.take(k as int).push(e));
            }
            k = k + 1;
        }
        proof {
            assert(edges@.take(edges@.len() as int) =~= edges@);
        }
        let g = ProcessingGraph { inner: graph };
        proof {
            assert(g.spec_ids() =~= ids);
            assert(g.spec_payloads() =~= node_map) by {
                assert forall|x: SchemaId| g.spec_payloads().contains_key(x) <==> node_map.contains_key(x) by {
                    if node_map.contains_key(x) {
                        let q = choose|q: int| 0 <= q < node_pairs.len() && #[trigger] node_pairs[q].0 == x;
                    }
                }
                assert forall|x: SchemaId| #[trigger] g.spec_payloads().contains_key(x) implies g.spec_payloads()[x] == node_map[x] by {
                    let q = choose|q: int| 0 <= q < node_pairs.len() && #[trigger] node_pairs[q].0 == x;
                }
            }
        }
        g
    }
}

// ─────────────────────────────────────────────────────────────────────────────
//  Processing graph
// ─────────────────────────────────────────────────────────────────────────────

/// The inheritance graph the pipeline works on: payload nodes and
/// parent→child edges, not yet checked for cycles.
#[derive(Debug)]
pub struct ProcessingGraph<T> {
    inner: Graph<T, ()>,
}

/// The error every failed cycle check reports.
pub open spec fn is_cycle_error(e: SchemaInheritanceError) -> bool {
    e matches SchemaInheritanceError::CycleDetected { nodes } && nodes@.len() == 0
}

impl<T> ProcessingGraph<T> {
    /// The payloads by identifier.
    pub closed spec fn spec_payloads(self) -> Map<SchemaId, T> {
        self.inner.spec_nodes().map_values(|n: Node<T>| n.spec_payload())
    }

    /// The node identifiers, in the order they were added.
    pub closed spec fn spec_ids(self) -> Seq<SchemaId> {
        key_seq(self.inner.spec_node_pairs())
    }

    /// The `(parent, child)` edges, in order.
    pub closed spec fn spec_edges(self) -> Seq<(SchemaId, SchemaId)> {
        edge_pairs(self.inner.spec_edges())
    }

    /// The underlying graph.
    pub closed spec fn spec_inner(self) -> Graph<T, ()> {
        self.inner
    }

    /// Wraps a graph.
    pub fn from_inner(inner: Graph<T, ()>) -> (g: ProcessingGraph<T>)
        ensures
            g.spec_inner() == inner,
    {
        ProcessingGraph { inner }
    }

    /// Wraps a graph.
    pub fn from(inner: Graph<T, ()>) -> (g: ProcessingGraph<T>)
        ensures
            g.spec_inner() == inner,
    {
        ProcessingGraph { inner }
    }

    /// The underlying graph.
    pub fn as_inner(&self) -> (r: &Graph<T, ()>)
        ensures
            *r == self.spec_inner(),
    {
        &self.inner
    }

    /// The underlying graph, for in-place changes.
    pub fn as_inner_mut(&mut self) -> (r: &mut Graph<T, ()>)
        ensures
            *r == old(self).spec_inner(),
            final(self).spec_inner() == *final(r),
    {
        &mut self.inner
    }

    /// The underlying graph, for in-place changes.
    pub fn graph_mut(&mut self) -> (r: &mut Graph<T, ()>)
        ensures
            *r == old(self).spec_inner(),
            final(self).spec_inner() == *final(r),
    {
        &mut self.inner
    }

    /// The underlying graph.
    pub fn graph(&self) -> (r: &Graph<T, ()>)
        ensures
            *r == self.spec_inner(),
    {
        &self.inner
    }

    /// The underlying graph, taking the wrapper apart.
    pub fn into_inner(self) -> (r: Graph<T, ()>)
        ensures
            r == self.spec_inner(),
    {
        self.inner
    }

    fn ids_and_edges(&self) -> (r: (Vec<SchemaId>, Vec<(SchemaId, SchemaId)>))
        ensures
            r.0@ == self.spec_ids(),
            r.0@.no_duplicates(),
            r.0@.to_set() == self.spec_payloads().dom(),
            r.1@ == self.spec_edges(),
    {
        let nodes = self.inner.nodes();
        let ids = nodes.keys();
        let edges = pairs_of(self.inner.edges());
        proof {
            assert(ids@.to_set() =~= self.spec_payloads().dom());
        }
        (ids, edges)
    }

    /// A topological order of the nodes (parents before children). Fails
    /// with a cycle error exactly when an edge names an unknown node or no
    /// such order exists.
    pub fn topo_order(&self) -> (r: Result<Vec<SchemaId>, SchemaInheritanceError>)
        ensures
            r is Ok <==> (endpoints_are_nodes(self.spec_payloads().dom(), self.spec_edges())
                && has_topological_order(self.spec_payloads().dom(), self.spec_edges())),
            r matches Ok(o) ==> is_topological(o@, self.spec_payloads().dom(), self.spec_edges()),
            r matches Err(e) ==> is_cycle_error(e),
    {
        let (ids, edges) = self.ids_and_edges();
        match topological_order(&ids, &edges) {
            Some(o) => Ok(o),
            None => Err(SchemaInheritanceError::CycleDetected { nodes: Vec::new() }),
        }
    }

    /// The node identifiers in increasing order.
    pub fn node_ids_sorted(&self) -> (r: Vec<SchemaId>)
        ensures
            strictly_increasing_ids(r@),
            forall|x: SchemaId| r@.contains(x) <==> self.spec_payloads().contains_key(x),
    {
        let (ids, _edges) = self.ids_and_edges();
        let r = sort_dedup_ids(&ids);
        proof {
            assert forall|x: SchemaId| r@.contains(x) <==> self.spec_payloads().contains_key(x) by {
                assert(ids@.contains(x) == ids@.to_set().contains(x));
            }
        }
        r
    }

    /// Validates the graph as acyclic and turns it into an inheritance graph.
    pub fn try_into_dag(self) -> (r: Result<InheritanceGraph<T>, SchemaInheritanceError>)
        ensures
            r is Ok <==> (endpoints_are_nodes(self.spec_payloads().dom(), self.spec_edges())
                && has_topological_order(self.spec_payloads().dom(), self.spec_edges())),
            r matches Ok(g) ==> g.describes(self.spec_payloads(), self.spec_edges()),
            r matches Err(e) ==> is_cycle_error(e),
    {
        InheritanceGraph::try_from(self)
    }

    /// Maps every payload, in node order, stopping at the first error.
    pub fn map_payload<U, E, F>(self, mapper: F) -> (r: Result<ProcessingGraph<U>, E>)
        where
            F: Fn(SchemaId, T) -> Result<U, E>,
        requires
            forall|id: SchemaId, t: T| #[trigger] mapper.requires((id, t)),
        ensures
            r matches Ok(g) ==> {
                &&& g.spec_ids() == self.spec_ids()
                &&& g.spec_edges() == self.spec_edges()
                &&& g.spec_payloads().dom() == self.spec_payloads().dom()
                &&& forall|id: SchemaId| #[trigger] g.spec_payloads().contains_key(id) ==> mapper.ensures(
                    (id, self.spec_payloads()[id]),
                    Ok::<U, E>(g.spec_payloads()[id]),
                )
            },
            r is Err ==> exists|id: SchemaId| self.spec_payloads().contains_key(id) && #[trigger] mapper.ensures(
                (id, self.spec_payloads()[id]),
                Err::<U, E>(r->Err_0),
            ),
    {
        let r0 = self.inner.nodes();
        proof {
            r0.lemma_view();
            crate::idmap::lemma_key_seq(r0.pairs());
        }
        let ghost payloads = self.spec_payloads();
        let ghost ids = self.spec_ids();
        let ghost edges = self.spec_edges();
        let ProcessingGraph { inner } = self;
        let ghost pairs = inner.spec_node_pairs();
        let r1 = inner.nodes();
        proof {
            r1.lemma_view();
        }
        let (nodes, old_edges) = inner.into_parts();
        let mut entries = nodes.into_entries();
        let total: usize = entries.len();
        proof {
            assert(pairs.skip(0) =~= pairs);
            assert(pairs.len() == total);
        }
        let mut graph: Graph<U, ()> = Graph::new();
        let mut n: usize = 0;
        while entries.len() > 0
            invariant
                n + entries@.len() == pairs.len(),
                pairs.len() <= usize::MAX,
                entries@ == pairs.skip(n as int),
                crate::idmap::ids_unique(pairs),
                ids == key_seq(pairs),
                forall|k: int| 0 <= k < pairs.len() ==> #[trigger] payloads[pairs[k].0] == pairs[k].1.spec_payload(),
                forall|k: int| 0 <= k < pairs.len() ==> payloads.contains_key(#[trigger] pairs[k].0),
                forall|id: SchemaId, t: T| #[trigger] mapper.requires((id, t)),
                payloads == self.spec_payloads(),
                key_seq(graph.spec_node_pairs()) == ids.take(n as int),
                forall|x: SchemaId| #[trigger] graph.spec_nodes().contains_key(x) <==> exists|k: int|
                    0 <= k < n && #[trigger] pairs[k].0 == x,
                forall|k: int| 0 <= k < n ==> mapper.ensures(
                    (pairs[k].0, pairs[k].1.spec_payload()),
                    Ok::<U, E>(#[trigger] graph.spec_nodes()[pairs[k].0].spec_payload()),
                ),
                graph.spec_edges().len() == 0,
            decreases entries@.len(),
        {
            let (id, node) = entries.remove(0);
            proof {
                assert((id, node) == pairs[n as int]);
                assert(!graph.spec_nodes().contains_key(id)) by {
                    if graph.spec_nodes().contains_key(id) {
                        let k = choose|k: int| 0 <= k < n && #[trigger] pairs[k].0 == id;
                        assert(pairs[k].0 == pairs[n as int].0);
                    }
                }
            }
            let payload = node.into_payload();
            match mapper(id, payload) {
                Ok(u) => {
                    let ghost before = graph.spec_nodes();
                    let ghost before_pairs = graph.spec_node_pairs();
                    graph.add_node(id, u);
                    proof {
                        assert(key_seq(graph.spec_node_pairs()) =~= ids.take(n + 1)) by {
                            assert(key_seq(before_pairs) == ids.take(n as int));
                            assert(ids[n as int] == id);
                            assert(key_seq(graph.spec_node_pairs()) =~= key_seq(before_pairs).push(id));
                        }
                        assert forall|x: SchemaId| #[trigger] graph.spec_nodes().contains_key(x) <==> exists|k: int|
                            0 <= k < n + 1 && #[trigger] pairs[k].0 == x by {
                            if x == id {
                                assert(pairs[n as int].0 == x);
                            }
                        }
                        assert forall|k: int| 0 <= k < n + 1 implies mapper.ensures(
                            (pairs[k].0, pairs[k].1.spec_payload()),
                            Ok::<U, E>(#[trigger] graph.spec_nodes()[pairs[k].0].spec_payload()),
                        ) by {
                            if k < n {
                                assert(pairs[k].0 != pairs[n as int].0);
                                assert(before.contains_key(pairs[k].0));
                            }
                        }
                    }
                },
                Err(e) => {
                    proof {
                        assert(payloads.contains_key(pairs[n as int].0));
                        assert(payloads[pairs[n as int].0] == pairs[n as int].1.spec_payload());
                        assert(payloads.contains_key(id) && mapper.ensures((id, payloads[id]), Err::<U, E>(e)));
                    }
                    let r: Result<ProcessingGraph<U>, E> = Err(e);
                    proof {
                        assert(r is Err);
                        assert(r->Err_0 == e);
                        assert(mapper.ensures((id, payloads[id]), Err::<U, E>(r->Err_0)));
                    }
                    return r;
                },
            }
            n = n + 1;
        }
        let mut k: usize = 0;
        while k < old_edges.len()
            invariant
                0 <= k <= old_edges@.len(),
                edge_pairs(graph.spec_edges()) == edge_pairs(old_edges@.take(k as int)),
                key_seq(graph.spec_node_pairs()) == ids,
                n == pairs.len(),
                forall|x: SchemaId| #[trigger] graph.spec_nodes().contains_key(x) <==> exists|q: int|
                    0 <= q < n && #[trigger] pairs[q].0 == x,
                forall|q: int| 0 <= q < n ==> mapper.ensures(
                    (pairs[q].0, pairs[q].1.spec_payload()),
                    Ok::<U, E>(#[trigger] graph.spec_nodes()[pairs[q].0].spec_payload()),
                ),
            decreases old_edges@.len() - k,
        {
            graph.add_edge_with(old_edges[k].from(), old_edges[k].to(), ());
            proof {
                assert(edge_pairs(old_edges@.take(k + 1)) =~= edge_pairs(old_edges@.take(k as int)).push(
                    (old_edges@[k as int].spec_from(), old_edges@[k as int].spec_to())));
            }
            k = k + 1;
        }
        let g = ProcessingGraph { inner: graph };
        proof {
            assert(old_edges@.take(old_edges@.len() as int) =~= old_edges@);
            assert(n as int == pairs.len());
            assert(ids.take(n as int) =~= ids);
            assert(g.spec_payloads().dom() =~= payloads.dom()) by {
                assert forall|x: SchemaId| g.spec_payloads().contains_key(x) <==> payloads.contains_key(x) by {
                    if payloads.contains_key(x) {
                        assert(ids.contains(x));
                        let q = choose|q: int| 0 <= q < ids.len() && ids[q] == x;
                        assert(pairs[q].0 == x);
                    }
                    if g.spec_payloads().contains_key(x) {
                        let q = choose|q: int| 0 <= q < n && #[trigger] pairs[q].0 == x;
                    }
                }
            }
            assert forall|id: SchemaId| #[trigger] g.spec_payloads().contains_key(id) implies mapper.ensures(
                (id, payloads[id]),
                Ok::<U, E>(g.spec_payloads()[id]),
            ) by {
                let q = choose|q: int| 0 <= q < n && #[trigger] pairs[q].0 == id;
                assert(payloads[pairs[q].0] == pairs[q].1.spec_payload());
            }
        }
        Ok(g)
    }
}

// ─────────────────────────────────────────────────────────────────────────────
//  Inheritance graph
// ─────────────────────────────────────────────────────────────────────────────

/// No edge leads into `x`.
pub open spec fn is_root(edges: Seq<(SchemaId, SchemaId)>, x: SchemaId) -> bool {
    forall|k: int| 0 <= k < edges.len() ==> #[trigger] edges[k].1 != x
}

/// A validated, acyclic inheritance graph with its topological order and
/// roots.
#[derive(Debug)]
pub struct InheritanceGraph<T> {
    nodes: IdMap<T>,
    adjacency: AdjacencyMap,
    topo_order: Vec<SchemaId>,
    roots: Vec<SchemaId>,
}

impl<T> InheritanceGraph<T> {
    #[verifier::type_invariant]
    spec fn inv(self) -> bool {
        self.nodes.wf()
    }

    /// The payloads by identifier.
    pub closed spec fn spec_payloads(self) -> Map<SchemaId, T> {
        self.nodes@
    }

    /// The cached topological order.
    pub closed spec fn spec_topo_order(self) -> Seq<SchemaId> {
        self.topo_order@
    }

    /// The cached roots.
    pub closed spec fn spec_roots(self) -> Seq<SchemaId> {
        self.roots@
    }

    /// The adjacency lists.
    pub closed spec fn spec_adjacency(self) -> AdjacencyMap {
        self.adjacency
    }

    /// This graph has the given payloads and edges: its order is
    /// topological, its roots are the nodes without parents in that order,
    /// and its adjacency lists hold exactly the edges, sorted.
    pub open spec fn describes(self, payloads: Map<SchemaId, T>, edges: Seq<(SchemaId, SchemaId)>) -> bool {
        &&& self.spec_payloads() == payloads
        &&& is_topological(self.spec_topo_order(), payloads.dom(), edges)
        &&& self.spec_roots() == self.spec_topo_order().filter(|x: SchemaId| is_root(edges, x))
        &&& forall|id: SchemaId, x: SchemaId| #[trigger] self.spec_adjacency().spec_parents(id).contains(x)
            <==> edges.contains((x, id))
        &&& forall|id: SchemaId, x: SchemaId| #[trigger] self.spec_adjacency().spec_children(id).contains(x)
            <==> edges.contains((id, x))
        &&& forall|id: SchemaId| #[trigger] strictly_increasing_ids(self.spec_adjacency().spec_parents(id))
        &&& forall|id: SchemaId| #[trigger] strictly_increasing_ids(self.spec_adjacency().spec_children(id))
    }

    /// Validates `graph` as acyclic, keeping its payloads and computing its
    /// topological order, roots and adjacency.
    pub fn try_from(graph: ProcessingGraph<T>) -> (r: Result<InheritanceGraph<T>, SchemaInheritanceError>)
        ensures
            r is Ok <==> (endpoints_are_nodes(graph.spec_payloads().dom(), graph.spec_edges())
                && has_topological_order(graph.spec_payloads().dom(), graph.spec_edges())),
            r matches Ok(g) ==> g.describes(graph.spec_payloads(), graph.spec_edges()),
            r matches Err(e) ==> is_cycle_error(e),
    {
        let order = match graph.topo_order() {
            Ok(o) => o,
            Err(e) => {
                return Err(e);
            },
        };
        let ghost payloads = graph.spec_payloads();
        let ghost edges = graph.spec_edges();
        let adjacency = AdjacencyMap::from_graph(graph.as_inner());
        let mut roots: Vec<SchemaId> = Vec::new();
        let mut i: usize = 0;
        proof {
            reveal(Seq::filter);
            assert(order@.take(0).filter(|x: SchemaId| is_root(edges, x)) =~= Seq::<SchemaId>::empty());
        }
        while i < order.len()
            invariant
                0 <= i <= order@.len(),
                edges == graph.spec_edges(),
                forall|id: SchemaId, x: SchemaId| #[trigger] adjacency.spec_parents(id).contains(x) <==> edges.contains((x, id)),
                roots@ == order@.take(i as int).filter(|x: SchemaId| is_root(edges, x)),
            decreases order@.len() - i,
        {
            let id = order[i];
            let ps = adjacency.parents_of(id);
            proof {
                assert(order@.take(i + 1).drop_last() =~= order@.take(i as int));
                assert(order@.take(i + 1).last() == id);
                assert(order@.take(i + 1).filter(|x: SchemaId| is_root(edges, x)) == (if is_root(edges, id) {
                    order@.take(i as int).filter(|x: SchemaId| is_root(edges, x)).push(id)
                } else {
                    order@.take(i as int).filter(|x: SchemaId| is_root(edges, x))
                })) by {
                    reveal(Seq::filter);
                }
                assert((ps@.len() == 0) == is_root(edges, id)) by {
                    if ps@.len() > 0 {
                        assert(ps@.contains(ps@[0]));
                        assert(edges.contains((ps@[0], id)));
                        let k = choose|k: int| 0 <= k < edges.len() && edges[k] == (ps@[0], id);
                        assert(edges[k].1 == id);
                    } else {
                        assert forall|k: int| 0 <= k < edges.len() implies #[trigger] edges[k].1 != id by {
                            if edges[k].1 == id {
                                assert(edges.contains((edges[k].0, id)));
                                assert(ps@.contains(edges[k].0));
                            }
                        }
                    }
                }
            }
            if ps.len() == 0 {
                roots.push(id);
            }
            i = i + 1;
        }
        proof {
            assert(order@.take(order@.len() as int) =~= order@);
        }
        let ProcessingGraph { inner } = graph;
        let ghost pairs = inner.spec_node_pairs();
        let r1 = inner.nodes();
        proof {
            r1.lemma_view();
        }
        let (nodes, _edges) = inner.into_parts();
        let mut entries = nodes.into_entries();
        let total: usize = entries.len();
        proof {
            assert(pairs.skip(0) =~= pairs);
            assert(pairs.len() == total);
        }
        let mut out: IdMap<T> = IdMap::new();
        let mut n: usize = 0;
        while entries.len() > 0
            invariant
                n + entries@.len() == pairs.len(),
                pairs.len() <= usize::MAX,
                entries@ == pairs.skip(n as int),
                crate::idmap::ids_unique(pairs),
                crate::idmap::id_pairs_to_map(pairs).map_values(|nd: Node<T>| nd.spec_payload()) == payloads,
                forall|k: int| 0 <= k < pairs.len() ==> #[trigger] crate::idmap::id_pairs_to_map(pairs)[pairs[k].0] == pairs[k].1,
                forall|x: SchemaId| #[trigger] crate::idmap::id_pairs_to_map(pairs).contains_key(x) <==> exists|k: int|
                    0 <= k < pairs.len() && #[trigger] pairs[k].0 == x,
                out.wf(),
                forall|x: SchemaId| #[trigger] out@.contains_key(x) <==> exists|k: int|
                    0 <= k < n && #[trigger] pairs[k].0 == x,
                forall|k: int| 0 <= k < n ==> #[trigger] out@[pairs[k].0] == pairs[k].1.spec_payload(),
            decreases entries@.len(),
        {
            let (id, node) = entries.remove(0);
            proof {
                assert((id, node) == pairs[n as int]);
            }
            out.insert(id, node.into_payload());
            proof {
                assert forall|x: SchemaId| #[trigger] out@.contains_key(x) <==> exists|k: int|
                    0 <= k < n + 1 && #[trigger] pairs[k].0 == x by {
                    if x == id {
                        assert(pairs[n as int].0 == x);
                    }
                }
                assert forall|k: int| 0 <= k < n + 1 implies #[trigger] out@[pairs[k].0] == pairs[k].1.spec_payload() by {
                    if k < n {
                        assert(pairs[k].0 != pairs[n as int].0);
                    }
                }
            }
            n = n + 1;
        }
        proof {
            assert(out@ =~= payloads) by {
                assert forall|x: SchemaId| out@.contains_key(x) <==> payloads.contains_key(x) by {
                    if payloads.contains_key(x) {
                        let k = choose|k: int| 0 <= k < pairs.len() && #[trigger] pairs[k].0 == x;
                    }
                    if out@.contains_key(x) {
                        let k = choose|k: int| 0 <= k < n && #[trigger] pairs[k].0 == x;
                    }
                }
                assert forall|x: SchemaId| #[trigger] out@.contains_key(x) implies out@[x] == payloads[x] by {
                    let k = choose|k: int| 0 <= k < n && #[trigger] pairs[k].0 == x;
                }
            }
        }
        Ok(InheritanceGraph { nodes: out, adjacency, topo_order: order, roots })
    }

    /// The cached topological order.
    pub fn topo_order(&self) -> (r: &[SchemaId])
        ensures
            r@ == self.spec_topo_order(),
    {
        self.topo_order.as_slice()
    }

    /// The cached roots (nodes without parents), in topological order.
    pub fn roots(&self) -> (r: &[SchemaId])
        ensures
            r@ == self.spec_roots(),
    {
        self.roots.as_slice()
    }

    /// The identifiers and payloads, in the order they were added.
    pub fn iter(&self) -> (r: &Vec<(SchemaId, T)>)
        ensures
            r@ == self.spec_node_pairs(),
    {
        self.nodes.entries_vec()
    }

    /// The node pairs.
    pub closed spec fn spec_node_pairs(self) -> Seq<(SchemaId, T)> {
        self.nodes.pairs()
    }

    /// The parents of `id`, sorted.
    pub fn parents_of(&self, id: SchemaId) -> (r: &[SchemaId])
        ensures
            r@ == self.spec_adjacency().spec_parents(id),
    {
        self.adjacency.parents_of(id)
    }

    /// The children of `id`, sorted.
    pub fn children_of(&self, id: SchemaId) -> (r: &[SchemaId])
        ensures
            r@ == self.spec_adjacency().spec_children(id),
    {
        self.adjacency.children_of(id)
    }
}

impl<T: Copy> InheritanceGraph<T> {
    /// A fresh graph rebuilt from this one's payloads and parent links and
    /// validated again: the same payloads, and for every node the same
    /// parents.
    pub fn to_dag_graph(&self) -> (r: Result<InheritanceGraph<T>, SchemaInheritanceError>)
        ensures
            r matches Ok(g) ==> g.spec_payloads() == self.spec_payloads(),
            r matches Ok(g) ==> forall|id: SchemaId, x: SchemaId|
                #![trigger g.spec_adjacency().spec_parents(id).contains(x)]
                self.spec_payloads().contains_key(id) ==> (g.spec_adjacency().spec_parents(id).contains(x)
                    <==> self.spec_adjacency().spec_parents(id).contains(x)),
            r matches Err(e) ==> is_cycle_error(e),
    {
        proof {
            use_type_invariant(self);
            self.nodes.lemma_view();
        }
        let pairs = self.iter();
        let ghost ps = self.spec_node_pairs();
        let mut builder: SchemaGraphBuilder<T> = SchemaGraphBuilder::new();
        let mut i: usize = 0;
        while i < pairs.len()
            invariant
                i <= pairs@.len(),
                pairs@ == ps,
                builder.spec_nodes() == id_pairs_to_map(ps.take(i as int)),
                builder.spec_edges().len() == 0,
            decreases pairs@.len() - i,
        {
            builder.add_node(pairs[i].0, pairs[i].1);
            proof {
                assert(ps.take(i + 1).drop_last() =~= ps.take(i as int));
                assert(ps.take(i + 1).last() == ps[i as int]);
            }
            i = i + 1;
        }
        proof {
            assert(ps.take(ps.len() as int) =~= ps);
        }
        let mut k: usize = 0;
        while k < pairs.len()
            invariant
                k <= pairs@.len(),
                pairs@ == ps,
                ps == self.spec_node_pairs(),
                builder.spec_nodes() == self.spec_payloads(),
                forall|a: SchemaId, b: SchemaId| #[trigger] builder.spec_edges().contains((a, b)) <==> exists|m: int|
                    0 <= m < k && ps[m].0 == b && #[trigger] self.spec_adjacency().spec_parents(ps[m].0).contains(a),
            decreases pairs@.len() - k,
        {
            let id = pairs[k].0;
            let parents = self.parents_of(id);
            let mut j: usize = 0;
            while j < parents.len()
                invariant
                    j <= parents@.len(),
                    k < pairs@.len(),
                    pairs@ == ps,
                    id == ps[k as int].0,
                    parents@ == self.spec_adjacency().spec_parents(id),
                    builder.spec_nodes() == self.spec_payloads(),
                    forall|a: SchemaId, b: SchemaId| #[trigger] builder.spec_edges().contains((a, b)) <==> (exists|m: int|
                        0 <= m < k && ps[m].0 == b && #[trigger] self.spec_adjacency().spec_parents(ps[m].0).contains(a))
                        || (b == id && exists|q: int| 0 <= q < j && #[trigger] parents@[q] == a),
                decreases parents@.len() - j,
            {
                let ghost before = builder.spec_edges();
                builder.add_parent(id, parents[j]);
                proof {
                    assert forall|a: SchemaId, b: SchemaId| #[trigger] builder.spec_edges().contains((a, b)) <==> (exists|m: int|
                        0 <= m < k && ps[m].0 == b && #[trigger] self.spec_adjacency().spec_parents(ps[m].0).contains(a))
                        || (b == id && exists|q: int| 0 <= q < j + 1 && #[trigger] parents@[q] == a) by {
                        if builder.spec_edges().contains((a, b)) && !before.contains((a, b)) {
                            assert(builder.spec_edges() == before.push((parents@[j as int], id)));
                            let t = choose|t: int| 0 <= t < builder.spec_edges().len() && builder.spec_edges()[t] == (a, b);
                            assert(t == before.len());
                        }
                        if b == id && (exists|q: int| 0 <= q < j + 1 && #[trigger] parents@[q] == a) {
                            let q = choose|q: int| 0 <= q < j + 1 && #[trigger] parents@[q] == a;
                            if q == j {
                                if !before.contains((a, b)) {
                                    assert(builder.spec_edges()[before.len() as int] == (a, b));
                                }
                            }
                        }
                        if before.contains((a, b)) {
                            let t = choose|t: int| 0 <= t < before.len() && before[t] == (a, b);
                            assert(builder.spec_edges()[t] == (a, b));
                        }
                    }
                }
                j = j + 1;
            }
            proof {
                assert forall|a: SchemaId, b: SchemaId| #[trigger] builder.spec_edges().contains((a, b)) <==> exists|m: int|
                    0 <= m < k + 1 && ps[m].0 == b && #[trigger] self.spec_adjacency().spec_parents(ps[m].0).contains(a) by {
                    if b == id && (exists|q: int| 0 <= q < parents@.len() && #[trigger] parents@[q] == a) {
                        let q = choose|q: int| 0 <= q < parents@.len() && #[trigger] parents@[q] == a;
                        assert(self.spec_adjacency().spec_parents(ps[k as int].0).contains(a));
                    }
                    if exists|m: int| 0 <= m < k + 1 && ps[m].0 == b && #[trigger] self.spec_adjacency().spec_parents(ps[m].0).contains(a) {
                        let m = choose|m: int| 0 <= m < k + 1 && ps[m].0 == b && #[trigger] self.spec_adjacency().spec_parents(ps[m].0).contains(a);
                        if m == k {
                            let q = choose|q: int| 0 <= q < parents@.len() && parents@[q] == a;
                            assert(parents@[q] == a);
                        }
                    }
                }
            }
            k = k + 1;
        }
        let graph = builder.build();
        let r = graph.try_into_dag();
        proof {
            if r is Ok {
                let g = r->Ok_0;
                assert forall|id: SchemaId, x: SchemaId|
                    #![trigger g.spec_adjacency().spec_parents(id).contains(x)]
                    self.spec_payloads().contains_key(id) implies (g.spec_adjacency().spec_parents(id).contains(x)
                        <==> self.spec_adjacency().spec_parents(id).contains(x)) by {
                    let m = choose|m: int| 0 <= m < ps.len() && #[trigger] ps[m].0 == id;
                    if self.spec_adjacency().spec_parents(id).contains(x) {
                        assert(self.spec_adjacency().spec_parents(ps[m].0).contains(x));
                    }
                    if g.spec_adjacency().spec_parents(id).contains(x) {
                        assert(graph.spec_edges().contains((x, id)));
                        let m2 = choose|m2: int| 0 <= m2 < ps.len() && ps[m2].0 == id && #[trigger] self.spec_adjacency().spec_parents(ps[m2].0).contains(x);
                    }
                }
            }
        }
        r
    }
}

// ─────────────────────────────────────────────────────────────────────────────
//  Reachability
// ─────────────────────────────────────────────────────────────────────────────

/// Every edge from a member of `s` leads to a member of `s`.
pub open spec fn closed_under(s: Set<SchemaId>, edges: Seq<(SchemaId, SchemaId)>) -> bool {
    forall|i: int| 0 <= i < edges.len() && s.contains(#[trigger] edges[i].0) ==> s.contains(edges[i].1)
}

/// Every element of `v` is in `s`.
pub open spec fn all_in(v: Seq<SchemaId>, s: Set<SchemaId>) -> bool {
    forall|j: int| 0 <= j < v.len() ==> s.contains(#[trigger] v[j])
}

/// The schemas affected by a change to `changed_ids`: the changed schemas
/// and all their descendants, each once. It is the smallest set that holds
/// the changed schemas and every child of each of its members.
pub fn affected_subtree<T, R>(graph: &Graph<T, R>, changed_ids: &[SchemaId]) -> (r: Vec<SchemaId>)
    ensures
        r@.no_duplicates(),
        forall|x: SchemaId| changed_ids@.contains(x) ==> r@.contains(x),
        closed_under(r@.to_set(), edge_pairs(graph.spec_edges())),
        forall|s: Set<SchemaId>|
            all_in(changed_ids@, s) && closed_under(s, edge_pairs(graph.spec_edges())) ==> all_in(r@, s),
{
    let pairs = pairs_of(graph.edges());
    descendants_closure(&pairs, changed_ids)
}

/// The members of `start` and everything reachable from them along the
/// (parent, child) `pairs`, each once, in discovery order: the smallest set
/// that holds `start` and is closed under the pairs.
pub fn descendants_closure(pairs: &Vec<(SchemaId, SchemaId)>, changed_ids: &[SchemaId]) -> (r: Vec<SchemaId>)
    ensures
        r@.no_duplicates(),
        forall|x: SchemaId| changed_ids@.contains(x) ==> r@.contains(x),
        closed_under(r@.to_set(), pairs@),
        forall|s: Set<SchemaId>|
            all_in(changed_ids@, s) && closed_under(s, pairs@) ==> all_in(r@, s),
{
    let ghost edges = pairs@;
    let ghost cands = changed_ids@ + edges.map_values(|p: (SchemaId, SchemaId)| p.1);
    let mut affected: Vec<SchemaId> = Vec::new();
    let mut i: usize = 0;
    while i < changed_ids.len()
        invariant
            0 <= i <= changed_ids@.len(),
            cands == changed_ids@ + edges.map_values(|p: (SchemaId, SchemaId)| p.1),
            affected@.no_duplicates(),
            forall|x: SchemaId| affected@.contains(x) ==> cands.contains(x),
            forall|j: int| 0 <= j < i ==> affected@.contains(#[trigger] changed_ids@[j]),
            forall|s: Set<SchemaId>|
                all_in(changed_ids@, s) && closed_under(s, edges) ==> all_in(affected@, s),
        decreases changed_ids@.len() - i,
    {
        let c = changed_ids[i];
        let ghost prev = affected@;
        if !contains_id(affected.as_slice(), c) {
            let ghost before = affected@;
            affected.push(c);
            proof {
                assert(affected@[affected@.len() - 1] == c);
                assert(cands[i as int] == c);
                assert forall|x: SchemaId| affected@.contains(x) implies cands.contains(x) by {
                    if x != c {
                        let j = choose|j: int| 0 <= j < affected@.len() && #[trigger] affected@[j] == x;
                        assert(before[j] == x);
                    }
                }
                assert forall|s: Set<SchemaId>|
                    all_in(changed_ids@, s) && closed_under(s, edges) implies all_in(affected@, s) by {
                    assert(s.contains(changed_ids@[i as int]));
                    assert forall|j: int| 0 <= j < affected@.len() implies s.contains(#[trigger] affected@[j]) by {
                        if j < before.len() {
                            assert(before[j] == affected@[j]);
                        }
                    }
                }
            }
        }
        proof {
            assert forall|j: int| 0 <= j < i + 1 implies affected@.contains(#[trigger] changed_ids@[j]) by {
                if j < i {
                    assert(prev.contains(changed_ids@[j]));
                    let m = choose|m: int| 0 <= m < prev.len() && #[trigger] prev[m] == changed_ids@[j];
                    assert(affected@[m] == changed_ids@[j]);
                }
            }
        }
        i = i + 1;
    }
    let mut head: usize = 0;
    while head < affected.len()
        invariant
            0 <= head <= affected@.len(),
            pairs@ == edges,
            cands == changed_ids@ + edges.map_values(|p: (SchemaId, SchemaId)| p.1),
            affected@.no_duplicates(),
            forall|x: SchemaId| affected@.contains(x) ==> cands.contains(x),
            forall|j: int| 0 <= j < changed_ids@.len() ==> affected@.contains(#[trigger] changed_ids@[j]),
            forall|j: int, k: int|
                0 <= j < head && 0 <= k < edges.len() && #[trigger] edges[k].0 == #[trigger] affected@[j]
                    ==> affected@.contains(edges[k].1),
            forall|s: Set<SchemaId>|
                all_in(changed_ids@, s) && closed_under(s, edges) ==> all_in(affected@, s),
        decreases cands.len() - head,
    {
        let id = affected[head];
        let mut k: usize = 0;
        while k < pairs.len()
            invariant
                0 <= head < affected@.len(),
                0 <= k <= pairs@.len(),
                pairs@ == edges,
                id == affected@[head as int],
                cands == changed_ids@ + edges.map_values(|p: (SchemaId, SchemaId)| p.1),
                affected@.no_duplicates(),
                forall|x: SchemaId| affected@.contains(x) ==> cands.contains(x),
                forall|j: int| 0 <= j < changed_ids@.len() ==> affected@.contains(#[trigger] changed_ids@[j]),
                forall|j: int, q: int|
                    0 <= j < head && 0 <= q < edges.len() && #[trigger] edges[q].0 == #[trigger] affected@[j]
                        ==> affected@.contains(edges[q].1),
                forall|q: int| 0 <= q < k && #[trigger] edges[q].0 == id ==> affected@.contains(edges[q].1),
                forall|s: Set<SchemaId>|
                    all_in(changed_ids@, s) && closed_under(s, edges) ==> all_in(affected@, s),
            decreases pairs@.len() - k,
        {
            let e = pairs[k];
            if e.0 == id && !contains_id(affected.as_slice(), e.1) {
                let ghost before = affected@;
                affected.push(e.1);
                proof {
                    assert(cands[changed_ids@.len() + k] == e.1);
                    assert forall|x: SchemaId| affected@.contains(x) implies cands.contains(x) by {
                        if x != e.1 {
                            let j = choose|j: int| 0 <= j < affected@.len() && #[trigger] affected@[j] == x;
                            assert(before[j] == x);
                        }
                    }
                    assert forall|j: int| 0 <= j < changed_ids@.len() implies affected@.contains(#[trigger] changed_ids@[j]) by {
                        assert(before.contains(changed_ids@[j]));
                        let m = choose|m: int| 0 <= m < before.len() && #[trigger] before[m] == changed_ids@[j];
                        assert(affected@[m] == changed_ids@[j]);
                    }
                    assert forall|j: int, q: int|
                        0 <= j < head && 0 <= q < edges.len() && #[trigger] edges[q].0 == #[trigger] affected@[j]
                            implies affected@.contains(edges[q].1) by {
                        assert(before[j] == affected@[j]);
                        assert(before.contains(edges[q].1));
                        let m = choose|m: int| 0 <= m < before.len() && #[trigger] before[m] == edges[q].1;
                        assert(affected@[m] == edges[q].1);
                    }
                    assert forall|q: int| 0 <= q < k + 1 && #[trigger] edges[q].0 == id implies affected@.contains(edges[q].1) by {
                        if q < k {
                            assert(before.contains(edges[q].1));
                            let m = choose|m: int| 0 <= m < before.len() && #[trigger] before[m] == edges[q].1;
                            assert(affected@[m] == edges[q].1);
                        } else {
                            assert(affected@[affected@.len() - 1] == edges[q].1);
                        }
                    }
                    assert forall|s: Set<SchemaId>|
                        all_in(changed_ids@, s) && closed_under(s, edges) implies all_in(affected@, s) by {
                        assert(all_in(before, s));
                        assert(s.contains(before[head as int]));
                        assert(s.contains(edges[k as int].1));
                        assert forall|j: int| 0 <= j < affected@.len() implies s.contains(#[trigger] affected@[j]) by {
                            if j < before.len() {
                                assert(before[j] == affected@[j]);
                            }
                        }
                    }
                }
            }
            k = k + 1;
        }
        proof {
            lemma_distinct_within(affected@, cands);
        }
        head = head + 1;
    }
    proof {
        lemma_distinct_within(affected@, cands);
        assert forall|q: int| 0 <= q < edges.len() && affected@.to_set().contains(#[trigger] edges[q].0) implies affected@.to_set().contains(edges[q].1) by {
            let j = choose|j: int| 0 <= j < affected@.len() && #[trigger] affected@[j] == edges[q].0;
        }
        assert forall|x: SchemaId| changed_ids@.contains(x) implies affected@.contains(x) by {
            let j = choose|j: int| 0 <= j < changed_ids@.len() && #[trigger] changed_ids@[j] == x;
        }
    }
    affected
}

} // verus!
