//! Builds the inheritance tree of a batch of ref-expanded schemas: resolves
//! `extends` names, rejects duplicate names and cycles, links children,
//! computes depths and a deterministic topological order.

use vstd::prelude::*;

use crate::aggregate::Schema;
use crate::error::{SchemaError, SchemaInheritanceError, SchemaResolutionError};
use crate::identifier::{is_schema_name_error, valid_name, PropertyName, SchemaId, SchemaName};
use crate::idmap::{key_seq, IdMap};
use crate::inheritance::{endpoints_are_nodes, has_topological_order, is_topological};
use crate::property::PropertyMap;
use crate::sort::contains_id;
use crate::text::{copy_text, push_decimal, decimal, text_equal, text_less, text_lt};

verus! {

// ─────────────────────────────────────────────────────────────────────────────
//  NodeDepth
// ─────────────────────────────────────────────────────────────────────────────

/// Inheritance depth in the schema tree, counted from 1 at the roots.
#[derive(Debug, Clone, Copy, PartialEq, Eq, Structural, Hash)]
pub struct NodeDepth {
    depth: usize,
}

impl NodeDepth {
    /// The depth as a number.
    pub closed spec fn value(self) -> usize {
        self.depth
    }

    /// The depth of a root: 1.
    pub fn root() -> (d: NodeDepth)
        ensures
            d.value() == 1,
    {
        NodeDepth { depth: 1 }
    }

    /// The depth `depth`.
    pub fn new(depth: usize) -> (d: NodeDepth)
        ensures
            d.value() == depth,
    {
        NodeDepth { depth }
    }

    /// The depth as a number.
    pub fn get(self) -> (n: usize)
        ensures
            n == self.value(),
    {
        self.depth
    }

    /// The depth of a child: one more, staying at `usize::MAX` once there.
    pub fn increment(self) -> (d: NodeDepth)
        ensures
            d.value() == crate::graph::saturating_inc(self.value()),
    {
        if self.depth == usize::MAX {
            NodeDepth { depth: self.depth }
        } else {
            NodeDepth { depth: self.depth + 1 }
        }
    }

    /// Whether the depth is over `limit`.
    pub fn exceeds(self, limit: usize) -> (b: bool)
        ensures
            b == (self.value() > limit),
    {
        self.depth > limit
    }

    /// The depth in decimal.
    pub fn to_text(self) -> (s: String)
        ensures
            s@ == decimal(self.value() as nat),
    {
        let mut s = String::new();
        push_decimal(&mut s, self.depth as u64);
        proof {
            assert(Seq::<char>::empty() + decimal(self.value() as nat) =~= decimal(self.value() as nat));
        }
        s
    }
}

impl Default for NodeDepth {
    /// The depth of a root: 1.
    fn default() -> (d: NodeDepth)
        ensures
            d.value() == 1,
    {
        NodeDepth::root()
    }
}

impl From<NodeDepth> for usize {
    /// The number of a depth.
    fn from(depth: NodeDepth) -> (n: usize) {
        depth.depth
    }
}

impl vstd::std_specs::convert::FromSpecImpl<NodeDepth> for usize {
    open spec fn obeys_from_spec() -> bool {
        true
    }

    open spec fn from_spec(depth: NodeDepth) -> usize {
        depth.value()
    }
}

// ─────────────────────────────────────────────────────────────────────────────
//  Inputs and nodes
// ─────────────────────────────────────────────────────────────────────────────

/// A ref-expanded schema of the batch: its identifier, raw name, the name it
/// extends, the inherited property names it excludes, and its properties.
#[derive(Debug)]
pub struct ExpandedSchema {
    pub id: SchemaId,
    pub name: String,
    pub extends: Option<SchemaName>,
    pub excludes: Vec<PropertyName>,
    pub properties: PropertyMap,
}

/// A node of the inheritance tree, ready for property merging.
#[derive(Debug)]
pub struct SchemaNode {
    pub name: SchemaName,
    pub properties: PropertyMap,
    pub excludes: Vec<PropertyName>,
    pub parent_id: Option<SchemaId>,
    pub children: Vec<SchemaId>,
    pub depth: NodeDepth,
}

/// The identifier of the last batch schema named `name`.
pub open spec fn last_batch_with_name(exp: Seq<ExpandedSchema>, name: Seq<char>) -> Option<SchemaId>
    decreases exp.len(),
{
    if exp.len() == 0 {
        None
    } else if exp.last().name@ == name {
        Some(exp.last().id)
    } else {
        last_batch_with_name(exp.drop_last(), name)
    }
}

/// The identifier of the last known schema named `name`.
pub open spec fn last_known_with_name(known: Seq<(SchemaId, Schema)>, name: Seq<char>) -> Option<SchemaId>
    decreases known.len(),
{
    if known.len() == 0 {
        None
    } else if known.last().1.spec_name() == name {
        Some(known.last().0)
    } else {
        last_known_with_name(known.drop_last(), name)
    }
}

/// What `name` resolves to: the last batch schema with that name, else the
/// last known schema with it.
pub open spec fn resolve_name(exp: Seq<ExpandedSchema>, known: Seq<(SchemaId, Schema)>, name: Seq<char>) -> Option<SchemaId> {
    match last_batch_with_name(exp, name) {
        Some(id) => Some(id),
        None => last_known_with_name(known, name),
    }
}

/// The batch schema at `i` has an invalid name, or reuses the name of an
/// earlier batch schema (the known schemas play no part).
pub open spec fn name_problem_at(exp: Seq<ExpandedSchema>, known: Seq<(SchemaId, Schema)>, i: int) -> bool {
    ||| !valid_name(exp[i].name@)
    ||| exists|j: int| 0 <= j < i && #[trigger] exp[j].name@ == exp[i].name@
}

/// The batch schema at `i` extends a name that resolves to nothing.
pub open spec fn parent_problem_at(exp: Seq<ExpandedSchema>, known: Seq<(SchemaId, Schema)>, i: int) -> bool {
    exp[i].extends matches Some(p) && resolve_name(exp, known, p@) is None
}

proof fn lemma_last_batch_some(exp: Seq<ExpandedSchema>, name: Seq<char>)
    ensures
        last_batch_with_name(exp, name) is Some <==> exists|j: int| 0 <= j < exp.len() && #[trigger] exp[j].name@ == name,
    decreases exp.len(),
{
    if exp.len() > 0 {
        lemma_last_batch_some(exp.drop_last(), name);
        if exists|j: int| 0 <= j < exp.drop_last().len() && #[trigger] exp.drop_last()[j].name@ == name {
            let j = choose|j: int| 0 <= j < exp.drop_last().len() && #[trigger] exp.drop_last()[j].name@ == name;
            assert(exp[j].name@ == name);
        }
        if exists|j: int| 0 <= j < exp.len() && #[trigger] exp[j].name@ == name {
            let j = choose|j: int| 0 <= j < exp.len() && #[trigger] exp[j].name@ == name;
            if j < exp.len() - 1 {
                assert(exp.drop_last()[j].name@ == name);
            }
        }
    }
}

/// What `name` resolves to (see [`resolve_name`]).
fn resolve(exp: &Vec<ExpandedSchema>, known: &IdMap<Schema>, name: &str) -> (r: Option<SchemaId>)
    ensures
        r == resolve_name(exp@, known.pairs(), name@),
{
    let mut i: usize = exp.len();
    proof {
        assert(exp@.take(i as int) =~= exp@);
    }
    while i > 0
        invariant
            0 <= i <= exp@.len(),
            last_batch_with_name(exp@, name@) == last_batch_with_name(exp@.take(i as int), name@),
        decreases i,
    {
        let ghost pre = exp@.take(i as int);
        proof {
            assert(pre.drop_last() =~= exp@.take(i - 1));
            assert(pre.last() == exp@[i - 1]);
        }
        if text_equal(exp[i - 1].name.as_str(), name) {
            return Some(exp[i - 1].id);
        }
        i = i - 1;
    }
    proof {
        assert(exp@.take(0).len() == 0);
    }
    let entries = known.entries_vec();
    let mut k: usize = entries.len();
    proof {
        assert(entries@.take(k as int) =~= entries@);
    }
    while k > 0
        invariant
            0 <= k <= entries@.len(),
            entries@ == known.pairs(),
            last_batch_with_name(exp@, name@) is None,
            last_known_with_name(known.pairs(), name@) == last_known_with_name(entries@.take(k as int), name@),
        decreases k,
    {
        let ghost pre = entries@.take(k as int);
        proof {
            assert(pre.drop_last() =~= entries@.take(k - 1));
            assert(pre.last() == entries@[k - 1]);
        }
        if text_equal(entries[k - 1].1.name().as_str(), name) {
            return Some(entries[k - 1].0);
        }
        k = k - 1;
    }
    None
}

/// The first batch index with a name problem, if any, checked front to back.
fn check_names(exp: &Vec<ExpandedSchema>, known: &IdMap<Schema>) -> (r: Result<(), SchemaError>)
    ensures
        r is Ok <==> forall|i: int| 0 <= i < exp@.len() ==> !#[trigger] name_problem_at(exp@, known.pairs(), i),
        r matches Err(e) ==> exists|i: int| {
            &&& 0 <= i < exp@.len()
            &&& #[trigger] name_problem_at(exp@, known.pairs(), i)
            &&& forall|j: int| 0 <= j < i ==> !name_problem_at(exp@, known.pairs(), j)
            &&& if !valid_name(exp@[i].name@) {
                is_schema_name_error(e, exp@[i].name@)
            } else {
                e matches SchemaError::Resolution(SchemaResolutionError::DuplicateSchemaName { name })
                    && name@ == exp@[i].name@
            }
        },
{
    let mut i: usize = 0;
    while i < exp.len()
        invariant
            0 <= i <= exp@.len(),
            forall|j: int| 0 <= j < i ==> !#[trigger] name_problem_at(exp@, known.pairs(), j),
        decreases exp@.len() - i,
    {
        let name = exp[i].name.as_str();
        match SchemaName::try_new(name) {
            Err(e) => {
                proof {
                    assert(name_problem_at(exp@, known.pairs(), i as int));
                }
                return Err(e);
            },
            Ok(_) => {},
        }
        let mut j: usize = 0;
        let mut seen = false;
        while j < i
            invariant
                0 <= j <= i < exp@.len(),
                name@ == exp@[i as int].name@,
                !seen ==> forall|q: int| 0 <= q < j ==> #[trigger] exp@[q].name@ != exp@[i as int].name@,
                seen ==> exists|q: int| 0 <= q < i && #[trigger] exp@[q].name@ == exp@[i as int].name@,
            decreases i - j,
        {
            if !seen && text_equal(exp[j].name.as_str(), name) {
                seen = true;
            }
            j = j + 1;
        }
        if seen {
            proof {
                assert(name_problem_at(exp@, known.pairs(), i as int));
            }
            return Err(SchemaError::Resolution(SchemaResolutionError::DuplicateSchemaName { name: copy_text(name) }));
        }
        proof {
            assert(!name_problem_at(exp@, known.pairs(), i as int));
        }
        i = i + 1;
    }
    Ok(())
}

/// The first batch index whose parent does not resolve, if any.
fn check_parents(exp: &Vec<ExpandedSchema>, known: &IdMap<Schema>) -> (r: Result<Vec<Option<SchemaId>>, SchemaError>)
    ensures
        r is Ok <==> forall|i: int| 0 <= i < exp@.len() ==> !#[trigger] parent_problem_at(exp@, known.pairs(), i),
        r matches Ok(ps) ==> ps@.len() == exp@.len() && forall|i: int| 0 <= i < exp@.len() ==> #[trigger] ps@[i] == match exp@[i].extends {
            Some(p) => resolve_name(exp@, known.pairs(), p@),
            None => None,
        },
        r matches Err(e) ==> exists|i: int| {
            &&& 0 <= i < exp@.len()
            &&& #[trigger] parent_problem_at(exp@, known.pairs(), i)
            &&& forall|j: int| 0 <= j < i ==> !parent_problem_at(exp@, known.pairs(), j)
            &&& e matches SchemaError::Inheritance(SchemaInheritanceError::ParentNotFound { name })
            &&& exp@[i].extends matches Some(p) && name@ == p@
        },
{
    let mut ps: Vec<Option<SchemaId>> = Vec::new();
    let mut i: usize = 0;
    while i < exp.len()
        invariant
            0 <= i <= exp@.len(),
            ps@.len() == i,
            forall|j: int| 0 <= j < i ==> !#[trigger] parent_problem_at(exp@, known.pairs(), j),
            forall|j: int| 0 <= j < i ==> #[trigger] ps@[j] == match exp@[j].extends {
                Some(p) => resolve_name(exp@, known.pairs(), p@),
                None => None,
            },
        decreases exp@.len() - i,
    {
        match &exp[i].extends {
            None => {
                ps.push(None);
            },
            Some(p) => {
                match resolve(exp, known, p.as_str()) {
                    Some(id) => {
                        ps.push(Some(id));
                    },
                    None => {
                        proof {
                            assert(parent_problem_at(exp@, known.pairs(), i as int));
                        }
                        return Err(SchemaError::Inheritance(SchemaInheritanceError::ParentNotFound { name: copy_text(p.as_str()) }));
                    },
                }
            },
        }
        i = i + 1;
    }
    Ok(ps)
}

// ─────────────────────────────────────────────────────────────────────────────
//  Links and orders
// ─────────────────────────────────────────────────────────────────────────────

/// `x` extends `p` and both are in the batch.
pub open spec fn tree_link(nodes: Map<SchemaId, SchemaNode>, p: SchemaId, x: SchemaId) -> bool {
    &&& nodes.contains_key(x)
    &&& nodes[x].parent_id == Some(p)
    &&& nodes.contains_key(p)
}

/// `x` extends `p`, both are in the batch, and `p` is not a known schema.
pub open spec fn batch_link(
    nodes: Map<SchemaId, SchemaNode>,
    known: Map<SchemaId, Schema>,
    p: SchemaId,
    x: SchemaId,
) -> bool {
    tree_link(nodes, p, x) && !known.contains_key(p)
}

/// `order` lists each batch node once, every parent before its children
/// (for the links `link`).
pub open spec fn orders_links(
    order: Seq<SchemaId>,
    nodes: Map<SchemaId, SchemaNode>,
    link: spec_fn(SchemaId, SchemaId) -> bool,
) -> bool {
    &&& order.no_duplicates()
    &&& forall|x: SchemaId| order.contains(x) <==> nodes.contains_key(x)
    &&& forall|p: SchemaId, x: SchemaId| #[trigger] link(p, x) ==> crate::inheritance::precedes(order, p, x)
}

/// The batch links of `nodes` as a relation.
pub open spec fn tree_links(nodes: Map<SchemaId, SchemaNode>) -> spec_fn(SchemaId, SchemaId) -> bool {
    |p: SchemaId, x: SchemaId| tree_link(nodes, p, x)
}

/// `x` has no parent in the batch.
pub open spec fn is_tree_root(nodes: Map<SchemaId, SchemaNode>, x: SchemaId) -> bool {
    match nodes[x].parent_id {
        None => true,
        Some(p) => !nodes.contains_key(p),
    }
}

proof fn lemma_bridge(
    nodes: Map<SchemaId, SchemaNode>,
    link: spec_fn(SchemaId, SchemaId) -> bool,
    ids: Seq<SchemaId>,
    edges: Seq<(SchemaId, SchemaId)>,
)
    requires
        forall|x: SchemaId| ids.contains(x) <==> nodes.contains_key(x),
        forall|a: SchemaId, b: SchemaId| #[trigger] edges.contains((a, b)) <==> link(a, b),
    ensures
        forall|o: Seq<SchemaId>| is_topological(o, ids.to_set(), edges) <==> orders_links(o, nodes, link),
        has_topological_order(ids.to_set(), edges) <==> exists|o: Seq<SchemaId>| #[trigger] orders_links(o, nodes, link),
{
    assert forall|o: Seq<SchemaId>| is_topological(o, ids.to_set(), edges) <==> orders_links(o, nodes, link) by {
        if is_topological(o, ids.to_set(), edges) {
            assert forall|p: SchemaId, x: SchemaId| #[trigger] link(p, x) implies crate::inheritance::precedes(o, p, x) by {
                assert(edges.contains((p, x)));
                let k = choose|k: int| 0 <= k < edges.len() && edges[k] == (p, x);
                assert(crate::inheritance::precedes(o, edges[k].0, edges[k].1));
            }
        }
        if orders_links(o, nodes, link) {
            assert forall|k: int| 0 <= k < edges.len() implies crate::inheritance::precedes(o, #[trigger] edges[k].0, edges[k].1) by {
                assert(edges.contains((edges[k].0, edges[k].1)));
                assert(link(edges[k].0, edges[k].1));
            }
        }
    }
    if has_topological_order(ids.to_set(), edges) {
        let o = choose|o: Seq<SchemaId>| is_topological(o, ids.to_set(), edges);
        assert(orders_links(o, nodes, link));
    }
    if exists|o: Seq<SchemaId>| #[trigger] orders_links(o, nodes, link) {
        let o = choose|o: Seq<SchemaId>| orders_links(o, nodes, link);
        assert(is_topological(o, ids.to_set(), edges));
    }
}

/// The `(parent, child)` pairs of the batch links.
fn batch_links(nodes: &IdMap<SchemaNode>, known: &IdMap<Schema>) -> (r: Vec<(SchemaId, SchemaId)>)
    requires
        nodes.wf(),
        known.wf(),
    ensures
        forall|a: SchemaId, b: SchemaId| #[trigger] r@.contains((a, b)) <==> batch_link(nodes@, known@, a, b),
{
    proof {
        nodes.lemma_view();
    }
    let entries = nodes.entries_vec();
    let mut r: Vec<(SchemaId, SchemaId)> = Vec::new();
    let mut i: usize = 0;
    while i < entries.len()
        invariant
            0 <= i <= entries@.len(),
            entries@ == nodes.pairs(),
            nodes.wf(),
            known.wf(),
            crate::idmap::ids_unique(nodes.pairs()),
            forall|j: int| 0 <= j < nodes.pairs().len() ==> #[trigger] nodes@[nodes.pairs()[j].0] == nodes.pairs()[j].1,
            forall|x: SchemaId| #[trigger] nodes@.contains_key(x) <==> exists|j: int| 0 <= j < nodes.pairs().len() && #[trigger] nodes.pairs()[j].0 == x,
            forall|a: SchemaId, b: SchemaId| #[trigger] r@.contains((a, b)) <==> (batch_link(nodes@, known@, a, b)
                && exists|j: int| 0 <= j < i && #[trigger] entries@[j].0 == b),
        decreases entries@.len() - i,
    {
        let x = entries[i].0;
        let ghost before = r@;
        match entries[i].1.parent_id {
            Some(p) => {
                if nodes.has(&p) && !known.has(&p) {
                    r.push((p, x));
                }
            },
            None => {},
        }
        proof {
            assert(nodes@[x] == entries@[i as int].1);
            assert forall|a: SchemaId, b: SchemaId| #[trigger] r@.contains((a, b)) <==> (batch_link(nodes@, known@, a, b)
                && exists|j: int| 0 <= j < i + 1 && #[trigger] entries@[j].0 == b) by {
                if b == x {
                    assert(entries@[i as int].0 == b);
                }
                if r@.contains((a, b)) && (a, b) != (r@.last()) {
                    let q = choose|q: int| 0 <= q < r@.len() && r@[q] == (a, b);
                    if q < before.len() {
                        assert(before[q] == (a, b));
                        assert(before.contains((a, b)));
                    }
                }
                if before.contains((a, b)) {
                    let q = choose|q: int| 0 <= q < before.len() && before[q] == (a, b);
                    assert(r@[q] == (a, b));
                }
                if batch_link(nodes@, known@, a, b) && exists|j: int| 0 <= j < i + 1 && #[trigger] entries@[j].0 == b {
                    let j = choose|j: int| 0 <= j < i + 1 && #[trigger] entries@[j].0 == b;
                    if j < i {
                        assert(before.contains((a, b)));
                        let q = choose|q: int| 0 <= q < before.len() && before[q] == (a, b);
                        assert(r@[q] == (a, b));
                    } else {
                        assert(r@[r@.len() - 1] == (a, b));
                    }
                }
                if r@.contains((a, b)) && r@.len() > before.len() && r@.last() == (a, b) {
                    assert(b == x);
                }
            }
        }
        i = i + 1;
    }
    proof {
        assert forall|a: SchemaId, b: SchemaId| #[trigger] r@.contains((a, b)) <==> batch_link(nodes@, known@, a, b) by {
            if batch_link(nodes@, known@, a, b) {
                let j = choose|j: int| 0 <= j < nodes.pairs().len() && #[trigger] nodes.pairs()[j].0 == b;
                assert(entries@[j].0 == b);
            }
        }
    }
    r
}

/// The name of batch node `x`.
pub open spec fn node_name(nodes: Map<SchemaId, SchemaNode>, x: SchemaId) -> Seq<char> {
    nodes[x].name@
}

/// Names never decrease along `s`.
pub open spec fn sorted_by_name(s: Seq<SchemaId>, nodes: Map<SchemaId, SchemaNode>) -> bool {
    forall|a: int, b: int| 0 <= a < b < s.len() ==> !text_lt(node_name(nodes, #[trigger] s[b]), node_name(nodes, #[trigger] s[a]))
}

/// Sorts distinct batch identifiers by node name (stable).
fn sort_by_name(ids: &Vec<SchemaId>, nodes: &IdMap<SchemaNode>) -> (r: Vec<SchemaId>)
    requires
        nodes.wf(),
        ids@.no_duplicates(),
        forall|x: SchemaId| ids@.contains(x) ==> nodes@.contains_key(x),
    ensures
        r@.no_duplicates(),
        r@.len() == ids@.len(),
        forall|x: SchemaId| r@.contains(x) <==> ids@.contains(x),
        sorted_by_name(r@, nodes@),
{
    let mut out: Vec<SchemaId> = Vec::new();
    let mut i: usize = 0;
    while i < ids.len()
        invariant
            0 <= i <= ids@.len(),
            nodes.wf(),
            ids@.no_duplicates(),
            forall|x: SchemaId| ids@.contains(x) ==> nodes@.contains_key(x),
            out@.no_duplicates(),
            out@.len() == i,
            forall|x: SchemaId| out@.contains(x) <==> crate::graph::id_before(ids@, i as int, x),
            sorted_by_name(out@, nodes@),
        decreases ids@.len() - i,
    {
        let x = ids[i];
        proof {
            assert(ids@.contains(x));
        }
        let xn = match nodes.get(&x) {
            Some(n) => n.name.as_str(),
            None => "",
        };
        proof {
            assert forall|y: SchemaId| out@.contains(y) implies nodes@.contains_key(y) by {
                let q = choose|q: int| 0 <= q < i && #[trigger] ids@[q] == y;
                assert(ids@.contains(y));
            }
        }
        let mut p: usize = 0;
        let mut stop = false;
        while p < out.len() && !stop
            invariant
                0 <= p <= out@.len(),
                nodes.wf(),
                nodes@.contains_key(x),
                xn@ == node_name(nodes@, x),
                forall|y: SchemaId| out@.contains(y) ==> nodes@.contains_key(y),
                forall|a: int| 0 <= a < p ==> !text_lt(xn@, node_name(nodes@, #[trigger] out@[a])),
                stop ==> p < out@.len() && text_lt(xn@, node_name(nodes@, out@[p as int])),
            decreases out@.len() - p, if stop { 0int } else { 1int },
        {
            let y = out[p];
            proof {
                assert(out@.contains(y));
            }
            let yn = match nodes.get(&y) {
                Some(n) => n.name.as_str(),
                None => "",
            };
            if text_less(xn, yn) {
                stop = true;
            } else {
                p = p + 1;
            }
        }
        let ghost before = out@;
        proof {
            // x is new: ids are distinct
            assert(!before.contains(x)) by {
                if before.contains(x) {
                    assert(crate::graph::id_before(ids@, i as int, x));
                    let j = choose|j: int| 0 <= j < i && #[trigger] ids@[j] == x;
                    assert(ids@[j] == ids@[i as int]);
                }
            }
            if p < before.len() {
                assert(text_lt(xn@, node_name(nodes@, before[p as int])));
            }
        }
        out.insert(p, x);
        proof {
            assert(out@ =~= before.insert(p as int, x));
            assert(out@.no_duplicates()) by {
                assert forall|a: int, b: int| 0 <= a < b < out@.len() implies out@[a] != out@[b] by {
                    let oa = if a < p { a } else if a == p { -1 } else { a - 1 };
                    let ob = if b < p { b } else if b == p { -1 } else { b - 1 };
                    if oa >= 0 && ob >= 0 {
                        assert(before[oa] != before[ob]);
                    } else if oa < 0 {
                        assert(before.contains(before[ob]));
                    } else {
                        assert(before.contains(before[oa]));
                    }
                }
            }
            assert forall|y: SchemaId| out@.contains(y) <==> crate::graph::id_before(ids@, i + 1, y) by {
                if out@.contains(y) {
                    let j = choose|j: int| 0 <= j < out@.len() && out@[j] == y;
                    if j != p {
                        let oj = if j < p { j } else { j - 1 };
                        assert(before[oj] == y);
                        assert(before.contains(y));
                        let q = choose|q: int| 0 <= q < i && #[trigger] ids@[q] == y;
                        assert(crate::graph::id_before(ids@, i + 1, y));
                    } else {
                        assert(ids@[i as int] == y);
                        assert(crate::graph::id_before(ids@, i + 1, y));
                    }
                }
                if crate::graph::id_before(ids@, i + 1, y) {
                    let q = choose|q: int| 0 <= q < i + 1 && #[trigger] ids@[q] == y;
                    if q < i {
                        assert(crate::graph::id_before(ids@, i as int, y));
                        assert(before.contains(y));
                        let m = choose|m: int| 0 <= m < before.len() && before[m] == y;
                        if m < p {
                            assert(out@[m] == y);
                        } else {
                            assert(out@[m + 1] == y);
                        }
                    } else {
                        assert(out@[p as int] == y);
                    }
                }
            }
            assert forall|a: int, b: int| 0 <= a < b < out@.len() implies !text_lt(
                node_name(nodes@, #[trigger] out@[b]),
                node_name(nodes@, #[trigger] out@[a]),
            ) by {
                let xs = xn@;
                if b < p {
                    assert(before[a] == out@[a] && before[b] == out@[b]);
                } else if a > p {
                    assert(before[a - 1] == out@[a] && before[b - 1] == out@[b]);
                } else if a == p {
                    // x < before[p] <= before[b - 1]
                    let nb = node_name(nodes@, before[b - 1]);
                    let np = node_name(nodes@, before[p as int]);
                    assert(text_lt(xs, np));
                    if b - 1 > p {
                        assert(!text_lt(nb, np));
                        crate::text::lemma_text_lt_total(nb, np);
                        if nb != np {
                            crate::text::lemma_text_lt_transitive(xs, np, nb);
                        }
                    }
                    assert(text_lt(xs, nb));
                    crate::text::lemma_text_lt_asymmetric(xs, nb);
                } else if b == p {
                    assert(before[a] == out@[a]);
                    assert(!text_lt(xs, node_name(nodes@, before[a])));
                } else {
                    // a < p < b
                    assert(before[a] == out@[a] && before[b - 1] == out@[b]);
                    assert(!text_lt(node_name(nodes@, before[b - 1]), node_name(nodes@, before[a])));
                }
            }
        }
        i = i + 1;
    }
    proof {
        assert forall|x: SchemaId| out@.contains(x) <==> ids@.contains(x) by {
            if ids@.contains(x) {
                let q = choose|q: int| 0 <= q < ids@.len() && ids@[q] == x;
                assert(crate::graph::id_before(ids@, ids@.len() as int, x));
            }
            if out@.contains(x) {
                let q = choose|q: int| 0 <= q < ids@.len() && #[trigger] ids@[q] == x;
            }
        }
    }
    out
}

/// The batch nodes without a parent in the batch (`want_roots`), or the
/// children of `parent` (otherwise), in node order.
fn select_nodes(nodes: &IdMap<SchemaNode>, want_roots: bool, parent: SchemaId) -> (r: Vec<SchemaId>)
    requires
        nodes.wf(),
    ensures
        r@.no_duplicates(),
        forall|x: SchemaId| #[trigger] r@.contains(x) <==> nodes@.contains_key(x) && (if want_roots {
            is_tree_root(nodes@, x)
        } else {
            nodes@[x].parent_id == Some(parent)
        }),
{
    let ids = nodes.keys();
    let entries = nodes.entries_vec();
    proof {
        nodes.lemma_view();
    }
    let mut r: Vec<SchemaId> = Vec::new();
    let mut i: usize = 0;
    while i < ids.len()
        invariant
            0 <= i <= ids@.len(),
            nodes.wf(),
            ids@ == key_seq(nodes.pairs()),
            entries@ == nodes.pairs(),
            ids@.no_duplicates(),
            forall|x: SchemaId| ids@.contains(x) <==> nodes@.contains_key(x),
            forall|j: int| 0 <= j < nodes.pairs().len() ==> #[trigger] nodes@[nodes.pairs()[j].0] == nodes.pairs()[j].1,
            r@.no_duplicates(),
            forall|x: SchemaId| #[trigger] r@.contains(x) <==> crate::graph::id_before(ids@, i as int, x) && (if want_roots {
                is_tree_root(nodes@, x)
            } else {
                nodes@[x].parent_id == Some(parent)
            }),
        decreases ids@.len() - i,
    {
        let x = ids[i];
        let node = &entries[i].1;
        proof {
            assert(entries@[i as int].0 == x);
            assert(nodes@[x] == *node);
        }
        let keep = if want_roots {
            match node.parent_id {
                None => true,
                Some(p) => !nodes.has(&p),
            }
        } else {
            node.parent_id == Some(parent)
        };
        let ghost before = r@;
        if keep {
            r.push(x);
        }
        proof {
            assert(!before.contains(x)) by {
                if before.contains(x) {
                    let j = choose|j: int| 0 <= j < i && #[trigger] ids@[j] == x;
                    assert(ids@[j] == ids@[i as int]);
                }
            }
            assert(r@.no_duplicates()) by {
                assert forall|a: int, b: int| 0 <= a < b < r@.len() implies r@[a] != r@[b] by {
                    if b == before.len() {
                        assert(before.contains(r@[a]) ==> true);
                        assert(before[a] == r@[a]);
                    } else {
                        assert(before[a] == r@[a] && before[b] == r@[b]);
                    }
                }
            }
            assert forall|y: SchemaId| #[trigger] r@.contains(y) <==> crate::graph::id_before(ids@, i + 1, y) && (if want_roots {
                is_tree_root(nodes@, y)
            } else {
                nodes@[y].parent_id == Some(parent)
            }) by {
                if r@.contains(y) {
                    let m = choose|m: int| 0 <= m < r@.len() && r@[m] == y;
                    if m < before.len() {
                        assert(before[m] == y);
                        assert(before.contains(y));
                        let q = choose|q: int| 0 <= q < i && #[trigger] ids@[q] == y;
                        assert(crate::graph::id_before(ids@, i + 1, y));
                    } else {
                        assert(y == x);
                        assert(ids@[i as int] == y);
                        assert(crate::graph::id_before(ids@, i + 1, y));
                    }
                }
                if crate::graph::id_before(ids@, i + 1, y) && (if want_roots {
                    is_tree_root(nodes@, y)
                } else {
                    nodes@[y].parent_id == Some(parent)
                }) {
                    let q = choose|q: int| 0 <= q < i + 1 && #[trigger] ids@[q] == y;
                    if q < i {
                        assert(crate::graph::id_before(ids@, i as int, y));
                        assert(before.contains(y));
                        let m = choose|m: int| 0 <= m < before.len() && before[m] == y;
                        assert(r@[m] == y);
                    } else {
                        assert(y == x);
                        assert(r@[r@.len() - 1] == y);
                    }
                }
            }
        }
        i = i + 1;
    }
    proof {
        assert forall|x: SchemaId| #[trigger] r@.contains(x) <==> nodes@.contains_key(x) && (if want_roots {
            is_tree_root(nodes@, x)
        } else {
            nodes@[x].parent_id == Some(parent)
        }) by {
            if nodes@.contains_key(x) {
                assert(ids@.contains(x));
                let q = choose|q: int| 0 <= q < ids@.len() && ids@[q] == x;
                assert(crate::graph::id_before(ids@, ids@.len() as int, x));
            }
            if crate::graph::id_before(ids@, ids@.len() as int, x) {
                let q = choose|q: int| 0 <= q < ids@.len() && #[trigger] ids@[q] == x;
                assert(ids@.contains(x));
            }
        }
    }
    r
}

/// Whether `x` is queued before position `limit` as the parent of the
/// queue entry at `j`.
pub open spec fn parent_queued_before(q: Seq<SchemaId>, nodes: Map<SchemaId, SchemaNode>, j: int, limit: int) -> bool {
    exists|i: int| 0 <= i < limit && i < j && Some(#[trigger] q[i]) == nodes[q[j]].parent_id
}

proof fn lemma_unreached_means_no_order(nodes: Map<SchemaId, SchemaNode>, queue: Seq<SchemaId>, x0: SchemaId)
    requires
        nodes.contains_key(x0),
        !queue.contains(x0),
        forall|x: SchemaId| #[trigger] nodes.contains_key(x) && !queue.contains(x) ==> exists|p: SchemaId|
            tree_link(nodes, p, x) && !queue.contains(p),
    ensures
        !exists|o: Seq<SchemaId>| #[trigger] orders_links(o, nodes, tree_links(nodes)),
{
    if exists|o: Seq<SchemaId>| #[trigger] orders_links(o, nodes, tree_links(nodes)) {
        let o = choose|o: Seq<SchemaId>| orders_links(o, nodes, tree_links(nodes));
        let r = Set::new(|x: SchemaId| nodes.contains_key(x) && !queue.contains(x));
        assert(o.contains(x0));
        let i0 = choose|i: int| 0 <= i < o.len() && o[i] == x0;
        assert(r.contains(o[i0]));
        let m = crate::inheritance::lemma_first_member(o, r, i0);
        let x = o[m];
        assert(nodes.contains_key(x) && !queue.contains(x));
        let p = choose|p: SchemaId| tree_link(nodes, p, x) && !queue.contains(p);
        let link = tree_links(nodes);
        assert(link(p, x));
        assert(crate::inheritance::precedes(o, p, x));
        let (a, b) = choose|a: int, b: int| 0 <= a < b < o.len() && #[trigger] o[a] == p && #[trigger] o[b] == x;
        assert(b == m) by {
            if b != m {
                assert(o[b] == o[m]);
            }
        }
        assert(r.contains(o[a]));
    }
}

/// Appending the next child of the node at `head` keeps the breadth-first
/// shape.
proof fn lemma_bfs_push(
    before: Seq<SchemaId>,
    after: Seq<SchemaId>,
    q0: Seq<SchemaId>,
    kids: Seq<SchemaId>,
    nodes: Map<SchemaId, SchemaNode>,
    head: int,
    k: int,
    id: SchemaId,
    c: SchemaId,
)
    requires
        after == before.push(c),
        after.no_duplicates(),
        0 <= head < q0.len(),
        q0[head] == id,
        nodes.contains_key(id),
        0 <= k < kids.len(),
        kids[k] == c,
        nodes.contains_key(c),
        nodes[c].parent_id == Some(id),
        before.len() == q0.len() + k,
        forall|j: int| 0 <= j < q0.len() ==> #[trigger] before[j] == q0[j],
        forall|j: int| 0 <= j < k ==> #[trigger] before[q0.len() + j] == kids[j],
        forall|x: SchemaId| kids.contains(x) ==> nodes.contains_key(x) && nodes[x].parent_id == Some(id),
        forall|x: SchemaId| before.contains(x) ==> nodes.contains_key(x),
        forall|j: int| 0 <= j < q0.len() && !is_tree_root(nodes, #[trigger] q0[j]) ==> parent_queued_before(q0, nodes, j, head),
        forall|j: int| 0 <= j < before.len() && !is_tree_root(nodes, #[trigger] before[j]) ==> parent_queued_before(before, nodes, j, head + 1),
        sorted_by_name(kids, nodes),
        breadth_first_by_name(before, nodes),
    ensures
        breadth_first_by_name(after, nodes),
{
    let n = before.len() as int;
    assert(after[n] == c);
    assert(!is_tree_root(nodes, c));
    assert(after[head] == id);
    // The parent of every element of `before` sits before `head + 1`.
    assert forall|i: int, a: int| 0 <= i < n && 0 <= a < after.len() && nodes[after[i]].parent_id == Some(after[a]) implies a < n && (i < q0.len() ==> a < head) && (i >= q0.len() ==> a == head) by {
        assert(after[i] == before[i]);
        assert(before.contains(before[i]));
        assert(nodes.contains_key(after[a])) by {
            if a < n {
                assert(after[a] == before[a]);
                assert(before.contains(before[a]));
            }
        }
        assert(!is_tree_root(nodes, before[i]));
        assert(parent_queued_before(before, nodes, i, head + 1));
        let m = choose|m: int| 0 <= m < head + 1 && m < i && Some(#[trigger] before[m]) == nodes[before[i]].parent_id;
        assert(after[m] == before[m]);
        assert(a == m);
        if i < q0.len() {
            assert(before[i] == q0[i]);
            assert(!is_tree_root(nodes, q0[i]));
            assert(parent_queued_before(q0, nodes, i, head));
            let m2 = choose|m2: int| 0 <= m2 < head && m2 < i && Some(#[trigger] q0[m2]) == nodes[q0[i]].parent_id;
            assert(after[m2] == q0[m2]);
            assert(a == m2);
        } else {
            let t = i - q0.len();
            assert(before[q0.len() + t] == kids[t]);
            assert(kids.contains(kids[t]));
            assert(after[a] == id);
            assert(a == head);
        }
    }
    assert forall|i: int, j: int|
        #![trigger after[i], after[j]]
        0 <= i < j < after.len() && is_tree_root(nodes, after[j]) implies is_tree_root(nodes, after[i]) by {
        assert(j < n);
        assert(after[i] == before[i] && after[j] == before[j]);
    }
    assert forall|i: int, j: int|
        #![trigger after[i], after[j]]
        0 <= i < j < after.len() && is_tree_root(nodes, after[i]) && is_tree_root(nodes, after[j])
            implies !text_lt(node_name(nodes, after[j]), node_name(nodes, after[i])) by {
        assert(j < n);
        assert(after[i] == before[i] && after[j] == before[j]);
    }
    assert forall|i: int, j: int|
        #![trigger after[i], after[j]]
        0 <= i < j < after.len() && !is_tree_root(nodes, after[i]) && !is_tree_root(nodes, after[j])
            && nodes[after[i]].parent_id == nodes[after[j]].parent_id implies !text_lt(node_name(nodes, after[j]), node_name(nodes, after[i])) by {
        if j < n {
            assert(after[i] == before[i] && after[j] == before[j]);
        } else {
            assert(after[j] == c);
            assert(after[i] == before[i]);
            assert(nodes[after[i]].parent_id == Some(after[head]));
            if i < q0.len() {
                assert(head < head);
            } else {
                let t = i - q0.len();
                assert(before[q0.len() + t] == kids[t]);
                assert(!text_lt(node_name(nodes, kids[k]), node_name(nodes, kids[t])));
            }
        }
    }
    assert forall|i: int, j: int, a: int, b: int|
        #![trigger after[i], after[j], after[a], after[b]]
        0 <= i < j < after.len() && 0 <= a < after.len() && 0 <= b < after.len() && nodes[after[i]].parent_id == Some(after[a])
            && nodes[after[j]].parent_id == Some(after[b]) implies a <= b by {
        if j < n {
            assert(a < n && b < n);
            assert(after[i] == before[i] && after[j] == before[j] && after[a] == before[a] && after[b] == before[b]);
        } else {
            assert(after[j] == c);
            assert(after[b] == id);
            assert(b == head);
        }
    }
}

/// The breadth-first shape of an order of the tree: roots first and in
/// name order, then each node's children as a block in name order, the
/// blocks following the order of their parents.
pub open spec fn breadth_first_by_name(o: Seq<SchemaId>, nodes: Map<SchemaId, SchemaNode>) -> bool {
    &&& forall|i: int, j: int|
        #![trigger o[i], o[j]]
        0 <= i < j < o.len() && is_tree_root(nodes, o[j]) ==> is_tree_root(nodes, o[i])
    &&& forall|i: int, j: int|
        #![trigger o[i], o[j]]
        0 <= i < j < o.len() && is_tree_root(nodes, o[i]) && is_tree_root(nodes, o[j])
            ==> !text_lt(node_name(nodes, o[j]), node_name(nodes, o[i]))
    &&& forall|i: int, j: int|
        #![trigger o[i], o[j]]
        0 <= i < j < o.len() && !is_tree_root(nodes, o[i]) && !is_tree_root(nodes, o[j])
            && nodes[o[i]].parent_id == nodes[o[j]].parent_id ==> !text_lt(node_name(nodes, o[j]), node_name(nodes, o[i]))
    &&& forall|i: int, j: int, a: int, b: int|
        #![trigger o[i], o[j], o[a], o[b]]
        0 <= i < j < o.len() && 0 <= a < o.len() && 0 <= b < o.len() && nodes[o[i]].parent_id == Some(o[a])
            && nodes[o[j]].parent_id == Some(o[b]) ==> a <= b
}

/// The breadth-first shape depends only on the nodes' names and parents.
proof fn lemma_bfs_same_shape(o: Seq<SchemaId>, n1: Map<SchemaId, SchemaNode>, n2: Map<SchemaId, SchemaNode>)
    requires
        breadth_first_by_name(o, n1),
        n1.dom() == n2.dom(),
        forall|x: SchemaId| #[trigger] o.contains(x) ==> n1.contains_key(x),
        forall|x: SchemaId| #[trigger] n2.contains_key(x) ==> n2[x].name@ == n1[x].name@ && n2[x].parent_id == n1[x].parent_id,
    ensures
        breadth_first_by_name(o, n2),
{
    assert forall|i: int| 0 <= i < o.len() implies #[trigger] is_tree_root(n2, o[i]) == is_tree_root(n1, o[i])
        && node_name(n2, o[i]) == node_name(n1, o[i]) && n2[o[i]].parent_id == n1[o[i]].parent_id by {
        assert(o.contains(o[i]));
    }
    assert forall|i: int, j: int|
        #![trigger o[i], o[j]]
        0 <= i < j < o.len() && is_tree_root(n2, o[j]) implies is_tree_root(n2, o[i]) by {
        assert(is_tree_root(n2, o[j]) == is_tree_root(n1, o[j]));
        assert(is_tree_root(n2, o[i]) == is_tree_root(n1, o[i]));
    }
    assert forall|i: int, j: int|
        #![trigger o[i], o[j]]
        0 <= i < j < o.len() && is_tree_root(n2, o[i]) && is_tree_root(n2, o[j])
            implies !text_lt(node_name(n2, o[j]), node_name(n2, o[i])) by {
        assert(is_tree_root(n2, o[j]) == is_tree_root(n1, o[j]));
        assert(is_tree_root(n2, o[i]) == is_tree_root(n1, o[i]));
    }
    assert forall|i: int, j: int|
        #![trigger o[i], o[j]]
        0 <= i < j < o.len() && !is_tree_root(n2, o[i]) && !is_tree_root(n2, o[j])
            && n2[o[i]].parent_id == n2[o[j]].parent_id implies !text_lt(node_name(n2, o[j]), node_name(n2, o[i])) by {
        assert(is_tree_root(n2, o[j]) == is_tree_root(n1, o[j]));
        assert(is_tree_root(n2, o[i]) == is_tree_root(n1, o[i]));
    }
    assert forall|i: int, j: int, a: int, b: int|
        #![trigger o[i], o[j], o[a], o[b]]
        0 <= i < j < o.len() && 0 <= a < o.len() && 0 <= b < o.len() && n2[o[i]].parent_id == Some(o[a])
            && n2[o[j]].parent_id == Some(o[b]) implies a <= b by {
        assert(is_tree_root(n2, o[j]) == is_tree_root(n1, o[j]));
        assert(is_tree_root(n2, o[i]) == is_tree_root(n1, o[i]));
    }
}

/// Kahn's order over the batch links: roots sorted by name first, then,
/// breadth first, each node's children sorted by name. `None` exactly when
/// no such order of all nodes exists (a cycle).
fn kahn_order(nodes: &IdMap<SchemaNode>) -> (r: Option<(Vec<SchemaId>, Vec<SchemaId>)>)
    requires
        nodes.wf(),
    ensures
        r is None <==> !exists|o: Seq<SchemaId>| #[trigger] orders_links(o, nodes@, tree_links(nodes@)),
        r matches Some(res) ==> {
            &&& orders_links(res.0@, nodes@, tree_links(nodes@))
            &&& breadth_first_by_name(res.0@, nodes@)
            &&& res.1@ == res.0@.filter(|x: SchemaId| is_tree_root(nodes@, x))
        },
{
    let ids = nodes.keys();
    let initial = select_nodes(nodes, true, SchemaId::from_u128(0));
    let mut queue = sort_by_name(&initial, nodes);
    let mut head: usize = 0;
    proof {
        assert forall|j: int| 0 <= j < queue@.len() implies is_tree_root(nodes@, #[trigger] queue@[j]) by {
            assert(queue@.contains(queue@[j]));
            assert(initial@.contains(queue@[j]));
        }
        let q = queue@;
        assert forall|i: int, j: int, a: int, b: int|
            #![trigger q[i], q[j], q[a], q[b]]
            0 <= i < j < q.len() && 0 <= a < q.len() && 0 <= b < q.len() && nodes@[q[i]].parent_id == Some(q[a])
                && nodes@[q[j]].parent_id == Some(q[b]) implies a <= b by {
            assert(is_tree_root(nodes@, q[i]));
            assert(q.contains(q[a]));
        }
        assert(breadth_first_by_name(queue@, nodes@));
    }
    while head < queue.len()
        invariant
            0 <= head <= queue@.len(),
            nodes.wf(),
            ids@.no_duplicates(),
            forall|x: SchemaId| ids@.contains(x) <==> nodes@.contains_key(x),
            queue@.no_duplicates(),
            forall|x: SchemaId| queue@.contains(x) ==> nodes@.contains_key(x),
            forall|x: SchemaId| nodes@.contains_key(x) && is_tree_root(nodes@, x) ==> queue@.contains(x),
            forall|j: int| 0 <= j < queue@.len() && !is_tree_root(nodes@, #[trigger] queue@[j]) ==> parent_queued_before(queue@, nodes@, j, head as int),
            forall|j: int| 0 <= j < queue@.len() && is_tree_root(nodes@, #[trigger] queue@[j]) ==> true,
            forall|j: int, x: SchemaId| 0 <= j < head && nodes@.contains_key(x) && nodes@[x].parent_id == Some(#[trigger] queue@[j])
                ==> #[trigger] queue@.contains(x),
            breadth_first_by_name(queue@, nodes@),
        decreases ids@.len() - head,
    {
        proof {
            crate::sort::lemma_distinct_within(queue@, ids@);
        }
        let id = queue[head];
        proof {
            assert(queue@.contains(id));
        }
        let kids0 = select_nodes(nodes, false, id);
        proof {
            assert forall|x: SchemaId| kids0@.contains(x) implies nodes@.contains_key(x) by {}
        }
        let kids = sort_by_name(&kids0, nodes);
        let mut k: usize = 0;
        let ghost q0 = queue@;
        while k < kids.len()
            invariant
                0 <= k <= kids@.len(),
                head < q0.len(),
                id == q0[head as int],
                nodes.wf(),
                nodes@.contains_key(id),
                kids@.no_duplicates(),
                forall|x: SchemaId| kids@.contains(x) <==> nodes@.contains_key(x) && nodes@[x].parent_id == Some(id),
                queue@.len() == q0.len() + k,
                forall|j: int| 0 <= j < q0.len() ==> #[trigger] queue@[j] == q0[j],
                forall|j: int| 0 <= j < k ==> #[trigger] queue@[q0.len() + j] == kids@[j],
                q0.no_duplicates(),
                queue@.no_duplicates(),
                forall|x: SchemaId| q0.contains(x) ==> nodes@.contains_key(x),
                forall|x: SchemaId| queue@.contains(x) ==> nodes@.contains_key(x),
                forall|j: int| 0 <= j < q0.len() && !is_tree_root(nodes@, #[trigger] q0[j]) ==> parent_queued_before(q0, nodes@, j, head as int),
                forall|j: int| 0 <= j < queue@.len() && !is_tree_root(nodes@, #[trigger] queue@[j]) ==> parent_queued_before(queue@, nodes@, j, head + 1),
                sorted_by_name(kids@, nodes@),
                breadth_first_by_name(queue@, nodes@),
            decreases kids@.len() - k,
        {
            let c = kids[k];
            proof {
                assert(kids@.contains(c));
                // c is not queued yet
                assert(!queue@.contains(c)) by {
                    if queue@.contains(c) {
                        let j = choose|j: int| 0 <= j < queue@.len() && queue@[j] == c;
                        if j < q0.len() {
                            assert(q0[j] == c);
                            assert(!is_tree_root(nodes@, q0[j]));
                            assert(parent_queued_before(q0, nodes@, j, head as int));
                            let i = choose|i: int| 0 <= i < head && i < j && Some(#[trigger] q0[i]) == nodes@[q0[j]].parent_id;
                            assert(q0[i] == q0[head as int]);
                        } else {
                            let t = j - q0.len();
                            assert(queue@[q0.len() + t] == kids@[t]);
                            assert(kids@[t] == kids@[k as int]);
                        }
                    }
                }
            }
            let ghost before = queue@;
            queue.push(c);
            proof {
                assert forall|x: SchemaId| queue@.contains(x) implies nodes@.contains_key(x) by {
                    if x != c {
                        let j = choose|j: int| 0 <= j < queue@.len() && queue@[j] == x;
                        assert(before[j] == x);
                        assert(before.contains(x));
                    }
                }
                assert(queue@.no_duplicates()) by {
                    assert forall|a: int, b: int| 0 <= a < b < queue@.len() implies queue@[a] != queue@[b] by {
                        if b == before.len() {
                            assert(before[a] == queue@[a]);
                            assert(before.contains(before[a]));
                        } else {
                            assert(before[a] == queue@[a] && before[b] == queue@[b]);
                        }
                    }
                }
                assert forall|j: int| 0 <= j < queue@.len() && !is_tree_root(nodes@, #[trigger] queue@[j]) implies parent_queued_before(queue@, nodes@, j, head + 1) by {
                    if j < before.len() {
                        assert(before[j] == queue@[j]);
                        assert(parent_queued_before(before, nodes@, j, head + 1));
                        let i = choose|i: int| 0 <= i < head + 1 && i < j && Some(#[trigger] before[i]) == nodes@[before[j]].parent_id;
                        assert(queue@[i] == before[i]);
                    } else {
                        assert(queue@[j] == c);
                        assert(queue@[head as int] == id);
                        assert(Some(queue@[head as int]) == nodes@[queue@[j]].parent_id);
                    }
                }
                lemma_bfs_push(before, queue@, q0, kids@, nodes@, head as int, k as int, id, c);
            }
            k = k + 1;
        }
        proof {
            assert forall|j: int, x: SchemaId| 0 <= j < head + 1 && nodes@.contains_key(x) && nodes@[x].parent_id == Some(#[trigger] queue@[j])
                implies #[trigger] queue@.contains(x) by {
                if j < head {
                    assert(queue@[j] == q0[j]);
                    assert(q0.contains(x));
                    let m = choose|m: int| 0 <= m < q0.len() && q0[m] == x;
                    assert(queue@[m] == x);
                } else {
                    assert(queue@[j] == id);
                    assert(kids@.contains(x));
                    let t = choose|t: int| 0 <= t < kids@.len() && kids@[t] == x;
                    assert(queue@[q0.len() + t] == x);
                }
            }
            assert forall|x: SchemaId| nodes@.contains_key(x) && is_tree_root(nodes@, x) implies queue@.contains(x) by {
                assert(q0.contains(x));
                let m = choose|m: int| 0 <= m < q0.len() && q0[m] == x;
                assert(queue@[m] == x);
            }
        }
        head = head + 1;
    }
    if queue.len() < ids.len() {
        proof {
            assert(exists|x: SchemaId| ids@.contains(x) && !queue@.contains(x)) by {
                if forall|x: SchemaId| ids@.contains(x) ==> queue@.contains(x) {
                    crate::sort::lemma_distinct_within(ids@, queue@);
                }
            }
            let x0 = choose|x: SchemaId| ids@.contains(x) && !queue@.contains(x);
            assert forall|x: SchemaId| #[trigger] nodes@.contains_key(x) && !queue@.contains(x) implies exists|p: SchemaId|
                tree_link(nodes@, p, x) && !queue@.contains(p) by {
                assert(!is_tree_root(nodes@, x));
                let p = nodes@[x].parent_id->0;
                assert(tree_link(nodes@, p, x));
                if queue@.contains(p) {
                    let j = choose|j: int| 0 <= j < queue@.len() && queue@[j] == p;
                    assert(nodes@[x].parent_id == Some(queue@[j]));
                }
            }
            lemma_unreached_means_no_order(nodes@, queue@, x0);
        }
        return None;
    }
    proof {
        crate::sort::lemma_distinct_within(queue@, ids@);
    }
    // every node is queued, parents first
    let mut roots: Vec<SchemaId> = Vec::new();
    let mut i: usize = 0;
    proof {
        reveal(Seq::filter);
        assert(queue@.take(0).filter(|x: SchemaId| is_tree_root(nodes@, x)) =~= Seq::<SchemaId>::empty());
    }
    while i < queue.len()
        invariant
            0 <= i <= queue@.len(),
            nodes.wf(),
            forall|x: SchemaId| queue@.contains(x) ==> nodes@.contains_key(x),
            roots@ == queue@.take(i as int).filter(|x: SchemaId| is_tree_root(nodes@, x)),
        decreases queue@.len() - i,
    {
        let x = queue[i];
        proof {
            assert(queue@.contains(x));
        }
        let is_root = match nodes.get(&x) {
            Some(n) => match n.parent_id {
                None => true,
                Some(p) => !nodes.has(&p),
            },
            None => true,
        };
        proof {
            assert(queue@.take(i + 1).drop_last() =~= queue@.take(i as int));
            assert(queue@.take(i + 1).filter(|y: SchemaId| is_tree_root(nodes@, y)) == (if is_tree_root(nodes@, x) {
                queue@.take(i as int).filter(|y: SchemaId| is_tree_root(nodes@, y)).push(x)
            } else {
                queue@.take(i as int).filter(|y: SchemaId| is_tree_root(nodes@, y))
            })) by {
                reveal(Seq::filter);
            }
        }
        if is_root {
            roots.push(x);
        }
        i = i + 1;
    }
    proof {
        assert(queue@.take(queue@.len() as int) =~= queue@);
        assert forall|x: SchemaId| queue@.contains(x) <==> nodes@.contains_key(x) by {
            if nodes@.contains_key(x) && !queue@.contains(x) {
                let extended = queue@.push(x);
                assert(extended.no_duplicates()) by {
                    assert forall|a: int, b: int| 0 <= a < b < extended.len() implies extended[a] != extended[b] by {
                        if b == extended.len() - 1 {
                            assert(queue@[a] == extended[a]);
                        } else {
                            assert(queue@[a] == extended[a] && queue@[b] == extended[b]);
                        }
                    }
                }
                assert forall|y: SchemaId| extended.contains(y) implies ids@.contains(y) by {
                    if y != x {
                        let j = choose|j: int| 0 <= j < extended.len() && extended[j] == y;
                        assert(queue@[j] == y);
                        assert(queue@.contains(y));
                        assert(nodes@.contains_key(y));
                    } else {
                        assert(nodes@.contains_key(y));
                    }
                }
                crate::sort::lemma_distinct_within(extended, ids@);
            }
        }
        let link = tree_links(nodes@);
        assert forall|p: SchemaId, x: SchemaId| #[trigger] link(p, x) implies crate::inheritance::precedes(queue@, p, x) by {
            assert(queue@.contains(x));
            let j = choose|j: int| 0 <= j < queue@.len() && queue@[j] == x;
            assert(!is_tree_root(nodes@, queue@[j]));
            let a = choose|a: int| 0 <= a < queue@.len() && a < j && Some(#[trigger] queue@[a]) == nodes@[queue@[j]].parent_id;
            assert(queue@[a] == p);
        }
        assert(orders_links(queue@, nodes@, link));
    }
    Some((queue, roots))
}

// ─────────────────────────────────────────────────────────────────────────────
//  Node construction, depths, and the tree
// ─────────────────────────────────────────────────────────────────────────────

/// The index of the last batch schema with identifier `x` (-1 if none).
pub open spec fn last_with_id(exp: Seq<ExpandedSchema>, x: SchemaId) -> int
    decreases exp.len(),
{
    if exp.len() == 0 {
        -1
    } else if exp.last().id == x {
        exp.len() - 1
    } else {
        last_with_id(exp.drop_last(), x)
    }
}

/// Where the last batch schema with an identifier stands, if any does.
pub proof fn lemma_last_with_id(exp: Seq<ExpandedSchema>, x: SchemaId)
    ensures
        -1 <= last_with_id(exp, x) < exp.len(),
        last_with_id(exp, x) >= 0 ==> exp[last_with_id(exp, x)].id == x,
        (last_with_id(exp, x) >= 0) <==> exists|i: int| 0 <= i < exp.len() && #[trigger] exp[i].id == x,
    decreases exp.len(),
{
    if exp.len() > 0 {
        lemma_last_with_id(exp.drop_last(), x);
        if exists|i: int| 0 <= i < exp.len() && #[trigger] exp[i].id == x {
            let i = choose|i: int| 0 <= i < exp.len() && #[trigger] exp[i].id == x;
            if exp.last().id != x {
                assert(exp.drop_last()[i].id == x);
            }
        }
        if last_with_id(exp.drop_last(), x) >= 0 {
            let i = last_with_id(exp.drop_last(), x);
            assert(exp[i] == exp.drop_last()[i]);
        }
    }
}

/// `node` carries the name, properties, exclusions and resolved parent of
/// the batch schema `e`.
pub open spec fn node_from(node: SchemaNode, e: ExpandedSchema, parent: Option<SchemaId>) -> bool {
    &&& node.name@ == e.name@
    &&& node.properties == e.properties
    &&& node.excludes@ == e.excludes@
    &&& node.parent_id == parent
}

/// One node per batch identifier, from the last batch schema with it.
fn build_nodes(exp: Vec<ExpandedSchema>, parents: Vec<Option<SchemaId>>) -> (r: IdMap<SchemaNode>)
    requires
        parents@.len() == exp@.len(),
        forall|i: int| 0 <= i < exp@.len() ==> valid_name(#[trigger] exp@[i].name@),
    ensures
        r.wf(),
        forall|x: SchemaId| #[trigger] r@.contains_key(x) <==> exists|i: int| 0 <= i < exp@.len() && #[trigger] exp@[i].id == x,
        forall|x: SchemaId| #[trigger] r@.contains_key(x) ==> node_from(r@[x], exp@[last_with_id(exp@, x)], parents@[last_with_id(exp@, x)]),
{
    let ghost all = exp@;
    let mut rest = exp;
    let mut out: IdMap<SchemaNode> = IdMap::new();
    let mut n: usize = 0;
    let total: usize = rest.len();
    proof {
        assert(all.skip(0) =~= all);
    }
    while rest.len() > 0
        invariant
            n + rest@.len() == all.len(),
            all.len() == total,
            rest@ == all.skip(n as int),
            parents@.len() == all.len(),
            forall|i: int| 0 <= i < all.len() ==> valid_name(#[trigger] all[i].name@),
            out.wf(),
            forall|x: SchemaId| #[trigger] out@.contains_key(x) <==> exists|i: int| 0 <= i < n && #[trigger] all[i].id == x,
            forall|x: SchemaId| #[trigger] out@.contains_key(x) ==> node_from(
                out@[x],
                all.take(n as int)[last_with_id(all.take(n as int), x)],
                parents@[last_with_id(all.take(n as int), x)],
            ),
        decreases rest@.len(),
    {
        let e = rest.remove(0);
        proof {
            assert(e == all[n as int]);
            assert(valid_name(all[n as int].name@));
        }
        let name = match SchemaName::try_new(e.name.as_str()) {
            Ok(nm) => nm,
            Err(_) => {
                proof {
                    assert(false);
                }
                return out;
            },
        };
        let id = e.id;
        let node = SchemaNode {
            name,
            properties: e.properties,
            excludes: e.excludes,
            parent_id: parents[n],
            children: Vec::new(),
            depth: NodeDepth::root(),
        };
        out.insert(id, node);
        proof {
            let pre = all.take(n + 1);
            assert(pre.drop_last() =~= all.take(n as int));
            assert(pre.last() == all[n as int]);
            assert forall|x: SchemaId| #[trigger] out@.contains_key(x) <==> exists|i: int| 0 <= i < n + 1 && #[trigger] all[i].id == x by {
                if x == id {
                    assert(all[n as int].id == x);
                }
            }
            assert forall|x: SchemaId| #[trigger] out@.contains_key(x) implies node_from(
                out@[x],
                all.take(n + 1)[last_with_id(all.take(n + 1), x)],
                parents@[last_with_id(all.take(n + 1), x)],
            ) by {
                if x != id {
                    lemma_last_with_id(all.take(n as int), x);
                    let i0 = choose|i: int| 0 <= i < n && #[trigger] all[i].id == x;
                    assert(all.take(n as int)[i0].id == x);
                    let j = last_with_id(all.take(n as int), x);
                    assert(j >= 0);
                    assert(all.take(n + 1)[j] == all.take(n as int)[j]);
                }
            }
        }
        n = n + 1;
    }
    proof {
        assert(all.take(n as int) =~= all);
    }
    out
}

/// `depths` gives each batch node depth 1 when it has no parent or a known
/// parent, and one more (saturating) than its parent's depth otherwise.
pub open spec fn depth_rule(
    nodes: Map<SchemaId, SchemaNode>,
    known: Map<SchemaId, Schema>,
    depth: spec_fn(SchemaId) -> usize,
    x: SchemaId,
) -> bool {
    depth(x) == match nodes[x].parent_id {
        None => 1,
        Some(p) => if known.contains_key(p) || !nodes.contains_key(p) {
            1
        } else {
            crate::graph::saturating_inc(depth(p))
        },
    }
}

/// Depths of the nodes, computed along an order with parents first.
fn compute_depths(nodes: &IdMap<SchemaNode>, order: &Vec<SchemaId>, known: &IdMap<Schema>) -> (r: IdMap<NodeDepth>)
    requires
        nodes.wf(),
        known.wf(),
        orders_links(order@, nodes@, tree_links(nodes@)),
    ensures
        r.wf(),
        r@.dom() == nodes@.dom(),
        forall|x: SchemaId| #[trigger] nodes@.contains_key(x) ==> depth_rule(nodes@, known@, |y: SchemaId| r@[y].value(), x),
{
    let mut depths: IdMap<NodeDepth> = IdMap::new();
    let mut i: usize = 0;
    while i < order.len()
        invariant
            0 <= i <= order@.len(),
            nodes.wf(),
            known.wf(),
            orders_links(order@, nodes@, tree_links(nodes@)),
            depths.wf(),
            forall|x: SchemaId| #[trigger] depths@.contains_key(x) <==> crate::graph::id_before(order@, i as int, x),
            forall|x: SchemaId| #[trigger] depths@.contains_key(x) ==> depth_rule(nodes@, known@, |y: SchemaId| depths@[y].value(), x),
        decreases order@.len() - i,
    {
        let x = order[i];
        proof {
            assert(order@.contains(x));
        }
        let d = match nodes.get(&x) {
            Some(node) => match node.parent_id {
                None => NodeDepth::root(),
                Some(p) => {
                    if known.has(&p) || !nodes.has(&p) {
                        NodeDepth::root()
                    } else {
                        proof {
                            let link = tree_links(nodes@);
                            assert(link(p, x));
                            assert(crate::inheritance::precedes(order@, p, x));
                            let (a, b) = choose|a: int, b: int| 0 <= a < b < order@.len() && #[trigger] order@[a] == p && #[trigger] order@[b] == x;
                            assert(b == i) by {
                                if b != i {
                                    assert(order@[b] == order@[i as int]);
                                }
                            }
                            assert(crate::graph::id_before(order@, i as int, p));
                        }
                        match depths.get(&p) {
                            Some(pd) => pd.increment(),
                            None => NodeDepth::root(),
                        }
                    }
                },
            },
            None => NodeDepth::root(),
        };
        let ghost before = depths@;
        proof {
            assert(!before.contains_key(x)) by {
                if before.contains_key(x) {
                    let j = choose|j: int| 0 <= j < i && #[trigger] order@[j] == x;
                    assert(order@[j] == order@[i as int]);
                }
            }
        }
        depths.insert(x, d);
        proof {
            assert forall|y: SchemaId| #[trigger] depths@.contains_key(y) <==> crate::graph::id_before(order@, i + 1, y) by {
                if y == x {
                    assert(order@[i as int] == y);
                }
                if crate::graph::id_before(order@, i + 1, y) && y != x {
                    let j = choose|j: int| 0 <= j < i + 1 && #[trigger] order@[j] == y;
                    assert(crate::graph::id_before(order@, i as int, y));
                }
            }
            assert forall|y: SchemaId| #[trigger] depths@.contains_key(y) implies depth_rule(nodes@, known@, |z: SchemaId| depths@[z].value(), y) by {
                if y != x {
                    assert(depth_rule(nodes@, known@, |z: SchemaId| before[z].value(), y));
                    let j0 = choose|j: int| 0 <= j < i + 1 && #[trigger] order@[j] == y;
                    assert(order@.contains(y));
                    assert(nodes@.contains_key(y));
                    match nodes@[y].parent_id {
                        None => {},
                        Some(p) => {
                            if !(known@.contains_key(p) || !nodes@.contains_key(p)) {
                                // p was placed before y, so it is not x
                                let link = tree_links(nodes@);
                                assert(link(p, y));
                                assert(crate::inheritance::precedes(order@, p, y));
                                let (a, b) = choose|a: int, b: int| 0 <= a < b < order@.len() && #[trigger] order@[a] == p && #[trigger] order@[b] == y;
                                let j = choose|j: int| 0 <= j < i && #[trigger] order@[j] == y;
                                assert(b == j) by {
                                    if b != j {
                                        assert(order@[b] == order@[j]);
                                    }
                                }
                                assert(p != x) by {
                                    if p == x {
                                        assert(order@[a] == order@[i as int]);
                                    }
                                }
                            }
                        },
                    }
                }
            }
        }
        i = i + 1;
    }
    proof {
        assert forall|x: SchemaId| depths@.contains_key(x) <==> nodes@.contains_key(x) by {
            if nodes@.contains_key(x) {
                assert(order@.contains(x));
                let j = choose|j: int| 0 <= j < order@.len() && order@[j] == x;
                assert(crate::graph::id_before(order@, order@.len() as int, x));
            }
            if depths@.contains_key(x) {
                let j = choose|j: int| 0 <= j < order@.len() && #[trigger] order@[j] == x;
                assert(order@.contains(x));
            }
        }
        assert(depths@.dom() =~= nodes@.dom());
    }
    depths
}

/// The batch links of `nodes` (parents that are not known schemas) as a
/// relation.
pub open spec fn batch_links_of(
    nodes: Map<SchemaId, SchemaNode>,
    known: Map<SchemaId, Schema>,
) -> spec_fn(SchemaId, SchemaId) -> bool {
    |p: SchemaId, x: SchemaId| batch_link(nodes, known, p, x)
}

/// `path` walks from `x` up through parents (each entry extends the next)
/// and comes back to `x`.
pub open spec fn closes_at(link: spec_fn(SchemaId, SchemaId) -> bool, path: Seq<SchemaId>, x: SchemaId) -> bool {
    &&& path.len() >= 2
    &&& path[0] == x
    &&& path.last() == x
    &&& forall|i: int| 0 <= i < path.len() - 1 ==> #[trigger] link(path[i + 1], path[i])
}

/// `x` (transitively) extends itself through the links.
pub open spec fn on_link_cycle(link: spec_fn(SchemaId, SchemaId) -> bool, x: SchemaId) -> bool {
    exists|path: Seq<SchemaId>| #[trigger] closes_at(link, path, x)
}

/// Every batch node of `placed` comes after its batch parent there.
pub open spec fn parents_first(
    placed: Seq<SchemaId>,
    nodes: Map<SchemaId, SchemaNode>,
    known: Map<SchemaId, Schema>,
) -> bool {
    &&& placed.no_duplicates()
    &&& forall|x: SchemaId| placed.contains(x) ==> nodes.contains_key(x)
    &&& forall|i: int, p: SchemaId|
        0 <= i < placed.len() && #[trigger] batch_link(nodes, known, p, placed[i]) ==> exists|j: int|
            0 <= j < i && #[trigger] placed[j] == p
}

/// Every batch node missing from `placed` has a batch parent that is
/// missing too.
pub open spec fn stuck_at(
    placed: Seq<SchemaId>,
    nodes: Map<SchemaId, SchemaNode>,
    known: Map<SchemaId, Schema>,
    x: SchemaId,
) -> bool {
    placed.contains(x) || exists|p: SchemaId| #[trigger] batch_link(nodes, known, p, x) && !placed.contains(p)
}

/// Places batch nodes, parents first, until no further node can be placed.
fn place_parents_first(nodes: &IdMap<SchemaNode>, known: &IdMap<Schema>, ids: &Vec<SchemaId>) -> (placed: Vec<SchemaId>)
    requires
        nodes.wf(),
        known.wf(),
        ids@.no_duplicates(),
        forall|x: SchemaId| ids@.contains(x) <==> nodes@.contains_key(x),
    ensures
        parents_first(placed@, nodes@, known@),
        forall|x: SchemaId| #[trigger] nodes@.contains_key(x) ==> stuck_at(placed@, nodes@, known@, x),
{
    let n = ids.len();
    let mut placed: Vec<SchemaId> = Vec::new();
    let mut stuck = false;
    while !stuck
        invariant
            n == ids@.len(),
            nodes.wf(),
            known.wf(),
            ids@.no_duplicates(),
            forall|x: SchemaId| ids@.contains(x) <==> nodes@.contains_key(x),
            parents_first(placed@, nodes@, known@),
            placed@.len() <= n,
            stuck ==> forall|x: SchemaId| #[trigger] nodes@.contains_key(x) ==> stuck_at(placed@, nodes@, known@, x),
        decreases n - placed@.len() + (if stuck { 0int } else { 1int }),
    {
        let ghost before = placed@;
        let mut added = false;
        let mut j: usize = 0;
        while j < n
            invariant
                0 <= j <= n,
                n == ids@.len(),
                nodes.wf(),
                known.wf(),
                ids@.no_duplicates(),
                forall|x: SchemaId| ids@.contains(x) <==> nodes@.contains_key(x),
                parents_first(placed@, nodes@, known@),
                added == (placed@.len() > before.len()),
                !added ==> placed@ == before,
                placed@.len() >= before.len(),
                !added ==> forall|k: int| 0 <= k < j ==> #[trigger] stuck_at(placed@, nodes@, known@, ids@[k]),
            decreases n - j,
        {
            let x = ids[j];
            if !contains_id(&placed, x) {
                proof {
                    assert(ids@.contains(x));
                }
                let ready = match nodes.get(&x) {
                    Some(node) => match node.parent_id {
                        None => true,
                        Some(p) => !nodes.has(&p) || known.has(&p) || contains_id(&placed, p),
                    },
                    None => true,
                };
                if ready {
                    let ghost old_placed = placed@;
                    placed.push(x);
                    proof {
                        assert(placed@ == old_placed.push(x));
                        assert forall|a: int, b: int| 0 <= a < b < placed@.len() implies placed@[a] != placed@[b] by {
                            if b == placed@.len() - 1 {
                                assert(old_placed.contains(placed@[a]));
                            } else {
                                assert(old_placed[a] != old_placed[b]);
                            }
                        }
                        assert forall|y: SchemaId| placed@.contains(y) implies nodes@.contains_key(y) by {
                            if y != x {
                                assert(old_placed.contains(y));
                            }
                        }
                        assert forall|i: int, p: SchemaId|
                            0 <= i < placed@.len() && #[trigger] batch_link(nodes@, known@, p, placed@[i]) implies exists|k: int|
                                0 <= k < i && #[trigger] placed@[k] == p by {
                            if i < old_placed.len() {
                                assert(old_placed[i] == placed@[i]);
                                let k = choose|k: int| 0 <= k < i && #[trigger] old_placed[k] == p;
                                assert(placed@[k] == p);
                            } else {
                                assert(old_placed.contains(p));
                                let k = choose|k: int| 0 <= k < old_placed.len() && old_placed[k] == p;
                                assert(placed@[k] == p);
                            }
                        }
                    }
                    added = true;
                } else {
                    proof {
                        let p = nodes@[x].parent_id->Some_0;
                        assert(batch_link(nodes@, known@, p, x));
                    }
                }
            }
            j = j + 1;
        }
        if !added {
            proof {
                assert forall|x: SchemaId| #[trigger] nodes@.contains_key(x) implies stuck_at(placed@, nodes@, known@, x) by {
                    assert(ids@.contains(x));
                    let k = choose|k: int| 0 <= k < ids@.len() && ids@[k] == x;
                    assert(stuck_at(placed@, nodes@, known@, ids@[k]));
                }
            }
            stuck = true;
        }
        proof {
            assert forall|y: SchemaId| placed@.contains(y) implies ids@.contains(y) by {}
            crate::sort::lemma_distinct_within(placed@, ids@);
        }
    }
    placed
}

/// The name of a batch node that extends itself through batch parents
/// (outside the known schemas); one exists when those links admit no order.
fn cycle_member_name(nodes: &IdMap<SchemaNode>, known: &IdMap<Schema>) -> (s: String)
    requires
        nodes.wf(),
        known.wf(),
        !exists|o: Seq<SchemaId>| #[trigger] orders_links(o, nodes@, batch_links_of(nodes@, known@)),
    ensures
        exists|x: SchemaId|
            nodes@.contains_key(x) && #[trigger] on_link_cycle(batch_links_of(nodes@, known@), x) && s@ == nodes@[x].name@,
{
    let ids = nodes.keys();
    let n = ids.len();
    let placed = place_parents_first(nodes, known, &ids);
    let ghost link = batch_links_of(nodes@, known@);
    let mut k: usize = 0;
    while k < n && contains_id(&placed, ids[k])
        invariant
            0 <= k <= n,
            n == ids@.len(),
            forall|m: int| 0 <= m < k ==> placed@.contains(#[trigger] ids@[m]),
        decreases n - k,
    {
        k = k + 1;
    }
    if k == n {
        proof {
            assert(orders_links(placed@, nodes@, link)) by {
                assert forall|x: SchemaId| placed@.contains(x) <==> nodes@.contains_key(x) by {
                    if nodes@.contains_key(x) {
                        assert(ids@.contains(x));
                        let m = choose|m: int| 0 <= m < ids@.len() && ids@[m] == x;
                        assert(placed@.contains(ids@[m]));
                    }
                }
                assert forall|p: SchemaId, x: SchemaId| #[trigger] link(p, x) implies crate::inheritance::precedes(placed@, p, x) by {
                    assert(batch_link(nodes@, known@, p, x));
                    assert(placed@.contains(x));
                    let i = choose|i: int| 0 <= i < placed@.len() && placed@[i] == x;
                    assert(batch_link(nodes@, known@, p, placed@[i]));
                    let j = choose|j: int| 0 <= j < i && #[trigger] placed@[j] == p;
                }
            }
            assert(false);
        }
        return String::new();
    }
    let x0 = ids[k];
    proof {
        assert(ids@.contains(x0));
    }
    let mut path: Vec<SchemaId> = Vec::new();
    path.push(x0);
    let mut cur = x0;
    loop
        invariant
            n == ids@.len(),
            nodes.wf(),
            known.wf(),
            link == batch_links_of(nodes@, known@),
            forall|x: SchemaId| ids@.contains(x) <==> nodes@.contains_key(x),
            forall|x: SchemaId| #[trigger] nodes@.contains_key(x) ==> stuck_at(placed@, nodes@, known@, x),
            path@.len() >= 1,
            path@.last() == cur,
            path@.no_duplicates(),
            forall|x: SchemaId| path@.contains(x) ==> nodes@.contains_key(x) && !placed@.contains(x),
            forall|i: int| 0 <= i < path@.len() - 1 ==> #[trigger] batch_link(nodes@, known@, path@[i + 1], path@[i]),
        decreases n - path@.len(),
    {
        proof {
            assert(path@.contains(cur)) by {
                assert(path@[path@.len() - 1] == cur);
            }
            assert(stuck_at(placed@, nodes@, known@, cur));
        }
        let p = match nodes.get(&cur) {
            Some(node) => match node.parent_id {
                Some(p) => p,
                None => {
                    proof {
                        let q = choose|q: SchemaId| #[trigger] batch_link(nodes@, known@, q, cur) && !placed@.contains(q);
                    }
                    return String::new();
                },
            },
            None => {
                return String::new();
            },
        };
        proof {
            let q = choose|q: SchemaId| #[trigger] batch_link(nodes@, known@, q, cur) && !placed@.contains(q);
            assert(q == p);
            assert(batch_link(nodes@, known@, p, cur));
        }
        if contains_id(&path, p) {
            let ghost i = choose|i: int| 0 <= i < path@.len() && path@[i] == p;
            let ghost cycle = path@.subrange(i, path@.len() as int).push(p);
            proof {
                assert(cycle[0] == p);
                assert forall|m: int| 0 <= m < cycle.len() - 1 implies #[trigger] link(cycle[m + 1], cycle[m]) by {
                    if m + 1 < cycle.len() - 1 {
                        assert(cycle[m] == path@[i + m]);
                        assert(cycle[m + 1] == path@[i + m + 1]);
                        assert(batch_link(nodes@, known@, path@[i + m + 1], path@[i + m]));
                    } else {
                        assert(cycle[m] == path@[path@.len() - 1]);
                        assert(cycle[m + 1] == p);
                    }
                }
                assert(closes_at(link, cycle, p));
            }
            let name = match nodes.get(&p) {
                Some(node) => copy_text(node.name.as_str()),
                None => String::new(),
            };
            proof {
                assert(nodes@.contains_key(p));
                assert(on_link_cycle(link, p));
                assert(name@ == nodes@[p].name@);
            }
            return name;
        }
        let ghost old_path = path@;
        path.push(p);
        proof {
            assert(path@ == old_path.push(p));
            assert forall|a: int, b: int| 0 <= a < b < path@.len() implies path@[a] != path@[b] by {
                if b == path@.len() - 1 {
                    assert(old_path.contains(path@[a]));
                } else {
                    assert(old_path[a] != old_path[b]);
                }
            }
            assert forall|x: SchemaId| path@.contains(x) implies nodes@.contains_key(x) && !placed@.contains(x) by {
                if x != p {
                    assert(old_path.contains(x));
                }
            }
            assert forall|i: int| 0 <= i < path@.len() - 1 implies #[trigger] batch_link(nodes@, known@, path@[i + 1], path@[i]) by {
                if i < old_path.len() - 1 {
                    assert(path@[i] == old_path[i] && path@[i + 1] == old_path[i + 1]);
                } else {
                    assert(path@[i] == cur);
                }
            }
            assert forall|y: SchemaId| path@.contains(y) implies ids@.contains(y) by {}
            crate::sort::lemma_distinct_within(path@, ids@);
        }
        cur = p;
    }
}

/// Fails exactly when the batch links (parents outside the known schemas)
/// admit no order with parents first, that is, when they form a cycle.
fn check_cycles(nodes: &IdMap<SchemaNode>, known: &IdMap<Schema>) -> (r: Result<(), SchemaError>)
    requires
        nodes.wf(),
        known.wf(),
    ensures
        r is Ok <==> exists|o: Seq<SchemaId>| #[trigger] orders_links(o, nodes@, batch_links_of(nodes@, known@)),
        r matches Err(e) ==> e matches SchemaError::Inheritance(SchemaInheritanceError::CircularInheritance { name })
            && exists|x: SchemaId|
                nodes@.contains_key(x) && #[trigger] on_link_cycle(batch_links_of(nodes@, known@), x) && name@ == nodes@[x].name@,
{
    let ids = nodes.keys();
    let links = batch_links(nodes, known);
    proof {
        let rel = batch_links_of(nodes@, known@);
        assert forall|a: SchemaId, b: SchemaId| #[trigger] links@.contains((a, b)) <==> rel(a, b) by {}
        lemma_bridge(nodes@, rel, ids@, links@);
        assert(endpoints_are_nodes(ids@.to_set(), links@)) by {
            assert forall|k: int| 0 <= k < links@.len() implies ids@.to_set().contains(#[trigger] links@[k].0) && ids@.to_set().contains(links@[k].1) by {
                assert(links@.contains((links@[k].0, links@[k].1)));
            }
        }
    }
    match crate::inheritance::topological_order(&ids, &links) {
        Some(_) => Ok(()),
        None => Err(SchemaError::Inheritance(SchemaInheritanceError::CircularInheritance { name: cycle_member_name(nodes, known) })),
    }
}

/// Each node with its children (the batch nodes that extend it, in node
/// order) and its depth filled in.
fn finish_nodes(nodes: IdMap<SchemaNode>, depths: &IdMap<NodeDepth>) -> (r: IdMap<SchemaNode>)
    requires
        nodes.wf(),
        depths.wf(),
        depths@.dom() == nodes@.dom(),
    ensures
        r.wf(),
        r@.dom() == nodes@.dom(),
        forall|x: SchemaId| #[trigger] r@.contains_key(x) ==> {
            &&& r@[x].name@ == nodes@[x].name@
            &&& r@[x].properties == nodes@[x].properties
            &&& r@[x].excludes@ == nodes@[x].excludes@
            &&& r@[x].parent_id == nodes@[x].parent_id
            &&& r@[x].depth == depths@[x]
            &&& r@[x].children@.no_duplicates()
            &&& forall|c: SchemaId| #[trigger] r@[x].children@.contains(c) <==> nodes@.contains_key(c) && nodes@[c].parent_id == Some(x)
        },
{
    let ids = nodes.keys();
    let mut kids: Vec<Vec<SchemaId>> = Vec::new();
    let mut i: usize = 0;
    while i < ids.len()
        invariant
            0 <= i <= ids@.len(),
            nodes.wf(),
            kids@.len() == i,
            forall|j: int| 0 <= j < i ==> (#[trigger] kids@[j])@.no_duplicates() && forall|c: SchemaId| #[trigger] kids@[j]@.contains(c)
                <==> nodes@.contains_key(c) && nodes@[c].parent_id == Some(ids@[j]),
        decreases ids@.len() - i,
    {
        kids.push(select_nodes(&nodes, false, ids[i]));
        i = i + 1;
    }
    let ghost old_nodes = nodes@;
    let ghost pairs = nodes.pairs();
    proof {
        nodes.lemma_view();
    }
    let mut entries = nodes.into_entries();
    let total: usize = entries.len();
    let mut out: IdMap<SchemaNode> = IdMap::new();
    let mut n: usize = 0;
    proof {
        assert(pairs.skip(0) =~= pairs);
    }
    while entries.len() > 0
        invariant
            n + entries@.len() == pairs.len(),
            pairs.len() == total,
            entries@ == pairs.skip(n as int),
            ids@ == key_seq(pairs),
            kids@.len() == pairs.len(),
            crate::idmap::ids_unique(pairs),
            forall|j: int| 0 <= j < pairs.len() ==> #[trigger] old_nodes[pairs[j].0] == pairs[j].1,
            forall|x: SchemaId| #[trigger] old_nodes.contains_key(x) <==> exists|j: int| 0 <= j < pairs.len() && #[trigger] pairs[j].0 == x,
            forall|j: int| 0 <= j < pairs.len() ==> (#[trigger] kids@[j])@.no_duplicates() && forall|c: SchemaId| #[trigger] kids@[j]@.contains(c)
                <==> old_nodes.contains_key(c) && old_nodes[c].parent_id == Some(pairs[j].0),
            depths.wf(),
            depths@.dom() == old_nodes.dom(),
            out.wf(),
            forall|x: SchemaId| #[trigger] out@.contains_key(x) <==> exists|j: int| 0 <= j < n && #[trigger] pairs[j].0 == x,
            forall|j: int| 0 <= j < n ==> {
                let x = #[trigger] pairs[j].0;
                &&& out@[x].name@ == old_nodes[x].name@
                &&& out@[x].properties == old_nodes[x].properties
                &&& out@[x].excludes@ == old_nodes[x].excludes@
                &&& out@[x].parent_id == old_nodes[x].parent_id
                &&& out@[x].depth == depths@[x]
                &&& out@[x].children@.no_duplicates()
                &&& forall|c: SchemaId| #[trigger] out@[x].children@.contains(c) <==> old_nodes.contains_key(c) && old_nodes[c].parent_id == Some(x)
            },
        decreases entries@.len(),
    {
        let (x, node) = entries.remove(0);
        proof {
            assert((x, node) == pairs[n as int]);
            assert(ids@[n as int] == x);
            assert(old_nodes.contains_key(x));
        }
        let children = kids[n].clone();
        proof {
            assert(children@ == kids@[n as int]@);
        }
        let depth = match depths.get(&x) {
            Some(d) => *d,
            None => NodeDepth::root(),
        };
        let SchemaNode { name, properties, excludes, parent_id, children: _, depth: _ } = node;
        out.insert(x, SchemaNode { name, properties, excludes, parent_id, children, depth });
        proof {
            assert forall|y: SchemaId| #[trigger] out@.contains_key(y) <==> exists|j: int| 0 <= j < n + 1 && #[trigger] pairs[j].0 == y by {
                if y == x {
                    assert(pairs[n as int].0 == y);
                }
            }
            assert forall|j: int| 0 <= j < n + 1 implies {
                let y = #[trigger] pairs[j].0;
                &&& out@[y].name@ == old_nodes[y].name@
                &&& out@[y].properties == old_nodes[y].properties
                &&& out@[y].excludes@ == old_nodes[y].excludes@
                &&& out@[y].parent_id == old_nodes[y].parent_id
                &&& out@[y].depth == depths@[y]
                &&& out@[y].children@.no_duplicates()
                &&& forall|c: SchemaId| #[trigger] out@[y].children@.contains(c) <==> old_nodes.contains_key(c) && old_nodes[c].parent_id == Some(y)
            } by {
                if j < n {
                    assert(pairs[j].0 != pairs[n as int].0);
                }
            }
        }
        n = n + 1;
    }
    proof {
        assert(out@.dom() =~= old_nodes.dom()) by {
            assert forall|y: SchemaId| out@.contains_key(y) <==> old_nodes.contains_key(y) by {
                if old_nodes.contains_key(y) {
                    let j = choose|j: int| 0 <= j < pairs.len() && #[trigger] pairs[j].0 == y;
                }
            }
        }
        assert forall|y: SchemaId| #[trigger] out@.contains_key(y) implies {
            &&& out@[y].name@ == old_nodes[y].name@
            &&& out@[y].properties == old_nodes[y].properties
            &&& out@[y].excludes@ == old_nodes[y].excludes@
            &&& out@[y].parent_id == old_nodes[y].parent_id
            &&& out@[y].depth == depths@[y]
            &&& out@[y].children@.no_duplicates()
            &&& forall|c: SchemaId| #[trigger] out@[y].children@.contains(c) <==> old_nodes.contains_key(c) && old_nodes[c].parent_id == Some(y)
        } by {
            let j = choose|j: int| 0 <= j < n && #[trigger] pairs[j].0 == y;
        }
    }
    out
}

// ─────────────────────────────────────────────────────────────────────────────
//  The tree and its construction
// ─────────────────────────────────────────────────────────────────────────────

/// A topologically ordered inheritance tree of a batch of schemas.
#[derive(Debug)]
pub struct InheritanceGraph {
    roots: Vec<SchemaId>,
    nodes: IdMap<SchemaNode>,
    order: Vec<SchemaId>,
}

/// The identifiers of the batch.
pub open spec fn batch_ids(exp: Seq<ExpandedSchema>) -> Set<SchemaId> {
    Set::new(|x: SchemaId| exists|i: int| 0 <= i < exp.len() && #[trigger] exp[i].id == x)
}

/// The resolved parent of batch identifier `x` (from the last batch schema
/// with it).
pub open spec fn parent_of(exp: Seq<ExpandedSchema>, known: Seq<(SchemaId, Schema)>, x: SchemaId) -> Option<SchemaId> {
    match exp[last_with_id(exp, x)].extends {
        Some(p) => resolve_name(exp, known, p@),
        None => None,
    }
}

/// `order` lists each identifier of `dom` once, with `p` before `x`
/// whenever `link(p, x)`.
pub open spec fn orders_within(order: Seq<SchemaId>, dom: Set<SchemaId>, link: spec_fn(SchemaId, SchemaId) -> bool) -> bool {
    &&& order.no_duplicates()
    &&& forall|x: SchemaId| order.contains(x) <==> dom.contains(x)
    &&& forall|p: SchemaId, x: SchemaId| #[trigger] link(p, x) ==> crate::inheritance::precedes(order, p, x)
}

/// The batch extends links whose parent is in the batch (`only_unknown`:
/// and is not a known schema).
pub open spec fn extends_links(
    exp: Seq<ExpandedSchema>,
    known: Seq<(SchemaId, Schema)>,
    known_map: Map<SchemaId, Schema>,
    only_unknown: bool,
) -> spec_fn(SchemaId, SchemaId) -> bool {
    |p: SchemaId, x: SchemaId|
        batch_ids(exp).contains(x) && parent_of(exp, known, x) == Some(p) && batch_ids(exp).contains(p)
            && (only_unknown ==> !known_map.contains_key(p))
}

/// The batch has no name problem.
pub open spec fn names_ok(exp: Seq<ExpandedSchema>, known: Seq<(SchemaId, Schema)>) -> bool {
    forall|i: int| 0 <= i < exp.len() ==> !#[trigger] name_problem_at(exp, known, i)
}

/// Every `extends` of the batch resolves.
pub open spec fn parents_ok(exp: Seq<ExpandedSchema>, known: Seq<(SchemaId, Schema)>) -> bool {
    forall|i: int| 0 <= i < exp.len() ==> !#[trigger] parent_problem_at(exp, known, i)
}

/// The batch links outside the known schemas are acyclic.
pub open spec fn batch_acyclic(exp: Seq<ExpandedSchema>, known: Seq<(SchemaId, Schema)>, known_map: Map<SchemaId, Schema>) -> bool {
    exists|o: Seq<SchemaId>| #[trigger] orders_within(o, batch_ids(exp), extends_links(exp, known, known_map, true))
}

/// All batch links are acyclic.
pub open spec fn tree_acyclic(exp: Seq<ExpandedSchema>, known: Seq<(SchemaId, Schema)>, known_map: Map<SchemaId, Schema>) -> bool {
    exists|o: Seq<SchemaId>| #[trigger] orders_within(o, batch_ids(exp), extends_links(exp, known, known_map, false))
}

impl InheritanceGraph {
    #[verifier::type_invariant]
    spec fn inv(self) -> bool {
        self.nodes.wf()
    }

    /// The nodes by identifier.
    pub closed spec fn spec_nodes(self) -> Map<SchemaId, SchemaNode> {
        self.nodes@
    }

    /// The topological order.
    pub closed spec fn spec_order(self) -> Seq<SchemaId> {
        self.order@
    }

    /// The roots.
    pub closed spec fn spec_roots(self) -> Seq<SchemaId> {
        self.roots@
    }

    /// Schema identifiers in topological order (parents first).
    pub fn nodes(&self) -> (r: &[SchemaId])
        ensures
            r@ == self.spec_order(),
    {
        self.order.as_slice()
    }

    /// The node of `id`.
    pub fn get(&self, id: SchemaId) -> (r: Option<&SchemaNode>)
        ensures
            (r is Some) == self.spec_nodes().contains_key(id),
            r matches Some(n) ==> *n == self.spec_nodes()[id],
    {
        proof {
            use_type_invariant(self);
        }
        self.nodes.get(&id)
    }

    /// The roots: nodes without a parent in the batch, in order.
    pub fn roots(&self) -> (r: &[SchemaId])
        ensures
            r@ == self.spec_roots(),
    {
        self.roots.as_slice()
    }
}

/// The tree built from the batch `exp` with the known schemas `known`.
pub open spec fn builds(g: InheritanceGraph, exp: Seq<ExpandedSchema>, known: Seq<(SchemaId, Schema)>, known_map: Map<SchemaId, Schema>) -> bool {
    let nodes = g.spec_nodes();
    &&& nodes.dom() == batch_ids(exp)
    &&& forall|x: SchemaId| #[trigger] nodes.contains_key(x) ==> {
        &&& node_from(nodes[x], exp[last_with_id(exp, x)], parent_of(exp, known, x))
        &&& nodes[x].children@.no_duplicates()
        &&& forall|c: SchemaId| #[trigger] nodes[x].children@.contains(c) <==> nodes.contains_key(c) && nodes[c].parent_id == Some(x)
        &&& depth_rule(nodes, known_map, |y: SchemaId| nodes[y].depth.value(), x)
    }
    &&& orders_links(g.spec_order(), nodes, tree_links(nodes))
    &&& breadth_first_by_name(g.spec_order(), nodes)
    &&& g.spec_roots() == g.spec_order().filter(|x: SchemaId| is_tree_root(nodes, x))
}

/// The message of a cycle found while ordering.
pub open spec fn ordering_cycle_message() -> Seq<char> {
    "cycle detected during topological ordering"@
}

/// Builds inheritance trees of schema batches.
#[derive(Debug)]
pub struct Extender;

impl Extender {
    /// Builds the inheritance tree of the batch `expanded`, whose `extends`
    /// names may also refer to `known_parents`. Errors, in this order: a name
    /// problem (invalid, or shared by two schemas of the batch, whatever the
    /// known schemas are named),
    /// an unresolved parent, a cycle of batch links outside the known schemas,
    /// a cycle found while ordering.
    pub fn build(expanded: Vec<ExpandedSchema>, known_parents: &IdMap<Schema>) -> (r: Result<InheritanceGraph, SchemaError>)
        ensures
            r is Ok <==> names_ok(expanded@, known_parents.pairs()) && parents_ok(expanded@, known_parents.pairs())
                && batch_acyclic(expanded@, known_parents.pairs(), known_parents@)
                && tree_acyclic(expanded@, known_parents.pairs(), known_parents@),
            r matches Ok(g) ==> builds(g, expanded@, known_parents.pairs(), known_parents@),
            !names_ok(expanded@, known_parents.pairs()) ==> (r matches Err(e) && exists|i: int| {
                &&& 0 <= i < expanded@.len()
                &&& #[trigger] name_problem_at(expanded@, known_parents.pairs(), i)
                &&& forall|j: int| 0 <= j < i ==> !name_problem_at(expanded@, known_parents.pairs(), j)
                &&& if !valid_name(expanded@[i].name@) {
                    is_schema_name_error(e, expanded@[i].name@)
                } else {
                    e matches SchemaError::Resolution(SchemaResolutionError::DuplicateSchemaName { name })
                        && name@ == expanded@[i].name@
                }
            }),
            names_ok(expanded@, known_parents.pairs()) && !parents_ok(expanded@, known_parents.pairs()) ==> (r matches Err(e) && exists|i: int| {
                &&& 0 <= i < expanded@.len()
                &&& #[trigger] parent_problem_at(expanded@, known_parents.pairs(), i)
                &&& forall|j: int| 0 <= j < i ==> !parent_problem_at(expanded@, known_parents.pairs(), j)
                &&& e matches SchemaError::Inheritance(SchemaInheritanceError::ParentNotFound { name })
                &&& expanded@[i].extends matches Some(p) && name@ == p@
            }),
            names_ok(expanded@, known_parents.pairs()) && parents_ok(expanded@, known_parents.pairs())
                && !batch_acyclic(expanded@, known_parents.pairs(), known_parents@) ==> (r matches Err(e)
                && e matches SchemaError::Inheritance(SchemaInheritanceError::CircularInheritance { name })
                && exists|x: SchemaId| {
                    &&& batch_ids(expanded@).contains(x)
                    &&& #[trigger] on_link_cycle(extends_links(expanded@, known_parents.pairs(), known_parents@, true), x)
                    &&& name@ == expanded@[last_with_id(expanded@, x)].name@
                }),
            names_ok(expanded@, known_parents.pairs()) && parents_ok(expanded@, known_parents.pairs())
                && batch_acyclic(expanded@, known_parents.pairs(), known_parents@)
                && !tree_acyclic(expanded@, known_parents.pairs(), known_parents@) ==> (r matches Err(e)
                && e matches SchemaError::Inheritance(SchemaInheritanceError::CircularInheritance { name })
                && name@ == ordering_cycle_message()),
    {
        known_parents.known_wf();
        let ghost exp = expanded@;
        let ghost kp = known_parents.pairs();
        let ghost km = known_parents@;
        match check_names(&expanded, known_parents) {
            Err(e) => {
                return Err(e);
            },
            Ok(()) => {},
        }
        let parents = match check_parents(&expanded, known_parents) {
            Err(e) => {
                return Err(e);
            },
            Ok(ps) => ps,
        };
        proof {
            assert forall|i: int| 0 <= i < exp.len() implies valid_name(#[trigger] exp[i].name@) by {
                assert(!name_problem_at(exp, kp, i));
            }
        }
        let nodes = build_nodes(expanded, parents);
        let ghost base = nodes@;
        proof {
            assert(base.dom() =~= batch_ids(exp));
            assert forall|x: SchemaId| #[trigger] base.contains_key(x) implies base[x].parent_id == parent_of(exp, kp, x) by {
                lemma_last_with_id(exp, x);
            }
            let l1 = batch_links_of(base, km);
            let s1 = extends_links(exp, kp, km, true);
            assert(l1 =~= s1);
            let l2 = tree_links(base);
            let s2 = extends_links(exp, kp, km, false);
            assert(l2 =~= s2);
            assert forall|o: Seq<SchemaId>| orders_links(o, base, l1) == orders_within(o, batch_ids(exp), s1) by {}
            assert forall|o: Seq<SchemaId>| orders_links(o, base, l2) == orders_within(o, batch_ids(exp), s2) by {}
            assert((exists|o: Seq<SchemaId>| #[trigger] orders_links(o, base, l1)) == batch_acyclic(exp, kp, km)) by {
                if exists|o: Seq<SchemaId>| #[trigger] orders_links(o, base, l1) {
                    let o = choose|o: Seq<SchemaId>| #[trigger] orders_links(o, base, l1);
                    assert(orders_within(o, batch_ids(exp), s1));
                }
                if batch_acyclic(exp, kp, km) {
                    let o = choose|o: Seq<SchemaId>| #[trigger] orders_within(o, batch_ids(exp), s1);
                    assert(orders_links(o, base, l1));
                }
            }
            assert((exists|o: Seq<SchemaId>| #[trigger] orders_links(o, base, l2)) == tree_acyclic(exp, kp, km)) by {
                if exists|o: Seq<SchemaId>| #[trigger] orders_links(o, base, l2) {
                    let o = choose|o: Seq<SchemaId>| #[trigger] orders_links(o, base, l2);
                    assert(orders_within(o, batch_ids(exp), s2));
                }
                if tree_acyclic(exp, kp, km) {
                    let o = choose|o: Seq<SchemaId>| #[trigger] orders_within(o, batch_ids(exp), s2);
                    assert(orders_links(o, base, l2));
                }
            }
        }
        match check_cycles(&nodes, known_parents) {
            Err(e) => {
                proof {
                    let x = choose|x: SchemaId|
                        base.contains_key(x) && #[trigger] on_link_cycle(batch_links_of(base, km), x)
                            && e->Inheritance_0->CircularInheritance_name@ == base[x].name@;
                    assert(batch_links_of(base, km) =~= extends_links(exp, kp, km, true));
                    lemma_last_with_id(exp, x);
                    assert(base[x].name@ == exp[last_with_id(exp, x)].name@);
                    assert(on_link_cycle(extends_links(exp, kp, km, true), x));
                }
                return Err(e);
            },
            Ok(()) => {},
        }
        let (order, roots) = match kahn_order(&nodes) {
            None => {
                return Err(
                    SchemaError::Inheritance(
                        SchemaInheritanceError::CircularInheritance {
                            name: copy_text("cycle detected during topological ordering"),
                        },
                    ),
                );
            },
            Some(res) => res,
        };
        let depths = compute_depths(&nodes, &order, known_parents);
        let finished = finish_nodes(nodes, &depths);
        let g = InheritanceGraph { roots, nodes: finished, order };
        proof {
            let fin = g.spec_nodes();
            assert(fin.dom() =~= base.dom());
            assert forall|x: SchemaId| fin.contains_key(x) implies fin[x].parent_id == base[x].parent_id by {}
            assert(tree_links(fin) =~= tree_links(base));
            let rf = |x: SchemaId| is_tree_root(fin, x);
            let rb = |x: SchemaId| is_tree_root(base, x);
            assert forall|i: int| 0 <= i < order@.len() implies rf(order@[i]) == rb(order@[i]) by {
                assert(order@.contains(order@[i]));
                assert(fin[order@[i]].parent_id == base[order@[i]].parent_id);
            }
            lemma_filter_agree(order@, rf, rb);
            assert(orders_links(order@, fin, tree_links(fin)));
            lemma_bfs_same_shape(order@, base, fin);
            assert forall|x: SchemaId| #[trigger] fin.contains_key(x) implies {
                &&& node_from(fin[x], exp[last_with_id(exp, x)], parent_of(exp, kp, x))
                &&& fin[x].children@.no_duplicates()
                &&& forall|c: SchemaId| #[trigger] fin[x].children@.contains(c) <==> fin.contains_key(c) && fin[c].parent_id == Some(x)
                &&& depth_rule(fin, km, |y: SchemaId| fin[y].depth.value(), x)
            } by {
                lemma_last_with_id(exp, x);
                assert(depth_rule(base, km, |y: SchemaId| depths@[y].value(), x));
                match base[x].parent_id {
                    None => {},
                    Some(p) => {
                        if !(km.contains_key(p) || !base.contains_key(p)) {
                            assert(fin[p].depth == depths@[p]);
                        }
                    },
                }
            }
        }
        Ok(g)
    }
}

/// Filtering with predicates that agree on every element gives the same
/// result.
proof fn lemma_filter_agree<A>(s: Seq<A>, f: spec_fn(A) -> bool, g: spec_fn(A) -> bool)
    requires
        forall|i: int| 0 <= i < s.len() ==> f(s[i]) == g(s[i]),
    ensures
        s.filter(f) == s.filter(g),
    decreases s.len(),
{
    reveal(Seq::filter);
    if s.len() > 0 {
        lemma_filter_agree(s.drop_last(), f, g);
        assert(f(s[s.len() - 1]) == g(s[s.len() - 1]));
    }
}

} // verus!
