//! Resolving a batch of schemas that need expansion: their references are
//! dereferenced against the property bank, the batch is arranged into its
//! inheritance tree with the known schemas as possible parents, and each
//! schema is merged with its parent's resolved properties, parents first.

use vstd::prelude::*;

use crate::aggregate::Schema;
use crate::bank::PropertyBank;
use crate::dereferencer::{batch_has_inline, deref_ok, derefs_to, DereferencedSchema, Dereferencer};
use crate::error::{SchemaError, SchemaLoaderError};
use crate::extender::{
    batch_acyclic, builds, names_ok, parents_ok, tree_acyclic, ExpandedSchema, Extender, InheritanceGraph,
};
use crate::identifier::{is_property_name_error, is_schema_name_error, valid_name, PropertyName, SchemaId, SchemaName};
use crate::idmap::IdMap;
use crate::merger::{excluded_texts, inherited, Merger};
use crate::property::{pairs_to_map, Property, PropertyMap};
use crate::raw::RawSchema;

verus! {

// ─────────────────────────────────────────────────────────────────────────────
//  Merging a built tree
// ─────────────────────────────────────────────────────────────────────────────

/// The resolved properties a schema at position `i` of `order` inherits
/// from `parent`: those of the parent's schema earlier in `v`, else those
/// of the known schema, else none.
pub open spec fn parent_props(
    v: Seq<Schema>,
    order: Seq<SchemaId>,
    km: Map<SchemaId, Schema>,
    i: int,
    parent: Option<SchemaId>,
) -> Map<Seq<char>, Property> {
    match parent {
        None => Map::empty(),
        Some(p) => if exists|j: int| 0 <= j < i && order[j] == p {
            v[choose|j: int| 0 <= j < i && order[j] == p].spec_properties()@
        } else if km.contains_key(p) {
            km[p].spec_properties()@
        } else {
            Map::empty()
        },
    }
}

/// The parent list a schema records for its parent link.
pub open spec fn parent_list(parent: Option<SchemaId>) -> Seq<SchemaId> {
    match parent {
        Some(p) => seq![p],
        None => Seq::empty(),
    }
}

/// `v[i]` is the merged schema of the node at position `i` of the tree's
/// order.
pub open spec fn merged_at(v: Seq<Schema>, g: InheritanceGraph, km: Map<SchemaId, Schema>, i: int) -> bool {
    let x = g.spec_order()[i];
    let n = g.spec_nodes()[x];
    &&& v[i].spec_id() == x
    &&& v[i].spec_name() == n.name@
    &&& v[i].spec_parents() == parent_list(n.parent_id)
    &&& v[i].spec_children() == n.children@
    &&& v[i].spec_properties()@ == inherited(
        parent_props(v, g.spec_order(), km, i, n.parent_id),
        n.properties@,
        excluded_texts(n.excludes@),
    )
}

/// `v` holds the merged schemas of the tree, in its order.
pub open spec fn merges(v: Seq<Schema>, g: InheritanceGraph, km: Map<SchemaId, Schema>) -> bool {
    &&& v.len() == g.spec_order().len()
    &&& forall|i: int| 0 <= i < v.len() ==> #[trigger] merged_at(v, g, km, i)
}

/// The position before `i` where `p` stands in `order`, if any.
fn position_before(order: &[SchemaId], i: usize, p: SchemaId) -> (r: Option<usize>)
    requires
        i <= order@.len(),
    ensures
        r matches Some(j) ==> j < i && order@[j as int] == p,
        r is None ==> forall|j: int| 0 <= j < i ==> order@[j] != p,
{
    let mut j: usize = 0;
    while j < i
        invariant
            j <= i <= order@.len(),
            forall|k: int| 0 <= k < j ==> order@[k] != p,
        decreases i - j,
    {
        if order[j] == p {
            return Some(j);
        }
        j = j + 1;
    }
    None
}

/// A copy of a list of identifiers.
pub(crate) fn copy_ids(ids: &Vec<SchemaId>) -> (r: Vec<SchemaId>)
    ensures
        r@ == ids@,
{
    let mut r: Vec<SchemaId> = Vec::new();
    let mut i: usize = 0;
    while i < ids.len()
        invariant
            i <= ids@.len(),
            r@ == ids@.take(i as int),
        decreases ids@.len() - i,
    {
        r.push(ids[i]);
        proof {
            assert(ids@.take(i + 1) =~= ids@.take(i as int).push(ids@[i as int]));
        }
        i = i + 1;
    }
    proof {
        assert(ids@.take(ids@.len() as int) =~= ids@);
    }
    r
}

/// Merges every node of the tree with its parent's resolved properties,
/// in the tree's order (parents first): a batch parent gives the
/// properties merged for it, a known parent its stored ones.
pub fn merge_tree(g: &InheritanceGraph, known: &IdMap<Schema>) -> (v: Vec<Schema>)
    requires
        g.spec_order().no_duplicates(),
        forall|i: int| 0 <= i < g.spec_order().len() ==> g.spec_nodes().contains_key(#[trigger] g.spec_order()[i]),
        forall|x: SchemaId| #[trigger] g.spec_nodes().contains_key(x) ==> g.spec_nodes()[x].properties.wf(),
    ensures
        merges(v@, *g, known@),
{
    known.known_wf();
    let order = g.nodes();
    let empty = PropertyMap::new();
    let mut v: Vec<Schema> = Vec::new();
    let mut i: usize = 0;
    while i < order.len()
        invariant
            i <= order@.len(),
            order@ == g.spec_order(),
            known.wf(),
            empty.wf(),
            empty@ == Map::<Seq<char>, Property>::empty(),
            g.spec_order().no_duplicates(),
            forall|k: int| 0 <= k < g.spec_order().len() ==> g.spec_nodes().contains_key(#[trigger] g.spec_order()[k]),
            forall|x: SchemaId| #[trigger] g.spec_nodes().contains_key(x) ==> g.spec_nodes()[x].properties.wf(),
            v@.len() == i,
            forall|k: int| 0 <= k < i ==> #[trigger] merged_at(v@, *g, known@, k),
        decreases order@.len() - i,
    {
        let x = order[i];
        proof {
            assert(g.spec_nodes().contains_key(g.spec_order()[i as int]));
        }
        let node = match g.get(x) {
            Some(n) => n,
            None => {
                proof {
                    assert(false);
                }
                return v;
            },
        };
        let ghost before = v@;
        let props = match node.parent_id {
            None => Merger::inherit_properties(&empty, &node.properties, node.excludes.as_slice()),
            Some(p) => match position_before(order, i, p) {
                Some(j) => {
                    proof {
                        assert(merged_at(v@, *g, known@, j as int));
                    }
                    Merger::inherit_properties(v[j].properties(), &node.properties, node.excludes.as_slice())
                },
                None => match known.get(&p) {
                    Some(s) => Merger::inherit_properties(s.properties(), &node.properties, node.excludes.as_slice()),
                    None => Merger::inherit_properties(&empty, &node.properties, node.excludes.as_slice()),
                },
            },
        };
        let parents: Vec<SchemaId> = match node.parent_id {
            Some(p) => vec![p],
            None => Vec::new(),
        };
        let schema = Schema::new(x, node.name.clone(), parents, copy_ids(&node.children), props);
        proof {
            let pp = parent_props(before.push(schema), g.spec_order(), known@, i as int, node.parent_id);
            match node.parent_id {
                None => {},
                Some(p) => {
                    if exists|j: int| 0 <= j < i && g.spec_order()[j] == p {
                        let j = choose|j: int| 0 <= j < i && g.spec_order()[j] == p;
                        assert(before.push(schema)[j] == before[j]);
                    }
                },
            }
            assert(parent_list(node.parent_id) =~= parents@);
        }
        v.push(schema);
        proof {
            assert forall|k: int| 0 <= k < i + 1 implies #[trigger] merged_at(v@, *g, known@, k) by {
                if k < i {
                    assert(merged_at(before, *g, known@, k));
                    assert(v@[k] == before[k]);
                    let nk = g.spec_nodes()[g.spec_order()[k]];
                    match nk.parent_id {
                        None => {},
                        Some(p) => {
                            if exists|j: int| 0 <= j < k && g.spec_order()[j] == p {
                                let j = choose|j: int| 0 <= j < k && g.spec_order()[j] == p;
                                assert(v@[j] == before[j]);
                            }
                        },
                    }
                }
            }
        }
        i = i + 1;
    }
    v
}

// ─────────────────────────────────────────────────────────────────────────────
//  Expanding dereferenced schemas
// ─────────────────────────────────────────────────────────────────────────────

/// The resolved properties of a dereferenced schema, by name.
pub open spec fn props_by_name(props: Seq<(PropertyName, Property)>) -> Map<Seq<char>, Property> {
    pairs_to_map(props.map_values(|p: (PropertyName, Property)| (p.0@, p.1)))
}

/// The names a dereferenced schema extends and excludes are valid names.
pub open spec fn names_convert(extends: Option<String>, excludes: Seq<String>) -> bool {
    &&& (extends matches Some(t) ==> valid_name(t@))
    &&& forall|i: int| 0 <= i < excludes.len() ==> valid_name(#[trigger] excludes[i]@)
}

/// `e` carries the identifier `id`, the name `name`, the parent name
/// `extends` and the excluded names `excludes`, each as a checked name.
pub open spec fn named_as(id: SchemaId, name: String, extends: Option<String>, excludes: Seq<String>, e: ExpandedSchema) -> bool {
    &&& e.id == id
    &&& e.name@ == name@
    &&& (match extends {
        None => e.extends is None,
        Some(t) => e.extends matches Some(n) && n@ == t@,
    })
    &&& e.excludes@.len() == excludes.len()
    &&& forall|i: int| 0 <= i < e.excludes@.len() ==> (#[trigger] e.excludes@[i])@ == excludes[i]@
}

/// `e` is the expanded form of the dereferenced schema `d` with identifier
/// `id`: the same name, parent name and excluded names, and its resolved
/// properties by name.
pub open spec fn expanded_as(id: SchemaId, d: DereferencedSchema, e: ExpandedSchema) -> bool {
    &&& named_as(id, d.name, d.extends, d.excludes@, e)
    &&& e.properties.wf()
    &&& e.properties@ == props_by_name(d.properties@)
}

/// The name at `i` of `names` is valid.
pub open spec fn valid_name_at(names: Seq<String>, i: int) -> bool {
    valid_name(names[i]@)
}

/// The error of the first invalid name: the parent name's, else the first
/// invalid excluded name's.
pub open spec fn names_error(extends: Option<String>, excludes: Seq<String>, e: SchemaError) -> bool {
    if extends is Some && !valid_name(extends->0@) {
        is_schema_name_error(e, extends->0@)
    } else {
        exists|i: int| {
            &&& 0 <= i < excludes.len()
            &&& !#[trigger] valid_name_at(excludes, i)
            &&& forall|j: int| 0 <= j < i ==> valid_name_at(excludes, j)
            &&& is_property_name_error(e, excludes[i]@)
        }
    }
}

/// The expanded schema with the given names and properties; fails with the
/// first invalid name, the parent name first, then the excluded names in
/// order.
fn expand_names(
    id: SchemaId,
    name: String,
    extends: Option<String>,
    excludes: Vec<String>,
    properties: PropertyMap,
) -> (r: Result<ExpandedSchema, SchemaError>)
    ensures
        (r is Ok) == names_convert(extends, excludes@),
        r matches Ok(e) ==> named_as(id, name, extends, excludes@, e) && e.properties == properties,
        r matches Err(e) ==> names_error(extends, excludes@, e),
{
    let parent = match &extends {
        None => None,
        Some(t) => match SchemaName::try_new(t.as_str()) {
            Ok(n) => Some(n),
            Err(e) => {
                return Err(e);
            },
        },
    };
    let mut excluded: Vec<PropertyName> = Vec::new();
    let mut i: usize = 0;
    while i < excludes.len()
        invariant
            i <= excludes@.len(),
            extends matches Some(t) ==> valid_name(t@),
            excluded@.len() == i,
            forall|k: int| 0 <= k < i ==> valid_name(#[trigger] excludes@[k]@),
            forall|k: int| 0 <= k < i ==> #[trigger] valid_name_at(excludes@, k),
            forall|k: int| 0 <= k < i ==> (#[trigger] excluded@[k])@ == excludes@[k]@,
        decreases excludes@.len() - i,
    {
        match PropertyName::try_new(excludes[i].as_str()) {
            Ok(n) => excluded.push(n),
            Err(e) => {
                proof {
                    assert(!valid_name(excludes@[i as int]@));
                    assert(!valid_name_at(excludes@, i as int));
                }
                return Err(e);
            },
        }
        i = i + 1;
    }
    Ok(ExpandedSchema { id, name, extends: parent, excludes: excluded, properties })
}

/// The expanded form of a dereferenced schema; fails with the first
/// invalid name, the parent name first, then the excluded names in order.
pub fn expand_dereferenced(id: SchemaId, d: DereferencedSchema) -> (r: Result<ExpandedSchema, SchemaError>)
    ensures
        (r is Ok) == names_convert(d.extends, d.excludes@),
        r matches Ok(e) ==> expanded_as(id, d, e),
        r matches Err(e) ==> names_error(d.extends, d.excludes@, e),
{
    let ghost dd = d;
    let DereferencedSchema { name, extends, excludes, properties } = d;
    let mut map = PropertyMap::new();
    let mut k: usize = 0;
    let ghost keyed = properties@.map_values(|p: (PropertyName, Property)| (p.0@, p.1));
    while k < properties.len()
        invariant
            k <= properties@.len(),
            keyed == properties@.map_values(|p: (PropertyName, Property)| (p.0@, p.1)),
            map.wf(),
            map@ == pairs_to_map(keyed.take(k as int)),
        decreases properties@.len() - k,
    {
        map.insert(properties[k].0.clone(), properties[k].1.clone());
        proof {
            assert(keyed.take(k + 1).drop_last() =~= keyed.take(k as int));
            assert(keyed.take(k + 1).last() == keyed[k as int]);
        }
        k = k + 1;
    }
    proof {
        assert(keyed.take(properties@.len() as int) =~= keyed);
    }
    expand_names(id, name, extends, excludes, map)
}

// ─────────────────────────────────────────────────────────────────────────────
//  Building and merging an expanded batch
// ─────────────────────────────────────────────────────────────────────────────

/// The inheritance tree of an expanded batch can be built.
pub open spec fn builds_ok(exp: Seq<ExpandedSchema>, kp: Seq<(SchemaId, Schema)>, km: Map<SchemaId, Schema>) -> bool {
    names_ok(exp, kp) && parents_ok(exp, kp) && batch_acyclic(exp, kp, km) && tree_acyclic(exp, kp, km)
}

/// `v` is the merge of the inheritance tree of the expanded batch `exp`
/// built with the known schemas.
pub open spec fn built_and_merged(
    exp: Seq<ExpandedSchema>,
    known: Seq<(SchemaId, Schema)>,
    known_map: Map<SchemaId, Schema>,
    v: Seq<Schema>,
) -> bool {
    exists|g: InheritanceGraph| #[trigger] merges(v, g, known_map) && builds(g, exp, known, known_map)
}

/// Builds the inheritance tree of an expanded batch with the known schemas
/// as possible parents, and merges each schema with its parent's resolved
/// properties, parents first.
pub fn build_and_merge(expanded: Vec<ExpandedSchema>, known_parents: &IdMap<Schema>) -> (r: Result<Vec<Schema>, SchemaLoaderError>)
    ensures
        (r is Ok) == builds_ok(expanded@, known_parents.pairs(), known_parents@),
        r matches Ok(v) ==> built_and_merged(expanded@, known_parents.pairs(), known_parents@, v@),
        r matches Err(e) ==> e is Resolution,
        r matches Err(SchemaLoaderError::Resolution(e)) ==> !(e is Identifier),
{
    let ghost exp = expanded@;
    known_parents.known_wf();
    let mut k: usize = 0;
    while k < expanded.len()
        invariant
            k <= expanded@.len(),
            exp == expanded@,
            forall|j: int| 0 <= j < k ==> (#[trigger] exp[j]).properties.wf(),
        decreases expanded@.len() - k,
    {
        expanded[k].properties.known_wf();
        k = k + 1;
    }
    let tree = match Extender::build(expanded, known_parents) {
        Ok(t) => t,
        Err(e) => {
            return Err(SchemaLoaderError::Resolution(e));
        },
    };
    proof {
        assert forall|x: SchemaId| #[trigger] tree.spec_nodes().contains_key(x) implies tree.spec_nodes()[x].properties.wf() by {
            crate::extender::lemma_last_with_id(exp, x);
            assert(crate::extender::batch_ids(exp).contains(x));
        }
        assert forall|i: int| 0 <= i < tree.spec_order().len() implies tree.spec_nodes().contains_key(#[trigger] tree.spec_order()[i]) by {
            assert(tree.spec_order().contains(tree.spec_order()[i]));
        }
    }
    let v = merge_tree(&tree, known_parents);
    proof {
        assert(merges(v@, tree, known_parents@) && builds(tree, exp, known_parents.pairs(), known_parents@));
    }
    Ok(v)
}

// ─────────────────────────────────────────────────────────────────────────────
//  Resolving a batch
// ─────────────────────────────────────────────────────────────────────────────

/// Every property of every schema of the batch dereferences, and the names
/// each extends and excludes are valid.
pub open spec fn batch_expands(bank: Map<Seq<char>, Property>, needs: Seq<(SchemaId, RawSchema)>) -> bool {
    forall|i: int|
        0 <= i < needs.len() ==> {
            &&& names_convert((#[trigger] needs[i]).1.extends, needs[i].1.excludes@)
            &&& forall|j: int| 0 <= j < needs[i].1.properties@.len()
                ==> deref_ok(bank, (#[trigger] needs[i].1.properties@[j]).0@, needs[i].1.properties@[j].1)
        }
}

/// `e` is the expansion of the raw schema `raw` with identifier `id`,
/// dereferenced against `bank`.
pub open spec fn expands_raw(bank: Map<Seq<char>, Property>, id: SchemaId, raw: RawSchema, e: ExpandedSchema) -> bool {
    exists|d: DereferencedSchema| derefs_to(bank, raw, d) && #[trigger] expanded_as(id, d, e)
}

/// `exp` is an expanded form of the batch: each schema dereferenced
/// against the bank and expanded, in order.
pub open spec fn expanded_batch(bank: Map<Seq<char>, Property>, needs: Seq<(SchemaId, RawSchema)>, exp: Seq<ExpandedSchema>) -> bool {
    &&& exp.len() == needs.len()
    &&& forall|i: int| 0 <= i < exp.len() ==> #[trigger] expands_raw(bank, needs[i].0, needs[i].1, exp[i])
}

/// `v` is what resolving the batch `needs` gives: some expanded form of
/// the batch, built into a tree with the known schemas, merged.
pub open spec fn resolves_to(
    bank: Map<Seq<char>, Property>,
    needs: Seq<(SchemaId, RawSchema)>,
    known: Seq<(SchemaId, Schema)>,
    known_map: Map<SchemaId, Schema>,
    v: Seq<Schema>,
) -> bool {
    exists|exp: Seq<ExpandedSchema>, g: InheritanceGraph|
        #![trigger expanded_batch(bank, needs, exp), merges(v, g, known_map)]
        expanded_batch(bank, needs, exp) && builds(g, exp, known, known_map) && merges(v, g, known_map)
}

/// Expands the schemas that need it: dereferences each against the bank
/// and checks its parent and excluded names, in order, stopping at the
/// first failure. Making a fresh property identifier (for an inline entry)
/// can fail only when the random source does.
pub fn expand_batch(bank: &PropertyBank, needs: Vec<(SchemaId, RawSchema)>) -> (r: Result<Vec<ExpandedSchema>, SchemaLoaderError>)
    ensures
        r matches Ok(exp) ==> batch_expands(bank.spec_properties()@, needs@) && expanded_batch(bank.spec_properties()@, needs@, exp@),
        r matches Err(e) ==> e is Resolution,
        batch_expands(bank.spec_properties()@, needs@) ==> (r is Ok || r matches Err(
            SchemaLoaderError::Resolution(SchemaError::Identifier(_)),
        )),
        r matches Err(SchemaLoaderError::Resolution(SchemaError::Identifier(_))) ==> batch_has_inline(needs@),
{
    let ghost bm = bank.spec_properties()@;
    let ghost all = needs@;
    let derefd = match Dereferencer::new(bank).deref(needs) {
        Ok(d) => d,
        Err(e) => {
            proof {
                if batch_expands(bm, all) {
                    assert forall|i: int| 0 <= i < all.len() implies forall|j: int| 0 <= j < (#[trigger] all[i]).1.properties@.len()
                        ==> deref_ok(bm, all[i].1.properties@[j].0@, all[i].1.properties@[j].1) by {
                        assert(names_convert(all[i].1.extends, all[i].1.excludes@));
                    }
                }
            }
            return Err(SchemaLoaderError::Resolution(e));
        },
    };
    let ghost dall = derefd@;
    let mut expanded: Vec<ExpandedSchema> = Vec::new();
    let mut rest = derefd;
    let n = rest.len();
    let mut i: usize = 0;
    proof {
        assert(dall.skip(0) =~= dall);
    }
    while i < n
        invariant
            i <= n,
            bm == bank.spec_properties()@,
            all == needs@,
            n == dall.len(),
            dall.len() == all.len(),
            rest@ == dall.skip(i as int),
            forall|k: int| 0 <= k < dall.len() ==> (#[trigger] dall[k]).0 == all[k].0 && derefs_to(bm, all[k].1, dall[k].1),
            expanded@.len() == i,
            forall|k: int| 0 <= k < i ==> expanded_as(all[k].0, dall[k].1, #[trigger] expanded@[k]),
            forall|k: int| 0 <= k < i ==> names_convert(#[trigger] dall[k].1.extends, dall[k].1.excludes@),
        decreases n - i,
    {
        let (id, d) = rest.remove(0);
        proof {
            assert(rest@ =~= dall.skip(i + 1));
            assert((id, d) == dall[i as int]);
        }
        match expand_dereferenced(id, d) {
            Ok(e) => expanded.push(e),
            Err(e) => {
                proof {
                    assert(derefs_to(bm, all[i as int].1, dall[i as int].1));
                    assert(!batch_expands(bm, all)) by {
                        if batch_expands(bm, all) {
                            assert(names_convert((all[i as int]).1.extends, all[i as int].1.excludes@));
                        }
                    }
                }
                return Err(SchemaLoaderError::Resolution(e));
            },
        }
        i = i + 1;
    }
    let ghost exp = expanded@;
    proof {
        assert forall|k: int| 0 <= k < exp.len() implies #[trigger] expands_raw(bm, all[k].0, all[k].1, exp[k]) by {
            assert(derefs_to(bm, all[k].1, dall[k].1));
            assert(expanded_as(all[k].0, dall[k].1, exp[k]));
        }
        assert(exp.len() == all.len());
        assert(expanded_batch(bm, all, exp));
    }
    proof {
        assert forall|k: int| 0 <= k < all.len() implies {
            &&& names_convert((#[trigger] all[k]).1.extends, all[k].1.excludes@)
            &&& forall|j: int| 0 <= j < all[k].1.properties@.len()
                ==> deref_ok(bm, (#[trigger] all[k].1.properties@[j]).0@, all[k].1.properties@[j].1)
        } by {
            assert(names_convert(dall[k].1.extends, dall[k].1.excludes@));
        }
    }
    Ok(expanded)
}

/// Resolves the schemas that need expansion: dereferences each against the
/// bank, expands it, builds the inheritance tree with the known schemas as
/// possible parents, and merges each schema with its parent, parents
/// first. A failure of any stage is reported as a resolution error; making
/// a fresh property identifier (for an inline entry) can fail only when
/// the random source does.
pub fn resolve_batch(
    bank: &PropertyBank,
    needs: Vec<(SchemaId, RawSchema)>,
    known_parents: &IdMap<Schema>,
) -> (r: Result<Vec<Schema>, SchemaLoaderError>)
    ensures
        r matches Ok(v) ==> batch_expands(bank.spec_properties()@, needs@)
            && resolves_to(bank.spec_properties()@, needs@, known_parents.pairs(), known_parents@, v@),
        r matches Err(e) ==> e is Resolution,
        batch_expands(bank.spec_properties()@, needs@) && (forall|exp: Seq<ExpandedSchema>|
            #[trigger] expanded_batch(bank.spec_properties()@, needs@, exp) ==> builds_ok(exp, known_parents.pairs(), known_parents@))
            ==> (r is Ok || r matches Err(SchemaLoaderError::Resolution(SchemaError::Identifier(_)))),
        r matches Err(SchemaLoaderError::Resolution(SchemaError::Identifier(_))) ==> batch_has_inline(needs@),
{
    let ghost bm = bank.spec_properties()@;
    let ghost all = needs@;
    let expanded = match expand_batch(bank, needs) {
        Ok(e) => e,
        Err(e) => {
            return Err(e);
        },
    };
    let ghost exp = expanded@;
    let v = match build_and_merge(expanded, known_parents) {
        Ok(v) => v,
        Err(e) => {
            return Err(e);
        },
    };
    proof {
        let g = choose|g: InheritanceGraph| #[trigger] merges(v@, g, known_parents@) && builds(g, exp, known_parents.pairs(), known_parents@);
        assert(expanded_batch(bm, all, exp) && builds(g, exp, known_parents.pairs(), known_parents@)
            && merges(v@, g, known_parents@));
        assert(resolves_to(bm, all, known_parents.pairs(), known_parents@, v@));
    }
    Ok(v)
}

// ─────────────────────────────────────────────────────────────────────────────
//  Resolving from cached expansions
// ─────────────────────────────────────────────────────────────────────────────

/// The names of every raw schema of `cached` are valid.
pub open spec fn cached_names_convert(cached: Seq<(SchemaId, RawSchema, PropertyMap)>) -> bool {
    forall|i: int| 0 <= i < cached.len() ==> names_convert((#[trigger] cached[i]).1.extends, cached[i].1.excludes@)
}

/// `exp` is the batch of `cached`, in order: each schema's names from its
/// raw form, its properties from its cached expansion.
pub open spec fn cached_batch(cached: Seq<(SchemaId, RawSchema, PropertyMap)>, exp: Seq<ExpandedSchema>) -> bool {
    &&& exp.len() == cached.len()
    &&& forall|i: int| 0 <= i < exp.len() ==> {
        &&& named_as(cached[i].0, cached[i].1.name, cached[i].1.extends, cached[i].1.excludes@, #[trigger] exp[i])
        &&& exp[i].properties@ == cached[i].2@
    }
}

/// Re-resolves schemas from their cached expansions without dereferencing
/// again: each takes its names from its raw form and its properties from the
/// cache, then the batch is built into its tree with the known schemas and
/// merged, parents first.
pub fn resolve_cached(
    cached: Vec<(SchemaId, RawSchema, PropertyMap)>,
    known_parents: &IdMap<Schema>,
) -> (r: Result<Vec<Schema>, SchemaLoaderError>)
    ensures
        r matches Ok(v) ==> cached_names_convert(cached@) && exists|exp: Seq<ExpandedSchema>|
            #[trigger] cached_batch(cached@, exp) && built_and_merged(exp, known_parents.pairs(), known_parents@, v@),
        r matches Err(e) ==> e is Resolution,
        cached_names_convert(cached@) && (forall|exp: Seq<ExpandedSchema>|
            #[trigger] cached_batch(cached@, exp) ==> builds_ok(exp, known_parents.pairs(), known_parents@))
            ==> r is Ok,
        r matches Err(SchemaLoaderError::Resolution(e)) ==> !(e is Identifier),
{
    let ghost all = cached@;
    let mut rest = cached;
    let mut expanded: Vec<ExpandedSchema> = Vec::new();
    let n = rest.len();
    let mut i: usize = 0;
    proof {
        assert(all.skip(0) =~= all);
    }
    while i < n
        invariant
            i <= n,
            n == all.len(),
            all == cached@,
            rest@ == all.skip(i as int),
            expanded@.len() == i,
            forall|k: int| 0 <= k < i ==> (#[trigger] expanded@[k]).properties.wf(),
            forall|k: int| 0 <= k < i ==> {
                &&& named_as(all[k].0, all[k].1.name, all[k].1.extends, all[k].1.excludes@, #[trigger] expanded@[k])
                &&& expanded@[k].properties@ == all[k].2@
            },
            forall|k: int| 0 <= k < i ==> names_convert((#[trigger] all[k]).1.extends, all[k].1.excludes@),
        decreases n - i,
    {
        let (id, raw, props) = rest.remove(0);
        proof {
            assert(rest@ =~= all.skip(i + 1));
            assert((id, raw, props) == all[i as int]);
        }
        let RawSchema { version, name, extends, excludes, properties, metadata } = raw;
        props.known_wf();
        match expand_names(id, name, extends, excludes, props) {
            Ok(e) => expanded.push(e),
            Err(e) => {
                proof {
                    assert(!cached_names_convert(all)) by {
                        if cached_names_convert(all) {
                            assert(names_convert(all[i as int].1.extends, all[i as int].1.excludes@));
                        }
                    }
                }
                return Err(SchemaLoaderError::Resolution(e));
            },
        }
        i = i + 1;
    }
    let ghost exp = expanded@;
    proof {
        assert(cached_batch(all, exp));
        assert(cached_names_convert(all));
    }
    let v = match build_and_merge(expanded, known_parents) {
        Ok(v) => v,
        Err(e) => {
            return Err(e);
        },
    };
    proof {
        assert(cached_batch(all, exp) && built_and_merged(exp, known_parents.pairs(), known_parents@, v@));
    }
    Ok(v)
}

// ─────────────────────────────────────────────────────────────────────────────
//  Resolving everything that is not reused
// ─────────────────────────────────────────────────────────────────────────────

/// `v` is what resolving the schemas that need expansion and those with a
/// cached expansion gives: the first part from the full pipeline (none when
/// no schema needs it), the rest from the cached expansions (none when no
/// schema has one).
pub open spec fn resolves_all_to(
    bank: Map<Seq<char>, Property>,
    needs: Seq<(SchemaId, RawSchema)>,
    cached: Seq<(SchemaId, RawSchema, PropertyMap)>,
    known: Seq<(SchemaId, Schema)>,
    known_map: Map<SchemaId, Schema>,
    v: Seq<Schema>,
) -> bool {
    exists|k: int| #[trigger] resolves_split_at(bank, needs, cached, known, known_map, v, k)
}

/// The first `k` schemas of `v` resolve `needs` (none when it is empty), the
/// rest resolve `cached` (none when it is empty).
pub open spec fn resolves_split_at(
    bank: Map<Seq<char>, Property>,
    needs: Seq<(SchemaId, RawSchema)>,
    cached: Seq<(SchemaId, RawSchema, PropertyMap)>,
    known: Seq<(SchemaId, Schema)>,
    known_map: Map<SchemaId, Schema>,
    v: Seq<Schema>,
    k: int,
) -> bool {
    &&& 0 <= k <= v.len()
    &&& if needs.len() == 0 { k == 0 } else { resolves_to(bank, needs, known, known_map, v.take(k)) }
    &&& if cached.len() == 0 {
        k == v.len()
    } else {
        exists|exp: Seq<ExpandedSchema>|
            #[trigger] cached_batch(cached, exp) && built_and_merged(exp, known, known_map, v.skip(k))
    }
}

/// Resolves the schemas of one load that are not reused as stored: those
/// that need expansion through the full pipeline, then those with a cached
/// expansion; each group is skipped when empty, and the results come in
/// that order.
pub fn resolve_all(
    bank: &PropertyBank,
    needs: Vec<(SchemaId, RawSchema)>,
    cached: Vec<(SchemaId, RawSchema, PropertyMap)>,
    known_parents: &IdMap<Schema>,
) -> (r: Result<Vec<Schema>, SchemaLoaderError>)
    ensures
        r matches Ok(v) ==> resolves_all_to(bank.spec_properties()@, needs@, cached@, known_parents.pairs(), known_parents@, v@),
        r matches Err(e) ==> e is Resolution,
        (needs@.len() == 0 || (batch_expands(bank.spec_properties()@, needs@) && forall|exp: Seq<ExpandedSchema>|
            #[trigger] expanded_batch(bank.spec_properties()@, needs@, exp) ==> builds_ok(exp, known_parents.pairs(), known_parents@)))
            && (cached@.len() == 0 || (cached_names_convert(cached@) && forall|exp: Seq<ExpandedSchema>|
            #[trigger] cached_batch(cached@, exp) ==> builds_ok(exp, known_parents.pairs(), known_parents@)))
            ==> (r is Ok || r matches Err(SchemaLoaderError::Resolution(SchemaError::Identifier(_)))),
        r matches Err(SchemaLoaderError::Resolution(SchemaError::Identifier(_))) ==> batch_has_inline(needs@),
        needs@.len() == 0 && cached@.len() == 0 ==> (r matches Ok(v) && v@.len() == 0),
{
    let ghost nd = needs@;
    let ghost cd = cached@;
    let mut out: Vec<Schema> = Vec::new();
    if needs.len() > 0 {
        match resolve_batch(bank, needs, known_parents) {
            Ok(v) => {
                out = v;
            },
            Err(e) => {
                return Err(e);
            },
        }
    }
    let ghost first = out@;
    if cached.len() > 0 {
        match resolve_cached(cached, known_parents) {
            Ok(mut w) => {
                let ghost second = w@;
                out.append(&mut w);
                proof {
                    assert(out@.take(first.len() as int) =~= first);
                    assert(out@.skip(first.len() as int) =~= second);
                    let exp = choose|exp: Seq<ExpandedSchema>|
                        #[trigger] cached_batch(cd, exp) && built_and_merged(exp, known_parents.pairs(), known_parents@, second);
                    assert(cached_batch(cd, exp) && built_and_merged(exp, known_parents.pairs(), known_parents@, out@.skip(first.len() as int)));
                    if nd.len() > 0 {
                        assert(resolves_to(bank.spec_properties()@, nd, known_parents.pairs(), known_parents@, out@.take(first.len() as int)));
                    }
                }
            },
            Err(e) => {
                return Err(e);
            },
        }
    } else {
        proof {
            assert(out@.take(out@.len() as int) =~= out@);
            if nd.len() > 0 {
                assert(resolves_to(bank.spec_properties()@, nd, known_parents.pairs(), known_parents@, out@.take(first.len() as int)));
            }
        }
    }
    proof {
        assert(resolves_split_at(bank.spec_properties()@, nd, cd, known_parents.pairs(), known_parents@, out@, first.len() as int));
    }
    Ok(out)
}


/// The first `k` schemas of `v` are the merge of the expanded batch `exp`
/// (none when it is empty), the rest resolve `cached` (none when it is
/// empty).
pub open spec fn expanded_split_at(
    exp: Seq<ExpandedSchema>,
    cached: Seq<(SchemaId, RawSchema, PropertyMap)>,
    known: Seq<(SchemaId, Schema)>,
    known_map: Map<SchemaId, Schema>,
    v: Seq<Schema>,
    k: int,
) -> bool {
    &&& 0 <= k <= v.len()
    &&& if exp.len() == 0 { k == 0 } else { built_and_merged(exp, known, known_map, v.take(k)) }
    &&& if cached.len() == 0 {
        k == v.len()
    } else {
        exists|c: Seq<ExpandedSchema>| #[trigger] cached_batch(cached, c) && built_and_merged(c, known, known_map, v.skip(k))
    }
}

/// `v` is what resolving an expanded batch and the schemas with a cached
/// expansion gives, in that order.
pub open spec fn resolves_expanded_to(
    exp: Seq<ExpandedSchema>,
    cached: Seq<(SchemaId, RawSchema, PropertyMap)>,
    known: Seq<(SchemaId, Schema)>,
    known_map: Map<SchemaId, Schema>,
    v: Seq<Schema>,
) -> bool {
    exists|k: int| #[trigger] expanded_split_at(exp, cached, known, known_map, v, k)
}

/// Resolves an already expanded batch (see `expand_batch`) and the schemas
/// with a cached expansion: the batch is built into its tree with the
/// known schemas and merged, then the cached ones are; each group is
/// skipped when empty, and the results come in that order. Nothing here
/// needs a fresh identifier.
pub fn resolve_expanded(
    expanded: Vec<ExpandedSchema>,
    cached: Vec<(SchemaId, RawSchema, PropertyMap)>,
    known_parents: &IdMap<Schema>,
) -> (r: Result<Vec<Schema>, SchemaLoaderError>)
    ensures
        r matches Ok(v) ==> resolves_expanded_to(expanded@, cached@, known_parents.pairs(), known_parents@, v@),
        r matches Err(e) ==> e is Resolution,
        r matches Err(SchemaLoaderError::Resolution(e)) ==> !(e is Identifier),
        (expanded@.len() == 0 || builds_ok(expanded@, known_parents.pairs(), known_parents@)) && (cached@.len() == 0 || (
        cached_names_convert(cached@) && forall|c: Seq<ExpandedSchema>|
            #[trigger] cached_batch(cached@, c) ==> builds_ok(c, known_parents.pairs(), known_parents@))) ==> r is Ok,
        expanded@.len() == 0 && cached@.len() == 0 ==> (r matches Ok(v) && v@.len() == 0),
{
    let ghost ex = expanded@;
    let ghost cd = cached@;
    let mut out: Vec<Schema> = Vec::new();
    if expanded.len() > 0 {
        match build_and_merge(expanded, known_parents) {
            Ok(v) => {
                out = v;
            },
            Err(e) => {
                return Err(e);
            },
        }
    }
    let ghost first = out@;
    if cached.len() > 0 {
        match resolve_cached(cached, known_parents) {
            Ok(mut w) => {
                let ghost second = w@;
                out.append(&mut w);
                proof {
                    assert(out@.take(first.len() as int) =~= first);
                    assert(out@.skip(first.len() as int) =~= second);
                    let c = choose|c: Seq<ExpandedSchema>|
                        #[trigger] cached_batch(cd, c) && built_and_merged(c, known_parents.pairs(), known_parents@, second);
                    assert(cached_batch(cd, c) && built_and_merged(c, known_parents.pairs(), known_parents@, out@.skip(first.len() as int)));
                }
            },
            Err(e) => {
                return Err(e);
            },
        }
    } else {
        proof {
            assert(out@.take(out@.len() as int) =~= out@);
        }
    }
    proof {
        assert(expanded_split_at(ex, cd, known_parents.pairs(), known_parents@, out@, first.len() as int));
    }
    Ok(out)
}


/// The merged properties of a schema from its parent's properties `parent`,
/// its own `own`, and its excluded names: it keeps everything it defines,
/// takes every other parent property it does not exclude, and nothing else.
pub open spec fn takes_from_parent(
    result: Map<Seq<char>, Property>,
    parent: Map<Seq<char>, Property>,
    own: Map<Seq<char>, Property>,
    excludes: Seq<PropertyName>,
) -> bool {
    &&& forall|k: Seq<char>| #[trigger] own.contains_key(k) ==> result.contains_key(k) && result[k] == own[k]
    &&& forall|k: Seq<char>|
        #[trigger] parent.contains_key(k) && !own.contains_key(k) && (forall|t: int| 0 <= t < excludes.len() ==> excludes[t]@ != k)
            ==> result.contains_key(k) && result[k] == parent[k]
    &&& forall|t: int| 0 <= t < excludes.len() && !own.contains_key(#[trigger] excludes[t]@) ==> !result.contains_key(excludes[t]@)
    &&& forall|k: Seq<char>| #[trigger] result.contains_key(k) ==> own.contains_key(k) || parent.contains_key(k)
}

/// In a tree built by `Extender::build` and merged by `merge_tree`, a
/// schema whose parent is in the batch comes after it, and inherits the
/// parent's merged result, not the parent's own definition: a property the
/// parent itself inherited (from a grandparent, and so on up the chain)
/// reaches the child unless the child defines or excludes it.
pub proof fn lemma_batch_child_inherits_merged_parent(
    v: Seq<Schema>,
    g: InheritanceGraph,
    exp: Seq<ExpandedSchema>,
    kp: Seq<(SchemaId, Schema)>,
    km: Map<SchemaId, Schema>,
    i: int,
    j: int,
)
    requires
        builds(g, exp, kp, km),
        merges(v, g, km),
        0 <= i < v.len(),
        0 <= j < v.len(),
        g.spec_nodes()[v[i].spec_id()].parent_id == Some(v[j].spec_id()),
    ensures
        j < i,
        takes_from_parent(
            v[i].spec_properties()@,
            v[j].spec_properties()@,
            g.spec_nodes()[v[i].spec_id()].properties@,
            g.spec_nodes()[v[i].spec_id()].excludes@,
        ),
{
    let order = g.spec_order();
    let nodes = g.spec_nodes();
    assert(merged_at(v, g, km, i));
    assert(merged_at(v, g, km, j));
    let x = order[i];
    let p = order[j];
    assert(order.contains(x));
    assert(order.contains(p));
    assert(crate::extender::tree_link(nodes, p, x));
    assert(crate::extender::tree_links(nodes)(p, x));
    assert(crate::inheritance::precedes(order, p, x));
    let (a, b) = choose|a: int, b: int| 0 <= a < b < order.len() && #[trigger] order[a] == p && #[trigger] order[b] == x;
    assert(a == j && b == i) by {
        assert(order.no_duplicates());
    }
    assert(exists|q: int| 0 <= q < i && order[q] == p);
    let q = choose|q: int| 0 <= q < i && order[q] == p;
    assert(q == j) by {
        assert(order.no_duplicates());
    }
    let own = nodes[x].properties@;
    let ex = nodes[x].excludes@;
    crate::merger::lemma_inherit_properties(v[j].spec_properties()@, own, ex, v[i].spec_properties()@);
}

/// In a tree built by `Extender::build` and merged by `merge_tree`, a
/// schema whose parent is a known schema outside the batch inherits that
/// known schema's stored properties.
pub proof fn lemma_batch_child_inherits_known_parent(
    v: Seq<Schema>,
    g: InheritanceGraph,
    exp: Seq<ExpandedSchema>,
    kp: Seq<(SchemaId, Schema)>,
    km: Map<SchemaId, Schema>,
    i: int,
    p: SchemaId,
)
    requires
        builds(g, exp, kp, km),
        merges(v, g, km),
        0 <= i < v.len(),
        g.spec_nodes()[v[i].spec_id()].parent_id == Some(p),
        !g.spec_nodes().contains_key(p),
        km.contains_key(p),
    ensures
        takes_from_parent(
            v[i].spec_properties()@,
            km[p].spec_properties()@,
            g.spec_nodes()[v[i].spec_id()].properties@,
            g.spec_nodes()[v[i].spec_id()].excludes@,
        ),
{
    let order = g.spec_order();
    assert(merged_at(v, g, km, i));
    assert(!exists|q: int| 0 <= q < i && order[q] == p) by {
        if exists|q: int| 0 <= q < i && order[q] == p {
            let q = choose|q: int| 0 <= q < i && order[q] == p;
            assert(order.contains(p));
        }
    }
    let x = order[i];
    crate::merger::lemma_inherit_properties(
        km[p].spec_properties()@,
        g.spec_nodes()[x].properties@,
        g.spec_nodes()[x].excludes@,
        v[i].spec_properties()@,
    );
}

} // verus!
