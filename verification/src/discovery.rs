//! Discovery decisions: separating the property bank file from the schema
//! files that one scan found, giving each cached schema its identifier, and
//! finding the schemas the cache still knows but the scan did not find.

use vstd::prelude::*;

use crate::identifier::{IdError, SchemaId};
use crate::inheritance::InheritanceGraph;
use crate::text::text_equal;

verus! {

/// The entries of `entries` whose path is not `bank_path`, in order.
pub open spec fn schema_entries<E>(entries: Seq<(String, E)>, bank_path: Seq<char>) -> Seq<(String, E)> {
    entries.filter(|e: (String, E)| e.0@ != bank_path)
}

/// The last entry of `entries` whose path is `bank_path`, if any.
pub open spec fn bank_entry<E>(entries: Seq<(String, E)>, bank_path: Seq<char>) -> Option<E>
    decreases entries.len(),
{
    if entries.len() == 0 {
        None
    } else if entries.last().0@ == bank_path {
        Some(entries.last().1)
    } else {
        bank_entry(entries.drop_last(), bank_path)
    }
}

/// Splits the entries of one scan (each with its path relative to the
/// vault) into the property bank file, the one at `bank_path`, and the
/// schema files, in order.
pub fn separate_property_bank<E>(entries: Vec<(String, E)>, bank_path: &str) -> (r: (Option<E>, Vec<(String, E)>))
    ensures
        r.0 == bank_entry(entries@, bank_path@),
        r.1@ == schema_entries(entries@, bank_path@),
{
    let ghost orig = entries@;
    let mut rest = entries;
    let mut bank: Option<E> = None;
    let mut schemas: Vec<(String, E)> = Vec::new();
    let n = rest.len();
    let mut i: usize = 0;
    while i < n
        invariant
            0 <= i <= n,
            n == orig.len(),
            rest@ == orig.skip(i as int),
            bank == bank_entry(orig.take(i as int), bank_path@),
            schemas@ == schema_entries(orig.take(i as int), bank_path@),
        decreases n - i,
    {
        let entry = rest.remove(0);
        proof {
            assert(rest@ =~= orig.skip(i + 1));
            assert(orig.take(i + 1).drop_last() =~= orig.take(i as int));
            assert(orig.take(i + 1).last() == orig[i as int]);
            reveal(Seq::filter);
        }
        if text_equal(entry.0.as_str(), bank_path) {
            bank = Some(entry.1);
        } else {
            schemas.push(entry);
        }
        i = i + 1;
    }
    proof {
        assert(orig.take(n as int) =~= orig);
    }
    (bank, schemas)
}

/// The identifier of a discovered schema: none without a cached view; with
/// one, the identifier stored for its path, or a new one (which fails only
/// when the random source does).
pub fn cached_schema_id(view_cached: bool, stored_id: Option<SchemaId>) -> (r: Result<Option<SchemaId>, IdError>)
    ensures
        r is Err ==> view_cached && stored_id is None,
        r matches Ok(o) ==> (o is Some) == view_cached,
        r matches Ok(o) ==> (view_cached && stored_id is Some ==> o == stored_id),
{
    if !view_cached {
        Ok(None)
    } else {
        match stored_id {
            Some(id) => Ok(Some(id)),
            None => match SchemaId::new() {
                Ok(id) => Ok(Some(id)),
                Err(e) => Err(e),
            },
        }
    }
}

/// The identifiers, in the cached graph's topological order, that no
/// schema file found by the scan carries: the schemas deleted since.
pub fn detect_deleted_schemas<T>(graph: &InheritanceGraph<T>, filesystem_ids: &[SchemaId]) -> (r: Vec<SchemaId>)
    ensures
        r@ == graph.spec_topo_order().filter(|id: SchemaId| !filesystem_ids@.contains(id)),
{
    let order = graph.topo_order();
    let mut r: Vec<SchemaId> = Vec::new();
    let mut i: usize = 0;
    while i < order.len()
        invariant
            0 <= i <= order@.len(),
            order@ == graph.spec_topo_order(),
            r@ == order@.take(i as int).filter(|id: SchemaId| !filesystem_ids@.contains(id)),
        decreases order@.len() - i,
    {
        let id = order[i];
        proof {
            assert(order@.take(i + 1).drop_last() =~= order@.take(i as int));
            reveal(Seq::filter);
        }
        if !crate::sort::contains_id(filesystem_ids, id) {
            r.push(id);
        }
        i = i + 1;
    }
    proof {
        assert(order@.take(order@.len() as int) =~= order@);
    }
    r
}

/// Nothing is cached yet: no graph, no cached schema view, and no cached
/// property bank view.
pub fn is_cold_start(has_graph: bool, any_schema_cached: bool, bank_view_cached: bool) -> (b: bool)
    ensures
        b == (!has_graph && !any_schema_cached && !bank_view_cached),
{
    !has_graph && !any_schema_cached && !bank_view_cached
}

} // verus!
