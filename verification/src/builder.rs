//! The routing of a full schema load: after discovery, the property bank
//! is loaded when its file was found (else its change set is forgotten),
//! nothing more happens without schema files, and the schema files go
//! through the cold-start pipeline when nothing is cached, or through the
//! incremental one otherwise.

use vstd::prelude::*;

use crate::identifier::PropertyName;

verus! {

/// The path a load takes after discovery.
#[derive(Debug, Clone, Copy, PartialEq, Eq, Structural)]
pub enum BuildRoute {
    /// No schema file was found: the load yields no schemas.
    NoSchemas,
    /// No inheritance graph is cached: every schema is parsed and built.
    AllMissing,
    /// A graph is cached: schemas are compared, and only changes processed.
    HasPresent,
}

/// Chooses the route: without schema files there is nothing to do; with
/// them, a cached graph means an incremental load.
pub fn route(has_schemas: bool, has_graph: bool) -> (r: BuildRoute)
    ensures
        r == (if !has_schemas {
            BuildRoute::NoSchemas
        } else if has_graph {
            BuildRoute::HasPresent
        } else {
            BuildRoute::AllMissing
        }),
{
    if !has_schemas {
        BuildRoute::NoSchemas
    } else if has_graph {
        BuildRoute::HasPresent
    } else {
        BuildRoute::AllMissing
    }
}

/// What a load remembers between steps: the names the property bank
/// changed, when it was loaded and reported a change set.
#[derive(Debug)]
pub struct Builder {
    property_bank_delta: Option<Vec<PropertyName>>,
}

impl Builder {
    /// The remembered change set of the property bank.
    pub closed spec fn spec_delta(&self) -> Option<Seq<PropertyName>> {
        match self.property_bank_delta {
            Some(v) => Some(v@),
            None => None,
        }
    }

    /// A builder with no change set.
    pub fn new() -> (b: Builder)
        ensures
            b.spec_delta() is None,
    {
        Builder { property_bank_delta: None }
    }

    /// Records the outcome of loading the property bank: its change set, or
    /// none when the bank file was not found or reported no change set.
    pub fn set_property_bank_delta(&mut self, delta: Option<Vec<PropertyName>>)
        ensures
            final(self).spec_delta() == match delta {
                Some(v) => Some(v@),
                None => None::<Seq<PropertyName>>,
            },
    {
        self.property_bank_delta = delta;
    }

    /// The change set the schema pipeline compares against.
    pub fn property_bank_delta(&self) -> (r: Option<&Vec<PropertyName>>)
        ensures
            match (r, self.spec_delta()) {
                (Some(v), Some(s)) => v@ == s,
                (None, None) => true,
                _ => false,
            },
    {
        self.property_bank_delta.as_ref()
    }
}

} // verus!
