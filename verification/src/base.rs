//! The base schema: a validated, name-based projection of one schema file,
//! with its expanded properties and the names it extends and excludes,
//! before parents are resolved to identifiers.

use vstd::prelude::*;

use crate::identifier::{SchemaId, SchemaName};
use crate::property::PropertyMap;

verus! {

/// A schema as its file states it: identifier, name, expanded properties,
/// and the names of the schemas it extends and of the properties it
/// excludes.
#[derive(Debug)]
pub struct BaseSchema {
    id: SchemaId,
    name: SchemaName,
    properties: PropertyMap,
    extends: Vec<String>,
    excludes: Vec<String>,
}

impl BaseSchema {
    #[verifier::type_invariant]
    spec fn inv(self) -> bool {
        self.properties.wf()
    }

    /// The identifier.
    pub closed spec fn spec_id(self) -> SchemaId {
        self.id
    }

    /// The name.
    pub closed spec fn spec_name(self) -> Seq<char> {
        self.name@
    }

    /// The properties.
    pub closed spec fn spec_properties(self) -> PropertyMap {
        self.properties
    }

    /// The names of the extended schemas.
    pub closed spec fn spec_extends(self) -> Seq<String> {
        self.extends@
    }

    /// The excluded property names.
    pub closed spec fn spec_excludes(self) -> Seq<String> {
        self.excludes@
    }

    /// A base schema from its parts.
    pub fn new(
        id: SchemaId,
        name: SchemaName,
        properties: PropertyMap,
        extends: Vec<String>,
        excludes: Vec<String>,
    ) -> (b: BaseSchema)
        requires
            properties.wf(),
        ensures
            b.spec_id() == id,
            b.spec_name() == name@,
            b.spec_properties() == properties,
            b.spec_extends() == extends@,
            b.spec_excludes() == excludes@,
    {
        BaseSchema { id, name, properties, extends, excludes }
    }

    /// The identifier.
    pub fn id(&self) -> (r: SchemaId)
        ensures
            r == self.spec_id(),
    {
        self.id
    }

    /// The name.
    pub fn name(&self) -> (r: &SchemaName)
        ensures
            r@ == self.spec_name(),
    {
        &self.name
    }

    /// The properties.
    pub fn properties(&self) -> (r: &PropertyMap)
        ensures
            *r == self.spec_properties(),
            r.wf(),
    {
        proof {
            use_type_invariant(self);
        }
        &self.properties
    }

    /// The names of the extended schemas.
    pub fn extends(&self) -> (r: &[String])
        ensures
            r@ == self.spec_extends(),
    {
        self.extends.as_slice()
    }

    /// The excluded property names.
    pub fn excludes(&self) -> (r: &[String])
        ensures
            r@ == self.spec_excludes(),
    {
        self.excludes.as_slice()
    }
}

} // verus!
