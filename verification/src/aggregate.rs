//! The schema aggregate: a named schema with its inheritance links and
//! resolved properties.

use vstd::prelude::*;

use crate::clock::unix_now_secs;
use crate::identifier::{PropertyName, SchemaId, SchemaName};
use crate::property::{Property, PropertyMap};
use crate::identifier::PropertyId;

verus! {

/// The first pair index whose property has identifier `id`, if any.
pub open spec fn first_with_id(pairs: Seq<(Seq<char>, Property)>, id: PropertyId) -> Option<int> {
    if exists|i: int| 0 <= i < pairs.len() && #[trigger] pairs[i].1.spec_id() == id {
        Some(
            choose|i: int|
                0 <= i < pairs.len() && #[trigger] pairs[i].1.spec_id() == id && forall|j: int|
                    0 <= j < i ==> pairs[j].1.spec_id() != id,
        )
    } else {
        None
    }
}

/// A schema: identity, name, parent and child links, and its properties.
#[derive(Debug)]
pub struct Schema {
    id: SchemaId,
    name: SchemaName,
    parents: Vec<SchemaId>,
    children: Vec<SchemaId>,
    properties: PropertyMap,
    recorded_at: u64,
}

impl Schema {
    #[verifier::type_invariant]
    spec fn inv(self) -> bool {
        self.properties.wf()
    }

    /// The schema's identifier.
    pub closed spec fn spec_id(self) -> SchemaId {
        self.id
    }

    /// The schema's name.
    pub closed spec fn spec_name(self) -> Seq<char> {
        self.name@
    }

    /// The schema's parents.
    pub closed spec fn spec_parents(self) -> Seq<SchemaId> {
        self.parents@
    }

    /// The schema's children.
    pub closed spec fn spec_children(self) -> Seq<SchemaId> {
        self.children@
    }

    /// The schema's properties.
    pub closed spec fn spec_properties(self) -> PropertyMap {
        self.properties
    }

    /// When the schema was recorded (seconds since the Unix epoch).
    pub closed spec fn spec_recorded_at(self) -> u64 {
        self.recorded_at
    }

    /// A schema recorded now.
    pub fn new(
        id: SchemaId,
        name: SchemaName,
        parents: Vec<SchemaId>,
        children: Vec<SchemaId>,
        properties: PropertyMap,
    ) -> (s: Schema)
        requires
            properties.wf(),
        ensures
            s.spec_id() == id,
            s.spec_name() == name@,
            s.spec_parents() == parents@,
            s.spec_children() == children@,
            s.spec_properties() == properties,
    {
        Schema { id, name, parents, children, properties, recorded_at: unix_now_secs() }
    }

    /// The schema with the given recording time.
    pub fn with_recorded_at(
        id: SchemaId,
        name: SchemaName,
        parents: Vec<SchemaId>,
        children: Vec<SchemaId>,
        properties: PropertyMap,
        recorded_at: u64,
    ) -> (s: Schema)
        requires
            properties.wf(),
        ensures
            s.spec_id() == id,
            s.spec_name() == name@,
            s.spec_parents() == parents@,
            s.spec_children() == children@,
            s.spec_properties() == properties,
            s.spec_recorded_at() == recorded_at,
    {
        Schema { id, name, parents, children, properties, recorded_at }
    }

    /// The schema's identifier.
    pub fn id(&self) -> (r: &SchemaId)
        ensures
            *r == self.spec_id(),
    {
        &self.id
    }

    /// The schema's name.
    pub fn name(&self) -> (r: &SchemaName)
        ensures
            r@ == self.spec_name(),
    {
        &self.name
    }

    /// The schema's parents.
    pub fn parents(&self) -> (r: &[SchemaId])
        ensures
            r@ == self.spec_parents(),
    {
        self.parents.as_slice()
    }

    /// The schema's children.
    pub fn children(&self) -> (r: &[SchemaId])
        ensures
            r@ == self.spec_children(),
    {
        self.children.as_slice()
    }

    /// The schema's properties.
    pub fn properties(&self) -> (r: &PropertyMap)
        ensures
            *r == self.spec_properties(),
            r.wf(),
    {
        proof {
            use_type_invariant(self);
        }
        &self.properties
    }

    /// When the schema was recorded (seconds since the Unix epoch).
    pub fn recorded_at(&self) -> (t: u64)
        ensures
            t == self.spec_recorded_at(),
    {
        self.recorded_at
    }

    /// The property named `name`.
    pub fn find_property_by_name(&self, name: &PropertyName) -> (r: Option<&Property>)
        ensures
            (r is Some) == self.spec_properties()@.contains_key(name@),
            r matches Some(p) ==> *p == self.spec_properties()@[name@],
    {
        proof {
            use_type_invariant(self);
        }
        self.properties.get(name)
    }

    /// The first property (in insertion order) whose identifier is `id`.
    pub fn find_property(&self, id: &PropertyId) -> (r: Option<&Property>)
        ensures
            match first_with_id(self.spec_properties().pairs(), *id) {
                Some(i) => r == Some(&self.spec_properties().pairs()[i].1),
                None => r is None,
            },
    {
        let entries = self.properties.entries();
        let ghost pairs = self.properties.pairs();
        let mut i: usize = 0;
        while i < entries.len()
            invariant
                0 <= i <= entries@.len(),
                entries@.len() == pairs.len(),
                pairs == self.properties.pairs(),
                forall|j: int|
                    0 <= j < entries@.len() ==> (#[trigger] entries@[j]).1 == pairs[j].1,
                forall|j: int| 0 <= j < i ==> (#[trigger] pairs[j]).1.spec_id() != *id,
            decreases entries@.len() - i,
        {
            if entries[i].1.id() == *id {
                proof {
                    assert(pairs[i as int].1.spec_id() == *id);
                    let k = first_with_id(pairs, *id)->0;
                    assert(k == i) by {
                        if k < i {
                            assert(pairs[k].1.spec_id() != *id);
                        }
                        if k > i {
                            assert(entries@[i as int].1 == pairs[i as int].1);
                        }
                    }
                }
                return Some(&entries[i].1);
            }
            i = i + 1;
        }
        proof {
            assert(first_with_id(pairs, *id) is None) by {
                if exists|k: int| 0 <= k < pairs.len() && #[trigger] pairs[k].1.spec_id() == *id {
                    let k = choose|k: int| 0 <= k < pairs.len() && #[trigger] pairs[k].1.spec_id() == *id;
                    assert(pairs[k].1.spec_id() != *id);
                }
            }
        }
        None
    }
}

} // verus!
