//! The property bank: named property definitions that schemas reference.

use vstd::prelude::*;

use crate::clock::unix_now_secs;
use crate::identifier::PropertyName;
use crate::property::{Property, PropertyMap};

verus! {

/// Registered property definitions, keyed by name, with the time they were
/// recorded (seconds since the Unix epoch).
#[derive(Debug, PartialEq, Eq)]
pub struct PropertyBank {
    properties: PropertyMap,
    recorded_at: u64,
}

impl PropertyBank {
    #[verifier::type_invariant]
    spec fn inv(self) -> bool {
        self.properties.wf()
    }

    /// The bank's properties.
    pub closed spec fn spec_properties(self) -> PropertyMap {
        self.properties
    }

    /// When the bank was recorded.
    pub closed spec fn spec_recorded_at(self) -> u64 {
        self.recorded_at
    }

    /// An empty bank recorded now.
    pub fn new() -> (b: PropertyBank)
        ensures
            b.spec_properties()@ == Map::<Seq<char>, Property>::empty(),
            b.spec_properties().pairs().len() == 0,
    {
        PropertyBank { properties: PropertyMap::new(), recorded_at: unix_now_secs() }
    }

    /// A bank holding `properties`, recorded now.
    pub fn from(properties: PropertyMap) -> (b: PropertyBank)
        requires
            properties.wf(),
        ensures
            b.spec_properties() == properties,
    {
        PropertyBank { properties, recorded_at: unix_now_secs() }
    }

    /// The property registered under `name`.
    pub fn get(&self, name: &PropertyName) -> (r: Option<&Property>)
        ensures
            (r is Some) == self.spec_properties()@.contains_key(name@),
            r matches Some(p) ==> *p == self.spec_properties()@[name@],
    {
        proof {
            use_type_invariant(self);
        }
        self.properties.get(name)
    }

    /// Whether a property is registered under `name`.
    pub fn has(&self, name: &PropertyName) -> (b: bool)
        ensures
            b == self.spec_properties()@.contains_key(name@),
    {
        proof {
            use_type_invariant(self);
        }
        self.properties.has(name)
    }

    /// All registered properties, in registration order.
    pub fn all(&self) -> (v: Vec<Property>)
        ensures
            v@.len() == self.spec_properties().pairs().len(),
            forall|i: int|
                0 <= i < v@.len() ==> #[trigger] v@[i] == self.spec_properties().pairs()[i].1,
    {
        let entries = self.properties.entries();
        let mut v: Vec<Property> = Vec::new();
        let mut i: usize = 0;
        while i < entries.len()
            invariant
                0 <= i <= entries@.len(),
                entries@.len() == self.properties.pairs().len(),
                forall|j: int|
                    0 <= j < entries@.len() ==> #[trigger] entries@[j].1
                        == self.properties.pairs()[j].1,
                v@.len() == i,
                forall|j: int| 0 <= j < i ==> #[trigger] v@[j] == self.properties.pairs()[j].1,
            decreases entries@.len() - i,
        {
            v.push(entries[i].1.clone());
            i = i + 1;
        }
        v
    }

    /// The bank's properties, for in-place updates.
    pub fn set_properties(&mut self, properties: PropertyMap)
        requires
            properties.wf(),
        ensures
            final(self).spec_properties() == properties,
            final(self).spec_recorded_at() == old(self).spec_recorded_at(),
    {
        self.properties = properties;
    }

    /// Registers `property` under `name`, replacing any previous definition.
    pub fn insert(&mut self, name: PropertyName, property: Property)
        ensures
            final(self).spec_properties()@ == old(self).spec_properties()@.insert(name@, property),
            final(self).spec_recorded_at() == old(self).spec_recorded_at(),
    {
        proof {
            use_type_invariant(&*self);
        }
        let mut props = PropertyMap::new();
        std::mem::swap(&mut props, &mut self.properties);
        props.insert(name, property);
        self.properties = props;
    }

    /// Sets the time the bank was recorded.
    pub fn set_recorded_at(&mut self, recorded_at: u64)
        ensures
            final(self).spec_recorded_at() == recorded_at,
            final(self).spec_properties() == old(self).spec_properties(),
    {
        proof {
            use_type_invariant(&*self);
        }
        self.recorded_at = recorded_at;
    }

    /// When the bank was recorded.
    pub fn recorded_at(&self) -> (t: u64)
        ensures
            t == self.spec_recorded_at(),
    {
        self.recorded_at
    }

    /// The bank's properties.
    pub fn properties(&self) -> (m: &PropertyMap)
        ensures
            *m == self.spec_properties(),
            m.wf(),
    {
        proof {
            use_type_invariant(self);
        }
        &self.properties
    }
}

impl Default for PropertyBank {
    /// An empty bank recorded now.
    fn default() -> (b: PropertyBank)
        ensures
            b.spec_properties()@ == Map::<Seq<char>, Property>::empty(),
            b.spec_properties().pairs().len() == 0,
    {
        PropertyBank::new()
    }
}

impl Clone for PropertyBank {
    /// A copy with the same properties and recording time.
    fn clone(&self) -> (r: Self)
        ensures
            r.spec_properties().pairs() == self.spec_properties().pairs(),
            r.spec_recorded_at() == self.spec_recorded_at(),
    {
        proof {
            use_type_invariant(self);
        }
        PropertyBank { properties: self.properties.clone(), recorded_at: self.recorded_at }
    }
}

} // verus!
