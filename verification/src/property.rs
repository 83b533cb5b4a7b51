//! Property definitions and the name-keyed map that holds them.

use vstd::prelude::*;

use crate::identifier::{PropertyId, PropertyName};
use crate::text::copy_text;

verus! {

/// Whether a property must be present.
#[derive(Debug, Clone, Copy, PartialEq, Eq, Structural, Hash)]
pub enum Optionality {
    /// The property must be present.
    Required,
    /// The property may be absent.
    Optional,
}

impl Optionality {
    /// `true` means required.
    pub fn from_required(required: bool) -> (r: Optionality)
        ensures
            r == (if required { Optionality::Required } else { Optionality::Optional }),
    {
        if required {
            Optionality::Required
        } else {
            Optionality::Optional
        }
    }
}

/// Whether a property holds one value or many.
#[derive(Debug, Clone, Copy, PartialEq, Eq, Structural, Hash)]
pub enum Multiplicity {
    /// A single value.
    Single,
    /// A list of values.
    Many,
}

impl Multiplicity {
    /// `true` means many.
    pub fn from_multi(multi: bool) -> (r: Multiplicity)
        ensures
            r == (if multi { Multiplicity::Many } else { Multiplicity::Single }),
    {
        if multi {
            Multiplicity::Many
        } else {
            Multiplicity::Single
        }
    }
}

/// How the options of a string property were written.
#[derive(Debug, Clone, Copy, PartialEq, Eq, Structural, Hash)]
pub enum OptionStyle {
    /// Bare values.
    Plain,
    /// Values in a meaningful order.
    Ordered,
    /// Values with display labels.
    Labeled,
}

/// The allowed values of a string property, in order, each with its label
/// when one was given (an immutable list).
#[derive(Debug, PartialEq, Eq, Hash)]
pub enum OptionList {
    /// No further option.
    End,
    /// An option value, its label, and the options after it.
    Entry(String, Option<String>, Box<OptionList>),
}

/// A copy of an optional text.
pub fn copy_opt_text(o: &Option<String>) -> (r: Option<String>)
    ensures
        r == *o,
{
    match o {
        Some(t) => Some(t.clone()),
        None => None,
    }
}

/// A copy of an option list.
pub fn copy_option_list(l: &OptionList) -> (r: OptionList)
    ensures
        r == *l,
    decreases l,
{
    match l {
        OptionList::End => OptionList::End,
        OptionList::Entry(v, label, rest) => OptionList::Entry(
            v.clone(),
            copy_opt_text(label),
            Box::new(copy_option_list(&**rest)),
        ),
    }
}

impl Clone for OptionList {
    /// An equal list.
    fn clone(&self) -> (r: Self)
        ensures
            r == *self,
    {
        copy_option_list(self)
    }
}

/// The options of a string property.
#[derive(Debug, PartialEq, Eq, Hash)]
pub struct StringOptions {
    pub style: OptionStyle,
    pub entries: OptionList,
}

impl Clone for StringOptions {
    /// Equal options.
    fn clone(&self) -> (r: Self)
        ensures
            r == *self,
    {
        StringOptions { style: self.style, entries: copy_option_list(&self.entries) }
    }
}

/// The constraints of a string property: allowed options and a pattern.
#[derive(Debug, PartialEq, Eq, Hash)]
pub struct StringSpec {
    pub options: Option<StringOptions>,
    pub pattern: Option<String>,
}

impl Clone for StringSpec {
    /// An equal specification.
    fn clone(&self) -> (r: Self)
        ensures
            r == *self,
    {
        let options = match &self.options {
            Some(o) => Some(o.clone()),
            None => None,
        };
        StringSpec { options, pattern: copy_opt_text(&self.pattern) }
    }
}

/// The constraint of a date property: its format.
#[derive(Debug, PartialEq, Eq, Hash)]
pub struct DateSpec {
    pub format: Option<String>,
}

impl Clone for DateSpec {
    /// An equal specification.
    fn clone(&self) -> (r: Self)
        ensures
            r == *self,
    {
        DateSpec { format: copy_opt_text(&self.format) }
    }
}

/// The constraints of a file property: its directory and file class.
#[derive(Debug, PartialEq, Eq, Hash)]
pub struct FileSpec {
    pub directory: Option<String>,
    pub file_class: Option<String>,
}

impl Clone for FileSpec {
    /// An equal specification.
    fn clone(&self) -> (r: Self)
        ensures
            r == *self,
    {
        FileSpec { directory: copy_opt_text(&self.directory), file_class: copy_opt_text(&self.file_class) }
    }
}

/// The value type a property specifies, with the constraints of its kind
/// (a number's bounds are floating-point values and stay outside this
/// model).
#[derive(Debug, PartialEq, Eq, Hash)]
pub enum PropertySpec {
    /// A boolean.
    Bool,
    /// A number.
    Number,
    /// A string.
    String(StringSpec),
    /// A date.
    Date(DateSpec),
    /// A file reference.
    File(FileSpec),
}

impl Clone for PropertySpec {
    /// An equal specification.
    fn clone(&self) -> (r: Self)
        ensures
            r == *self,
    {
        match self {
            PropertySpec::Bool => PropertySpec::Bool,
            PropertySpec::Number => PropertySpec::Number,
            PropertySpec::String(s) => PropertySpec::String(s.clone()),
            PropertySpec::Date(d) => PropertySpec::Date(d.clone()),
            PropertySpec::File(f) => PropertySpec::File(f.clone()),
        }
    }
}

impl PropertySpec {
    /// A string specification without options or pattern.
    pub fn string() -> (s: PropertySpec)
        ensures
            s == PropertySpec::String(StringSpec { options: None, pattern: None }),
    {
        PropertySpec::String(StringSpec { options: None, pattern: None })
    }

    /// A date specification without a format.
    pub fn date() -> (s: PropertySpec)
        ensures
            s == PropertySpec::Date(DateSpec { format: None }),
    {
        PropertySpec::Date(DateSpec { format: None })
    }

    /// A file specification without directory or class.
    pub fn file() -> (s: PropertySpec)
        ensures
            s == PropertySpec::File(FileSpec { directory: None, file_class: None }),
    {
        PropertySpec::File(FileSpec { directory: None, file_class: None })
    }
}

/// The lowercase name of a specification kind, as used in messages.
pub open spec fn spec_kind_name(spec: PropertySpec) -> Seq<char> {
    match spec {
        PropertySpec::Bool => "bool"@,
        PropertySpec::Number => "number"@,
        PropertySpec::String(_) => "string"@,
        PropertySpec::Date(_) => "date"@,
        PropertySpec::File(_) => "file"@,
    }
}

impl PropertySpec {
    /// The lowercase name of this specification kind.
    pub fn kind_name(&self) -> (s: String)
        ensures
            s@ == spec_kind_name(*self),
    {
        match self {
            PropertySpec::Bool => copy_text("bool"),
            PropertySpec::Number => copy_text("number"),
            PropertySpec::String(_) => copy_text("string"),
            PropertySpec::Date(_) => copy_text("date"),
            PropertySpec::File(_) => copy_text("file"),
        }
    }
}

/// A property definition.
#[derive(Debug, PartialEq, Eq, Hash)]
pub struct Property {
    id: PropertyId,
    optionality: Optionality,
    multiplicity: Multiplicity,
    spec: PropertySpec,
}

impl Property {
    /// Properties with the same parts are the same property.
    pub proof fn lemma_ext(self, other: Property)
        requires
            self.spec_id() == other.spec_id(),
            self.spec_optionality() == other.spec_optionality(),
            self.spec_multiplicity() == other.spec_multiplicity(),
            self.spec_spec() == other.spec_spec(),
        ensures
            self == other,
    {
    }

    /// The identifier of this property.
    pub closed spec fn spec_id(self) -> PropertyId {
        self.id
    }

    /// The optionality of this property.
    pub closed spec fn spec_optionality(self) -> Optionality {
        self.optionality
    }

    /// The multiplicity of this property.
    pub closed spec fn spec_multiplicity(self) -> Multiplicity {
        self.multiplicity
    }

    /// The specification of this property.
    pub closed spec fn spec_spec(self) -> PropertySpec {
        self.spec
    }

    /// Builds a property from its parts.
    pub fn new(
        id: PropertyId,
        optionality: Optionality,
        multiplicity: Multiplicity,
        spec: PropertySpec,
    ) -> (p: Property)
        ensures
            p.spec_id() == id,
            p.spec_optionality() == optionality,
            p.spec_multiplicity() == multiplicity,
            p.spec_spec() == spec,
    {
        Property { id, optionality, multiplicity, spec }
    }

    /// The identifier of this property.
    pub fn id(&self) -> (r: PropertyId)
        ensures
            r == self.spec_id(),
    {
        self.id
    }

    /// The optionality of this property.
    pub fn optionality(&self) -> (r: Optionality)
        ensures
            r == self.spec_optionality(),
    {
        self.optionality
    }

    /// The multiplicity of this property.
    pub fn multiplicity(&self) -> (r: Multiplicity)
        ensures
            r == self.spec_multiplicity(),
    {
        self.multiplicity
    }

    /// The specification of this property.
    pub fn spec(&self) -> (r: PropertySpec)
        ensures
            r == self.spec_spec(),
    {
        self.spec.clone()
    }

    /// The same definition under another identifier.
    pub fn with_id(&self, id: PropertyId) -> (p: Property)
        ensures
            p.spec_id() == id,
            p.spec_optionality() == self.spec_optionality(),
            p.spec_multiplicity() == self.spec_multiplicity(),
            p.spec_spec() == self.spec_spec(),
    {
        Property {
            id,
            optionality: self.optionality,
            multiplicity: self.multiplicity,
            spec: self.spec.clone(),
        }
    }
}

impl Clone for Property {
    /// An equal property.
    fn clone(&self) -> (r: Self)
        ensures
            r == *self,
    {
        Property {
            id: self.id,
            optionality: self.optionality,
            multiplicity: self.multiplicity,
            spec: self.spec.clone(),
        }
    }
}

// ─────────────────────────────────────────────────────────────────────────────
//  NameMap
// ─────────────────────────────────────────────────────────────────────────────

/// No two pairs share a key.
pub open spec fn keys_unique<V>(pairs: Seq<(Seq<char>, V)>) -> bool {
    forall|i: int, j: int|
        0 <= i < pairs.len() && 0 <= j < pairs.len() && i != j ==> #[trigger] pairs[i].0
            != #[trigger] pairs[j].0
}

/// The map whose entries are the pairs (later pairs win).
pub open spec fn pairs_to_map<V>(pairs: Seq<(Seq<char>, V)>) -> Map<Seq<char>, V>
    decreases pairs.len(),
{
    if pairs.len() == 0 {
        Map::empty()
    } else {
        pairs_to_map(pairs.drop_last()).insert(pairs.last().0, pairs.last().1)
    }
}

/// The keys of a pair sequence.
pub open spec fn pair_keys<V>(pairs: Seq<(Seq<char>, V)>) -> Seq<Seq<char>> {
    pairs.map_values(|p: (Seq<char>, V)| p.0)
}

/// A map built from pairs with distinct keys holds exactly those pairs.
pub proof fn lemma_pairs_to_map<V>(pairs: Seq<(Seq<char>, V)>)
    requires
        keys_unique(pairs),
    ensures
        forall|k: Seq<char>| #[trigger]
            pairs_to_map(pairs).contains_key(k) <==> exists|i: int|
                0 <= i < pairs.len() && #[trigger] pairs[i].0 == k,
        forall|i: int|
            0 <= i < pairs.len() ==> #[trigger] pairs_to_map(pairs)[pairs[i].0] == pairs[i].1,
        pairs_to_map(pairs).dom().finite(),
        pairs_to_map(pairs).dom().len() == pairs.len(),
    decreases pairs.len(),
{
    if pairs.len() > 0 {
        let rest = pairs.drop_last();
        assert(keys_unique(rest)) by {
            assert forall|i: int, j: int|
                0 <= i < rest.len() && 0 <= j < rest.len() && i != j implies #[trigger] rest[i].0
                != #[trigger] rest[j].0 by {
                assert(rest[i] == pairs[i]);
                assert(rest[j] == pairs[j]);
            }
        }
        lemma_pairs_to_map(rest);
        let last = pairs.last();
        assert(!pairs_to_map(rest).contains_key(last.0)) by {
            if pairs_to_map(rest).contains_key(last.0) {
                let i = choose|i: int| 0 <= i < rest.len() && #[trigger] rest[i].0 == last.0;
                assert(pairs[i].0 == pairs[pairs.len() - 1].0);
            }
        }
        assert forall|k: Seq<char>| #[trigger]
            pairs_to_map(pairs).contains_key(k) <==> exists|i: int|
                0 <= i < pairs.len() && #[trigger] pairs[i].0 == k by {
            if pairs_to_map(pairs).contains_key(k) {
                if k == last.0 {
                    assert(pairs[pairs.len() - 1].0 == k);
                } else {
                    let i = choose|i: int| 0 <= i < rest.len() && #[trigger] rest[i].0 == k;
                    assert(pairs[i].0 == k);
                }
            }
            if exists|i: int| 0 <= i < pairs.len() && #[trigger] pairs[i].0 == k {
                let i = choose|i: int| 0 <= i < pairs.len() && #[trigger] pairs[i].0 == k;
                if i < pairs.len() - 1 {
                    assert(rest[i].0 == k);
                }
            }
        }
        assert forall|i: int| 0 <= i < pairs.len() implies #[trigger] pairs_to_map(pairs)[pairs[i].0]
            == pairs[i].1 by {
            if i < pairs.len() - 1 {
                assert(rest[i] == pairs[i]);
                assert(pairs[i].0 != last.0);
            }
        }
    }
}

/// A map from property names to values, keeping insertion order.
#[derive(Debug, PartialEq, Eq)]
pub struct NameMap<V> {
    entries: Vec<(PropertyName, V)>,
}

/// Registered properties keyed by name.
pub type PropertyMap = NameMap<Property>;

impl<V> NameMap<V> {
    /// The entries as (name, value) pairs, in insertion order.
    pub closed spec fn pairs(&self) -> Seq<(Seq<char>, V)> {
        self.entries@.map_values(|e: (PropertyName, V)| (e.0@, e.1))
    }

    /// The mapping from names to values.
    pub open spec fn view(&self) -> Map<Seq<char>, V> {
        pairs_to_map(self.pairs())
    }

    /// Names are unique.
    pub closed spec fn wf(&self) -> bool {
        keys_unique(self.pairs())
    }

    /// Every map keeps its names unique.
    #[verifier::type_invariant]
    spec fn unique_names(self) -> bool {
        keys_unique(self.pairs())
    }

    /// Every map is well-formed (its invariant, made available to callers).
    pub fn known_wf(&self)
        ensures
            self.wf(),
    {
        proof {
            use_type_invariant(self);
        }
    }

    /// The pairs of a well-formed map are its entries.
    pub proof fn lemma_view(&self)
        requires
            self.wf(),
        ensures
            keys_unique(self.pairs()),
            forall|k: Seq<char>| #[trigger]
                self@.contains_key(k) <==> exists|i: int|
                    0 <= i < self.pairs().len() && #[trigger] self.pairs()[i].0 == k,
            forall|i: int|
                0 <= i < self.pairs().len() ==> #[trigger] self@[self.pairs()[i].0]
                    == self.pairs()[i].1,
            self@.dom().finite(),
            self@.dom().len() == self.pairs().len(),
    {
        lemma_pairs_to_map(self.pairs());
    }

    /// An empty map.
    pub fn new() -> (m: NameMap<V>)
        ensures
            m.wf(),
            m.pairs() == Seq::<(Seq<char>, V)>::empty(),
            m@ == Map::<Seq<char>, V>::empty(),
    {
        let m = NameMap { entries: Vec::new() };
        assert(m.pairs() =~= Seq::<(Seq<char>, V)>::empty());
        m
    }

    /// Number of entries.
    pub fn len(&self) -> (n: usize)
        requires
            self.wf(),
        ensures
            n == self@.dom().len(),
            n == self.pairs().len(),
    {
        proof {
            self.lemma_view();
        }
        self.entries.len()
    }

    /// Whether the map has no entries.
    pub fn is_empty(&self) -> (b: bool)
        requires
            self.wf(),
        ensures
            b == (self@.dom().len() == 0),
            b == (self.pairs().len() == 0),
    {
        proof {
            self.lemma_view();
        }
        self.entries.len() == 0
    }

    fn position(&self, name: &PropertyName) -> (r: Option<usize>)
        ensures
            r matches Some(i) ==> i < self.pairs().len() && self.pairs()[i as int].0 == name@,
            r is None ==> forall|i: int|
                0 <= i < self.pairs().len() ==> #[trigger] self.pairs()[i].0 != name@,
    {
        let mut i: usize = 0;
        while i < self.entries.len()
            invariant
                0 <= i <= self.entries@.len(),
                self.pairs().len() == self.entries@.len(),
                forall|j: int| 0 <= j < i ==> #[trigger] self.pairs()[j].0 != name@,
            decreases self.entries@.len() - i,
        {
            if self.entries[i].0.same(name) {
                return Some(i);
            }
            i = i + 1;
        }
        None
    }

    /// The value stored under `name`.
    pub fn get(&self, name: &PropertyName) -> (r: Option<&V>)
        requires
            self.wf(),
        ensures
            (r is Some) == self@.contains_key(name@),
            r matches Some(v) ==> *v == self@[name@],
    {
        proof {
            self.lemma_view();
        }
        match self.position(name) {
            Some(i) => Some(&self.entries[i].1),
            None => None,
        }
    }

    /// Whether `name` has a value.
    pub fn has(&self, name: &PropertyName) -> (b: bool)
        requires
            self.wf(),
        ensures
            b == self@.contains_key(name@),
    {
        proof {
            self.lemma_view();
        }
        self.position(name).is_some()
    }

    /// Stores `value` under `name`, replacing any previous value in place.
    pub fn insert(&mut self, name: PropertyName, value: V)
        requires
            old(self).wf(),
        ensures
            final(self).wf(),
            final(self)@ == old(self)@.insert(name@, value),
    {
        proof {
            self.lemma_view();
        }
        let ghost k = name@;
        let ghost old_pairs = self.pairs();
        match self.position(&name) {
            Some(i) => {
                let mut entries: Vec<(PropertyName, V)> = Vec::new();
                std::mem::swap(&mut entries, &mut self.entries);
                entries.set(i, (name, value));
                proof {
                    let new_pairs = entries@.map_values(|e: (PropertyName, V)| (e.0@, e.1));
                    assert(new_pairs =~= old_pairs.update(i as int, (k, value)));
                    assert forall|a: int, b: int|
                        0 <= a < new_pairs.len() && 0 <= b < new_pairs.len() && a != b implies #[trigger] new_pairs[a].0
                        != #[trigger] new_pairs[b].0 by {
                        assert(old_pairs[a].0 != old_pairs[b].0);
                    }
                }
                self.entries = entries;
                proof {
                    let new_pairs = self.pairs();
                    assert(new_pairs =~= old_pairs.update(i as int, (k, value)));
                    assert(keys_unique(new_pairs)) by {
                        assert forall|a: int, b: int|
                            0 <= a < new_pairs.len() && 0 <= b < new_pairs.len() && a != b implies #[trigger] new_pairs[a].0
                            != #[trigger] new_pairs[b].0 by {
                            assert(old_pairs[a].0 != old_pairs[b].0);
                        }
                    }
                    lemma_pairs_to_map(new_pairs);
                    assert(self@ =~= old(self)@.insert(k, value)) by {
                        assert forall|key: Seq<char>| #[trigger] self@.contains_key(key) <==> old(self)@.insert(k, value).contains_key(key) by {
                            if key == k {
                                assert(new_pairs[i as int].0 == k);
                            }
                            if self@.contains_key(key) && key != k {
                                let j = choose|j: int| 0 <= j < new_pairs.len() && #[trigger] new_pairs[j].0 == key;
                                assert(old_pairs[j].0 == key);
                            }
                            if old(self)@.contains_key(key) {
                                let j = choose|j: int| 0 <= j < old_pairs.len() && #[trigger] old_pairs[j].0 == key;
                                if j != i {
                                    assert(new_pairs[j].0 == key);
                                }
                            }
                        }
                        assert forall|key: Seq<char>| #[trigger] self@.contains_key(key) implies self@[key] == old(self)@.insert(k, value)[key] by {
                            let j = choose|j: int| 0 <= j < new_pairs.len() && #[trigger] new_pairs[j].0 == key;
                            if j != i {
                                assert(old_pairs[j] == new_pairs[j]);
                            }
                        }
                    }
                }
            },
            None => {
                let mut entries: Vec<(PropertyName, V)> = Vec::new();
                std::mem::swap(&mut entries, &mut self.entries);
                entries.push((name, value));
                proof {
                    let new_pairs = entries@.map_values(|e: (PropertyName, V)| (e.0@, e.1));
                    assert(new_pairs =~= old_pairs.push((k, value)));
                    assert forall|a: int, b: int|
                        0 <= a < new_pairs.len() && 0 <= b < new_pairs.len() && a != b implies #[trigger] new_pairs[a].0
                        != #[trigger] new_pairs[b].0 by {
                        if a < old_pairs.len() && b < old_pairs.len() {
                            assert(old_pairs[a].0 != old_pairs[b].0);
                        } else if a < old_pairs.len() {
                            assert(old_pairs[a].0 != k);
                        } else if b < old_pairs.len() {
                            assert(old_pairs[b].0 != k);
                        }
                    }
                }
                self.entries = entries;
                proof {
                    let new_pairs = self.pairs();
                    assert(new_pairs =~= old_pairs.push((k, value)));
                    assert(new_pairs.drop_last() =~= old_pairs);
                    assert(keys_unique(new_pairs)) by {
                        assert forall|a: int, b: int|
                            0 <= a < new_pairs.len() && 0 <= b < new_pairs.len() && a != b implies #[trigger] new_pairs[a].0
                            != #[trigger] new_pairs[b].0 by {
                            if a < old_pairs.len() && b < old_pairs.len() {
                                assert(old_pairs[a].0 != old_pairs[b].0);
                            } else if a < old_pairs.len() {
                                assert(old_pairs[a].0 != k);
                            } else {
                                assert(old_pairs[b].0 != k);
                            }
                        }
                    }
                }
            },
        }
    }

    /// Removes the value stored under `name`, keeping the order of the rest.
    pub fn remove(&mut self, name: &PropertyName)
        requires
            old(self).wf(),
        ensures
            final(self).wf(),
            final(self)@ == old(self)@.remove(name@),
    {
        proof {
            self.lemma_view();
        }
        let ghost k = name@;
        let ghost old_pairs = self.pairs();
        match self.position(name) {
            Some(i) => {
                let mut entries: Vec<(PropertyName, V)> = Vec::new();
                std::mem::swap(&mut entries, &mut self.entries);
                let _ = entries.remove(i);
                proof {
                    let new_pairs = entries@.map_values(|e: (PropertyName, V)| (e.0@, e.1));
                    assert(new_pairs =~= old_pairs.remove(i as int));
                    assert forall|a: int, b: int|
                        0 <= a < new_pairs.len() && 0 <= b < new_pairs.len() && a != b implies #[trigger] new_pairs[a].0
                        != #[trigger] new_pairs[b].0 by {
                        let oa = if a < i { a } else { a + 1 };
                        let ob = if b < i { b } else { b + 1 };
                        assert(new_pairs[a] == old_pairs[oa]);
                        assert(new_pairs[b] == old_pairs[ob]);
                        assert(old_pairs[oa].0 != old_pairs[ob].0);
                    }
                }
                self.entries = entries;
                proof {
                    let new_pairs = self.pairs();
                    assert(new_pairs =~= old_pairs.remove(i as int));
                    assert(keys_unique(new_pairs)) by {
                        assert forall|a: int, b: int|
                            0 <= a < new_pairs.len() && 0 <= b < new_pairs.len() && a != b implies #[trigger] new_pairs[a].0
                            != #[trigger] new_pairs[b].0 by {
                            let oa = if a < i { a } else { a + 1 };
                            let ob = if b < i { b } else { b + 1 };
                            assert(new_pairs[a] == old_pairs[oa]);
                            assert(new_pairs[b] == old_pairs[ob]);
                            assert(old_pairs[oa].0 != old_pairs[ob].0);
                        }
                    }
                    lemma_pairs_to_map(new_pairs);
                    assert(self@ =~= old(self)@.remove(k)) by {
                        assert forall|key: Seq<char>| #[trigger] self@.contains_key(key) <==> old(self)@.remove(k).contains_key(key) by {
                            if self@.contains_key(key) {
                                let j = choose|j: int| 0 <= j < new_pairs.len() && #[trigger] new_pairs[j].0 == key;
                                let oj = if j < i { j } else { j + 1 };
                                assert(old_pairs[oj].0 == key);
                                assert(oj != i);
                                assert(old_pairs[i as int].0 == k);
                            }
                            if old(self)@.remove(k).contains_key(key) {
                                let j = choose|j: int| 0 <= j < old_pairs.len() && #[trigger] old_pairs[j].0 == key;
                                assert(j != i);
                                let nj = if j < i { j } else { j - 1 };
                                assert(new_pairs[nj].0 == key);
                            }
                        }
                        assert forall|key: Seq<char>| #[trigger] self@.contains_key(key) implies self@[key] == old(self)@.remove(k)[key] by {
                            let j = choose|j: int| 0 <= j < new_pairs.len() && #[trigger] new_pairs[j].0 == key;
                            let oj = if j < i { j } else { j + 1 };
                            assert(old_pairs[oj] == new_pairs[j]);
                        }
                    }
                }
            },
            None => {
                proof {
                    assert(!old(self)@.contains_key(k));
                    assert(self@ =~= old(self)@.remove(k));
                }
            },
        }
    }

    /// The (name, value) entries in insertion order, taken out of the map.
    pub fn into_entries(self) -> (r: Vec<(PropertyName, V)>)
        ensures
            r@.len() == self.pairs().len(),
            forall|i: int|
                0 <= i < r@.len() ==> (#[trigger] r@[i]).0@ == self.pairs()[i].0 && r@[i].1
                    == self.pairs()[i].1,
    {
        self.entries
    }

    /// Appends an entry under a name the map does not hold yet.
    pub fn push_new(&mut self, name: PropertyName, value: V)
        requires
            old(self).wf(),
            !old(self)@.contains_key(name@),
        ensures
            final(self).wf(),
            final(self).pairs() == old(self).pairs().push((name@, value)),
    {
        proof {
            self.lemma_view();
        }
        let ghost k = name@;
        let ghost before = self.pairs();
        let mut entries: Vec<(PropertyName, V)> = Vec::new();
        std::mem::swap(&mut entries, &mut self.entries);
        entries.push((name, value));
        proof {
            let new_pairs = entries@.map_values(|e: (PropertyName, V)| (e.0@, e.1));
            assert(new_pairs =~= before.push((k, value)));
            assert forall|a: int, b: int|
                0 <= a < new_pairs.len() && 0 <= b < new_pairs.len() && a != b implies #[trigger] new_pairs[a].0
                != #[trigger] new_pairs[b].0 by {
                if a < before.len() && b < before.len() {
                } else if a < before.len() {
                    assert(before[a].0 != k);
                } else if b < before.len() {
                    assert(before[b].0 != k);
                }
            }
        }
        self.entries = entries;
        proof {
            assert(self.pairs() =~= before.push((k, value)));
            assert forall|i: int, j: int|
                0 <= i < self.pairs().len() && 0 <= j < self.pairs().len() && i != j implies #[trigger] self.pairs()[i].0
                != #[trigger] self.pairs()[j].0 by {
                if i < before.len() && j < before.len() {
                } else if i < before.len() {
                    assert(before[i].0 != k);
                } else if j < before.len() {
                    assert(before[j].0 != k);
                }
            }
        }
    }

    /// The names of the map, in insertion order.
    pub fn names(&self) -> (r: Vec<PropertyName>)
        requires
            self.wf(),
        ensures
            r@.len() == self.pairs().len(),
            forall|i: int| 0 <= i < r@.len() ==> (#[trigger] r@[i])@ == self.pairs()[i].0,
            forall|k: Seq<char>| self@.contains_key(k) <==> exists|i: int| 0 <= i < r@.len() && #[trigger] r@[i]@ == k,
    {
        proof {
            self.lemma_view();
        }
        let mut r: Vec<PropertyName> = Vec::new();
        let mut i: usize = 0;
        while i < self.entries.len()
            invariant
                0 <= i <= self.entries@.len(),
                self.pairs().len() == self.entries@.len(),
                r@.len() == i,
                forall|j: int| 0 <= j < i ==> (#[trigger] r@[j])@ == self.pairs()[j].0,
            decreases self.entries@.len() - i,
        {
            r.push(self.entries[i].0.clone());
            i = i + 1;
        }
        proof {
            assert forall|k: Seq<char>| self@.contains_key(k) implies exists|i: int| 0 <= i < r@.len() && #[trigger] r@[i]@ == k by {
                let i = choose|i: int| 0 <= i < self.pairs().len() && #[trigger] self.pairs()[i].0 == k;
                assert(r@[i]@ == k);
            }
            assert forall|k: Seq<char>| (exists|i: int| 0 <= i < r@.len() && #[trigger] r@[i]@ == k) implies self@.contains_key(k) by {
                let i = choose|i: int| 0 <= i < r@.len() && #[trigger] r@[i]@ == k;
                assert(self.pairs()[i].0 == k);
            }
        }
        r
    }

    /// The (name, value) entries in insertion order.
    pub fn entries(&self) -> (r: &Vec<(PropertyName, V)>)
        ensures
            r@.len() == self.pairs().len(),
            forall|i: int|
                0 <= i < r@.len() ==> (#[trigger] r@[i]).0@ == self.pairs()[i].0 && r@[i].1
                    == self.pairs()[i].1,
    {
        &self.entries
    }
}

impl<V: Copy> Clone for NameMap<V> {
    /// A copy with the same entries in the same order.
    fn clone(&self) -> (r: Self)
        ensures
            r.pairs() == self.pairs(),
            r.wf() == self.wf(),
    {
        let mut entries: Vec<(PropertyName, V)> = Vec::new();
        let mut i: usize = 0;
        while i < self.entries.len()
            invariant
                0 <= i <= self.entries@.len(),
                entries@.len() == i,
                forall|j: int|
                    0 <= j < i ==> (#[trigger] entries@[j]).0@ == self.entries@[j].0@ && entries@[j].1
                        == self.entries@[j].1,
            decreases self.entries@.len() - i,
        {
            let e = &self.entries[i];
            entries.push((e.0.clone(), e.1));
            i = i + 1;
        }
        proof {
            use_type_invariant(self);
            assert(entries@.map_values(|e: (PropertyName, V)| (e.0@, e.1)) =~= self.pairs());
        }
        let r = NameMap { entries };
        assert(r.pairs() =~= self.pairs());
        r
    }
}

impl Clone for NameMap<Property> {
    /// A copy with the same entries in the same order.
    fn clone(&self) -> (r: Self)
        ensures
            r.pairs() == self.pairs(),
            r.wf() == self.wf(),
    {
        let mut entries: Vec<(PropertyName, Property)> = Vec::new();
        let mut i: usize = 0;
        while i < self.entries.len()
            invariant
                0 <= i <= self.entries@.len(),
                entries@.len() == i,
                forall|j: int|
                    0 <= j < i ==> (#[trigger] entries@[j]).0@ == self.entries@[j].0@ && entries@[j].1
                        == self.entries@[j].1,
            decreases self.entries@.len() - i,
        {
            let e = &self.entries[i];
            entries.push((e.0.clone(), e.1.clone()));
            i = i + 1;
        }
        proof {
            use_type_invariant(self);
            assert(entries@.map_values(|e: (PropertyName, Property)| (e.0@, e.1)) =~= self.pairs());
        }
        let r = NameMap { entries };
        assert(r.pairs() =~= self.pairs());
        r
    }
}

} // verus!
