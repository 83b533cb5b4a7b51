//! Expands `$ref` property pointers against the property bank into
//! properties, applying the reference's overrides.

use vstd::prelude::*;

use crate::bank::PropertyBank;
use crate::error::{PropertyRefError, SchemaError};
use crate::identifier::PropertyName;
use crate::property::{
    copy_opt_text, pairs_to_map, spec_kind_name, DateSpec, FileSpec, Multiplicity, OptionList, OptionStyle,
    Optionality, Property, PropertyMap, PropertySpec, StringOptions, StringSpec,
};
use crate::raw::{
    has_date, has_file, has_number, has_string, option_values, override_kinds, parse_bank_ref,
    ref_target, RawOptionEntry, RawOptions, RawPropertyRef,
};
use crate::text::{copy_text, text_equal};

verus! {

/// The override kind, if any, that conflicts with the base specification,
/// checked in the order number, string, date, file.
pub open spec fn override_mismatch(base: PropertySpec, r: RawPropertyRef) -> Option<Seq<char>> {
    match base {
        PropertySpec::Bool => if has_number(r) {
            Some("number"@)
        } else if has_string(r) {
            Some("string"@)
        } else if has_date(r) {
            Some("date"@)
        } else if has_file(r) {
            Some("file"@)
        } else {
            None
        },
        PropertySpec::Number => if has_string(r) {
            Some("string"@)
        } else if has_date(r) {
            Some("date"@)
        } else if has_file(r) {
            Some("file"@)
        } else {
            None
        },
        PropertySpec::String(_) => if has_number(r) {
            Some("number"@)
        } else if has_date(r) {
            Some("date"@)
        } else if has_file(r) {
            Some("file"@)
        } else {
            None
        },
        PropertySpec::Date(_) => if has_number(r) {
            Some("number"@)
        } else if has_string(r) {
            Some("string"@)
        } else if has_file(r) {
            Some("file"@)
        } else {
            None
        },
        PropertySpec::File(_) => if has_number(r) {
            Some("number"@)
        } else if has_string(r) {
            Some("string"@)
        } else if has_date(r) {
            Some("date"@)
        } else {
            None
        },
    }
}

/// `e` reports that an override of kind `actual` does not fit a base of
/// kind `expected`.
pub open spec fn is_type_mismatch(e: SchemaError, expected: Seq<char>, actual: Seq<char>) -> bool {
    e matches SchemaError::PropertyRef(PropertyRefError::TypeMismatch { expected: x, actual: a })
        && x@ == expected && a@ == actual
}

/// The error for an override of kind `actual` on a base of kind `expected`.
pub fn type_mismatch(expected: &str, actual: &str) -> (e: SchemaError)
    ensures
        is_type_mismatch(e, expected@, actual@),
{
    SchemaError::PropertyRef(PropertyRefError::TypeMismatch { expected: copy_text(expected), actual: copy_text(actual) })
}

/// The option list of bare values, in order.
pub open spec fn plain_list(items: Seq<String>) -> OptionList
    decreases items.len(),
{
    if items.len() == 0 {
        OptionList::End
    } else {
        OptionList::Entry(items[0], None, Box::new(plain_list(items.skip(1))))
    }
}

/// The option list of values with their labels, in order.
pub open spec fn entry_list(entries: Seq<RawOptionEntry>) -> OptionList
    decreases entries.len(),
{
    if entries.len() == 0 {
        OptionList::End
    } else {
        OptionList::Entry(entries[0].value, entries[0].label, Box::new(entry_list(entries.skip(1))))
    }
}

/// The options a raw options list gives a string specification.
pub open spec fn string_options_of(o: RawOptions) -> StringOptions {
    match o {
        RawOptions::Plain(items) => StringOptions { style: OptionStyle::Plain, entries: plain_list(items@) },
        RawOptions::Ordered(entries) => StringOptions { style: OptionStyle::Ordered, entries: entry_list(entries@) },
        RawOptions::Labeled(entries) => StringOptions { style: OptionStyle::Labeled, entries: entry_list(entries@) },
    }
}

/// The options a reference overrides: its options list, except that with
/// `normalize` an empty list overrides nothing.
pub open spec fn override_options(r: RawPropertyRef, normalize: bool) -> Option<RawOptions> {
    match r.string.options {
        Some(o) => if normalize && option_values(o).len() == 0 {
            None
        } else {
            Some(o)
        },
        None => None,
    }
}

/// The override value when one is given, else the base value.
pub open spec fn or_keep(over: Option<String>, base: Option<String>) -> Option<String> {
    match over {
        Some(t) => Some(t),
        None => base,
    }
}

/// The base specification with the same-kind overrides of `r` applied:
/// each override that is given replaces the base's value, the others keep
/// it. A number's bounds are floating-point values outside this model, so
/// a number specification stays as it is.
pub open spec fn overridden_spec(base: PropertySpec, r: RawPropertyRef, normalize: bool) -> PropertySpec {
    match base {
        PropertySpec::String(s) => PropertySpec::String(
            StringSpec {
                options: match override_options(r, normalize) {
                    Some(o) => Some(string_options_of(o)),
                    None => s.options,
                },
                pattern: or_keep(r.string.pattern, s.pattern),
            },
        ),
        PropertySpec::Date(d) => PropertySpec::Date(DateSpec { format: or_keep(r.date.format, d.format) }),
        PropertySpec::File(f) => PropertySpec::File(
            FileSpec { directory: or_keep(r.file.directory, f.directory), file_class: or_keep(r.file.file_class, f.file_class) },
        ),
        _ => base,
    }
}

/// The specification a reference resolves to: the base specification with
/// the reference's overrides applied when none conflicts with its kind,
/// else the type-mismatch error (`normalize`: an empty options list
/// overrides nothing).
pub open spec fn spec_result_ok(
    base: PropertySpec,
    r: RawPropertyRef,
    normalize: bool,
    res: Result<PropertySpec, SchemaError>,
) -> bool {
    match override_mismatch(base, r) {
        None => res == Ok::<PropertySpec, SchemaError>(overridden_spec(base, r, normalize)),
        Some(actual) => res matches Err(e) && is_type_mismatch(e, spec_kind_name(base), actual),
    }
}

/// The option list of bare values.
pub fn plain_list_of(items: &Vec<String>) -> (r: OptionList)
    ensures
        r == plain_list(items@),
{
    let mut list = OptionList::End;
    let mut i: usize = items.len();
    proof {
        assert(items@.skip(i as int) =~= Seq::<String>::empty());
    }
    while i > 0
        invariant
            i <= items@.len(),
            list == plain_list(items@.skip(i as int)),
        decreases i,
    {
        i = i - 1;
        proof {
            assert(items@.skip(i as int).skip(1) =~= items@.skip(i + 1));
            assert(items@.skip(i as int)[0] == items@[i as int]);
        }
        list = OptionList::Entry(items[i].clone(), None, Box::new(list));
    }
    proof {
        assert(items@.skip(0) =~= items@);
    }
    list
}

/// The option list of values with their labels.
pub fn entry_list_of(entries: &Vec<RawOptionEntry>) -> (r: OptionList)
    ensures
        r == entry_list(entries@),
{
    let mut list = OptionList::End;
    let mut i: usize = entries.len();
    proof {
        assert(entries@.skip(i as int) =~= Seq::<RawOptionEntry>::empty());
    }
    while i > 0
        invariant
            i <= entries@.len(),
            list == entry_list(entries@.skip(i as int)),
        decreases i,
    {
        i = i - 1;
        proof {
            assert(entries@.skip(i as int).skip(1) =~= entries@.skip(i + 1));
            assert(entries@.skip(i as int)[0] == entries@[i as int]);
        }
        list = OptionList::Entry(entries[i].value.clone(), copy_opt_text(&entries[i].label), Box::new(list));
    }
    proof {
        assert(entries@.skip(0) =~= entries@);
    }
    list
}

/// The options a raw options list gives a string specification.
pub fn string_options_from(o: &RawOptions) -> (r: StringOptions)
    ensures
        r == string_options_of(*o),
{
    match o {
        RawOptions::Plain(items) => StringOptions { style: OptionStyle::Plain, entries: plain_list_of(items) },
        RawOptions::Ordered(entries) => StringOptions { style: OptionStyle::Ordered, entries: entry_list_of(entries) },
        RawOptions::Labeled(entries) => StringOptions { style: OptionStyle::Labeled, entries: entry_list_of(entries) },
    }
}

/// The override when one is given, else the base value.
fn keep_or_override(over: &Option<String>, base: Option<String>) -> (r: Option<String>)
    ensures
        r == or_keep(*over, base),
{
    match over {
        Some(t) => Some(t.clone()),
        None => base,
    }
}

/// Applies the same-kind overrides of `r` to `base` (see
/// [`overridden_spec`]).
pub fn apply_same_kind_overrides(base: PropertySpec, r: &RawPropertyRef, normalize: bool) -> (s: PropertySpec)
    ensures
        s == overridden_spec(base, *r, normalize),
{
    match base {
        PropertySpec::String(sp) => {
            let given = if normalize {
                warn_and_normalize_options(r.string.options.as_ref()).0
            } else {
                r.string.options.as_ref()
            };
            let options = match given {
                Some(o) => Some(string_options_from(o)),
                None => sp.options,
            };
            let pattern = keep_or_override(&r.string.pattern, sp.pattern);
            PropertySpec::String(StringSpec { options, pattern })
        },
        PropertySpec::Date(d) => PropertySpec::Date(DateSpec { format: keep_or_override(&r.date.format, d.format) }),
        PropertySpec::File(f) => PropertySpec::File(
            FileSpec {
                directory: keep_or_override(&r.file.directory, f.directory),
                file_class: keep_or_override(&r.file.file_class, f.file_class),
            },
        ),
        PropertySpec::Bool => PropertySpec::Bool,
        PropertySpec::Number => PropertySpec::Number,
    }
}

/// Why an options list was reported.
#[derive(Debug, Clone, Copy, PartialEq, Eq, Structural)]
pub enum OptionsWarning {
    /// The list is empty and is treated as unspecified.
    Empty,
    /// The list repeats a value.
    DuplicateValues,
}

/// The options list repeats a value.
pub open spec fn has_duplicates(values: Seq<Seq<char>>) -> bool {
    exists|i: int, j: int| 0 <= i < j < values.len() && #[trigger] values[i] == #[trigger] values[j]
}

/// Whether two option values are equal.
pub fn has_duplicate_option_values(options: &RawOptions) -> (r: bool)
    ensures
        r == has_duplicates(option_values(*options)),
{
    let n = options_len(options);
    let mut i: usize = 0;
    while i < n
        invariant
            0 <= i <= n,
            n == option_values(*options).len(),
            forall|a: int, b: int| 0 <= a < b < option_values(*options).len() && a < i ==> #[trigger] option_values(*options)[a]
                != #[trigger] option_values(*options)[b],
        decreases n - i,
    {
        let mut j: usize = i + 1;
        while j < n
            invariant
                i < n,
                i + 1 <= j <= n,
                n == option_values(*options).len(),
                forall|b: int| i < b < j ==> option_values(*options)[i as int] != #[trigger] option_values(*options)[b],
            decreases n - j,
        {
            if text_equal(option_value(options, i), option_value(options, j)) {
                return true;
            }
            j = j + 1;
        }
        i = i + 1;
    }
    false
}

fn options_len(options: &RawOptions) -> (n: usize)
    ensures
        n == option_values(*options).len(),
{
    match options {
        RawOptions::Plain(items) => items.len(),
        RawOptions::Ordered(entries) => entries.len(),
        RawOptions::Labeled(entries) => entries.len(),
    }
}

fn option_value(options: &RawOptions, i: usize) -> (s: &str)
    requires
        i < option_values(*options).len(),
    ensures
        s@ == option_values(*options)[i as int],
{
    match options {
        RawOptions::Plain(items) => items[i].as_str(),
        RawOptions::Ordered(entries) => entries[i].value.as_str(),
        RawOptions::Labeled(entries) => entries[i].value.as_str(),
    }
}

/// Normalizes an options override: an empty list counts as unspecified
/// (with a warning); a list that repeats a value is kept (with a warning).
pub fn warn_and_normalize_options<'a>(options: Option<&'a RawOptions>) -> (r: (Option<&'a RawOptions>, Option<OptionsWarning>))
    ensures
        match options {
            None => r.0 is None && r.1 is None,
            Some(o) => if option_values(*o).len() == 0 {
                r.0 is None && r.1 == Some(OptionsWarning::Empty)
            } else {
                r.0 == Some(o) && r.1 == (if has_duplicates(option_values(*o)) {
                    Some(OptionsWarning::DuplicateValues)
                } else {
                    None::<OptionsWarning>
                })
            },
        },
{
    match options {
        None => (None, None),
        Some(o) => {
            if options_len(o) == 0 {
                (None, Some(OptionsWarning::Empty))
            } else if has_duplicate_option_values(o) {
                (Some(o), Some(OptionsWarning::DuplicateValues))
            } else {
                (Some(o), None)
            }
        },
    }
}

/// Resolves `$ref` property pointers against a property bank.
#[derive(Debug)]
pub struct RefExpander<'bank> {
    bank: &'bank PropertyBank,
}

/// What expanding `entry` against `bank` gives.
pub open spec fn expansion(bank: Map<Seq<char>, Property>, entry: RawPropertyRef, res: Result<Property, SchemaError>) -> bool {
    match ref_target(entry.ref_path@) {
        None => res matches Err(e) && e matches SchemaError::PropertyRef(
            PropertyRefError::MalformedBankReferencePath { reference },
        ) && reference@ == entry.ref_path@,
        Some(t) => if !bank.contains_key(t) {
            res matches Err(e) && e matches SchemaError::PropertyRef(
                PropertyRefError::TargetPropertyNotFoundInBank { reference },
            ) && reference@ == entry.ref_path@
        } else {
            let base = bank[t];
            match override_mismatch(base.spec_spec(), entry) {
                Some(actual) => res matches Err(e) && is_type_mismatch(e, spec_kind_name(base.spec_spec()), actual),
                None => res matches Ok(p) && p.spec_id() == base.spec_id()
                    && p.spec_optionality() == (match entry.required {
                        Some(req) => if req { Optionality::Required } else { Optionality::Optional },
                        None => base.spec_optionality(),
                    })
                    && p.spec_multiplicity() == (match entry.multi {
                        Some(m) => if m { Multiplicity::Many } else { Multiplicity::Single },
                        None => base.spec_multiplicity(),
                    })
                    && p.spec_spec() == overridden_spec(base.spec_spec(), entry, true),
            }
        },
    }
}

/// `ps` are the expansions of the entries and `m` maps each entry's name to
/// its expansion (a later entry with the same name wins).
pub open spec fn expanded_as(
    bank: Map<Seq<char>, Property>,
    entries: Seq<(PropertyName, RawPropertyRef)>,
    ps: Seq<Property>,
    m: Map<Seq<char>, Property>,
) -> bool {
    &&& ps.len() == entries.len()
    &&& forall|i: int| 0 <= i < ps.len() ==> #[trigger] expansion(bank, entries[i].1, Ok::<Property, SchemaError>(ps[i]))
    &&& m == pairs_to_map(Seq::new(ps.len(), |i: int| (entries[i].0@, ps[i])))
}

/// Expanding `entry` succeeds.
pub open spec fn expands_ok(bank: Map<Seq<char>, Property>, entry: RawPropertyRef) -> bool {
    exists|p: Property| #[trigger] expansion(bank, entry, Ok::<Property, SchemaError>(p))
}

impl<'bank> RefExpander<'bank> {
    /// The bank the expander reads.
    pub closed spec fn spec_bank(self) -> PropertyBank {
        *self.bank
    }

    /// An expander over `bank`.
    pub fn new(bank: &'bank PropertyBank) -> (r: RefExpander<'bank>)
        ensures
            r.spec_bank() == *bank,
    {
        RefExpander { bank }
    }

    /// The override when present, else the base.
    pub fn optionality(base: Optionality, override_val: Option<bool>) -> (r: Optionality)
        ensures
            r == (match override_val {
                Some(req) => if req { Optionality::Required } else { Optionality::Optional },
                None => base,
            }),
    {
        match override_val {
            Some(req) => Optionality::from_required(req),
            None => base,
        }
    }

    /// The override when present, else the base.
    pub fn multiplicity(base: Multiplicity, override_val: Option<bool>) -> (r: Multiplicity)
        ensures
            r == (match override_val {
                Some(m) => if m { Multiplicity::Many } else { Multiplicity::Single },
                None => base,
            }),
    {
        match override_val {
            Some(m) => Multiplicity::from_multi(m),
            None => base,
        }
    }

    /// The specification a reference resolves to: overrides must fit the
    /// base kind, the first conflicting kind (number, string, date, file)
    /// being reported; otherwise the same-kind overrides are applied, each
    /// given value replacing the base's. String options are normalized
    /// first: an empty list overrides nothing.
    pub fn spec(base: PropertySpec, name: &PropertyName, ref_entry: &RawPropertyRef) -> (r: Result<PropertySpec, SchemaError>)
        ensures
            spec_result_ok(base, *ref_entry, true, r),
    {
        let (has_num, has_str, has_dt, has_fl) = override_kinds(ref_entry);
        match base {
            PropertySpec::Bool => {
                if has_num {
                    return Err(type_mismatch("bool", "number"));
                }
                if has_str {
                    return Err(type_mismatch("bool", "string"));
                }
                if has_dt {
                    return Err(type_mismatch("bool", "date"));
                }
                if has_fl {
                    return Err(type_mismatch("bool", "file"));
                }
                Ok(base)
            },
            PropertySpec::Number => {
                if has_str {
                    return Err(type_mismatch("number", "string"));
                }
                if has_dt {
                    return Err(type_mismatch("number", "date"));
                }
                if has_fl {
                    return Err(type_mismatch("number", "file"));
                }
                Ok(base)
            },
            PropertySpec::String(_) => {
                if has_num {
                    return Err(type_mismatch("string", "number"));
                }
                if has_dt {
                    return Err(type_mismatch("string", "date"));
                }
                if has_fl {
                    return Err(type_mismatch("string", "file"));
                }
                Ok(apply_same_kind_overrides(base, ref_entry, true))
            },
            PropertySpec::Date(_) => {
                if has_num {
                    return Err(type_mismatch("date", "number"));
                }
                if has_str {
                    return Err(type_mismatch("date", "string"));
                }
                if has_fl {
                    return Err(type_mismatch("date", "file"));
                }
                Ok(apply_same_kind_overrides(base, ref_entry, true))
            },
            PropertySpec::File(_) => {
                if has_num {
                    return Err(type_mismatch("file", "number"));
                }
                if has_str {
                    return Err(type_mismatch("file", "string"));
                }
                if has_dt {
                    return Err(type_mismatch("file", "date"));
                }
                Ok(apply_same_kind_overrides(base, ref_entry, true))
            },
        }
    }

    /// Resolves one reference into a property: the bank property it names,
    /// with its optionality, multiplicity and specification overridden.
    pub fn expand_property(&self, name: &PropertyName, entry: &RawPropertyRef) -> (r: Result<Property, SchemaError>)
        ensures
            expansion(self.spec_bank().spec_properties()@, *entry, r),
    {
        let target = match parse_bank_ref(entry.ref_path.as_str()) {
            Ok(t) => t,
            Err(e) => {
                return Err(e);
            },
        };
        let base = match self.bank.get(&target) {
            Some(p) => p.clone(),
            None => {
                return Err(
                    SchemaError::PropertyRef(
                        PropertyRefError::TargetPropertyNotFoundInBank { reference: copy_text(entry.ref_path.as_str()) },
                    ),
                );
            },
        };
        let optionality = RefExpander::optionality(base.optionality(), entry.required);
        let multiplicity = RefExpander::multiplicity(base.multiplicity(), entry.multi);
        let spec = match RefExpander::spec(base.spec(), name, entry) {
            Ok(s) => s,
            Err(e) => {
                return Err(e);
            },
        };
        Ok(Property::new(base.id(), optionality, multiplicity, spec))
    }

    /// Expands every reference of a schema, in order, stopping at the first
    /// failure. On success the map holds each name's expansion (a later
    /// entry with the same name wins).
    pub fn expand_properties(&self, properties: &Vec<(PropertyName, RawPropertyRef)>) -> (r: Result<PropertyMap, SchemaError>)
        ensures
            r is Ok <==> forall|i: int| 0 <= i < properties@.len() ==> expands_ok(
                self.spec_bank().spec_properties()@,
                #[trigger] properties@[i].1,
            ),
            r matches Ok(m) ==> m.wf() && exists|ps: Seq<Property>| #[trigger] expanded_as(
                self.spec_bank().spec_properties()@,
                properties@,
                ps,
                m@,
            ),
            r matches Err(e) ==> exists|i: int| {
                &&& 0 <= i < properties@.len()
                &&& #[trigger] expansion(self.spec_bank().spec_properties()@, properties@[i].1, Err::<Property, SchemaError>(e))
                &&& forall|j: int| 0 <= j < i ==> expands_ok(self.spec_bank().spec_properties()@, #[trigger] properties@[j].1)
            },
    {
        let ghost bank = self.spec_bank().spec_properties()@;
        let mut expanded = PropertyMap::new();
        let mut done: Vec<Property> = Vec::new();
        let mut i: usize = 0;
        while i < properties.len()
            invariant
                0 <= i <= properties@.len(),
                bank == self.spec_bank().spec_properties()@,
                expanded.wf(),
                done@.len() == i,
                forall|j: int| 0 <= j < i ==> #[trigger] expansion(bank, properties@[j].1, Ok::<Property, SchemaError>(done@[j])),
                expanded@ == pairs_to_map(Seq::new(i as nat, |j: int| (properties@[j].0@, done@[j]))),
            decreases properties@.len() - i,
        {
            let (name, entry) = (&properties[i].0, &properties[i].1);
            match self.expand_property(name, entry) {
                Ok(prop) => {
                    let ghost before = Seq::new(i as nat, |j: int| (properties@[j].0@, done@[j]));
                    expanded.insert(name.clone(), prop.clone());
                    done.push(prop);
                    proof {
                        let after = Seq::new((i + 1) as nat, |j: int| (properties@[j].0@, done@[j]));
                        assert(after.drop_last() =~= before);
                        assert(after.last() == (name@, prop));
                    }
                },
                Err(e) => {
                    proof {
                        assert forall|j: int| 0 <= j < i implies expands_ok(bank, #[trigger] properties@[j].1) by {
                            assert(expansion(bank, properties@[j].1, Ok::<Property, SchemaError>(done@[j])));
                        }
                    }
                    let r: Result<PropertyMap, SchemaError> = Err(e);
                    proof {
                        assert(expansion(bank, properties@[i as int].1, Err::<Property, SchemaError>(r->Err_0)));
                        assert(!expands_ok(bank, properties@[i as int].1));
                    }
                    return r;
                },
            }
            i = i + 1;
        }
        proof {
            assert forall|j: int| 0 <= j < properties@.len() implies expands_ok(bank, #[trigger] properties@[j].1) by {
                assert(expansion(bank, properties@[j].1, Ok::<Property, SchemaError>(done@[j])));
            }
        }
        proof {
            assert(expanded_as(bank, properties@, done@, expanded@));
        }
        Ok(expanded)
    }
}


/// The value a reference's override leaves: the override when one is
/// given, else the base's value.
pub open spec fn given_or_base(given: Option<String>, base: Option<String>) -> Option<String> {
    if given is Some {
        given
    } else {
        base
    }
}

/// What applying a reference's same-kind overrides gives
/// (`apply_same_kind_overrides`): the kind is kept; a string's pattern, a
/// date's format and a file's directory and class are the reference's
/// where it gives one and the base's where it does not; a boolean or a
/// number is left as it is.
pub proof fn lemma_same_kind_overrides(base: PropertySpec, r: RawPropertyRef, normalize: bool, s: PropertySpec)
    requires
        s == overridden_spec(base, r, normalize),
    ensures
        base is String ==> s is String && s->String_0.pattern == given_or_base(r.string.pattern, base->String_0.pattern),
        base is String && r.string.options is None ==> s->String_0.options == base->String_0.options,
        base is String && !normalize && r.string.options is Some ==> s->String_0.options == Some(
            string_options_of(r.string.options->0),
        ),
        base is String && normalize && r.string.options is Some ==> s->String_0.options == (if option_values(
            r.string.options->0,
        ).len() == 0 {
            base->String_0.options
        } else {
            Some(string_options_of(r.string.options->0))
        }),
        base is Date ==> s is Date && s->Date_0.format == given_or_base(r.date.format, base->Date_0.format),
        base is File ==> s is File && s->File_0.directory == given_or_base(r.file.directory, base->File_0.directory)
            && s->File_0.file_class == given_or_base(r.file.file_class, base->File_0.file_class),
        base is Bool || base is Number ==> s == base,
{
}

/// A successful override of a base specification (`RefExpander::spec`,
/// `Dereferencer::apply_spec_overrides`) keeps its kind and takes each
/// given same-kind override: a reference's string pattern replaces the
/// base's pattern, which stays when the reference gives none.
pub proof fn lemma_spec_result_overrides(base: PropertySpec, r: RawPropertyRef, normalize: bool, res: Result<PropertySpec, SchemaError>)
    requires
        spec_result_ok(base, r, normalize, res),
        res is Ok,
    ensures
        base is String ==> res->Ok_0 is String && res->Ok_0->String_0.pattern == given_or_base(r.string.pattern, base->String_0.pattern),
        base is Date ==> res->Ok_0 is Date && res->Ok_0->Date_0.format == given_or_base(r.date.format, base->Date_0.format),
        base is File ==> res->Ok_0 is File && res->Ok_0->File_0.directory == given_or_base(r.file.directory, base->File_0.directory)
            && res->Ok_0->File_0.file_class == given_or_base(r.file.file_class, base->File_0.file_class),
{
    lemma_same_kind_overrides(base, r, normalize, res->Ok_0);
}

/// The bank property a reference names.
pub open spec fn ref_base(bank: Map<Seq<char>, Property>, entry: RawPropertyRef) -> Property {
    bank[ref_target(entry.ref_path@)->0]
}

/// An expanded reference (`RefExpander::expand_property`) takes its bank
/// property's identifier and kind, and each override it gives: its string
/// pattern replaces the bank's pattern, which stays when it gives none.
pub proof fn lemma_expansion_overrides(bank: Map<Seq<char>, Property>, entry: RawPropertyRef, p: Property)
    requires
        expansion(bank, entry, Ok::<Property, SchemaError>(p)),
    ensures
        ref_target(entry.ref_path@) is Some && bank.contains_key(ref_target(entry.ref_path@)->0),
        p.spec_id() == ref_base(bank, entry).spec_id(),
        ref_base(bank, entry).spec_spec() is String ==> p.spec_spec() is String && p.spec_spec()->String_0.pattern
            == given_or_base(entry.string.pattern, ref_base(bank, entry).spec_spec()->String_0.pattern),
        ref_base(bank, entry).spec_spec() is Date ==> p.spec_spec() is Date && p.spec_spec()->Date_0.format
            == given_or_base(entry.date.format, ref_base(bank, entry).spec_spec()->Date_0.format),
        ref_base(bank, entry).spec_spec() is File ==> p.spec_spec() is File && p.spec_spec()->File_0.directory
            == given_or_base(entry.file.directory, ref_base(bank, entry).spec_spec()->File_0.directory),
{
    lemma_same_kind_overrides(ref_base(bank, entry).spec_spec(), entry, true, p.spec_spec());
}

} // verus!
