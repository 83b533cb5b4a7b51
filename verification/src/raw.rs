//! Raw schema data as read from schema files: inline property definitions,
//! `$ref` pointers into the property bank with their overrides, and raw
//! schemas.

use vstd::prelude::*;

use crate::error::{PropertyRefError, SchemaError};
use crate::identifier::{valid_name, PropertyName};
use crate::text::{chars_of, copy_text, string_from_chars};

verus! {

/// The value type an inline property declares.
#[derive(Debug, Clone, Copy, PartialEq, Eq, Structural, Hash)]
pub enum RawPropertySpec {
    Bool,
    Number,
    String,
    Date,
    File,
}

/// An inline property definition.
#[derive(Debug, Clone, Copy, PartialEq, Eq, Structural)]
pub struct RawPropertyInline {
    pub required: bool,
    pub multi: bool,
    pub spec: RawPropertySpec,
}

/// One labelled option of a string property.
#[derive(Debug, Clone, PartialEq, Eq)]
pub struct RawOptionEntry {
    pub value: String,
    pub label: Option<String>,
}

/// The allowed values of a string property.
#[derive(Debug, Clone, PartialEq, Eq)]
pub enum RawOptions {
    /// Bare values.
    Plain(Vec<String>),
    /// Values in a meaningful order.
    Ordered(Vec<RawOptionEntry>),
    /// Values with display labels.
    Labeled(Vec<RawOptionEntry>),
}

/// The option values, in order.
pub open spec fn option_values(options: RawOptions) -> Seq<Seq<char>> {
    match options {
        RawOptions::Plain(items) => items@.map_values(|s: String| s@),
        RawOptions::Ordered(entries) => entries@.map_values(|e: RawOptionEntry| e.value@),
        RawOptions::Labeled(entries) => entries@.map_values(|e: RawOptionEntry| e.value@),
    }
}

/// Which numeric bounds an override sets (the bounds themselves are
/// floating-point values and stay outside this model).
#[derive(Debug, Clone, Copy, PartialEq, Eq, Structural)]
pub struct RawNumberSpec {
    pub has_min: bool,
    pub has_max: bool,
    pub has_step: bool,
}

/// String overrides.
#[derive(Debug, Clone, PartialEq, Eq)]
pub struct RawStringSpec {
    pub options: Option<RawOptions>,
    pub pattern: Option<String>,
}

/// Date overrides.
#[derive(Debug, Clone, PartialEq, Eq)]
pub struct RawDateSpec {
    pub format: Option<String>,
}

/// File overrides.
#[derive(Debug, Clone, PartialEq, Eq)]
pub struct RawFileSpec {
    pub directory: Option<String>,
    pub file_class: Option<String>,
}

/// A `$ref` pointer into the property bank with its overrides.
#[derive(Debug, Clone, PartialEq, Eq)]
pub struct RawPropertyRef {
    pub ref_path: String,
    pub required: Option<bool>,
    pub multi: Option<bool>,
    pub number: RawNumberSpec,
    pub string: RawStringSpec,
    pub date: RawDateSpec,
    pub file: RawFileSpec,
}

/// A property entry of a raw schema.
#[derive(Debug, Clone, PartialEq, Eq)]
pub enum RawProperty {
    Inline(RawPropertyInline),
    Ref(RawPropertyRef),
}

/// The format version a schema file declares (`$version`).
#[derive(Debug, Clone, PartialEq, Eq)]
pub struct RawSchemaVersion {
    pub text: String,
}

impl Default for RawSchemaVersion {
    /// The current format version, `1.0`.
    fn default() -> (v: RawSchemaVersion)
        ensures
            v.text@ == "1.0"@,
    {
        RawSchemaVersion { text: copy_text("1.0") }
    }
}

/// File timestamps of a raw schema (seconds since the Unix epoch), where
/// the file system reports them.
#[derive(Debug, Clone, Copy, PartialEq, Eq, Structural, Default)]
pub struct RawSchemaMetadata {
    pub created_at: Option<u64>,
    pub modified_at: Option<u64>,
}

/// A raw schema: format version, name, parent name, excluded names, named
/// properties, and file timestamps.
#[derive(Debug, Clone, PartialEq, Eq)]
pub struct RawSchema {
    pub version: RawSchemaVersion,
    pub name: String,
    pub extends: Option<String>,
    pub excludes: Vec<String>,
    pub properties: Vec<(String, RawProperty)>,
    pub metadata: RawSchemaMetadata,
}

/// The overrides of a reference set a numeric bound.
pub open spec fn has_number(r: RawPropertyRef) -> bool {
    r.number.has_min || r.number.has_max || r.number.has_step
}

/// The overrides of a reference set string options or a pattern.
pub open spec fn has_string(r: RawPropertyRef) -> bool {
    r.string.options is Some || r.string.pattern is Some
}

/// The overrides of a reference set a date format.
pub open spec fn has_date(r: RawPropertyRef) -> bool {
    r.date.format is Some
}

/// The overrides of a reference set a file directory or class.
pub open spec fn has_file(r: RawPropertyRef) -> bool {
    r.file.directory is Some || r.file.file_class is Some
}

/// Which kinds of override a reference carries: number, string, date, file.
pub fn override_kinds(r: &RawPropertyRef) -> (k: (bool, bool, bool, bool))
    ensures
        k.0 == has_number(*r),
        k.1 == has_string(*r),
        k.2 == has_date(*r),
        k.3 == has_file(*r),
{
    (
        r.number.has_min || r.number.has_max || r.number.has_step,
        r.string.options.is_some() || r.string.pattern.is_some(),
        r.date.format.is_some(),
        r.file.directory.is_some() || r.file.file_class.is_some(),
    )
}

/// The prefix of a property bank reference, `property_bank#/`.
pub open spec fn bank_ref_prefix() -> Seq<char> {
    "property_bank#/"@
}

/// The other accepted prefix of a property bank reference,
/// `#property_bank/`.
pub open spec fn bank_ref_prefix_alt() -> Seq<char> {
    "#property_bank/"@
}

/// `path` begins with `prefix`.
pub open spec fn starts_with(path: Seq<char>, prefix: Seq<char>) -> bool {
    path.len() >= prefix.len() && path.take(prefix.len() as int) == prefix
}

/// The property a bank reference names: the valid property name after the
/// `property_bank#/` or `#property_bank/` prefix.
pub open spec fn ref_target(path: Seq<char>) -> Option<Seq<char>> {
    let p = bank_ref_prefix();
    let q = bank_ref_prefix_alt();
    if starts_with(path, p) && valid_name(path.skip(p.len() as int)) {
        Some(path.skip(p.len() as int))
    } else if starts_with(path, q) && valid_name(path.skip(q.len() as int)) {
        Some(path.skip(q.len() as int))
    } else {
        None
    }
}

/// Whether `chars` begins with `prefix`.
fn begins_with(chars: &Vec<char>, prefix: &Vec<char>) -> (r: bool)
    ensures
        r == starts_with(chars@, prefix@),
{
    if chars.len() < prefix.len() {
        return false;
    }
    let mut i: usize = 0;
    while i < prefix.len()
        invariant
            0 <= i <= prefix@.len() <= chars@.len(),
            forall|j: int| 0 <= j < i ==> chars@[j] == prefix@[j],
        decreases prefix@.len() - i,
    {
        if chars[i] != prefix[i] {
            proof {
                assert(chars@.take(prefix@.len() as int)[i as int] != prefix@[i as int]);
            }
            return false;
        }
        i = i + 1;
    }
    proof {
        assert(chars@.take(prefix@.len() as int) =~= prefix@);
    }
    true
}

/// The name after `prefix` when `chars` begins with it and the rest is a
/// valid property name.
fn name_after(chars: &Vec<char>, prefix: &Vec<char>) -> (r: Option<PropertyName>)
    ensures
        (r is Some) == (starts_with(chars@, prefix@) && valid_name(chars@.skip(prefix@.len() as int))),
        r matches Some(n) ==> n@ == chars@.skip(prefix@.len() as int),
{
    if !begins_with(chars, prefix) {
        return None;
    }
    let rest = string_from_chars(chars, prefix.len(), chars.len());
    proof {
        assert(rest@ =~= chars@.skip(prefix@.len() as int));
    }
    match PropertyName::try_new(rest.as_str()) {
        Ok(n) => Some(n),
        Err(_) => None,
    }
}

/// The property name a bank reference points to.
pub fn parse_bank_ref(path: &str) -> (r: Result<PropertyName, SchemaError>)
    ensures
        r is Ok <==> ref_target(path@) is Some,
        r matches Ok(n) ==> n@ == ref_target(path@)->0,
        r matches Err(e) ==> e matches SchemaError::PropertyRef(
            PropertyRefError::MalformedBankReferencePath { reference },
        ) && reference@ == path@,
{
    let prefix = chars_of("property_bank#/");
    let alt = chars_of("#property_bank/");
    let chars = chars_of(path);
    match name_after(&chars, &prefix) {
        Some(n) => Ok(n),
        None => match name_after(&chars, &alt) {
            Some(n) => Ok(n),
            None => Err(SchemaError::PropertyRef(PropertyRefError::MalformedBankReferencePath { reference: copy_text(path) })),
        },
    }
}

} // verus!
