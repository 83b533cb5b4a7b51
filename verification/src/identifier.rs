//! Identity types of the schema domain: schema and property identifiers,
//! validated schema and property names, and vault-relative path keys.

use vstd::prelude::*;

use crate::error::{PropertyNameError, SchemaError, SchemaNameError};
use crate::hash::hex_digit;
use crate::text::{chars_of, copy_text, string_from_chars, text_equal, text_less, text_lt};

verus! {

// ─────────────────────────────────────────────────────────────────────────────
//  Identifiers
// ─────────────────────────────────────────────────────────────────────────────

/// Ten random bytes from the operating system (`getrandom::fill`).
///
/// Trusted: the bytes come from the system's random source, so nothing is
/// claimed of them; the call reports a failure of that source as an error.
#[verifier::external_body]
fn random_bytes() -> (r: Result<[u8; 10], String>) {
    let mut bytes = [0u8; 10];
    match getrandom::fill(&mut bytes) {
        Ok(()) => Ok(bytes),
        Err(e) => Err(e.to_string()),
    }
}

/// The UUID v7 layout of a millisecond timestamp and ten random bytes: the
/// low 48 bits of the timestamp, the version 7, twelve bits from the first
/// two bytes, the variant bits `10`, and 62 bits from the other eight.
pub open spec fn v7_value(millis: u64, b: Seq<u8>) -> int {
    (((millis as u128) % 0x1_0000_0000_0000u128) * 0x1_0000_0000_0000_0000_0000u128)
        + 0x7u128 * 0x1000_0000_0000_0000_0000u128
        + ((b[0] % 16) as u128) * 0x100_0000_0000_0000_0000u128
        + (b[1] as u128) * 0x1_0000_0000_0000_0000u128
        + ((b[2] % 64) as u128 + 0x80u128) * 0x100_0000_0000_0000u128
        + (b[3] as u128) * 0x1_0000_0000_0000u128
        + (b[4] as u128) * 0x100_0000_0000u128
        + (b[5] as u128) * 0x1_0000_0000u128
        + (b[6] as u128) * 0x100_0000u128
        + (b[7] as u128) * 0x1_0000u128
        + (b[8] as u128) * 0x100u128
        + (b[9] as u128)
}

/// `uuid::Builder::from_unix_timestamp_millis(millis, random)` as a `u128`.
///
/// Trusted: the builder lays the timestamp and the bytes out as
/// [`v7_value`] says (uuid's `encode_unix_timestamp_millis`), which puts
/// the version nibble 7 at bits 76..80 and the variant bits `10` at bits
/// 62..64.
#[verifier::external_body]
fn uuid_v7_value(millis: u64, random: &[u8; 10]) -> (value: u128)
    ensures
        value == v7_value(millis, random@),
        (value >> 76u128) & 0xfu128 == 7,
        (value >> 62u128) & 0x3u128 == 2,
{
    uuid::Builder::from_unix_timestamp_millis(millis, random).into_uuid().as_u128()
}

/// A fresh UUID v7 value made of the clock and ten random bytes, or the
/// failure of the random source.
fn fresh_v7() -> (r: Result<u128, IdError>)
    ensures
        r matches Ok(v) ==> (v >> 76u128) & 0xfu128 == 7 && (v >> 62u128) & 0x3u128 == 2,
{
    let millis = crate::clock::unix_now_millis();
    match random_bytes() {
        Ok(bytes) => Ok(uuid_v7_value(millis, &bytes)),
        Err(reason) => Err(IdError::RandomnessUnavailable { reason }),
    }
}

/// Why a fresh identifier could not be made.
#[derive(Debug, Clone, PartialEq, Eq)]
pub enum IdError {
    /// The operating system's random source failed.
    RandomnessUnavailable { reason: String },
}

/// The `i`-th hexadecimal digit of a 128-bit value, from the most
/// significant one.
pub open spec fn uuid_nibble(value: u128, i: int) -> u8 {
    ((value >> ((124 - 4 * i) as u128)) & 0xfu128) as u8
}

/// The lowercase hexadecimal digits `from..to` of a 128-bit value.
pub open spec fn uuid_digits(value: u128, from: int, to: int) -> Seq<char> {
    Seq::new((to - from) as nat, |k: int| hex_digit(uuid_nibble(value, from + k)))
}

/// Canonical hyphenated text of a UUID value: its 32 lowercase hexadecimal
/// digits, most significant first, grouped 8-4-4-4-12 by hyphens.
pub open spec fn uuid_text(value: u128) -> Seq<char> {
    uuid_digits(value, 0, 8) + seq!['-'] + uuid_digits(value, 8, 12) + seq!['-'] + uuid_digits(value, 12, 16)
        + seq!['-'] + uuid_digits(value, 16, 20) + seq!['-'] + uuid_digits(value, 20, 32)
}

/// `uuid::Uuid::from_u128(value)` rendered with `Display`.
///
/// Trusted: `from_u128` takes the value's big-endian bytes, and `Display`
/// writes the hyphenated lowercase form (`LowerHex` of `as_hyphenated`).
#[verifier::external_body]
fn uuid_to_string(value: u128) -> (s: String)
    ensures
        s@ == uuid_text(value),
{
    uuid::Uuid::from_u128(value).to_string()
}

/// Unique identifier of a schema (a time-ordered UUID v7).
#[derive(Debug, Clone, Copy, PartialEq, Eq, Structural, Hash, PartialOrd, Ord)]
pub struct SchemaId {
    value: u128,
}

impl SchemaId {
    /// The numeric value of this identifier.
    pub closed spec fn value(self) -> u128 {
        self.value
    }

    /// Identifiers are equal exactly when their values are.
    pub broadcast proof fn lemma_value_injective(a: SchemaId, b: SchemaId)
        ensures
            (#[trigger] a.value() == #[trigger] b.value()) == (a == b),
    {
    }

    /// Creates a fresh UUID v7 identifier from the clock and random bytes;
    /// fails only when the random source does.
    pub fn new() -> (r: Result<SchemaId, IdError>)
        ensures
            r matches Ok(id) ==> (id.value() >> 76u128) & 0xfu128 == 7 && (id.value() >> 62u128) & 0x3u128 == 2,
    {
        match fresh_v7() {
            Ok(value) => Ok(SchemaId { value }),
            Err(e) => Err(e),
        }
    }

    /// The identifier with the given UUID value.
    pub fn from_u128(value: u128) -> (id: SchemaId)
        ensures
            id.value() == value,
    {
        SchemaId { value }
    }

    /// The UUID value of this identifier.
    pub fn as_uuid_v7(&self) -> (v: u128)
        ensures
            v == self.value(),
    {
        self.value
    }

    /// The UUID value of this identifier.
    pub fn as_u128(&self) -> (v: u128)
        ensures
            v == self.value(),
    {
        self.value
    }

    /// Canonical hyphenated UUID text of this identifier.
    pub fn to_text(&self) -> (s: String)
        ensures
            s@ == uuid_text(self.value()),
    {
        uuid_to_string(self.value)
    }
}

/// Identifier of a property definition.
#[derive(Debug, Clone, Copy, PartialEq, Eq, Structural, Hash, PartialOrd, Ord)]
pub struct PropertyId {
    value: u128,
}

impl PropertyId {
    /// The numeric value of this identifier.
    pub closed spec fn value(self) -> u128 {
        self.value
    }

    /// Creates a fresh UUID v7 identifier from the clock and random bytes;
    /// fails only when the random source does.
    pub fn new() -> (r: Result<PropertyId, IdError>)
        ensures
            r matches Ok(id) ==> (id.value() >> 76u128) & 0xfu128 == 7 && (id.value() >> 62u128) & 0x3u128 == 2,
    {
        match fresh_v7() {
            Ok(value) => Ok(PropertyId { value }),
            Err(e) => Err(e),
        }
    }

    /// The identifier with the given UUID value.
    pub fn from_u128(value: u128) -> (id: PropertyId)
        ensures
            id.value() == value,
    {
        PropertyId { value }
    }

    /// The UUID value of this identifier.
    pub fn as_u128(&self) -> (v: u128)
        ensures
            v == self.value(),
    {
        self.value
    }

    /// Canonical hyphenated UUID text of this identifier.
    pub fn to_text(&self) -> (s: String)
        ensures
            s@ == uuid_text(self.value()),
    {
        uuid_to_string(self.value)
    }
}

// ─────────────────────────────────────────────────────────────────────────────
//  Name validation
// ─────────────────────────────────────────────────────────────────────────────

/// Maximum length of a schema or property name, in bytes.
pub const MAX_NAME_LEN: usize = 64;

/// Length of a text in UTF-8 bytes.
pub open spec fn utf8_len(s: Seq<char>) -> nat {
    vstd::utf8::encode_utf8(s).len()
}

/// Characters accepted in names: lowercase ASCII letters, ASCII digits, `_`
/// and `-`.
pub open spec fn is_name_char(c: char) -> bool {
    ('a' <= c && c <= 'z') || ('0' <= c && c <= '9') || c == '_' || c == '-'
}

/// `s` matches `^[a-z0-9_-]+$`.
pub open spec fn matches_name_pattern(s: Seq<char>) -> bool {
    s.len() > 0 && forall|i: int| 0 <= i < s.len() ==> is_name_char(#[trigger] s[i])
}

/// A valid schema or property name: non-empty, at most 64 bytes, and made
/// of `[a-z0-9_-]` only.
pub open spec fn valid_name(s: Seq<char>) -> bool {
    &&& s.len() > 0
    &&& utf8_len(s) <= MAX_NAME_LEN
    &&& matches_name_pattern(s)
}

/// `regex::Regex::new(pattern)` followed by `Regex::is_match(haystack)`.
///
/// Trusted: for the anchored character-class pattern `^[a-z0-9_-]+$` the
/// regex crate documents that the pattern compiles and that a haystack
/// matches exactly when it is a non-empty run of the listed characters (`$`
/// matches only at the end of the haystack).
#[verifier::external_body]
fn regex_is_match(pattern: &str, haystack: &str) -> (res: Result<bool, String>)
    requires
        pattern@ == "^[a-z0-9_-]+$"@,
    ensures
        res is Ok,
        res is Ok ==> (res->Ok_0 <==> matches_name_pattern(haystack@)),
{
    match regex::Regex::new(pattern) {
        Ok(re) => Ok(re.is_match(haystack)),
        Err(e) => Err(e.to_string()),
    }
}

/// Outcome of name validation, shared by schema and property names.
enum NameCheck {
    Valid,
    Empty,
    TooLong(usize),
    BadCharacters,
    RegexFailed(String),
}

fn check_name(name: &str) -> (r: NameCheck)
    ensures
        (r is Valid) == valid_name(name@),
        (r is Empty) == (name@.len() == 0),
        r matches NameCheck::TooLong(len) ==> name@.len() > 0 && len == utf8_len(name@) && len > MAX_NAME_LEN,
        (r is TooLong) == (name@.len() > 0 && utf8_len(name@) > MAX_NAME_LEN),
        (r is BadCharacters) == (name@.len() > 0 && utf8_len(name@) <= MAX_NAME_LEN
            && !matches_name_pattern(name@)),
        !(r is RegexFailed),
{
    if name.is_empty() {
        return NameCheck::Empty;
    }
    let len = name.as_bytes().len();
    if len > MAX_NAME_LEN {
        return NameCheck::TooLong(len);
    }
    match regex_is_match("^[a-z0-9_-]+$", name) {
        Ok(true) => NameCheck::Valid,
        Ok(false) => NameCheck::BadCharacters,
        Err(reason) => NameCheck::RegexFailed(reason),
    }
}

/// `e` is the error schema-name validation gives for the invalid `name`:
/// empty, then too long (in bytes), then bad characters.
pub open spec fn is_schema_name_error(e: SchemaError, name: Seq<char>) -> bool {
    if name.len() == 0 {
        e matches SchemaError::SchemaName(SchemaNameError::NameIsEmpty)
    } else if utf8_len(name) > MAX_NAME_LEN {
        e matches SchemaError::SchemaName(SchemaNameError::NameExceedsMaxLength { len, max })
            && len == utf8_len(name) && max == MAX_NAME_LEN
    } else {
        e matches SchemaError::SchemaName(SchemaNameError::ContainsInvalidCharacters { name: n })
            && n@ == name
    }
}

/// `e` is the error property-name validation gives for the invalid `name`:
/// empty, then too long (in bytes), then bad characters.
pub open spec fn is_property_name_error(e: SchemaError, name: Seq<char>) -> bool {
    if name.len() == 0 {
        e matches SchemaError::PropertyName(PropertyNameError::NameIsEmpty)
    } else if utf8_len(name) > MAX_NAME_LEN {
        e matches SchemaError::PropertyName(PropertyNameError::NameExceedsMaxLength { len, max })
            && len == utf8_len(name) && max == MAX_NAME_LEN
    } else {
        e matches SchemaError::PropertyName(PropertyNameError::ContainsInvalidCharacters { name: n })
            && n@ == name
    }
}

// ─────────────────────────────────────────────────────────────────────────────
//  SchemaName
// ─────────────────────────────────────────────────────────────────────────────

/// Validated schema name: non-empty, at most 64 bytes, `[a-z0-9_-]+`.
#[derive(Debug, PartialEq, Eq, Hash)]
pub struct SchemaName {
    name: String,
}

impl View for SchemaName {
    type V = Seq<char>;

    closed spec fn view(&self) -> Seq<char> {
        self.name@
    }
}

impl Clone for SchemaName {
    fn clone(&self) -> (r: Self)
        ensures
            r@ == self@,
    {
        proof {
            use_type_invariant(self);
        }
        SchemaName { name: self.name.clone() }
    }
}

impl SchemaName {
    #[verifier::type_invariant]
    spec fn inv(self) -> bool {
        valid_name(self.name@)
    }

    /// Validates `name` and wraps it.
    ///
    /// Errors, checked in this order: `NameIsEmpty`, `NameExceedsMaxLength`
    /// (byte length over 64), `ContainsInvalidCharacters`.
    pub fn try_new(name: &str) -> (r: Result<SchemaName, SchemaError>)
        ensures
            (r is Ok) == valid_name(name@),
            r matches Ok(n) ==> n@ == name@,
            r matches Err(e) ==> is_schema_name_error(e, name@),
            (name@.len() == 0) ==> (r matches Err(SchemaError::SchemaName(SchemaNameError::NameIsEmpty))),
            (name@.len() > 0 && utf8_len(name@) > MAX_NAME_LEN) ==> (r matches Err(
                SchemaError::SchemaName(SchemaNameError::NameExceedsMaxLength { len, max }),
            ) && len == utf8_len(name@) && max == MAX_NAME_LEN),
            (name@.len() > 0 && utf8_len(name@) <= MAX_NAME_LEN && !matches_name_pattern(name@))
                ==> (r matches Err(SchemaError::SchemaName(
                SchemaNameError::ContainsInvalidCharacters { name: n },
            )) && n@ == name@),
    {
        match check_name(name) {
            NameCheck::Valid => Ok(SchemaName { name: copy_text(name) }),
            NameCheck::Empty => Err(SchemaError::SchemaName(SchemaNameError::NameIsEmpty)),
            NameCheck::TooLong(len) => Err(
                SchemaError::SchemaName(
                    SchemaNameError::NameExceedsMaxLength { len, max: MAX_NAME_LEN },
                ),
            ),
            NameCheck::BadCharacters => Err(
                SchemaError::SchemaName(
                    SchemaNameError::ContainsInvalidCharacters { name: copy_text(name) },
                ),
            ),
            NameCheck::RegexFailed(reason) => Err(
                SchemaError::SchemaName(SchemaNameError::RegexCompilationFailed { reason }),
            ),
        }
    }

    /// Derives a schema name from a path's file stem (its last component
    /// without the extension).
    pub fn try_from_path(path: &PathKey) -> (r: Result<SchemaName, SchemaError>)
        ensures
            (r is Ok) == (file_name(path@).len() > 0 && valid_name(file_stem(file_name(path@)))),
            r matches Ok(n) ==> n@ == file_stem(file_name(path@)),
    {
        match path.filename() {
            None => Err(
                SchemaError::SchemaName(
                    SchemaNameError::ContainsInvalidCharacters { name: copy_text(path.as_str()) },
                ),
            ),
            Some(filename) => {
                let stem = stem_of(&filename);
                SchemaName::try_new(stem.as_str())
            },
        }
    }

    /// The name as text.
    pub fn as_str(&self) -> (s: &str)
        ensures
            s@ == self@,
    {
        self.name.as_str()
    }

    /// Name equality.
    pub fn same(&self, other: &SchemaName) -> (r: bool)
        ensures
            r == (self@ == other@),
    {
        text_equal(self.name.as_str(), other.name.as_str())
    }

    /// `self` orders before `other` (byte-wise, as strings order).
    pub fn less(&self, other: &SchemaName) -> (r: bool)
        ensures
            r == text_lt(self@, other@),
    {
        text_less(self.name.as_str(), other.name.as_str())
    }
}

// ─────────────────────────────────────────────────────────────────────────────
//  PropertyName
// ─────────────────────────────────────────────────────────────────────────────

/// Validated property name: non-empty, at most 64 bytes, `[a-z0-9_-]+`.
#[derive(Debug, PartialEq, Eq, Hash)]
pub struct PropertyName {
    name: String,
}

impl View for PropertyName {
    type V = Seq<char>;

    closed spec fn view(&self) -> Seq<char> {
        self.name@
    }
}

impl Clone for PropertyName {
    fn clone(&self) -> (r: Self)
        ensures
            r@ == self@,
    {
        proof {
            use_type_invariant(self);
        }
        PropertyName { name: self.name.clone() }
    }
}

impl PropertyName {
    #[verifier::type_invariant]
    spec fn inv(self) -> bool {
        valid_name(self.name@)
    }

    /// Validates `name` and wraps it.
    ///
    /// Errors, checked in this order: `NameIsEmpty`, `NameExceedsMaxLength`
    /// (byte length over 64), `ContainsInvalidCharacters`.
    pub fn try_new(name: &str) -> (r: Result<PropertyName, SchemaError>)
        ensures
            (r is Ok) == valid_name(name@),
            r matches Ok(n) ==> n@ == name@,
            r matches Err(e) ==> is_property_name_error(e, name@),
            (name@.len() == 0) ==> (r matches Err(SchemaError::PropertyName(PropertyNameError::NameIsEmpty))),
            (name@.len() > 0 && utf8_len(name@) > MAX_NAME_LEN) ==> (r matches Err(
                SchemaError::PropertyName(PropertyNameError::NameExceedsMaxLength { len, max }),
            ) && len == utf8_len(name@) && max == MAX_NAME_LEN),
            (name@.len() > 0 && utf8_len(name@) <= MAX_NAME_LEN && !matches_name_pattern(name@))
                ==> (r matches Err(SchemaError::PropertyName(
                PropertyNameError::ContainsInvalidCharacters { name: n },
            )) && n@ == name@),
    {
        match check_name(name) {
            NameCheck::Valid => Ok(PropertyName { name: copy_text(name) }),
            NameCheck::Empty => Err(SchemaError::PropertyName(PropertyNameError::NameIsEmpty)),
            NameCheck::TooLong(len) => Err(
                SchemaError::PropertyName(
                    PropertyNameError::NameExceedsMaxLength { len, max: MAX_NAME_LEN },
                ),
            ),
            NameCheck::BadCharacters => Err(
                SchemaError::PropertyName(
                    PropertyNameError::ContainsInvalidCharacters { name: copy_text(name) },
                ),
            ),
            NameCheck::RegexFailed(reason) => Err(
                SchemaError::PropertyName(PropertyNameError::RegexCompilationFailed { reason }),
            ),
        }
    }

    /// The name as text (always a valid name).
    pub fn as_str(&self) -> (s: &str)
        ensures
            s@ == self@,
            valid_name(s@),
    {
        proof {
            use_type_invariant(self);
        }
        self.name.as_str()
    }

    /// Name equality.
    pub fn same(&self, other: &PropertyName) -> (r: bool)
        ensures
            r == (self@ == other@),
    {
        text_equal(self.name.as_str(), other.name.as_str())
    }

    /// `self` orders before `other` (byte-wise, as strings order).
    pub fn less(&self, other: &PropertyName) -> (r: bool)
        ensures
            r == text_lt(self@, other@),
    {
        text_less(self.name.as_str(), other.name.as_str())
    }
}

// ─────────────────────────────────────────────────────────────────────────────
//  PathKey
// ─────────────────────────────────────────────────────────────────────────────

/// Index of the last occurrence of `c` in `s`, or -1.
pub open spec fn last_index_of(s: Seq<char>, c: char) -> int
    decreases s.len(),
{
    if s.len() == 0 {
        -1
    } else if s.last() == c {
        s.len() - 1
    } else {
        last_index_of(s.drop_last(), c)
    }
}

/// The last `/`-separated component of a path.
pub open spec fn file_name(path: Seq<char>) -> Seq<char> {
    path.skip(last_index_of(path, '/') + 1)
}

/// A file name without its extension: the part before the last `.`, unless
/// that `.` is the first character (hidden files keep their whole name).
pub open spec fn file_stem(name: Seq<char>) -> Seq<char> {
    let dot = last_index_of(name, '.');
    if dot <= 0 {
        name
    } else {
        name.take(dot)
    }
}

proof fn lemma_last_index_of_bounds(s: Seq<char>, c: char)
    ensures
        -1 <= last_index_of(s, c) < s.len(),
        last_index_of(s, c) >= 0 ==> s[last_index_of(s, c)] == c,
    decreases s.len(),
{
    if s.len() > 0 && s.last() != c {
        lemma_last_index_of_bounds(s.drop_last(), c);
    }
}

fn find_last(chars: &Vec<char>, c: char) -> (r: Option<usize>)
    ensures
        (r is None) == (last_index_of(chars@, c) == -1),
        r matches Some(k) ==> k == last_index_of(chars@, c),
{
    let mut i: usize = chars.len();
    assert(chars@.take(i as int) =~= chars@);
    while i > 0
        invariant
            i <= chars@.len(),
            last_index_of(chars@, c) == last_index_of(chars@.take(i as int), c),
        decreases i,
    {
        proof {
            assert(chars@.take(i as int).drop_last() =~= chars@.take(i - 1));
        }
        if chars[i - 1] == c {
            return Some(i - 1);
        }
        i = i - 1;
    }
    None
}

/// Path of a file relative to the vault root, used as a storage key.
#[derive(Debug, PartialEq, Eq, Hash)]
pub struct PathKey {
    path: String,
}

/// Rejected path keys.
#[derive(Debug, Clone, PartialEq, Eq)]
pub enum PathKeyError {
    /// The path is empty.
    Empty,
}

impl View for PathKey {
    type V = Seq<char>;

    closed spec fn view(&self) -> Seq<char> {
        self.path@
    }
}

impl Clone for PathKey {
    fn clone(&self) -> (r: Self)
        ensures
            r@ == self@,
    {
        PathKey { path: self.path.clone() }
    }
}

impl PathKey {
    /// Wraps a non-empty path.
    pub fn try_new(path: &str) -> (r: Result<PathKey, PathKeyError>)
        ensures
            (r is Ok) == (path@.len() > 0),
            r matches Ok(k) ==> k@ == path@,
    {
        if path.is_empty() {
            Err(PathKeyError::Empty)
        } else {
            Ok(PathKey { path: copy_text(path) })
        }
    }

    /// The path as text.
    pub fn as_str(&self) -> (s: &str)
        ensures
            s@ == self@,
    {
        self.path.as_str()
    }

    /// Path equality.
    pub fn same(&self, other: &PathKey) -> (r: bool)
        ensures
            r == (self@ == other@),
    {
        text_equal(self.path.as_str(), other.path.as_str())
    }

    /// The last component of the path, if it is not empty.
    pub fn filename(&self) -> (r: Option<String>)
        ensures
            (r is Some) == (file_name(self@).len() > 0),
            r matches Some(s) ==> s@ == file_name(self@),
    {
        let chars = chars_of(self.path.as_str());
        proof {
            lemma_last_index_of_bounds(chars@, '/');
        }
        match find_last(&chars, '/') {
            Some(k) => {
                assert(k < chars@.len());
                if k + 1 >= chars.len() {
                    None
                } else {
                    Some(string_from_chars(&chars, k + 1, chars.len()))
                }
            },
            None => {
                if chars.len() == 0 {
                    None
                } else {
                    proof {
                        assert(chars@.skip(0) =~= chars@);
                    }
                    Some(string_from_chars(&chars, 0, chars.len()))
                }
            },
        }
    }
}

/// The file stem of `filename`.
fn stem_of(filename: &String) -> (r: String)
    ensures
        r@ == file_stem(filename@),
{
    let chars = chars_of(filename.as_str());
    proof {
        lemma_last_index_of_bounds(chars@, '.');
    }
    match find_last(&chars, '.') {
        Some(dot) if dot > 0 => string_from_chars(&chars, 0, dot),
        _ => string_from_chars(&chars, 0, chars.len()),
    }
}

/// A file name's extension: the part after the last `.`, when that `.` is
/// not the first character; empty otherwise.
pub open spec fn file_extension(name: Seq<char>) -> Seq<char> {
    let dot = last_index_of(name, '.');
    if dot <= 0 {
        Seq::empty()
    } else {
        name.skip(dot + 1)
    }
}

/// The last `/`-separated component of `path`.
pub fn file_name_of(path: &str) -> (r: String)
    ensures
        r@ == file_name(path@),
{
    let chars = chars_of(path);
    proof {
        lemma_last_index_of_bounds(chars@, '/');
    }
    match find_last(&chars, '/') {
        Some(k) => {
            assert(k < chars@.len());
            string_from_chars(&chars, k + 1, chars.len())
        },
        None => {
            proof {
                assert(chars@.skip(0) =~= chars@);
            }
            string_from_chars(&chars, 0, chars.len())
        },
    }
}

/// The extension of the file name `name`.
pub fn extension_of(name: &str) -> (r: String)
    ensures
        r@ == file_extension(name@),
{
    let chars = chars_of(name);
    proof {
        lemma_last_index_of_bounds(chars@, '.');
    }
    match find_last(&chars, '.') {
        Some(dot) if dot > 0 => string_from_chars(&chars, dot + 1, chars.len()),
        _ => String::new(),
    }
}

} // verus!
