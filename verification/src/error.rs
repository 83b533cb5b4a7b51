//! Error taxonomy of the schema domain, ordered by pipeline phase: file
//! access, parsing, versioning, name and shape validation, resolution and
//! inheritance, persistence, and orchestration.

use vstd::prelude::*;

use crate::identifier::{IdError, PathKey, SchemaId, SchemaName};
use crate::text::{decimal, push_decimal, push_str};

verus! {

/// Storage-layer failures.
#[derive(Debug, Clone, PartialEq, Eq)]
pub enum DbError {
    /// A write was rejected before it reached storage.
    Transaction(String),
    /// Stored records contradict each other.
    Corruption(String),
    /// A value could not be encoded.
    Serialization(String),
    /// A stored value could not be decoded.
    Deserialization(String),
}

/// Domain-level errors for in-memory schema validation and resolution.
#[derive(Debug, Clone, PartialEq, Eq)]
pub enum SchemaError {
    /// The schema name is invalid.
    SchemaName(SchemaNameError),
    /// A property name is invalid.
    PropertyName(PropertyNameError),
    /// A property specification is invalid.
    PropertySpec(PropertySpecError),
    /// A value failed validation against a specification.
    PropertyValue(PropertyValueError),
    /// A property reference is invalid or unresolved.
    PropertyRef(PropertyRefError),
    /// Property map constraints are violated.
    PropertyMap(PropertyMapError),
    /// Property building or overriding failed.
    PropertyBuilder(PropertyBuilderError),
    /// Inheritance resolution failed.
    Inheritance(SchemaInheritanceError),
    /// Schema resolution failed outside inheritance concerns.
    Resolution(SchemaResolutionError),
    /// A fresh identifier could not be made.
    Identifier(IdError),
}

/// Errors related to schema file reading.
#[derive(Debug, Clone, PartialEq, Eq)]
pub enum SchemaReadError {
    /// Failure at the filesystem layer; `reason` is the underlying error's
    /// message.
    Read { path: String, reason: String },
    /// A filename or basename is invalid.
    InvalidFileName { path: String, reason: String },
    /// Filesystem error not tied to a specific file.
    FileSystem { reason: String },
}

impl SchemaReadError {
    /// The message of the underlying error this one wraps, if any: only a
    /// filesystem-layer `Read` failure has one.
    pub fn source_message(&self) -> (r: Option<&String>)
        ensures
            (r is Some) == (self is Read),
            self matches SchemaReadError::Read { reason, .. } ==> r == Some(reason),
    {
        match self {
            SchemaReadError::Read { reason, .. } => Some(reason),
            _ => None,
        }
    }
}

/// Errors related to structured schema parsing.
#[derive(Debug, Clone, PartialEq, Eq)]
pub enum SchemaParseError {
    /// Failure at the parsing layer.
    Parse { path: String, reason: String },
    /// A cached view could not be deserialized.
    CachedView { path: String, reason: String },
    /// A cached view could not be serialized.
    Serialization { path: String, reason: String },
}

/// Schema ingestion error with file context.
#[derive(Debug, Clone, PartialEq, Eq)]
pub enum SchemaIngestionError {
    /// Filesystem access failed.
    Read(SchemaReadError),
    /// Structured parsing failed.
    Parse(SchemaParseError),
    /// Schema version validation failed.
    Version(SchemaVersionError),
    /// Repository access failed during ingestion.
    Repository(SchemaRepositoryError),
    /// Schema validation failed in a file.
    Schema { path: String, source: SchemaError },
}

/// Errors returned by schema repositories.
#[derive(Debug, Clone, PartialEq, Eq)]
pub enum SchemaRepositoryError {
    /// The storage layer failed.
    Storage(DbError),
    /// Domain validation failed while saving or loading.
    Domain(SchemaError),
    /// No schema has this ID.
    NotFoundById(SchemaId),
    /// No schema has this name.
    NotFoundByName(SchemaName),
    /// No schema has this path.
    NotFoundByPath(PathKey),
    /// The property bank has not been initialized.
    PropertyBankNotFound,
    /// A cached view has no version history.
    EmptyVersionHistory(PathKey),
}

/// High-level errors of schema loading.
#[derive(Debug, Clone, PartialEq, Eq)]
pub enum SchemaLoaderError {
    /// Ingestion (file I/O or parsing) failed.
    Ingestion(SchemaIngestionError),
    /// Repository access failed.
    Repository(SchemaRepositoryError),
    /// Schema resolution failed.
    Resolution(SchemaError),
}

/// Errors raised by property override operations.
#[derive(Debug, Clone, PartialEq, Eq)]
pub enum PropertyBuilderError {
    /// A `$ref` override changes the property type.
    OverridePropertyRefSpecTypeMismatch { expected: String, actual: String },
}

/// Schema version validation errors.
#[derive(Debug, Clone, PartialEq, Eq)]
pub enum SchemaVersionError {
    /// The schema version is unsupported.
    UnsupportedVersion { path: String, found: String, expected: String },
}

/// Schema name validation failures.
#[derive(Debug, Clone, PartialEq, Eq)]
pub enum SchemaNameError {
    /// The name is empty.
    NameIsEmpty,
    /// The name is longer than the maximum (in bytes).
    NameExceedsMaxLength { len: usize, max: usize },
    /// The name holds a character outside `[a-z0-9_-]`.
    ContainsInvalidCharacters { name: String },
    /// The validation pattern failed to compile.
    RegexCompilationFailed { reason: String },
}

/// Property name validation failures.
#[derive(Debug, Clone, PartialEq, Eq)]
pub enum PropertyNameError {
    /// The name is empty.
    NameIsEmpty,
    /// The name is longer than the maximum (in bytes).
    NameExceedsMaxLength { len: usize, max: usize },
    /// The name holds a character outside `[a-z0-9_-]`.
    ContainsInvalidCharacters { name: String },
    /// The validation pattern failed to compile.
    RegexCompilationFailed { reason: String },
}

/// Errors raised by property map constraints.
#[derive(Debug, Clone, PartialEq, Eq)]
pub enum PropertyMapError {
    /// A property name is defined more than once.
    DuplicatePropertyName { name: String },
    /// A property ID is reused for a different name.
    DuplicatePropertyId { id: String },
}

/// Property specification failures.
#[derive(Debug, Clone, PartialEq, Eq)]
pub enum PropertySpecError {
    /// A string specification is invalid.
    String(StringSpecError),
    /// A date specification is invalid.
    Date(DateSpecError),
    /// A file specification is invalid.
    File(FileSpecError),
    /// An archived specification failed to deserialize.
    ArchivedSpecDeserializationFailed { spec: String, reason: String },
}

/// String specification failures.
#[derive(Debug, Clone, PartialEq, Eq)]
pub enum StringSpecError {
    /// A regex pattern fails to compile.
    InvalidCustomRegexPattern { pattern: String, reason: String },
    /// An options list is empty.
    EmptyOptionsList,
    /// An option value does not match the pattern constraint.
    OptionValueViolatesPattern { value: String, pattern: String },
    /// An option value is empty or whitespace.
    EmptyOptionValue,
    /// An option order key is not an integer.
    OrderKeyNotAnInteger { key: String },
    /// An option order key is less than 1.
    OrderKeyLessThanOne { order: u32 },
}

/// Date specification failures.
#[derive(Debug, Clone, PartialEq, Eq)]
pub enum DateSpecError {
    /// The date format is missing.
    MissingFormatString,
    /// The date format is invalid.
    InvalidStrftimePattern { format: String },
}

/// File specification failures.
#[derive(Debug, Clone, PartialEq, Eq)]
pub enum FileSpecError {
    /// A directory constraint is invalid.
    MalformedDirectoryConstraint { path: String },
    /// A file class constraint is invalid.
    EmptyFileClassConstraint { class: String },
}

/// Property value validation failures.
#[derive(Debug, Clone, PartialEq, Eq)]
pub enum PropertyValueError {
    /// A value has the wrong type.
    IncorrectPrimitiveType { value: String, expected: String },
    /// A string value failed validation.
    String(StringValueValidationError),
    /// A date value failed validation.
    Date(DateValueValidationError),
    /// A file value failed validation.
    File(FileValueValidationError),
}

/// String value validation failures.
#[derive(Debug, Clone, PartialEq, Eq)]
pub enum StringValueValidationError {
    /// The value is not among the allowed options.
    ValueNotInAllowedOptions { value: String, allowed: Vec<String> },
    /// The value does not match the pattern.
    ValueViolatesPattern { value: String, pattern: String },
}

/// Date value validation failures.
#[derive(Debug, Clone, PartialEq, Eq)]
pub enum DateValueValidationError {
    /// The value does not match the date format.
    ValueDoesNotMatchFormat { value: String, format: String },
}

/// File value validation failures.
#[derive(Debug, Clone, PartialEq, Eq)]
pub enum FileValueValidationError {
    /// The file lies outside the allowed directory.
    FileOutsideAllowedDirectory { path: String, directory: String },
}

/// Errors of `$ref` property references.
#[derive(Debug, Clone, PartialEq, Eq)]
pub enum PropertyRefError {
    /// The reference is not of the form `#property_bank/<name>`.
    MalformedBankReferencePath { reference: String },
    /// The referenced property is not in the bank.
    TargetPropertyNotFoundInBank { reference: String },
    /// An override changes the type of the referenced property.
    TypeMismatch { expected: String, actual: String },
}

/// Errors of the schema inheritance structure.
#[derive(Debug, Clone, PartialEq, Eq)]
pub enum SchemaInheritanceError {
    /// A schema node is missing from the graph.
    MissingNode { id: SchemaId },
    /// The inheritance graph has a cycle.
    CycleDetected { nodes: Vec<SchemaId> },
    /// The inheritance graph is not directed.
    NotDirected,
    /// Inheritance depth exceeds the maximum.
    DepthExceeded { depth: usize, max: usize },
    /// A schema extends a parent that does not exist.
    ParentNotFound { name: String },
    /// A schema (transitively) extends itself.
    CircularInheritance { name: String },
}

/// Errors of final entity resolution.
#[derive(Debug, Clone, PartialEq, Eq)]
pub enum SchemaResolutionError {
    /// Two schemas have the same name.
    DuplicateSchemaName { name: String },
    /// A parent schema was not found.
    ParentNotFound { child: SchemaName, parent: SchemaName },
    /// The inheritance relation has a cycle.
    CycleDetected { schemas: Vec<SchemaName> },
}

/// The text of a property name error.
pub open spec fn property_name_error_text(e: PropertyNameError) -> Seq<char> {
    match e {
        PropertyNameError::NameIsEmpty => "property name cannot be empty"@,
        PropertyNameError::NameExceedsMaxLength { len, max } => "property name too long: "@ + decimal(len as nat)
            + " (max "@ + decimal(max as nat) + ")"@,
        PropertyNameError::ContainsInvalidCharacters { name } => "invalid property name: "@ + name@,
        PropertyNameError::RegexCompilationFailed { reason } => "invalid property name regex: "@ + reason@,
    }
}

impl PropertyNameError {
    /// The error as text.
    pub fn to_text(&self) -> (s: String)
        ensures
            s@ == property_name_error_text(*self),
    {
        let mut s = String::new();
        match self {
            PropertyNameError::NameIsEmpty => {
                push_str(&mut s, "property name cannot be empty");
            },
            PropertyNameError::NameExceedsMaxLength { len, max } => {
                push_str(&mut s, "property name too long: ");
                push_decimal(&mut s, *len as u64);
                push_str(&mut s, " (max ");
                push_decimal(&mut s, *max as u64);
                push_str(&mut s, ")");
            },
            PropertyNameError::ContainsInvalidCharacters { name } => {
                push_str(&mut s, "invalid property name: ");
                push_str(&mut s, name.as_str());
            },
            PropertyNameError::RegexCompilationFailed { reason } => {
                push_str(&mut s, "invalid property name regex: ");
                push_str(&mut s, reason.as_str());
            },
        }
        proof {
            reveal_strlit("property name cannot be empty");
            reveal_strlit("property name too long: ");
            reveal_strlit(" (max ");
            reveal_strlit(")");
            reveal_strlit("invalid property name: ");
            reveal_strlit("invalid property name regex: ");
            assert(s@ =~= property_name_error_text(*self));
        }
        s
    }
}

/// The text of a schema name error.
pub open spec fn schema_name_error_text(e: SchemaNameError) -> Seq<char> {
    match e {
        SchemaNameError::NameIsEmpty => "schema name cannot be empty"@,
        SchemaNameError::NameExceedsMaxLength { len, max } => "schema name too long: "@ + decimal(len as nat)
            + " (max "@ + decimal(max as nat) + ")"@,
        SchemaNameError::ContainsInvalidCharacters { name } => "invalid schema name: "@ + name@,
        SchemaNameError::RegexCompilationFailed { reason } => "invalid schema name regex: "@ + reason@,
    }
}

impl SchemaNameError {
    /// The error as text.
    pub fn to_text(&self) -> (s: String)
        ensures
            s@ == schema_name_error_text(*self),
    {
        let mut s = String::new();
        match self {
            SchemaNameError::NameIsEmpty => {
                push_str(&mut s, "schema name cannot be empty");
            },
            SchemaNameError::NameExceedsMaxLength { len, max } => {
                push_str(&mut s, "schema name too long: ");
                push_decimal(&mut s, *len as u64);
                push_str(&mut s, " (max ");
                push_decimal(&mut s, *max as u64);
                push_str(&mut s, ")");
            },
            SchemaNameError::ContainsInvalidCharacters { name } => {
                push_str(&mut s, "invalid schema name: ");
                push_str(&mut s, name.as_str());
            },
            SchemaNameError::RegexCompilationFailed { reason } => {
                push_str(&mut s, "invalid schema name regex: ");
                push_str(&mut s, reason.as_str());
            },
        }
        proof {
            reveal_strlit("schema name cannot be empty");
            reveal_strlit("schema name too long: ");
            reveal_strlit(" (max ");
            reveal_strlit(")");
            reveal_strlit("invalid schema name: ");
            reveal_strlit("invalid schema name regex: ");
            assert(s@ =~= schema_name_error_text(*self));
        }
        s
    }
}

/// The text of a name error.
pub open spec fn name_error_text(e: SchemaError) -> Seq<char> {
    match e {
        SchemaError::SchemaName(n) => schema_name_error_text(n),
        SchemaError::PropertyName(n) => property_name_error_text(n),
        _ => Seq::empty(),
    }
}

/// The text of a schema or property name error.
pub fn name_error_to_text(e: &SchemaError) -> (s: String)
    ensures
        s@ == name_error_text(*e),
{
    match e {
        SchemaError::SchemaName(n) => n.to_text(),
        SchemaError::PropertyName(n) => n.to_text(),
        _ => String::new(),
    }
}

// ─────────────────────────────────────────────────────────────────────────────
//  Conversions
// ─────────────────────────────────────────────────────────────────────────────

impl From<SchemaNameError> for SchemaError {
    fn from(e: SchemaNameError) -> (r: SchemaError) {
        SchemaError::SchemaName(e)
    }
}

impl vstd::std_specs::convert::FromSpecImpl<SchemaNameError> for SchemaError {
    open spec fn obeys_from_spec() -> bool {
        true
    }

    open spec fn from_spec(e: SchemaNameError) -> SchemaError {
        SchemaError::SchemaName(e)
    }
}

impl From<PropertyNameError> for SchemaError {
    fn from(e: PropertyNameError) -> (r: SchemaError) {
        SchemaError::PropertyName(e)
    }
}

impl vstd::std_specs::convert::FromSpecImpl<PropertyNameError> for SchemaError {
    open spec fn obeys_from_spec() -> bool {
        true
    }

    open spec fn from_spec(e: PropertyNameError) -> SchemaError {
        SchemaError::PropertyName(e)
    }
}

impl From<DbError> for SchemaRepositoryError {
    fn from(e: DbError) -> (r: SchemaRepositoryError) {
        SchemaRepositoryError::Storage(e)
    }
}

impl vstd::std_specs::convert::FromSpecImpl<DbError> for SchemaRepositoryError {
    open spec fn obeys_from_spec() -> bool {
        true
    }

    open spec fn from_spec(e: DbError) -> SchemaRepositoryError {
        SchemaRepositoryError::Storage(e)
    }
}

impl From<SchemaError> for SchemaLoaderError {
    fn from(e: SchemaError) -> (r: SchemaLoaderError) {
        SchemaLoaderError::Resolution(e)
    }
}

impl vstd::std_specs::convert::FromSpecImpl<SchemaError> for SchemaLoaderError {
    open spec fn obeys_from_spec() -> bool {
        true
    }

    open spec fn from_spec(e: SchemaError) -> SchemaLoaderError {
        SchemaLoaderError::Resolution(e)
    }
}

impl From<PropertySpecError> for SchemaError {
    fn from(e: PropertySpecError) -> (r: SchemaError) {
        SchemaError::PropertySpec(e)
    }
}

impl vstd::std_specs::convert::FromSpecImpl<PropertySpecError> for SchemaError {
    open spec fn obeys_from_spec() -> bool {
        true
    }

    open spec fn from_spec(e: PropertySpecError) -> SchemaError {
        SchemaError::PropertySpec(e)
    }
}

impl From<PropertyValueError> for SchemaError {
    fn from(e: PropertyValueError) -> (r: SchemaError) {
        SchemaError::PropertyValue(e)
    }
}

impl vstd::std_specs::convert::FromSpecImpl<PropertyValueError> for SchemaError {
    open spec fn obeys_from_spec() -> bool {
        true
    }

    open spec fn from_spec(e: PropertyValueError) -> SchemaError {
        SchemaError::PropertyValue(e)
    }
}

impl From<PropertyRefError> for SchemaError {
    fn from(e: PropertyRefError) -> (r: SchemaError) {
        SchemaError::PropertyRef(e)
    }
}

impl vstd::std_specs::convert::FromSpecImpl<PropertyRefError> for SchemaError {
    open spec fn obeys_from_spec() -> bool {
        true
    }

    open spec fn from_spec(e: PropertyRefError) -> SchemaError {
        SchemaError::PropertyRef(e)
    }
}

impl From<PropertyMapError> for SchemaError {
    fn from(e: PropertyMapError) -> (r: SchemaError) {
        SchemaError::PropertyMap(e)
    }
}

impl vstd::std_specs::convert::FromSpecImpl<PropertyMapError> for SchemaError {
    open spec fn obeys_from_spec() -> bool {
        true
    }

    open spec fn from_spec(e: PropertyMapError) -> SchemaError {
        SchemaError::PropertyMap(e)
    }
}

impl From<PropertyBuilderError> for SchemaError {
    fn from(e: PropertyBuilderError) -> (r: SchemaError) {
        SchemaError::PropertyBuilder(e)
    }
}

impl vstd::std_specs::convert::FromSpecImpl<PropertyBuilderError> for SchemaError {
    open spec fn obeys_from_spec() -> bool {
        true
    }

    open spec fn from_spec(e: PropertyBuilderError) -> SchemaError {
        SchemaError::PropertyBuilder(e)
    }
}

impl From<SchemaInheritanceError> for SchemaError {
    fn from(e: SchemaInheritanceError) -> (r: SchemaError) {
        SchemaError::Inheritance(e)
    }
}

impl vstd::std_specs::convert::FromSpecImpl<SchemaInheritanceError> for SchemaError {
    open spec fn obeys_from_spec() -> bool {
        true
    }

    open spec fn from_spec(e: SchemaInheritanceError) -> SchemaError {
        SchemaError::Inheritance(e)
    }
}

impl From<SchemaResolutionError> for SchemaError {
    fn from(e: SchemaResolutionError) -> (r: SchemaError) {
        SchemaError::Resolution(e)
    }
}

impl vstd::std_specs::convert::FromSpecImpl<SchemaResolutionError> for SchemaError {
    open spec fn obeys_from_spec() -> bool {
        true
    }

    open spec fn from_spec(e: SchemaResolutionError) -> SchemaError {
        SchemaError::Resolution(e)
    }
}

impl From<SchemaReadError> for SchemaIngestionError {
    fn from(e: SchemaReadError) -> (r: SchemaIngestionError) {
        SchemaIngestionError::Read(e)
    }
}

impl vstd::std_specs::convert::FromSpecImpl<SchemaReadError> for SchemaIngestionError {
    open spec fn obeys_from_spec() -> bool {
        true
    }

    open spec fn from_spec(e: SchemaReadError) -> SchemaIngestionError {
        SchemaIngestionError::Read(e)
    }
}

impl From<SchemaParseError> for SchemaIngestionError {
    fn from(e: SchemaParseError) -> (r: SchemaIngestionError) {
        SchemaIngestionError::Parse(e)
    }
}

impl vstd::std_specs::convert::FromSpecImpl<SchemaParseError> for SchemaIngestionError {
    open spec fn obeys_from_spec() -> bool {
        true
    }

    open spec fn from_spec(e: SchemaParseError) -> SchemaIngestionError {
        SchemaIngestionError::Parse(e)
    }
}

impl From<SchemaVersionError> for SchemaIngestionError {
    fn from(e: SchemaVersionError) -> (r: SchemaIngestionError) {
        SchemaIngestionError::Version(e)
    }
}

impl vstd::std_specs::convert::FromSpecImpl<SchemaVersionError> for SchemaIngestionError {
    open spec fn obeys_from_spec() -> bool {
        true
    }

    open spec fn from_spec(e: SchemaVersionError) -> SchemaIngestionError {
        SchemaIngestionError::Version(e)
    }
}

impl From<SchemaRepositoryError> for SchemaIngestionError {
    fn from(e: SchemaRepositoryError) -> (r: SchemaIngestionError) {
        SchemaIngestionError::Repository(e)
    }
}

impl vstd::std_specs::convert::FromSpecImpl<SchemaRepositoryError> for SchemaIngestionError {
    open spec fn obeys_from_spec() -> bool {
        true
    }

    open spec fn from_spec(e: SchemaRepositoryError) -> SchemaIngestionError {
        SchemaIngestionError::Repository(e)
    }
}

impl From<SchemaError> for SchemaRepositoryError {
    fn from(e: SchemaError) -> (r: SchemaRepositoryError) {
        SchemaRepositoryError::Domain(e)
    }
}

impl vstd::std_specs::convert::FromSpecImpl<SchemaError> for SchemaRepositoryError {
    open spec fn obeys_from_spec() -> bool {
        true
    }

    open spec fn from_spec(e: SchemaError) -> SchemaRepositoryError {
        SchemaRepositoryError::Domain(e)
    }
}

impl From<SchemaIngestionError> for SchemaLoaderError {
    fn from(e: SchemaIngestionError) -> (r: SchemaLoaderError) {
        SchemaLoaderError::Ingestion(e)
    }
}

impl vstd::std_specs::convert::FromSpecImpl<SchemaIngestionError> for SchemaLoaderError {
    open spec fn obeys_from_spec() -> bool {
        true
    }

    open spec fn from_spec(e: SchemaIngestionError) -> SchemaLoaderError {
        SchemaLoaderError::Ingestion(e)
    }
}

impl From<SchemaRepositoryError> for SchemaLoaderError {
    fn from(e: SchemaRepositoryError) -> (r: SchemaLoaderError) {
        SchemaLoaderError::Repository(e)
    }
}

impl vstd::std_specs::convert::FromSpecImpl<SchemaRepositoryError> for SchemaLoaderError {
    open spec fn obeys_from_spec() -> bool {
        true
    }

    open spec fn from_spec(e: SchemaRepositoryError) -> SchemaLoaderError {
        SchemaLoaderError::Repository(e)
    }
}

impl From<SchemaInheritanceError> for SchemaLoaderError {
    fn from(e: SchemaInheritanceError) -> (r: SchemaLoaderError) {
        SchemaLoaderError::Resolution(SchemaError::Inheritance(e))
    }
}

impl vstd::std_specs::convert::FromSpecImpl<SchemaInheritanceError> for SchemaLoaderError {
    open spec fn obeys_from_spec() -> bool {
        true
    }

    open spec fn from_spec(e: SchemaInheritanceError) -> SchemaLoaderError {
        SchemaLoaderError::Resolution(SchemaError::Inheritance(e))
    }
}

impl From<StringSpecError> for PropertySpecError {
    fn from(e: StringSpecError) -> (r: PropertySpecError) {
        PropertySpecError::String(e)
    }
}

impl vstd::std_specs::convert::FromSpecImpl<StringSpecError> for PropertySpecError {
    open spec fn obeys_from_spec() -> bool {
        true
    }

    open spec fn from_spec(e: StringSpecError) -> PropertySpecError {
        PropertySpecError::String(e)
    }
}

impl From<DateSpecError> for PropertySpecError {
    fn from(e: DateSpecError) -> (r: PropertySpecError) {
        PropertySpecError::Date(e)
    }
}

impl vstd::std_specs::convert::FromSpecImpl<DateSpecError> for PropertySpecError {
    open spec fn obeys_from_spec() -> bool {
        true
    }

    open spec fn from_spec(e: DateSpecError) -> PropertySpecError {
        PropertySpecError::Date(e)
    }
}

impl From<FileSpecError> for PropertySpecError {
    fn from(e: FileSpecError) -> (r: PropertySpecError) {
        PropertySpecError::File(e)
    }
}

impl vstd::std_specs::convert::FromSpecImpl<FileSpecError> for PropertySpecError {
    open spec fn obeys_from_spec() -> bool {
        true
    }

    open spec fn from_spec(e: FileSpecError) -> PropertySpecError {
        PropertySpecError::File(e)
    }
}

impl From<StringValueValidationError> for PropertyValueError {
    fn from(e: StringValueValidationError) -> (r: PropertyValueError) {
        PropertyValueError::String(e)
    }
}

impl vstd::std_specs::convert::FromSpecImpl<StringValueValidationError> for PropertyValueError {
    open spec fn obeys_from_spec() -> bool {
        true
    }

    open spec fn from_spec(e: StringValueValidationError) -> PropertyValueError {
        PropertyValueError::String(e)
    }
}

impl From<DateValueValidationError> for PropertyValueError {
    fn from(e: DateValueValidationError) -> (r: PropertyValueError) {
        PropertyValueError::Date(e)
    }
}

impl vstd::std_specs::convert::FromSpecImpl<DateValueValidationError> for PropertyValueError {
    open spec fn obeys_from_spec() -> bool {
        true
    }

    open spec fn from_spec(e: DateValueValidationError) -> PropertyValueError {
        PropertyValueError::Date(e)
    }
}

impl From<FileValueValidationError> for PropertyValueError {
    fn from(e: FileValueValidationError) -> (r: PropertyValueError) {
        PropertyValueError::File(e)
    }
}

impl vstd::std_specs::convert::FromSpecImpl<FileValueValidationError> for PropertyValueError {
    open spec fn obeys_from_spec() -> bool {
        true
    }

    open spec fn from_spec(e: FileValueValidationError) -> PropertyValueError {
        PropertyValueError::File(e)
    }
}

impl SchemaIngestionError {
    /// The schema error a validation failure wraps, if this is one.
    pub fn schema_source(&self) -> (r: Option<&SchemaError>)
        ensures
            (r is Some) == (self is Schema),
            self matches SchemaIngestionError::Schema { source, .. } ==> r == Some(source),
    {
        match self {
            SchemaIngestionError::Schema { source, .. } => Some(source),
            _ => None,
        }
    }
}

} // verus!
