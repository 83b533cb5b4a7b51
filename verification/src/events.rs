//! Schema domain events and pipeline events, with the log records that
//! describe them and a collector that keeps them in arrival order.
//!
//! Timestamps are seconds since the Unix epoch.

use vstd::prelude::*;

use crate::error::SchemaError;
use crate::identifier::{PropertyId, PropertyName, SchemaId, SchemaName};
use crate::text::{copy_text, decimal, push_decimal};

verus! {

// ─────────────────────────────────────────────────────────────────────────────
//  Domain events
// ─────────────────────────────────────────────────────────────────────────────

/// A schema was created for the first time (a new ID was assigned).
#[derive(Debug, Clone, PartialEq, Eq)]
pub struct SchemaCreated {
    /// The schema's identifier.
    pub id: SchemaId,
    /// The schema's name.
    pub name: SchemaName,
    /// When the schema was created.
    pub timestamp: u64,
}

impl SchemaCreated {
    /// The event for `id` and `name` at `timestamp`.
    pub fn new(id: SchemaId, name: &SchemaName, timestamp: u64) -> (e: SchemaCreated)
        ensures
            e.id == id,
            e.name@ == name@,
            e.timestamp == timestamp,
    {
        SchemaCreated { id, name: name.clone(), timestamp }
    }
}

/// A schema was resolved (on every resolution pass).
#[derive(Debug, Clone, PartialEq, Eq)]
pub struct SchemaResolved {
    /// The schema's identifier.
    pub id: SchemaId,
    /// The schema's name.
    pub name: SchemaName,
    /// When the schema was resolved.
    pub timestamp: u64,
}

impl SchemaResolved {
    /// The event for `id` and `name` at `timestamp`.
    pub fn new(id: SchemaId, name: &SchemaName, timestamp: u64) -> (e: SchemaResolved)
        ensures
            e.id == id,
            e.name@ == name@,
            e.timestamp == timestamp,
    {
        SchemaResolved { id, name: name.clone(), timestamp }
    }
}

/// A schema was removed from the vault.
#[derive(Debug, Clone, PartialEq, Eq)]
pub struct SchemaDeleted {
    /// The deleted schema's identifier.
    pub id: SchemaId,
    /// The deleted schema's name.
    pub name: SchemaName,
    /// When the schema was deleted.
    pub timestamp: u64,
}

impl SchemaDeleted {
    /// The event for `id` and `name` at `timestamp`.
    pub fn new(id: SchemaId, name: &SchemaName, timestamp: u64) -> (e: SchemaDeleted)
        ensures
            e.id == id,
            e.name@ == name@,
            e.timestamp == timestamp,
    {
        SchemaDeleted { id, name: name.clone(), timestamp }
    }
}

/// A single new property was added to the property bank.
#[derive(Debug, Clone, PartialEq, Eq)]
pub struct PropertyRegistered {
    /// The property's identifier.
    pub id: PropertyId,
    /// The property's name.
    pub name: PropertyName,
    /// When the property was registered.
    pub timestamp: u64,
}

impl PropertyRegistered {
    /// The event for `id` and `name` at `timestamp`.
    pub fn new(id: PropertyId, name: &PropertyName, timestamp: u64) -> (e: PropertyRegistered)
        ensures
            e.id == id,
            e.name@ == name@,
            e.timestamp == timestamp,
    {
        PropertyRegistered { id, name: name.clone(), timestamp }
    }
}

/// The property bank was loaded or reloaded.
#[derive(Debug, Clone, Copy, PartialEq, Eq)]
pub struct PropertyBankLoaded {
    /// Number of properties in the bank after loading.
    pub property_count: usize,
    /// When the bank was loaded.
    pub timestamp: u64,
}

impl PropertyBankLoaded {
    /// The event for a bank of `property_count` properties at `timestamp`.
    pub fn new(property_count: usize, timestamp: u64) -> (e: PropertyBankLoaded)
        ensures
            e.property_count == property_count,
            e.timestamp == timestamp,
    {
        PropertyBankLoaded { property_count, timestamp }
    }
}

/// Domain events of the schema context.
#[derive(Debug, Clone, PartialEq, Eq)]
pub enum Events {
    /// A schema was created for the first time.
    SchemaCreated(SchemaCreated),
    /// A schema was resolved.
    SchemaResolved(SchemaResolved),
    /// A schema was deleted.
    SchemaDeleted(SchemaDeleted),
    /// A property was registered in the bank.
    PropertyRegistered(PropertyRegistered),
    /// The property bank was loaded.
    PropertyBankLoaded(PropertyBankLoaded),
}

// ─────────────────────────────────────────────────────────────────────────────
//  Pipeline events
// ─────────────────────────────────────────────────────────────────────────────

/// Why a schema or the property bank is stale.
#[derive(Debug, Clone, Copy, PartialEq, Eq, Structural)]
pub enum StalenessReason {
    /// Seen for the first time.
    New,
    /// The file's timestamps changed.
    Modified,
    /// The file's content hash changed.
    ContentChanged,
    /// The property bank the schema depends on changed.
    PropertyBankChanged,
}

/// Events of the schema loading pipeline: scan, staleness, resolution,
/// persistence, and errors.
#[derive(Debug, Clone, PartialEq, Eq)]
pub enum SchemaEvent {
    /// A directory scan began.
    ScanStarted { directory: String },
    /// A schema file was found.
    FileDiscovered { path: String, name: String },
    /// The scan finished.
    ScanCompleted { file_count: usize },
    /// A schema can be reused as cached.
    SchemaFresh { name: String },
    /// A schema must be reprocessed.
    SchemaStale { name: String, reason: StalenessReason },
    /// Resolution of a schema began.
    SchemaResolutionStarted { name: String },
    /// A schema was resolved.
    SchemaResolved { name: String, id: SchemaId },
    /// Resolution of all schemas finished.
    SchemaResolutionCompleted { schema_count: usize },
    /// A raw file was cached.
    RawFileCached { name: String },
    /// A schema was saved.
    SchemaPersisted { name: String, id: SchemaId },
    /// A file could not be parsed.
    ParseError { path: String, error: String },
    /// A schema failed validation.
    ValidationError { name: String, error: SchemaError },
    /// A schema failed resolution.
    ResolutionError { name: String, error: SchemaError },
}

/// Events of the property bank's lifecycle.
#[derive(Debug, Clone, Copy, PartialEq, Eq, Structural)]
pub enum PropertyBankEvent {
    /// The cached bank can be reused.
    Fresh,
    /// The bank must be reloaded.
    Stale { reason: StalenessReason },
    /// Resolution of the bank began.
    ResolutionStarted,
    /// The bank was resolved.
    Resolved { property_count: usize },
    /// The bank was saved.
    Persisted,
    /// A bank change made schemas stale.
    TriggeredCascade { affected_schema_count: usize },
}

// ─────────────────────────────────────────────────────────────────────────────
//  Log records
// ─────────────────────────────────────────────────────────────────────────────

/// Severity of a log record.
#[derive(Debug, Clone, Copy, PartialEq, Eq, Structural)]
pub enum LogLevel {
    /// Diagnostic detail.
    Debug,
    /// Normal progress.
    Info,
    /// Something needs attention.
    Warn,
    /// Something failed.
    Error,
}

/// A structured log record: its level, message, and named fields.
#[derive(Debug)]
pub struct LogRecord {
    /// Severity.
    pub level: LogLevel,
    /// Human-readable message.
    pub message: &'static str,
    /// Named field values, in order.
    pub fields: Vec<(&'static str, String)>,
}

/// The fields of a record as text pairs.
pub open spec fn field_texts(fields: Seq<(&'static str, String)>) -> Seq<(Seq<char>, Seq<char>)> {
    fields.map_values(|f: (&'static str, String)| (f.0@, f.1@))
}

/// The label of a staleness reason.
pub open spec fn staleness_text(reason: StalenessReason) -> Seq<char> {
    match reason {
        StalenessReason::New => "new"@,
        StalenessReason::Modified => "modified"@,
        StalenessReason::ContentChanged => "content_changed"@,
        StalenessReason::PropertyBankChanged => "property_bank_changed"@,
    }
}

/// The label of a staleness reason.
pub fn staleness_reason_str(reason: StalenessReason) -> (s: &'static str)
    ensures
        s@ == staleness_text(reason),
{
    match reason {
        StalenessReason::New => "new",
        StalenessReason::Modified => "modified",
        StalenessReason::ContentChanged => "content_changed",
        StalenessReason::PropertyBankChanged => "property_bank_changed",
    }
}

/// The level at which a property bank event is logged.
pub open spec fn bank_event_level(event: PropertyBankEvent) -> LogLevel {
    match event {
        PropertyBankEvent::Fresh => LogLevel::Debug,
        PropertyBankEvent::Stale { .. } => LogLevel::Warn,
        PropertyBankEvent::ResolutionStarted => LogLevel::Debug,
        PropertyBankEvent::Resolved { .. } => LogLevel::Info,
        PropertyBankEvent::Persisted => LogLevel::Debug,
        PropertyBankEvent::TriggeredCascade { .. } => LogLevel::Info,
    }
}

/// The message with which a property bank event is logged.
pub open spec fn bank_event_message(event: PropertyBankEvent) -> Seq<char> {
    match event {
        PropertyBankEvent::Fresh => "Property bank is fresh"@,
        PropertyBankEvent::Stale { .. } => "Property bank is stale"@,
        PropertyBankEvent::ResolutionStarted => "Property bank resolution started"@,
        PropertyBankEvent::Resolved { .. } => "Property bank resolved"@,
        PropertyBankEvent::Persisted => "Property bank persisted"@,
        PropertyBankEvent::TriggeredCascade { .. } => "Property bank change triggered schema cascade"@,
    }
}

/// The fields with which a property bank event is logged.
pub open spec fn bank_event_fields(event: PropertyBankEvent) -> Seq<(Seq<char>, Seq<char>)> {
    match event {
        PropertyBankEvent::Stale { reason } => seq![("reason"@, staleness_text(reason))],
        PropertyBankEvent::Resolved { property_count } => seq![("property_count"@, decimal(property_count as nat))],
        PropertyBankEvent::TriggeredCascade { affected_schema_count } => seq![
            ("affected_schema_count"@, decimal(affected_schema_count as nat)),
        ],
        _ => Seq::empty(),
    }
}

/// `n` in decimal.
fn decimal_text(n: usize) -> (s: String)
    ensures
        s@ == decimal(n as nat),
{
    let mut s = String::new();
    push_decimal(&mut s, n as u64);
    proof {
        assert(Seq::<char>::empty() + decimal(n as nat) =~= decimal(n as nat));
    }
    s
}

/// A record with no fields.
fn bare_record(level: LogLevel, message: &'static str) -> (r: LogRecord)
    ensures
        r.level == level,
        r.message == message,
        field_texts(r.fields@) == Seq::<(Seq<char>, Seq<char>)>::empty(),
{
    let r = LogRecord { level, message, fields: Vec::new() };
    assert(field_texts(r.fields@) =~= Seq::<(Seq<char>, Seq<char>)>::empty());
    r
}

/// A record with one field.
fn record_with(level: LogLevel, message: &'static str, key: &'static str, value: String) -> (r: LogRecord)
    ensures
        r.level == level,
        r.message == message,
        field_texts(r.fields@) == seq![(key@, value@)],
{
    let mut fields: Vec<(&'static str, String)> = Vec::new();
    fields.push((key, value));
    let r = LogRecord { level, message, fields };
    assert(field_texts(r.fields@) =~= seq![(key@, value@)]);
    r
}

/// A record with two fields.
fn record_with2(
    level: LogLevel,
    message: &'static str,
    key1: &'static str,
    value1: String,
    key2: &'static str,
    value2: String,
) -> (r: LogRecord)
    ensures
        r.level == level,
        r.message == message,
        field_texts(r.fields@) == seq![(key1@, value1@), (key2@, value2@)],
{
    let mut fields: Vec<(&'static str, String)> = Vec::new();
    fields.push((key1, value1));
    fields.push((key2, value2));
    let r = LogRecord { level, message, fields };
    assert(field_texts(r.fields@) =~= seq![(key1@, value1@), (key2@, value2@)]);
    r
}

// ─────────────────────────────────────────────────────────────────────────────
//  Schema event records
// ─────────────────────────────────────────────────────────────────────────────

/// The level at which a schema event is logged.
pub open spec fn schema_event_level(event: SchemaEvent) -> LogLevel {
    match event {
        SchemaEvent::ScanStarted { .. } => LogLevel::Info,
        SchemaEvent::FileDiscovered { .. } => LogLevel::Debug,
        SchemaEvent::ScanCompleted { .. } => LogLevel::Info,
        SchemaEvent::SchemaFresh { .. } => LogLevel::Debug,
        SchemaEvent::SchemaStale { .. } => LogLevel::Warn,
        SchemaEvent::SchemaResolutionStarted { .. } => LogLevel::Debug,
        SchemaEvent::SchemaResolved { .. } => LogLevel::Debug,
        SchemaEvent::SchemaResolutionCompleted { .. } => LogLevel::Info,
        SchemaEvent::RawFileCached { .. } => LogLevel::Debug,
        SchemaEvent::SchemaPersisted { .. } => LogLevel::Debug,
        SchemaEvent::ParseError { .. } => LogLevel::Error,
        SchemaEvent::ValidationError { .. } => LogLevel::Error,
        SchemaEvent::ResolutionError { .. } => LogLevel::Error,
    }
}

/// The message with which a schema event is logged.
pub open spec fn schema_event_message(event: SchemaEvent) -> Seq<char> {
    match event {
        SchemaEvent::ScanStarted { .. } => "Schema scan started"@,
        SchemaEvent::FileDiscovered { .. } => "Schema file discovered"@,
        SchemaEvent::ScanCompleted { .. } => "Schema scan completed"@,
        SchemaEvent::SchemaFresh { .. } => "Schema is fresh"@,
        SchemaEvent::SchemaStale { .. } => "Schema is stale"@,
        SchemaEvent::SchemaResolutionStarted { .. } => "Schema resolution started"@,
        SchemaEvent::SchemaResolved { .. } => "Schema resolved"@,
        SchemaEvent::SchemaResolutionCompleted { .. } => "Schema resolution completed"@,
        SchemaEvent::RawFileCached { .. } => "Raw file cached"@,
        SchemaEvent::SchemaPersisted { .. } => "Schema persisted"@,
        SchemaEvent::ParseError { .. } => "Schema parse error"@,
        SchemaEvent::ValidationError { .. } => "Schema validation error"@,
        SchemaEvent::ResolutionError { .. } => "Schema resolution error"@,
    }
}

/// The fields with which a schema event is logged. A schema error has no
/// text form in the library, so validation and resolution errors carry the
/// schema name only.
pub open spec fn schema_event_fields(event: SchemaEvent) -> Seq<(Seq<char>, Seq<char>)> {
    match event {
        SchemaEvent::ScanStarted { directory } => seq![("directory"@, directory@)],
        SchemaEvent::FileDiscovered { path, name } => seq![("path"@, path@), ("schema_name"@, name@)],
        SchemaEvent::ScanCompleted { file_count } => seq![("file_count"@, decimal(file_count as nat))],
        SchemaEvent::SchemaFresh { name } => seq![("schema_name"@, name@)],
        SchemaEvent::SchemaStale { name, reason } => seq![
            ("schema_name"@, name@),
            ("reason"@, staleness_text(reason)),
        ],
        SchemaEvent::SchemaResolutionStarted { name } => seq![("schema_name"@, name@)],
        SchemaEvent::SchemaResolved { name, id } => seq![
            ("schema_name"@, name@),
            ("schema_id"@, crate::identifier::uuid_text(id.value())),
        ],
        SchemaEvent::SchemaResolutionCompleted { schema_count } => seq![
            ("schema_count"@, decimal(schema_count as nat)),
        ],
        SchemaEvent::RawFileCached { name } => seq![("schema_name"@, name@)],
        SchemaEvent::SchemaPersisted { name, id } => seq![
            ("schema_name"@, name@),
            ("schema_id"@, crate::identifier::uuid_text(id.value())),
        ],
        SchemaEvent::ParseError { path, error } => seq![("path"@, path@), ("error"@, error@)],
        SchemaEvent::ValidationError { name, .. } => seq![("schema_name"@, name@)],
        SchemaEvent::ResolutionError { name, .. } => seq![("schema_name"@, name@)],
    }
}

// ─────────────────────────────────────────────────────────────────────────────
//  Handlers
// ─────────────────────────────────────────────────────────────────────────────

/// Describes each pipeline event as a structured log record.
#[derive(Debug, Clone, Copy, PartialEq, Eq)]
pub struct LoggingHandler {}

impl LoggingHandler {
    /// A logging handler.
    pub fn new() -> (h: LoggingHandler) {
        LoggingHandler {}
    }

    /// The record with which `event` is logged.
    pub fn property_bank_record(&self, event: &PropertyBankEvent) -> (r: LogRecord)
        ensures
            r.level == bank_event_level(*event),
            r.message@ == bank_event_message(*event),
            field_texts(r.fields@) == bank_event_fields(*event),
    {
        match *event {
            PropertyBankEvent::Fresh => bare_record(LogLevel::Debug, "Property bank is fresh"),
            PropertyBankEvent::Stale { reason } => {
                let value = copy_text(staleness_reason_str(reason));
                record_with(LogLevel::Warn, "Property bank is stale", "reason", value)
            },
            PropertyBankEvent::ResolutionStarted => bare_record(
                LogLevel::Debug,
                "Property bank resolution started",
            ),
            PropertyBankEvent::Resolved { property_count } => record_with(
                LogLevel::Info,
                "Property bank resolved",
                "property_count",
                decimal_text(property_count),
            ),
            PropertyBankEvent::Persisted => bare_record(LogLevel::Debug, "Property bank persisted"),
            PropertyBankEvent::TriggeredCascade { affected_schema_count } => record_with(
                LogLevel::Info,
                "Property bank change triggered schema cascade",
                "affected_schema_count",
                decimal_text(affected_schema_count),
            ),
        }
    }

    /// The record with which `event` is logged.
    pub fn schema_record(&self, event: &SchemaEvent) -> (r: LogRecord)
        ensures
            r.level == schema_event_level(*event),
            r.message@ == schema_event_message(*event),
            field_texts(r.fields@) == schema_event_fields(*event),
    {
        match event {
            SchemaEvent::ScanStarted { directory } => record_with(
                LogLevel::Info,
                "Schema scan started",
                "directory",
                copy_text(directory.as_str()),
            ),
            SchemaEvent::FileDiscovered { path, name } => record_with2(
                LogLevel::Debug,
                "Schema file discovered",
                "path",
                copy_text(path.as_str()),
                "schema_name",
                copy_text(name.as_str()),
            ),
            SchemaEvent::ScanCompleted { file_count } => record_with(
                LogLevel::Info,
                "Schema scan completed",
                "file_count",
                decimal_text(*file_count),
            ),
            SchemaEvent::SchemaFresh { name } => record_with(
                LogLevel::Debug,
                "Schema is fresh",
                "schema_name",
                copy_text(name.as_str()),
            ),
            SchemaEvent::SchemaStale { name, reason } => record_with2(
                LogLevel::Warn,
                "Schema is stale",
                "schema_name",
                copy_text(name.as_str()),
                "reason",
                copy_text(staleness_reason_str(*reason)),
            ),
            SchemaEvent::SchemaResolutionStarted { name } => record_with(
                LogLevel::Debug,
                "Schema resolution started",
                "schema_name",
                copy_text(name.as_str()),
            ),
            SchemaEvent::SchemaResolved { name, id } => record_with2(
                LogLevel::Debug,
                "Schema resolved",
                "schema_name",
                copy_text(name.as_str()),
                "schema_id",
                id.to_text(),
            ),
            SchemaEvent::SchemaResolutionCompleted { schema_count } => record_with(
                LogLevel::Info,
                "Schema resolution completed",
                "schema_count",
                decimal_text(*schema_count),
            ),
            SchemaEvent::RawFileCached { name } => record_with(
                LogLevel::Debug,
                "Raw file cached",
                "schema_name",
                copy_text(name.as_str()),
            ),
            SchemaEvent::SchemaPersisted { name, id } => record_with2(
                LogLevel::Debug,
                "Schema persisted",
                "schema_name",
                copy_text(name.as_str()),
                "schema_id",
                id.to_text(),
            ),
            SchemaEvent::ParseError { path, error } => record_with2(
                LogLevel::Error,
                "Schema parse error",
                "path",
                copy_text(path.as_str()),
                "error",
                copy_text(error.as_str()),
            ),
            SchemaEvent::ValidationError { name, .. } => record_with(
                LogLevel::Error,
                "Schema validation error",
                "schema_name",
                copy_text(name.as_str()),
            ),
            SchemaEvent::ResolutionError { name, .. } => record_with(
                LogLevel::Error,
                "Schema resolution error",
                "schema_name",
                copy_text(name.as_str()),
            ),
        }
    }
}

/// A metrics sink that records nothing yet.
#[derive(Debug, Clone, Copy, PartialEq, Eq)]
pub struct MetricsHandler {}

impl MetricsHandler {
    /// A metrics handler.
    pub fn new() -> (h: MetricsHandler) {
        MetricsHandler {}
    }
}

/// Keeps every pipeline event it is handed, in arrival order.
#[derive(Debug)]
pub struct EventCollector {
    schema_events: Vec<SchemaEvent>,
    property_bank_events: Vec<PropertyBankEvent>,
}

impl EventCollector {
    /// The schema events collected so far.
    pub closed spec fn spec_schema_events(&self) -> Seq<SchemaEvent> {
        self.schema_events@
    }

    /// The property bank events collected so far.
    pub closed spec fn spec_property_bank_events(&self) -> Seq<PropertyBankEvent> {
        self.property_bank_events@
    }

    /// An empty collector.
    pub fn new() -> (c: EventCollector)
        ensures
            c.spec_schema_events() == Seq::<SchemaEvent>::empty(),
            c.spec_property_bank_events() == Seq::<PropertyBankEvent>::empty(),
    {
        EventCollector { schema_events: Vec::new(), property_bank_events: Vec::new() }
    }

    /// Records a schema event.
    pub fn handle_schema(&mut self, event: SchemaEvent)
        ensures
            final(self).spec_schema_events() == old(self).spec_schema_events().push(event),
            final(self).spec_property_bank_events() == old(self).spec_property_bank_events(),
    {
        self.schema_events.push(event);
    }

    /// Records a property bank event.
    pub fn handle_property_bank(&mut self, event: PropertyBankEvent)
        ensures
            final(self).spec_property_bank_events() == old(self).spec_property_bank_events().push(event),
            final(self).spec_schema_events() == old(self).spec_schema_events(),
    {
        self.property_bank_events.push(event);
    }

    /// The schema events collected so far, in order.
    pub fn schema_events(&self) -> (r: &Vec<SchemaEvent>)
        ensures
            r@ == self.spec_schema_events(),
    {
        &self.schema_events
    }

    /// The property bank events collected so far, in order.
    pub fn property_bank_events(&self) -> (r: &Vec<PropertyBankEvent>)
        ensures
            r@ == self.spec_property_bank_events(),
    {
        &self.property_bank_events
    }

    /// Forgets every collected event.
    pub fn clear(&mut self)
        ensures
            final(self).spec_schema_events() == Seq::<SchemaEvent>::empty(),
            final(self).spec_property_bank_events() == Seq::<PropertyBankEvent>::empty(),
    {
        self.schema_events.clear();
        self.property_bank_events.clear();
    }

    /// Number of schema events collected.
    pub fn schema_event_count(&self) -> (n: usize)
        ensures
            n == self.spec_schema_events().len(),
    {
        self.schema_events.len()
    }

    /// Number of property bank events collected.
    pub fn property_bank_event_count(&self) -> (n: usize)
        ensures
            n == self.spec_property_bank_events().len(),
    {
        self.property_bank_events.len()
    }
}

} // verus!
