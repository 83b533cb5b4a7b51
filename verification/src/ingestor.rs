//! Results of ingesting the property bank and schema files, and the
//! staleness decisions behind them: a timestamp check that needs no file
//! read, then a content-hash check on the bytes read.

use vstd::prelude::*;

use crate::bank::PropertyBank;
use crate::delta::{changed_names, differing_names};
use crate::hash::{blake3_digest, Blake3Hash};
use crate::identifier::{extension_of, file_extension, file_name, file_name_of, PropertyName, SchemaId};
use crate::property::{NameMap, PropertyMap};
use crate::raw::RawSchema;
use crate::sort::{has_text, name_texts, strictly_sorted_texts};

verus! {

// ─────────────────────────────────────────────────────────────────────────────
//  IngestResult
// ─────────────────────────────────────────────────────────────────────────────

/// A value loaded either from the cache (fresh) or from its file (stale).
#[derive(Debug, Clone, PartialEq, Eq)]
pub enum IngestResult<T> {
    /// Reused from the cache.
    Fresh(T),
    /// Read again from the file.
    Stale(T),
}

/// The value an ingest result carries.
pub open spec fn ingest_value<T>(r: IngestResult<T>) -> T {
    match r {
        IngestResult::Fresh(t) => t,
        IngestResult::Stale(t) => t,
    }
}

impl<T> IngestResult<T> {
    /// The value, whichever way it was loaded.
    pub fn into_inner(self) -> (t: T)
        ensures
            t == ingest_value(self),
    {
        match self {
            IngestResult::Fresh(t) => t,
            IngestResult::Stale(t) => t,
        }
    }

    /// Whether the value came from the cache.
    pub fn is_fresh(&self) -> (b: bool)
        ensures
            b == (*self is Fresh),
    {
        matches!(self, IngestResult::Fresh(_))
    }

    /// Whether the value was read again from its file.
    pub fn is_stale(&self) -> (b: bool)
        ensures
            b == (*self is Stale),
    {
        matches!(self, IngestResult::Stale(_))
    }

    /// The value, borrowed.
    pub fn as_ref(&self) -> (t: &T)
        ensures
            *t == ingest_value(*self),
    {
        match self {
            IngestResult::Fresh(t) => t,
            IngestResult::Stale(t) => t,
        }
    }
}

// ─────────────────────────────────────────────────────────────────────────────
//  PropertyBankResult
// ─────────────────────────────────────────────────────────────────────────────

/// How the property bank was ingested.
#[derive(Debug)]
pub enum PropertyBankResult {
    /// No cached bank existed: built from the file.
    New(PropertyBank),
    /// The cached bank is current.
    Fresh(PropertyBank),
    /// The file changed: the bank was updated, and these names changed.
    Stale { bank: PropertyBank, changed: Vec<PropertyName> },
}

/// The bank a result carries.
pub open spec fn result_bank(r: PropertyBankResult) -> PropertyBank {
    match r {
        PropertyBankResult::New(bank) => bank,
        PropertyBankResult::Fresh(bank) => bank,
        PropertyBankResult::Stale { bank, .. } => bank,
    }
}

impl PropertyBankResult {
    /// The bank, borrowed.
    pub fn bank(&self) -> (b: &PropertyBank)
        ensures
            *b == result_bank(*self),
    {
        match self {
            PropertyBankResult::New(bank) => bank,
            PropertyBankResult::Fresh(bank) => bank,
            PropertyBankResult::Stale { bank, .. } => bank,
        }
    }

    /// The bank, taken out of the result.
    pub fn into_bank(self) -> (b: PropertyBank)
        ensures
            b == result_bank(self),
    {
        match self {
            PropertyBankResult::New(bank) => bank,
            PropertyBankResult::Fresh(bank) => bank,
            PropertyBankResult::Stale { bank, .. } => bank,
        }
    }

    /// The names that changed: those of a stale result, else none.
    pub fn changed_properties(&self) -> (r: &[PropertyName])
        ensures
            match *self {
                PropertyBankResult::Stale { changed, .. } => r@ == changed@,
                _ => r@.len() == 0,
            },
    {
        match self {
            PropertyBankResult::Stale { changed, .. } => changed.as_slice(),
            _ => &[],
        }
    }

    /// Whether the cached bank was reused.
    pub fn is_fresh(&self) -> (b: bool)
        ensures
            b == (*self is Fresh),
    {
        matches!(self, PropertyBankResult::Fresh(_))
    }

    /// Whether the bank was built for the first time.
    pub fn is_new(&self) -> (b: bool)
        ensures
            b == (*self is New),
    {
        matches!(self, PropertyBankResult::New(_))
    }

    /// Whether the bank was updated from a changed file.
    pub fn is_stale(&self) -> (b: bool)
        ensures
            b == (*self is Stale),
    {
        matches!(self, PropertyBankResult::Stale { .. })
    }
}

// ─────────────────────────────────────────────────────────────────────────────
//  SchemaIngestResult
// ─────────────────────────────────────────────────────────────────────────────

/// How a schema file was ingested.
#[derive(Debug)]
pub enum SchemaIngestResult {
    /// Seen for the first time.
    New { id: SchemaId, raw: RawSchema },
    /// Unchanged; the cached expansion of its properties, if one was stored.
    Fresh { id: SchemaId, expanded: Option<PropertyMap> },
    /// Changed; the new raw schema and the previous expansion, if any.
    Stale { id: SchemaId, raw: RawSchema, expanded: Option<PropertyMap> },
}

/// The identifier of a result's schema.
pub open spec fn result_id(r: SchemaIngestResult) -> SchemaId {
    match r {
        SchemaIngestResult::New { id, .. } => id,
        SchemaIngestResult::Fresh { id, .. } => id,
        SchemaIngestResult::Stale { id, .. } => id,
    }
}

impl SchemaIngestResult {
    /// The schema's identifier.
    pub fn id(&self) -> (id: SchemaId)
        ensures
            id == result_id(*self),
    {
        match self {
            SchemaIngestResult::New { id, .. } => *id,
            SchemaIngestResult::Fresh { id, .. } => *id,
            SchemaIngestResult::Stale { id, .. } => *id,
        }
    }

    /// Whether the schema is new.
    pub fn is_new(&self) -> (b: bool)
        ensures
            b == (*self is New),
    {
        matches!(self, SchemaIngestResult::New { .. })
    }

    /// Whether the schema is unchanged.
    pub fn is_fresh(&self) -> (b: bool)
        ensures
            b == (*self is Fresh),
    {
        matches!(self, SchemaIngestResult::Fresh { .. })
    }

    /// Whether the schema changed.
    pub fn is_stale(&self) -> (b: bool)
        ensures
            b == (*self is Stale),
    {
        matches!(self, SchemaIngestResult::Stale { .. })
    }

    /// The raw schema of a new or changed schema.
    pub fn raw(&self) -> (r: Option<&RawSchema>)
        ensures
            match *self {
                SchemaIngestResult::New { raw, .. } => r == Some(&raw),
                SchemaIngestResult::Stale { raw, .. } => r == Some(&raw),
                SchemaIngestResult::Fresh { .. } => r is None,
            },
    {
        match self {
            SchemaIngestResult::New { raw, .. } => Some(raw),
            SchemaIngestResult::Stale { raw, .. } => Some(raw),
            SchemaIngestResult::Fresh { .. } => None,
        }
    }

    /// The cached expansion of a fresh or changed schema, if one was stored.
    pub fn expanded(&self) -> (r: Option<&PropertyMap>)
        ensures
            match *self {
                SchemaIngestResult::Fresh { expanded, .. } => r == match expanded {
                    Some(m) => Some(&m),
                    None => None::<&PropertyMap>,
                },
                SchemaIngestResult::Stale { expanded, .. } => r == match expanded {
                    Some(m) => Some(&m),
                    None => None::<&PropertyMap>,
                },
                SchemaIngestResult::New { .. } => r is None,
            },
    {
        match self {
            SchemaIngestResult::Fresh { expanded, .. } => expanded.as_ref(),
            SchemaIngestResult::Stale { expanded, .. } => expanded.as_ref(),
            SchemaIngestResult::New { .. } => None,
        }
    }
}

/// Everything one ingestion pass produced: the property bank, and each
/// schema file's result under its path.
#[derive(Debug)]
pub struct IngestorResults {
    pub property_bank: PropertyBankResult,
    pub schemas: Vec<(String, SchemaIngestResult)>,
}

// ─────────────────────────────────────────────────────────────────────────────
//  Staleness decisions
// ─────────────────────────────────────────────────────────────────────────────

/// What the cache recorded of a file's current version: its timestamps
/// (seconds since the Unix epoch, where known) and its content hash.
#[derive(Debug, Clone, Copy, PartialEq, Eq)]
pub struct CachedFile {
    pub created_at: Option<u64>,
    pub modified_at: Option<u64>,
    pub content_hash: Blake3Hash,
}

impl CachedFile {
    /// Whether the file still has the recorded timestamps.
    pub fn is_timestamp_match(&self, created_at: Option<u64>, modified_at: Option<u64>) -> (b: bool)
        ensures
            b == (self.created_at == created_at && self.modified_at == modified_at),
    {
        let created_same = match (self.created_at, created_at) {
            (Some(a), Some(b)) => a == b,
            (None, None) => true,
            _ => false,
        };
        let modified_same = match (self.modified_at, modified_at) {
            (Some(a), Some(b)) => a == b,
            (None, None) => true,
            _ => false,
        };
        created_same && modified_same
    }

    /// Whether `content` has the recorded content hash.
    pub fn is_content_match(&self, content: &[u8]) -> (b: bool)
        ensures
            b == (self.content_hash@ == blake3_digest(content@)),
    {
        let hash = Blake3Hash::compute(content);
        self.content_hash.same(&hash)
    }
}

/// The first step of ingesting a cached file, taken without reading it.
#[derive(Debug, Clone, Copy, PartialEq, Eq, Structural)]
pub enum CacheCheck {
    /// Nothing is cached: ingest the file as new.
    New,
    /// The timestamps match: reuse the cache.
    Fresh,
    /// Read the file and compare its content hash.
    ReadContent,
}

/// What the timestamps say: `New` when nothing is cached, `Fresh` when the
/// cache's current version has the file's timestamps, else `ReadContent`.
pub open spec fn timestamp_check(
    cached: bool,
    current: Option<CachedFile>,
    created_at: Option<u64>,
    modified_at: Option<u64>,
) -> CacheCheck {
    if !cached {
        CacheCheck::New
    } else if current matches Some(c) && c.created_at == created_at && c.modified_at == modified_at {
        CacheCheck::Fresh
    } else {
        CacheCheck::ReadContent
    }
}

/// The first staleness check: `cached` tells whether a view of the file is
/// cached, `current` is that view's current version, if it has one.
pub fn check_timestamps(
    cached: bool,
    current: Option<&CachedFile>,
    created_at: Option<u64>,
    modified_at: Option<u64>,
) -> (r: CacheCheck)
    ensures
        r == timestamp_check(cached, match current { Some(c) => Some(*c), None => None }, created_at, modified_at),
{
    if !cached {
        return CacheCheck::New;
    }
    match current {
        Some(c) => {
            if c.is_timestamp_match(created_at, modified_at) {
                CacheCheck::Fresh
            } else {
                CacheCheck::ReadContent
            }
        },
        None => CacheCheck::ReadContent,
    }
}

/// What the cache records of a file once it is read: its timestamps and
/// the hash of its bytes.
pub fn record_file(created_at: Option<u64>, modified_at: Option<u64>, content: &[u8]) -> (c: CachedFile)
    ensures
        c.created_at == created_at,
        c.modified_at == modified_at,
        c.content_hash@ == blake3_digest(content@),
{
    CachedFile { created_at, modified_at, content_hash: Blake3Hash::compute(content) }
}

/// A file recorded on one ingestion is reported fresh on the next while it
/// is unchanged: with the same timestamps the first check reuses the cache
/// without reading the file; with other timestamps, the same bytes pass the
/// content check.
pub proof fn lemma_recorded_file_stays_fresh(
    c: CachedFile,
    created_at: Option<u64>,
    modified_at: Option<u64>,
    content: Seq<u8>,
    created_again: Option<u64>,
    modified_again: Option<u64>,
)
    requires
        c.created_at == created_at,
        c.modified_at == modified_at,
        c.content_hash@ == blake3_digest(content),
    ensures
        timestamp_check(true, Some(c), created_at, modified_at) == CacheCheck::Fresh,
        timestamp_check(true, Some(c), created_again, modified_again) == CacheCheck::Fresh
            || timestamp_check(true, Some(c), created_again, modified_again) == CacheCheck::ReadContent,
        Some(c) matches Some(x) && x.content_hash@ == blake3_digest(content),
{
}

/// The second staleness check, on the bytes read: the cache is still
/// current when its current version has the content's hash.
pub fn content_unchanged(current: Option<&CachedFile>, content: &[u8]) -> (b: bool)
    ensures
        b == (current matches Some(c) && c.content_hash@ == blake3_digest(content@)),
{
    match current {
        Some(c) => c.is_content_match(content),
        None => false,
    }
}

/// The property names that changed in a stale property bank: every name
/// when no previous hashes were recorded, else the names whose hash is new
/// or differs (in order) followed by the names that are gone (sorted).
pub fn changed_bank_properties(
    previous_hashes: Option<&NameMap<Blake3Hash>>,
    new_hashes: &NameMap<Blake3Hash>,
) -> (r: Vec<PropertyName>)
    requires
        new_hashes.wf(),
        previous_hashes matches Some(p) ==> p.wf(),
    ensures
        previous_hashes is None ==> name_texts(r@) == new_hashes.pairs().map_values(
            |p: (Seq<char>, Blake3Hash)| p.0,
        ),
        previous_hashes matches Some(prev) ==> {
            let u = differing_names(prev@, new_hashes.pairs()).len() as int;
            &&& u <= r@.len()
            &&& name_texts(r@.take(u)) == differing_names(prev@, new_hashes.pairs())
            &&& strictly_sorted_texts(name_texts(r@.skip(u)))
            &&& forall|k: Seq<char>|
                has_text(r@.skip(u), k) <==> prev@.contains_key(k) && !new_hashes@.contains_key(k)
        },
{
    match previous_hashes {
        Some(prev) => changed_names(prev, new_hashes),
        None => {
            let r = new_hashes.names();
            assert(name_texts(r@) =~= new_hashes.pairs().map_values(|p: (Seq<char>, Blake3Hash)| p.0));
            r
        },
    }
}

// ─────────────────────────────────────────────────────────────────────────────
//  Schema file selection
// ─────────────────────────────────────────────────────────────────────────────

/// The schema files of `paths` with extension `ext`, in order, leaving out
/// the property bank file (whose file name is `bank_file_name`).
pub open spec fn files_with_extension(paths: Seq<String>, ext: Seq<char>, bank_file_name: Seq<char>) -> Seq<String> {
    paths.filter(|p: String| file_extension(file_name(p@)) == ext && file_name(p@) != bank_file_name)
}

/// The schema files among `paths`: the `json` ones, then `toml`, `yaml` and
/// `yml`, each group in path order, without the property bank file.
pub open spec fn schema_files(paths: Seq<String>, bank_file_name: Seq<char>) -> Seq<String> {
    files_with_extension(paths, "json"@, bank_file_name) + files_with_extension(paths, "toml"@, bank_file_name)
        + files_with_extension(paths, "yaml"@, bank_file_name) + files_with_extension(paths, "yml"@, bank_file_name)
}

/// The files of `paths` with extension `ext`, except the property bank file.
fn select_extension(paths: &[String], ext: &str, bank_file_name: &str, out: &mut Vec<String>)
    ensures
        final(out)@ == old(out)@ + files_with_extension(paths@, ext@, bank_file_name@),
{
    let ghost start = out@;
    let mut i: usize = 0;
    while i < paths.len()
        invariant
            0 <= i <= paths@.len(),
            out@ == start + files_with_extension(paths@.take(i as int), ext@, bank_file_name@),
        decreases paths@.len() - i,
    {
        let name = file_name_of(paths[i].as_str());
        let e = extension_of(name.as_str());
        proof {
            assert(paths@.take(i + 1).drop_last() =~= paths@.take(i as int));
            assert(paths@.take(i + 1).last() == paths@[i as int]);
            reveal(Seq::filter);
        }
        if crate::text::text_equal(e.as_str(), ext) && !crate::text::text_equal(name.as_str(), bank_file_name) {
            out.push(paths[i].clone());
            proof {
                assert(out@ =~= start + files_with_extension(paths@.take(i + 1), ext@, bank_file_name@));
            }
        }
        i = i + 1;
    }
    proof {
        assert(paths@.take(paths@.len() as int) =~= paths@);
    }
}

/// Selects the schema files among the listed files: those with a `json`,
/// `toml`, `yaml` or `yml` extension, grouped in that order, except the
/// property bank file.
pub fn select_schema_files(paths: &[String], bank_file_name: &str) -> (r: Vec<String>)
    ensures
        r@ == schema_files(paths@, bank_file_name@),
{
    let mut out: Vec<String> = Vec::new();
    select_extension(paths, "json", bank_file_name, &mut out);
    select_extension(paths, "toml", bank_file_name, &mut out);
    select_extension(paths, "yaml", bank_file_name, &mut out);
    select_extension(paths, "yml", bank_file_name, &mut out);
    proof {
        assert(out@ =~= schema_files(paths@, bank_file_name@));
    }
    out
}

} // verus!
