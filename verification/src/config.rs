//! Configuration with full defaults: the tool works with no config file at
//! all.
use crate::paths;
use crate::paths::{copy_of, expand_tilde_from, join, parent, user_home, PathError};
use crate::text;
use crate::text::{clone_opt, is_blank};
use vstd::prelude::*;
use vstd::string::*;
use vstd::utf8::*;

verus! {

/// The whole configuration.
#[derive(Debug, Clone, PartialEq)]
pub struct Config {
    pub source: SourceConfig,
    pub index: IndexConfig,
    pub embeddings: EmbeddingsConfig,
    pub service: ServiceConfig,
    pub retrieval: RetrievalConfig,
    pub privacy: PrivacyConfig,
}

/// Where messages and contacts are read from.
#[derive(Debug, Clone, PartialEq)]
pub struct SourceConfig {
    pub database_path: String,
    pub recent_overlap_rows: u32,
    /// macOS Contacts store by which handles are resolved to names. Empty
    /// disables contact names.
    pub contacts_path: String,
}

/// The index and how conversations are cut into chunks.
#[derive(Debug, Clone, PartialEq)]
pub struct IndexConfig {
    pub database_path: String,
    pub chunk_gap_minutes: u32,
    pub chunk_target_tokens: u32,
    pub chunk_overlap_messages: u32,
}

/// How chunk texts become vectors.
#[derive(Debug, Clone, PartialEq)]
pub struct EmbeddingsConfig {
    /// "embedded" (local ONNX model) or "openai-compatible".
    pub provider: String,
    pub model: String,
    pub batch_size: u32,
    /// Only used by the openai-compatible provider.
    pub base_url: Option<String>,
    /// Only used by the openai-compatible provider. Never shown.
    pub api_key: Option<String>,
}

/// The background agents.
#[derive(Debug, Clone, PartialEq)]
pub struct ServiceConfig {
    pub interval_seconds: u32,
    /// Bearer token required by `serve --http`. When unset, a random token is
    /// generated on first use and stored next to the index. Never shown.
    pub http_token: Option<String>,
}

/// How much a search considers and returns.
#[derive(Debug, Clone, Copy, PartialEq, Eq, Structural)]
pub struct RetrievalConfig {
    pub fts_candidates: u32,
    pub vector_candidates: u32,
    pub result_limit: u32,
    pub context_before: u32,
    pub context_after: u32,
}

/// Both toggles default to off: nothing leaves the machine and attachment
/// contents stay unindexed unless explicitly enabled.
#[derive(Debug, Clone, Copy, PartialEq, Eq, Structural)]
pub struct PrivacyConfig {
    pub allow_remote_embedding_endpoint: bool,
    pub index_attachment_contents: bool,
}

impl Default for SourceConfig {
    fn default() -> (r: Self)
        ensures
            r.database_path@ == "~/Library/Messages/chat.db"@,
            r.recent_overlap_rows == 5000,
            r.contacts_path@ == "~/Library/Application Support/AddressBook"@,
    {
        SourceConfig {
            database_path: "~/Library/Messages/chat.db".to_owned(),
            recent_overlap_rows: 5000,
            contacts_path: "~/Library/Application Support/AddressBook".to_owned(),
        }
    }
}

impl Default for IndexConfig {
    fn default() -> (r: Self)
        ensures
            r.database_path@ == "~/Library/Application Support/ai-imessage/index.sqlite"@,
            r.chunk_gap_minutes == 45,
            r.chunk_target_tokens == 750,
            r.chunk_overlap_messages == 3,
    {
        IndexConfig {
            database_path: "~/Library/Application Support/ai-imessage/index.sqlite".to_owned(),
            chunk_gap_minutes: 45,
            chunk_target_tokens: 750,
            chunk_overlap_messages: 3,
        }
    }
}

impl Default for EmbeddingsConfig {
    fn default() -> (r: Self)
        ensures
            r.provider@ == "embedded"@,
            r.model@ == "bge-small-en-v1.5"@,
            r.batch_size == 32,
            r.base_url is None,
            r.api_key is None,
    {
        EmbeddingsConfig {
            provider: "embedded".to_owned(),
            model: "bge-small-en-v1.5".to_owned(),
            batch_size: 32,
            base_url: None,
            api_key: None,
        }
    }
}

impl Default for ServiceConfig {
    fn default() -> (r: Self)
        ensures
            r.interval_seconds == 300,
            r.http_token is None,
    {
        ServiceConfig { interval_seconds: 300, http_token: None }
    }
}

impl Default for RetrievalConfig {
    fn default() -> (r: Self)
        ensures
            r.fts_candidates == 30,
            r.vector_candidates == 30,
            r.result_limit == 10,
            r.context_before == 5,
            r.context_after == 5,
    {
        RetrievalConfig {
            fts_candidates: 30,
            vector_candidates: 30,
            result_limit: 10,
            context_before: 5,
            context_after: 5,
        }
    }
}

impl Default for PrivacyConfig {
    fn default() -> (r: Self)
        ensures
            !r.allow_remote_embedding_endpoint,
            !r.index_attachment_contents,
    {
        PrivacyConfig { allow_remote_embedding_endpoint: false, index_attachment_contents: false }
    }
}

impl Default for Config {
    fn default() -> (r: Self)
        ensures
            call_ensures(SourceConfig::default, (), r.source),
            call_ensures(IndexConfig::default, (), r.index),
            call_ensures(EmbeddingsConfig::default, (), r.embeddings),
            call_ensures(ServiceConfig::default, (), r.service),
            call_ensures(RetrievalConfig::default, (), r.retrieval),
            call_ensures(PrivacyConfig::default, (), r.privacy),
    {
        Config {
            source: SourceConfig::default(),
            index: IndexConfig::default(),
            embeddings: EmbeddingsConfig::default(),
            service: ServiceConfig::default(),
            retrieval: RetrievalConfig::default(),
            privacy: PrivacyConfig::default(),
        }
    }
}

/// What is shown in place of a secret.
pub const REDACTED: &'static str = "<redacted>";

/// What is shown of an optional secret: that there is one.
pub open spec fn hidden(secret: Option<String>, shown: Option<String>) -> bool {
    match secret {
        Some(_) => shown matches Some(s) && s@ == REDACTED@,
        None => shown is None,
    }
}

fn mask(secret: &Option<String>) -> (r: Option<String>)
    ensures
        hidden(*secret, r),
{
    match secret {
        Some(_) => Some(REDACTED.to_owned()),
        None => None,
    }
}

/// The directory a path lies in; the path itself when it has no parent.
pub open spec fn dir_of(p: Seq<u8>) -> Seq<u8> {
    match paths::parent_of(p) {
        Some(d) => d,
        None => p,
    }
}

/// The directory a path lies in; the path itself when it has no parent.
pub fn containing_dir(p: &[u8]) -> (r: Vec<u8>)
    ensures
        r@ == dir_of(p@),
{
    match parent(p) {
        Some(d) => d,
        None => copy_of(p),
    }
}

impl Config {
    /// Path to the Apple Messages database, with `~` expanded to the
    /// home directory that was found.
    pub fn source_db_path_from(&self, home: Option<Vec<u8>>) -> (r: Result<Vec<u8>, PathError>)
        ensures
            match home {
                Some(h) => r matches Ok(p) && p@ == paths::expanded(self.source.database_path@, h@),
                None => r matches Err(e) && e == PathError::NoHome,
            },
    {
        expand_tilde_from(self.source.database_path.as_str(), home)
    }

    /// Absolute path to the Apple Messages database, with `~` expanded.
    pub fn source_db_path(&self) -> (r: Result<Vec<u8>, PathError>)
        ensures
            r matches Ok(p) ==> exists|home: Seq<u8>|
                p@ == #[trigger] paths::expanded(self.source.database_path@, home),
            r matches Err(e) ==> e == PathError::NoHome,
    {
        self.source_db_path_from(user_home())
    }

    /// Path to the Contacts store, with `~` expanded to the home directory that
    /// was found. `None` when contact names are disabled (blank path).
    pub fn contacts_path_from(&self, home: Option<Vec<u8>>) -> (r: Result<
        Option<Vec<u8>>,
        PathError,
    >)
        ensures
            text::blank(self.source.contacts_path@) ==> r matches Ok(None),
            !text::blank(self.source.contacts_path@) ==> (match home {
                Some(h) => (r matches Ok(Some(p)) && p@ == paths::expanded(
                    self.source.contacts_path@,
                    h@,
                )),
                None => r matches Err(e) && e == PathError::NoHome,
            }),
    {
        if is_blank(self.source.contacts_path.as_str()) {
            return Ok(None);
        }
        match expand_tilde_from(self.source.contacts_path.as_str(), home) {
            Ok(p) => Ok(Some(p)),
            Err(e) => Err(e),
        }
    }

    /// Absolute path to the Contacts store, with `~` expanded. `None` when
    /// contact names are disabled (blank path).
    pub fn contacts_path(&self) -> (r: Result<Option<Vec<u8>>, PathError>)
        ensures
            text::blank(self.source.contacts_path@) ==> r matches Ok(None),
            r matches Ok(Some(p)) ==> exists|home: Seq<u8>|
                p@ == #[trigger] paths::expanded(self.source.contacts_path@, home),
            r matches Ok(None) ==> text::blank(self.source.contacts_path@),
            r matches Err(e) ==> e == PathError::NoHome,
    {
        self.contacts_path_from(user_home())
    }

    /// Path to the destination index database, with `~` expanded to the
    /// home directory that was found.
    pub fn index_db_path_from(&self, home: Option<Vec<u8>>) -> (r: Result<Vec<u8>, PathError>)
        ensures
            match home {
                Some(h) => r matches Ok(p) && p@ == paths::expanded(self.index.database_path@, h@),
                None => r matches Err(e) && e == PathError::NoHome,
            },
    {
        expand_tilde_from(self.index.database_path.as_str(), home)
    }

    /// Absolute path to the destination index database, with `~` expanded.
    pub fn index_db_path(&self) -> (r: Result<Vec<u8>, PathError>)
        ensures
            r matches Ok(p) ==> exists|home: Seq<u8>|
                p@ == #[trigger] paths::expanded(self.index.database_path@, home),
            r matches Err(e) ==> e == PathError::NoHome,
    {
        self.index_db_path_from(user_home())
    }

    /// Directory that will hold the destination index, with `~` expanded to
    /// the home directory that was found.
    pub fn index_dir_from(&self, home: Option<Vec<u8>>) -> (r: Result<Vec<u8>, PathError>)
        ensures
            match home {
                Some(h) => r matches Ok(d) && d@ == dir_of(
                    paths::expanded(self.index.database_path@, h@),
                ),
                None => r matches Err(e) && e == PathError::NoHome,
            },
    {
        match self.index_db_path_from(home) {
            Ok(p) => Ok(containing_dir(p.as_slice())),
            Err(e) => Err(e),
        }
    }

    /// Directory that will hold the destination index.
    pub fn index_dir(&self) -> (r: Result<Vec<u8>, PathError>)
        ensures
            r matches Ok(d) ==> exists|home: Seq<u8>|
                d@ == dir_of(#[trigger] paths::expanded(self.index.database_path@, home)),
            r matches Err(e) ==> e == PathError::NoHome,
    {
        self.index_dir_from(user_home())
    }

    /// Where downloaded model weights live, with `~` expanded to the home
    /// directory that was found.
    pub fn model_cache_dir_from(&self, home: Option<Vec<u8>>) -> (r: Result<Vec<u8>, PathError>)
        ensures
            match home {
                Some(h) => r matches Ok(d) && d@ == paths::joined(
                    dir_of(paths::expanded(self.index.database_path@, h@)),
                    encode_utf8("models"@),
                ),
                None => r matches Err(e) && e == PathError::NoHome,
            },
    {
        match self.index_dir_from(home) {
            Ok(dir) => Ok(join(dir.as_slice(), "models".as_bytes())),
            Err(e) => Err(e),
        }
    }

    /// Downloaded model weights live next to the index they serve.
    pub fn model_cache_dir(&self) -> (r: Result<Vec<u8>, PathError>)
        ensures
            r matches Ok(d) ==> exists|home: Seq<u8>|
                d@ == paths::joined(
                    dir_of(#[trigger] paths::expanded(self.index.database_path@, home)),
                    encode_utf8("models"@),
                ),
            r matches Err(e) ==> e == PathError::NoHome,
    {
        self.model_cache_dir_from(user_home())
    }

    /// Whether `shown` is this configuration with its secrets hidden and
    /// everything else as it is.
    pub open spec fn shown_as(self, shown: Config) -> bool {
        &&& shown.source == self.source
        &&& shown.index == self.index
        &&& shown.embeddings.provider == self.embeddings.provider
        &&& shown.embeddings.model == self.embeddings.model
        &&& shown.embeddings.batch_size == self.embeddings.batch_size
        &&& shown.embeddings.base_url == self.embeddings.base_url
        &&& hidden(self.embeddings.api_key, shown.embeddings.api_key)
        &&& shown.service.interval_seconds == self.service.interval_seconds
        &&& hidden(self.service.http_token, shown.service.http_token)
        &&& shown.retrieval == self.retrieval
        &&& shown.privacy == self.privacy
    }

    /// A copy safe for display: secrets are replaced, never printed.
    pub fn redacted(&self) -> (r: Config)
        ensures
            self.shown_as(r),
    {
        Config {
            source: SourceConfig {
                database_path: self.source.database_path.clone(),
                recent_overlap_rows: self.source.recent_overlap_rows,
                contacts_path: self.source.contacts_path.clone(),
            },
            index: IndexConfig {
                database_path: self.index.database_path.clone(),
                chunk_gap_minutes: self.index.chunk_gap_minutes,
                chunk_target_tokens: self.index.chunk_target_tokens,
                chunk_overlap_messages: self.index.chunk_overlap_messages,
            },
            embeddings: EmbeddingsConfig {
                provider: self.embeddings.provider.clone(),
                model: self.embeddings.model.clone(),
                batch_size: self.embeddings.batch_size,
                base_url: clone_opt(&self.embeddings.base_url),
                api_key: mask(&self.embeddings.api_key),
            },
            service: ServiceConfig {
                interval_seconds: self.service.interval_seconds,
                http_token: mask(&self.service.http_token),
            },
            retrieval: self.retrieval,
            privacy: self.privacy,
        }
    }
}

/// A configuration plus where it came from.
#[derive(Debug, Clone)]
pub struct LoadedConfig {
    pub config: Config,
    /// The path of the file, as it is shown.
    pub path: String,
    pub from_file: bool,
}

/// Where the configuration is to be taken from.
#[derive(Debug, Clone, PartialEq, Eq)]
pub enum ConfigOrigin {
    /// Read this file; it is an error when it cannot be read.
    File(Vec<u8>),
    /// There is no file at this path: use the built-in defaults.
    Defaults(Vec<u8>),
}

/// Decides where the configuration comes from. An explicitly passed path must
/// exist. The default path is optional: missing means "use built-in
/// defaults".
pub fn config_origin(
    explicit: Option<&[u8]>,
    default_path: &[u8],
    default_exists: bool,
) -> (r: ConfigOrigin)
    ensures
        match (explicit, default_exists) {
            (Some(p), _) => r matches ConfigOrigin::File(q) && q@ == p@,
            (None, true) => r matches ConfigOrigin::File(q) && q@ == default_path@,
            (None, false) => r matches ConfigOrigin::Defaults(q) && q@ == default_path@,
        },
{
    match explicit {
        Some(p) => ConfigOrigin::File(copy_of(p)),
        None => if default_exists {
            ConfigOrigin::File(copy_of(default_path))
        } else {
            ConfigOrigin::Defaults(copy_of(default_path))
        },
    }
}

/// Two configurations that differ only in secrets look the same when shown:
/// no secret can be told from a redacted configuration.
pub proof fn law_redaction_hides_secrets(a: Config, b: Config, shown_a: Config, shown_b: Config)
    requires
        a.shown_as(shown_a),
        b.shown_as(shown_b),
        a.embeddings.api_key is Some <==> b.embeddings.api_key is Some,
        a.service.http_token is Some <==> b.service.http_token is Some,
    ensures
        text::opt_view(shown_a.embeddings.api_key) == text::opt_view(shown_b.embeddings.api_key),
        text::opt_view(shown_a.service.http_token) == text::opt_view(shown_b.service.http_token),
{
}

/// A configuration without secrets is shown as it is.
pub proof fn law_redaction_without_secrets_changes_nothing(c: Config, shown: Config)
    requires
        c.shown_as(shown),
        c.embeddings.api_key is None,
        c.service.http_token is None,
    ensures
        shown == c,
{
}

/// What a configuration shows of its secrets: that there is one, and nothing of
/// it; everything else is shown as it is.
pub proof fn law_what_redaction_shows(c: Config, shown: Config)
    requires
        c.shown_as(shown),
    ensures
        shown.embeddings.api_key is Some <==> c.embeddings.api_key is Some,
        shown.embeddings.api_key is Some ==> shown.embeddings.api_key->0@ == "<redacted>"@,
        shown.service.http_token is Some <==> c.service.http_token is Some,
        shown.service.http_token is Some ==> shown.service.http_token->0@ == "<redacted>"@,
        shown == (Config {
            embeddings: EmbeddingsConfig { api_key: shown.embeddings.api_key, ..c.embeddings },
            service: ServiceConfig { http_token: shown.service.http_token, ..c.service },
            ..c
        }),
{
}

/// The directory that holds a file, where there is one above it.
pub proof fn law_directory_of_a_path(p: Seq<u8>)
    ensures
        paths::parent_of(p) is Some ==> Some(dir_of(p)) == paths::parent_of(p),
        paths::parent_of(p) is None ==> dir_of(p) == p,
{
}

} // verus!
