//! Embedding providers: which one turns chunk texts into vectors, and what
//! goes into it and comes out of it.
//!
//! - `embedded`: a bundled ONNX model; everything stays on this machine.
//! - `openai-compatible`: a configured endpoint. Endpoints that are not on
//!   this machine need `privacy.allow_remote_embedding_endpoint`.
//! - `debug-hash`: deterministic bag-of-words vectors; no model, no network,
//!   no semantic quality.
use crate::config::Config;
use crate::digest;
use crate::digest::digest_bytes;
use crate::lists;
use crate::numeric;
use crate::numeric::decimal_u64;
use crate::order;
use crate::paths::copy_of;
use crate::text;
use crate::text::{
    chars_of, clone_opt, contains, split_at_last, split_whitespace, starts_with, str_eq, strip_prefix,
    substring, take_until, to_lowercase, trim_end_char,
};
use vstd::bytes::*;
use vstd::prelude::*;
use vstd::string::*;
use vstd::utf8::*;

verus! {

/// The models that the embedded provider has.
#[derive(Debug, Clone, Copy, PartialEq, Eq, Structural)]
pub enum EmbeddedModel {
    BgeSmallEnV15,
    AllMiniLmL6V2,
}

/// What turns texts into vectors.
#[derive(Debug, Clone, PartialEq, Eq)]
pub enum Provider {
    Embedded {
        model_name: String,
        which: EmbeddedModel,
        /// Where downloaded model weights are kept.
        cache_dir: Vec<u8>,
        batch_size: u32,
    },
    OpenAiCompatible { base_url: String, model: String, api_key: Option<String> },
    DebugHash,
}

/// Why there is no provider, or no vectors from it.
#[derive(Debug, Clone, PartialEq, Eq)]
pub enum EmbedError {
    MissingBaseUrl,
    RemoteEndpoint(String),
    UnknownProvider(String),
    UnsupportedModel(String),
    WrongCount { got: usize, wanted: usize },
}

impl EmbedError {
    /// The error in words.
    pub open spec fn words(self) -> Seq<char> {
        match self {
            EmbedError::MissingBaseUrl =>
                "embeddings.base_url is required for the openai-compatible provider"@,
            EmbedError::RemoteEndpoint(url) => "embeddings.base_url "@ + url@
                + " is not a loopback address; sending message content there requires privacy.allow_remote_embedding_endpoint = true"@,
            EmbedError::UnknownProvider(name) => "unknown embeddings.provider \""@ + name@
                + "\" (expected \"embedded\" or \"openai-compatible\")"@,
            EmbedError::UnsupportedModel(name) => "unsupported embedded model \""@ + name@
                + "\" (supported: bge-small-en-v1.5, all-MiniLM-L6-v2)"@,
            EmbedError::WrongCount { got, wanted } => "embeddings endpoint returned "@
                + numeric::decimal(got as nat) + " vectors for "@ + numeric::decimal(wanted as nat)
                + " inputs"@,
        }
    }

    /// The error in words.
    pub fn message(&self) -> (r: String)
        ensures
            r@ == self.words(),
    {
        match self {
            EmbedError::MissingBaseUrl =>
                "embeddings.base_url is required for the openai-compatible provider".to_owned(),
            EmbedError::RemoteEndpoint(url) => {
                let mut s = "embeddings.base_url ".to_owned();
                s.append(url.as_str());
                s.append(
                    " is not a loopback address; sending message content there requires privacy.allow_remote_embedding_endpoint = true",
                );
                s
            },
            EmbedError::UnknownProvider(name) => {
                let mut s = "unknown embeddings.provider \"".to_owned();
                s.append(name.as_str());
                s.append("\" (expected \"embedded\" or \"openai-compatible\")");
                s
            },
            EmbedError::UnsupportedModel(name) => {
                let mut s = "unsupported embedded model \"".to_owned();
                s.append(name.as_str());
                s.append("\" (supported: bge-small-en-v1.5, all-MiniLM-L6-v2)");
                s
            },
            EmbedError::WrongCount { got, wanted } => {
                let mut s = "embeddings endpoint returned ".to_owned();
                s.append(decimal_u64(*got as u64).as_str());
                s.append(" vectors for ");
                s.append(decimal_u64(*wanted as u64).as_str());
                s.append(" inputs");
                s
            },
        }
    }
}

/// The part of a URL behind its scheme and `//`, or behind a `//` that it begins
/// with; all of a text without `//`. What holds `//` further on only is no URL
/// that says whom to reach, and has no such part.
pub open spec fn after_scheme(url: Seq<char>) -> Seq<char> {
    let rest = url.skip(text::run_until(url, seq![':', '/', '\\', '?', '#']));
    if text::has_prefix(rest, "://"@) {
        rest.skip(3)
    } else if text::has_prefix(url, "//"@) {
        url.skip(2)
    } else if text::has_part(url, "//"@) {
        Seq::empty()
    } else {
        url
    }
}

/// The part of a URL that says whom to reach, and as whom: up to the path, the
/// query or the fragment. A backslash begins a path as a slash does.
pub open spec fn authority(url: Seq<char>) -> Seq<char> {
    text::until(after_scheme(url), seq!['/', '\\', '?', '#'])
}

/// An authority without its user and password, which end with the last `@`.
pub open spec fn without_user(a: Seq<char>) -> Seq<char> {
    match text::last_index(a, '@') {
        Some(i) => a.skip(i + 1),
        None => a,
    }
}

/// The host that a URL names. One in brackets may hold colons and goes up to
/// the closing bracket, any other up to the colon before a port.
pub open spec fn host(url: Seq<char>) -> Seq<char> {
    let rest = without_user(authority(url));
    if rest.len() > 0 && rest[0] == '[' {
        text::until(rest.drop_first(), seq![']'])
    } else {
        text::until(rest, seq![':'])
    }
}

/// Whether a URL names this machine.
pub open spec fn is_loopback(url: Seq<char>) -> bool {
    host(url) == "localhost"@ || host(url) == "127.0.0.1"@ || host(url) == "::1"@
}

fn scheme_removed(url: &str) -> (r: String)
    ensures
        r@ == after_scheme(url@),
{
    let chars = chars_of(url);
    let stops: [char; 5] = [':', '/', '\\', '?', '#'];
    proof {
        assert(stops@ =~= seq![':', '/', '\\', '?', '#']);
        text::lemma_run_until(url@, stops@);
    }
    let scheme = chars_of(take_until(&chars, &stops).as_str());
    let rest = substring(&chars, scheme.len(), chars.len());
    proof {
        assert(rest@ =~= url@.skip(scheme@.len() as int));
        reveal_strlit("://");
        reveal_strlit("//");
    }
    match strip_prefix(rest.as_str(), "://") {
        Some(s) => s,
        None => match strip_prefix(url, "//") {
            Some(s) => s,
            None => if contains(url, "//") {
                String::new()
            } else {
                url.to_owned()
            },
        },
    }
}

fn host_of(url: &str) -> (r: String)
    ensures
        r@ == host(url@),
{
    let rest = chars_of(scheme_removed(url).as_str());
    let stops: [char; 4] = ['/', '\\', '?', '#'];
    proof {
        assert(stops@ =~= seq!['/', '\\', '?', '#']);
    }
    let whole = take_until(&rest, &stops);
    let named = match split_at_last(whole.as_str(), '@') {
        Some((_, b)) => b,
        None => whole,
    };
    let chars = chars_of(named.as_str());
    if chars.len() > 0 && chars[0] == '[' {
        let inner = vstd::slice::slice_subrange(chars.as_slice(), 1, chars.len());
        let stops: [char; 1] = [']'];
        proof {
            assert(stops@ =~= seq![']']);
            assert(inner@ =~= chars@.drop_first());
        }
        take_until(inner, &stops)
    } else {
        let stops: [char; 1] = [':'];
        proof {
            assert(stops@ =~= seq![':']);
        }
        take_until(&chars, &stops)
    }
}

/// Whether a URL names this machine.
pub fn is_loopback_url(url: &str) -> (r: bool)
    ensures
        r == is_loopback(url@),
{
    let host = host_of(url);
    str_eq(host.as_str(), "localhost") || str_eq(host.as_str(), "127.0.0.1") || str_eq(
        host.as_str(),
        "::1",
    )
}

/// The embedded model of a name.
pub open spec fn model_named(name: Seq<char>) -> Option<EmbeddedModel> {
    if name == "bge-small-en-v1.5"@ {
        Some(EmbeddedModel::BgeSmallEnV15)
    } else if name == "all-MiniLM-L6-v2"@ {
        Some(EmbeddedModel::AllMiniLmL6V2)
    } else {
        None
    }
}

/// The embedded model of a name.
pub fn embedded_model(name: &str) -> (r: Option<EmbeddedModel>)
    ensures
        r == model_named(name@),
{
    if str_eq(name, "bge-small-en-v1.5") {
        Some(EmbeddedModel::BgeSmallEnV15)
    } else if str_eq(name, "all-MiniLM-L6-v2") {
        Some(EmbeddedModel::AllMiniLmL6V2)
    } else {
        None
    }
}

/// Whether an outcome is what a configuration asks for: each provider is
/// chosen by its name alone; the embedded one needs a model it has; the
/// openai-compatible one needs a URL, and one that names this machine unless
/// remote endpoints are allowed.
pub open spec fn is_choice(
    config: Config,
    model_cache_dir: Seq<u8>,
    r: Result<Provider, EmbedError>,
) -> bool {
    let e = config.embeddings;
    if e.provider@ == "embedded"@ {
        match model_named(e.model@) {
            Some(m) => r matches Ok(Provider::Embedded { model_name, which, cache_dir, batch_size })
                && model_name@ == e.model@ && which == m && cache_dir@ == model_cache_dir && batch_size == if e.batch_size == 0 {
                1
            } else {
                e.batch_size
            },
            None => r matches Err(EmbedError::UnsupportedModel(name)) && name@ == e.model@,
        }
    } else if e.provider@ == "openai-compatible"@ {
        match e.base_url {
            None => r == Err::<Provider, EmbedError>(EmbedError::MissingBaseUrl),
            Some(url) => if is_loopback(url@) || config.privacy.allow_remote_embedding_endpoint {
                r matches Ok(Provider::OpenAiCompatible { base_url, model, api_key }) && base_url@
                    == text::without_trailing(url@, '/') && model@ == e.model@ && api_key
                    == e.api_key
            } else {
                r matches Err(EmbedError::RemoteEndpoint(shown)) && shown@ == url@
            },
        }
    } else if e.provider@ == "debug-hash"@ {
        r == Ok::<Provider, EmbedError>(Provider::DebugHash)
    } else {
        r matches Err(EmbedError::UnknownProvider(name)) && name@ == e.provider@
    }
}

/// The configured provider. `model_cache_dir` is where the embedded provider
/// keeps downloaded model weights.
pub fn make_embedder(config: &Config, model_cache_dir: &[u8]) -> (r: Result<Provider, EmbedError>)
    ensures
        is_choice(*config, model_cache_dir@, r),
{
    let e = &config.embeddings;
    let provider = e.provider.as_str();
    if str_eq(provider, "embedded") {
        match embedded_model(e.model.as_str()) {
            Some(which) => Ok(
                Provider::Embedded {
                    model_name: e.model.clone(),
                    which,
                    cache_dir: copy_of(model_cache_dir),
                    batch_size: if e.batch_size == 0 {
                        1
                    } else {
                        e.batch_size
                    },
                },
            ),
            None => Err(EmbedError::UnsupportedModel(e.model.clone())),
        }
    } else if str_eq(provider, "openai-compatible") {
        match &e.base_url {
            None => Err(EmbedError::MissingBaseUrl),
            Some(url) => {
                if !is_loopback_url(url.as_str())
                    && !config.privacy.allow_remote_embedding_endpoint {
                    return Err(EmbedError::RemoteEndpoint(url.clone()));
                }
                Ok(
                    Provider::OpenAiCompatible {
                        base_url: trim_end_char(url.as_str(), '/'),
                        model: e.model.clone(),
                        api_key: clone_opt(&e.api_key),
                    },
                )
            },
        }
    } else if str_eq(provider, "debug-hash") {
        Ok(Provider::DebugHash)
    } else {
        Err(EmbedError::UnknownProvider(e.provider.clone()))
    }
}

/// How many numbers a vector of the debug provider has.
pub const DEBUG_DIMS: usize = 64;

/// How many numbers a vector of an embedded model has.
pub const EMBEDDED_DIMS: usize = 384;

/// What queries (not passages) are prefixed with for models that want an
/// instruction.
pub const BGE_QUERY_PREFIX: &'static str =
    "Represent this sentence for searching relevant passages: ";

impl Provider {
    /// The identity of provider and model.
    pub open spec fn identity(self) -> Seq<char> {
        match self {
            Provider::Embedded { model_name, .. } => "embedded/"@ + model_name@,
            Provider::OpenAiCompatible { model, .. } => "openai-compatible/"@ + model@,
            Provider::DebugHash => "debug-hash"@,
        }
    }

    /// Identity of provider and model, stored with the vectors; a change
    /// makes every stored vector void.
    pub fn id(&self) -> (r: String)
        ensures
            r@ == self.identity(),
    {
        match self {
            Provider::Embedded { model_name, .. } => {
                let mut s = "embedded/".to_owned();
                s.append(model_name.as_str());
                s
            },
            Provider::OpenAiCompatible { model, .. } => {
                let mut s = "openai-compatible/".to_owned();
                s.append(model.as_str());
                s
            },
            Provider::DebugHash => "debug-hash".to_owned(),
        }
    }

    /// How many numbers a vector has, given what was seen of the endpoint's
    /// vectors so far.
    pub fn dims(&self, seen: Option<usize>) -> (r: usize)
        ensures
            r == match *self {
                Provider::Embedded { .. } => EMBEDDED_DIMS,
                Provider::OpenAiCompatible { .. } => match seen {
                    Some(n) => n,
                    None => 0,
                },
                Provider::DebugHash => DEBUG_DIMS,
            },
    {
        match self {
            Provider::Embedded { .. } => EMBEDDED_DIMS,
            Provider::OpenAiCompatible { .. } => match seen {
                Some(n) => n,
                None => 0,
            },
            Provider::DebugHash => DEBUG_DIMS,
        }
    }

    /// The text that is embedded for a query: BGE models want an instruction
    /// in front of it.
    pub open spec fn asked(self, query: Seq<char>) -> Seq<char> {
        match self {
            Provider::Embedded { model_name, .. } => if text::has_prefix(model_name@, "bge-"@) {
                BGE_QUERY_PREFIX@ + query
            } else {
                query
            },
            _ => query,
        }
    }

    /// The text that is embedded for a query.
    pub fn query_text(&self, query: &str) -> (r: String)
        ensures
            r@ == self.asked(query@),
    {
        match self {
            Provider::Embedded { model_name, .. } => {
                if starts_with(model_name.as_str(), "bge-") {
                    let mut s = BGE_QUERY_PREFIX.to_owned();
                    s.append(query);
                    s
                } else {
                    query.to_owned()
                }
            },
            _ => query.to_owned(),
        }
    }
}

/// One vector of an endpoint's answer: which input it is for, and the bits of
/// its numbers.
#[derive(Debug, Clone, PartialEq, Eq)]
pub struct ResponseItem {
    pub index: usize,
    pub embedding: Vec<u32>,
}

/// The vectors of an answer.
pub open spec fn vectors(items: Seq<ResponseItem>) -> Seq<Seq<u32>> {
    items.map_values(|i: ResponseItem| i.embedding@)
}

/// The vectors of a list.
pub open spec fn vector_views(v: Seq<Vec<u32>>) -> Seq<Seq<u32>> {
    v.map_values(|x: Vec<u32>| x@)
}

/// The inputs that the vectors of an answer are for, as sort keys.
pub open spec fn index_keys(items: Seq<ResponseItem>) -> Seq<(i128, i128)> {
    items.map_values(|i: ResponseItem| (i.index as i128, 0i128))
}

/// The vectors of an endpoint's answer in the order of the inputs; an answer
/// of another length than the inputs' is refused.
pub fn response_vectors(items: &[ResponseItem], wanted: usize) -> (r: Result<
    Vec<Vec<u32>>,
    EmbedError,
>)
    ensures
        r is Ok <==> items@.len() == wanted,
        r matches Ok(v) ==> vector_views(v@) == order::arranged(
            vectors(items@),
            index_keys(items@),
        ),
        r matches Err(e) ==> e == (EmbedError::WrongCount { got: items@.len() as usize, wanted }),
{
    let got: usize = items.len();
    if got != wanted {
        return Err(EmbedError::WrongCount { got, wanted });
    }
    let ghost want_keys = index_keys(items@);
    let mut keys: Vec<(i128, i128)> = Vec::new();
    let mut i: usize = 0;
    while i < items.len()
        invariant
            i <= items@.len(),
            want_keys == index_keys(items@),
            keys@ == want_keys.take(i as int),
        decreases items@.len() - i,
    {
        keys.push((items[i].index as i128, 0));
        proof {
            assert(want_keys[i as int] == (items@[i as int].index as i128, 0i128));
            assert(want_keys.take(i + 1) =~= want_keys.take(i as int).push(want_keys[i as int]));
        }
        i = i + 1;
    }
    proof {
        assert(want_keys.take(i as int) =~= want_keys);
    }
    let ord = order::order(&keys);
    let ghost all = vectors(items@);
    let ghost want = order::arranged(all, keys@);
    let mut r: Vec<Vec<u32>> = Vec::new();
    let mut k: usize = 0;
    proof {
        assert(vector_views(r@) =~= want.take(0));
    }
    while k < ord.len()
        invariant
            k <= ord@.len(),
            ord@.len() == items@.len() == keys@.len(),
            lists::ints(ord@) == order::order_of(keys@),
            all == vectors(items@),
            want == order::arranged(all, keys@),
            forall|k: int| 0 <= k < ord@.len() ==> (#[trigger] ord@[k]) < keys@.len(),
            vector_views(r@) == want.take(k as int),
        decreases ord@.len() - k,
    {
        let mut v: Vec<u32> = Vec::new();
        v.extend_from_slice(&items[ord[k]].embedding);
        let ghost before = vector_views(r@);
        let ghost shown = v@;
        proof {
            assert(lists::ints(ord@)[k as int] == ord@[k as int]);
            assert(shown =~= items@[ord@[k as int] as int].embedding@);
            assert(want[k as int] == all[ord@[k as int] as int]);
        }
        r.push(v);
        proof {
            assert(vector_views(r@) =~= before.push(shown));
            assert(want.take(k + 1) =~= want.take(k as int).push(want[k as int]));
        }
        k = k + 1;
    }
    proof {
        assert(lists::ints(ord@).len() == ord@.len());
        assert(want.take(k as int) =~= want);
    }
    Ok(r)
}

/// What is known of the length of an endpoint's vectors after an answer: the
/// first answer with a vector settles it.
pub fn dims_after(seen: Option<usize>, answer: &[Vec<u32>]) -> (r: Option<usize>)
    ensures
        r == match seen {
            Some(n) => Some(n),
            None => if answer@.len() > 0 {
                Some(answer@[0]@.len() as usize)
            } else {
                None
            },
        },
{
    match seen {
        Some(n) => Some(n),
        None => {
            if answer.len() > 0 {
                let n: usize = answer[0].len();
                Some(n)
            } else {
                None
            }
        },
    }
}

/// The bucket that a word falls into.
pub open spec fn bucket(word: Seq<char>) -> int {
    (digest::sha256(encode_utf8(word))[0] % 64) as int
}

/// How many of some words fall into a bucket.
pub open spec fn in_bucket(words: Seq<Seq<char>>, b: int) -> nat
    decreases words.len(),
{
    if words.len() == 0 {
        0
    } else {
        in_bucket(words.drop_last(), b) + if bucket(words.last()) == b {
            1nat
        } else {
            0
        }
    }
}

/// The words of a text as the debug provider sees them.
pub open spec fn debug_words(s: Seq<char>) -> Seq<Seq<char>> {
    text::words(text::lowercase(s))
}

/// How many words of a text fall into each bucket: the debug provider's
/// vector before it is normalized.
pub fn debug_hash_counts(s: &str) -> (r: Vec<u64>)
    ensures
        r@.len() == DEBUG_DIMS,
        forall|b: int|
            0 <= b < DEBUG_DIMS ==> (#[trigger] r@[b]) == in_bucket(debug_words(s@), b),
{
    let lower = to_lowercase(s);
    let words = split_whitespace(lower.as_str());
    let ghost all = debug_words(s@);
    let mut r: Vec<u64> = Vec::new();
    let mut b: usize = 0;
    while b < DEBUG_DIMS
        invariant
            b <= DEBUG_DIMS,
            r@.len() == b,
            forall|k: int| 0 <= k < b ==> (#[trigger] r@[k]) == 0,
        decreases DEBUG_DIMS - b,
    {
        r.push(0);
        b = b + 1;
    }
    let mut i: usize = 0;
    while i < words.len()
        invariant
            i <= words@.len(),
            text::views(words@) == all,
            r@.len() == DEBUG_DIMS,
            forall|b: int|
                0 <= b < DEBUG_DIMS ==> (#[trigger] r@[b]) == in_bucket(all.take(i as int), b)
                    && r@[b] <= i,
        decreases words@.len() - i,
    {
        proof {
            assert(text::views(words@)[i as int] == words@[i as int]@);
            assert(all.take(i + 1).drop_last() =~= all.take(i as int));
        }
        let d = digest_bytes(words[i].as_str().as_bytes());
        let at: usize = (d[0] % 64) as usize;
        let n: u64 = r[at];
        r.set(at, n + 1);
        i = i + 1;
    }
    proof {
        assert(all.take(i as int) =~= all);
    }
    r
}

/// The buckets of a text hold all its words and nothing else.
pub proof fn law_buckets_add_up(s: Seq<char>)
    ensures
        buckets_total(debug_words(s), 64) == debug_words(s).len(),
{
    lemma_buckets_add_up(debug_words(s));
}

/// How many words fall into the first `n` buckets.
pub open spec fn buckets_total(words: Seq<Seq<char>>, n: nat) -> nat
    decreases n,
{
    if n == 0 {
        0
    } else {
        buckets_total(words, (n - 1) as nat) + in_bucket(words, n - 1)
    }
}

proof fn lemma_buckets_add_up(words: Seq<Seq<char>>)
    ensures
        buckets_total(words, 64) == words.len(),
    decreases words.len(),
{
    if words.len() == 0 {
        lemma_no_words_in_buckets(words, 64);
    } else {
        lemma_buckets_add_up(words.drop_last());
        lemma_one_more_word(words, 64);
    }
}

proof fn lemma_no_words_in_buckets(words: Seq<Seq<char>>, n: nat)
    requires
        words.len() == 0,
    ensures
        buckets_total(words, n) == 0,
    decreases n,
{
    if n > 0 {
        lemma_no_words_in_buckets(words, (n - 1) as nat);
    }
}

proof fn lemma_one_more_word(words: Seq<Seq<char>>, n: nat)
    requires
        words.len() > 0,
    ensures
        buckets_total(words, n) == buckets_total(words.drop_last(), n) + if bucket(words.last())
            < n {
            1nat
        } else {
            0
        },
    decreases n,
{
    if n > 0 {
        lemma_one_more_word(words, (n - 1) as nat);
    }
}

/// The bytes of a vector: 32 bits for each number, little-endian.
pub open spec fn blob_of(v: Seq<u32>) -> Seq<u8>
    decreases v.len(),
{
    if v.len() == 0 {
        Seq::empty()
    } else {
        blob_of(v.drop_last()) + spec_u32_to_le_bytes(v.last())
    }
}

/// The numbers that bytes hold: each four whole bytes give one, what is left
/// over is dropped.
pub open spec fn vector_of(b: Seq<u8>) -> Seq<u32> {
    Seq::new(b.len() / 4, |i: int| spec_u32_from_le_bytes(b.subrange(4 * i, 4 * i + 4)))
}

/// The bytes of a vector whose numbers are given by their bits.
pub fn vector_to_blob(v: &[u32]) -> (r: Vec<u8>)
    ensures
        r@ == blob_of(v@),
{
    let mut r: Vec<u8> = Vec::new();
    let mut i: usize = 0;
    proof {
        assert(r@ =~= blob_of(v@.take(0)));
    }
    while i < v.len()
        invariant
            i <= v@.len(),
            r@ == blob_of(v@.take(i as int)),
        decreases v@.len() - i,
    {
        proof {
            assert(v@.take(i + 1).drop_last() =~= v@.take(i as int));
        }
        let mut four = u32_to_le_bytes(v[i]);
        r.append(&mut four);
        i = i + 1;
    }
    proof {
        assert(v@.take(i as int) =~= v@);
    }
    r
}

/// The numbers of a vector, as their bits.
pub fn blob_to_vector(b: &[u8]) -> (r: Vec<u32>)
    ensures
        r@ == vector_of(b@),
{
    let ghost want = vector_of(b@);
    let n: usize = b.len() / 4;
    let mut r: Vec<u32> = Vec::new();
    let mut i: usize = 0;
    while i < n
        invariant
            i <= n,
            n == b@.len() / 4,
            b@.len() <= usize::MAX,
            want == vector_of(b@),
            r@ == want.take(i as int),
        decreases n - i,
    {
        let four = vstd::slice::slice_subrange(b, 4 * i, 4 * i + 4);
        r.push(u32_from_le_bytes(four));
        proof {
            assert(want.take(i + 1) =~= want.take(i as int).push(want[i as int]));
        }
        i = i + 1;
    }
    proof {
        assert(want.take(i as int) =~= want);
    }
    r
}

/// Reading a stored vector gives back what was stored.
pub proof fn law_blob_round_trip(v: Seq<u32>)
    ensures
        vector_of(blob_of(v)) == v,
        blob_of(v).len() == 4 * v.len(),
    decreases v.len(),
{
    lemma_auto_spec_u32_to_from_le_bytes();
    let b = blob_of(v);
    if v.len() > 0 {
        let front = v.drop_last();
        law_blob_round_trip(front);
        let a = blob_of(front);
        let n = front.len();
        assert(spec_u32_to_le_bytes(v.last()).len() == 4);
        assert forall|i: int| 0 <= i < v.len() implies vector_of(b)[i] == v[i] by {
            if i < n {
                assert(b.subrange(4 * i, 4 * i + 4) =~= a.subrange(4 * i, 4 * i + 4));
                assert(vector_of(a)[i] == front[i]);
            } else {
                assert(b.subrange(4 * i, 4 * i + 4) =~= spec_u32_to_le_bytes(v.last()));
            }
        }
    }
    assert(vector_of(b) =~= v);
}

/// No choice sends message content off this machine unless the configuration
/// allows it.
pub proof fn law_remote_endpoints_need_consent(
    config: Config,
    model_cache_dir: Seq<u8>,
    r: Result<Provider, EmbedError>,
)
    requires
        is_choice(config, model_cache_dir, r),
        r matches Ok(Provider::OpenAiCompatible { .. }),
    ensures
        config.embeddings.base_url is Some,
        config.privacy.allow_remote_embedding_endpoint || ({
            let h = host(config.embeddings.base_url->0@);
            h == "localhost"@ || h == "127.0.0.1"@ || h == "::1"@
        }),
{
}

/// What stands before the last `@` of an authority never counts as the host: a
/// URL with a user and a password names the host that it names without them.
pub proof fn law_user_is_not_the_host(scheme: Seq<char>, user: Seq<char>, rest: Seq<char>)
    requires
        forall|i: int|
            0 <= i < scheme.len() ==> !seq![':', '/', '\\', '?', '#'].contains(
                #[trigger] scheme[i],
            ),
        forall|i: int|
            0 <= i < user.len() ==> !seq!['/', '\\', '?', '#'].contains(#[trigger] user[i]),
    ensures
        host(scheme + "://"@ + (user + seq!['@'] + rest)) == host(scheme + "://"@ + rest),
{
    let stops = seq!['/', '\\', '?', '#'];
    let a = user + seq!['@'];
    let b = text::until(rest, stops);
    lemma_after_scheme(scheme, a + rest);
    lemma_after_scheme(scheme, rest);
    text::lemma_run_until(rest, stops);
    assert forall|i: int| 0 <= i < a.len() implies !stops.contains(#[trigger] a[i]) by {
        if i < user.len() {
            assert(a[i] == user[i]);
        } else {
            assert(a[i] == '@');
        }
    }
    text::lemma_run_until_concat(a, rest, stops);
    assert(text::until(a + rest, stops) =~= user + seq!['@'] + b);
    text::lemma_last_index_concat(user, '@', b);
    assert(without_user(user + seq!['@'] + b) =~= without_user(b));
}

proof fn lemma_after_scheme(scheme: Seq<char>, rest: Seq<char>)
    requires
        forall|i: int|
            0 <= i < scheme.len() ==> !seq![':', '/', '\\', '?', '#'].contains(
                #[trigger] scheme[i],
            ),
    ensures
        after_scheme(scheme + "://"@ + rest) == rest,
{
    let stops = seq![':', '/', '\\', '?', '#'];
    let behind = "://"@ + rest;
    let url = scheme + "://"@ + rest;
    reveal_strlit("://");
    text::lemma_run_until_concat(scheme, behind, stops);
    assert(url =~= scheme + behind);
    assert(behind[0] == ':');
    assert(stops[0] == ':');
    assert(url.skip(scheme.len() as int) =~= behind);
    assert(behind.take(3) =~= "://"@);
    assert(behind.skip(3) =~= rest);
}

/// How many words of a text count toward each number of the debug provider's
/// vector: those whose SHA-256 begins with a byte that leaves the number's place
/// when divided by 64.
pub proof fn law_what_a_bucket_counts(words: Seq<Seq<char>>, b: int)
    ensures
        in_bucket(words, b) == words.filter(
            |w: Seq<char>| digest::sha256(encode_utf8(w))[0] as int % 64 == b,
        ).len(),
    decreases words.len(),
{
    reveal(Seq::filter);
    if words.len() > 0 {
        law_what_a_bucket_counts(words.drop_last(), b);
    }
}

/// Whether two providers are of one kind and have one model.
pub open spec fn same_model(a: Provider, b: Provider) -> bool {
    match (a, b) {
        (
            Provider::Embedded { model_name: x, .. },
            Provider::Embedded { model_name: y, .. },
        ) => x@ == y@,
        (
            Provider::OpenAiCompatible { model: x, .. },
            Provider::OpenAiCompatible { model: y, .. },
        ) => x@ == y@,
        (Provider::DebugHash, Provider::DebugHash) => true,
        _ => false,
    }
}

/// Vectors are void exactly when the kind of provider or the model changes: two
/// providers have one identity exactly where they agree in both.
pub proof fn law_identity_is_kind_and_model(a: Provider, b: Provider)
    ensures
        a.identity() == b.identity() <==> same_model(a, b),
{
    reveal_strlit("embedded/");
    reveal_strlit("openai-compatible/");
    reveal_strlit("debug-hash");
    if a.identity() == b.identity() {
        assert(a.identity()[0] == b.identity()[0]);
        let n: int = match a {
            Provider::Embedded { .. } => 9,
            Provider::OpenAiCompatible { .. } => 18,
            Provider::DebugHash => 0,
        };
        match a {
            Provider::Embedded { model_name, .. } => {
                assert(a.identity().skip(n) =~= model_name@);
            },
            Provider::OpenAiCompatible { model, .. } => {
                assert(a.identity().skip(n) =~= model@);
            },
            Provider::DebugHash => {},
        }
        match b {
            Provider::Embedded { model_name, .. } => {
                assert(b.identity().skip(9) =~= model_name@);
            },
            Provider::OpenAiCompatible { model, .. } => {
                assert(b.identity().skip(18) =~= model@);
            },
            Provider::DebugHash => {},
        }
    }
}

/// What is embedded for a query ends with the query; an embedded model whose name
/// begins with `bge-` gets an instruction before it, and no other provider gets
/// anything.
pub proof fn law_what_is_asked(p: Provider, query: Seq<char>)
    ensures
        p.asked(query).len() >= query.len(),
        p.asked(query).skip(p.asked(query).len() - query.len()) == query,
        ({
            let before = p.asked(query).take(p.asked(query).len() - query.len());
            let bge = p matches Provider::Embedded { model_name, .. } && model_name@.len() >= 4
                && model_name@[0] == 'b' && model_name@[1] == 'g' && model_name@[2] == 'e'
                && model_name@[3] == '-';
            &&& bge ==> before == "Represent this sentence for searching relevant passages: "@
            &&& !bge ==> before == Seq::<char>::empty()
        }),
{
    reveal_strlit("bge-");
    let s = p.asked(query);
    let n = s.len() - query.len();
    assert(s.skip(n) =~= query);
    match p {
        Provider::Embedded { model_name, .. } => {
            let name = model_name@;
            if name.len() >= 4 {
                if name[0] == 'b' && name[1] == 'g' && name[2] == 'e' && name[3] == '-' {
                    assert(name.take(4) =~= "bge-"@);
                }
                assert(name.take(4)[0] == name[0] && name.take(4)[1] == name[1]
                    && name.take(4)[2] == name[2] && name.take(4)[3] == name[3]);
            }
            if text::has_prefix(name, "bge-"@) {
                assert(s.take(n) =~= BGE_QUERY_PREFIX@);
            } else {
                assert(s.take(n) =~= Seq::<char>::empty());
            }
        },
        _ => {
            assert(s.take(n) =~= Seq::<char>::empty());
        },
    }
}

/// What a choice of provider takes from the configuration. An embedded provider
/// has the model that was asked for, which is one of two; it embeds as many texts
/// at once as was asked for, and one where that was none. An endpoint is the URL
/// of the configuration without the slashes at its end, with its model and its
/// key. Each error says what is wrong, and comes for nothing else.
pub proof fn law_what_is_chosen(
    config: Config,
    model_cache_dir: Seq<u8>,
    r: Result<Provider, EmbedError>,
)
    requires
        is_choice(config, model_cache_dir, r),
    ensures
        ({
            let e = config.embeddings;
            &&& r matches Ok(Provider::Embedded { model_name, which, cache_dir, batch_size }) ==> {
                &&& e.provider@ == "embedded"@
                &&& model_name@ == e.model@
                &&& cache_dir@ == model_cache_dir
                &&& batch_size >= 1
                &&& e.batch_size >= 1 ==> batch_size == e.batch_size
                &&& e.batch_size == 0 ==> batch_size == 1
                &&& which == EmbeddedModel::BgeSmallEnV15 <==> e.model@ == "bge-small-en-v1.5"@
                &&& which == EmbeddedModel::AllMiniLmL6V2 <==> e.model@ == "all-MiniLM-L6-v2"@
            }
            &&& r matches Ok(Provider::OpenAiCompatible { base_url, model, api_key }) ==> {
                &&& e.provider@ == "openai-compatible"@
                &&& e.base_url is Some
                &&& model@ == e.model@
                &&& api_key == e.api_key
                &&& base_url@.len() <= e.base_url->0@.len()
                &&& e.base_url->0@.take(base_url@.len() as int) == base_url@
                &&& forall|i: int|
                    base_url@.len() <= i < e.base_url->0@.len() ==> (#[trigger] e.base_url->0@[i])
                        == '/'
                &&& base_url@.len() > 0 ==> base_url@.last() != '/'
            }
            &&& r == Ok::<Provider, EmbedError>(Provider::DebugHash) <==> e.provider@
                == "debug-hash"@
            &&& r is Ok && r->Ok_0 is Embedded <==> e.provider@ == "embedded"@ && (e.model@
                == "bge-small-en-v1.5"@ || e.model@ == "all-MiniLM-L6-v2"@)
            &&& r is Err && r->Err_0 is UnsupportedModel <==> e.provider@ == "embedded"@
                && e.model@ != "bge-small-en-v1.5"@ && e.model@ != "all-MiniLM-L6-v2"@
            &&& r is Err && r->Err_0 is MissingBaseUrl <==> e.provider@ == "openai-compatible"@
                && e.base_url is None
            &&& r is Err && r->Err_0 is RemoteEndpoint <==> e.provider@ == "openai-compatible"@
                && e.base_url is Some && !is_loopback(e.base_url->0@)
                && !config.privacy.allow_remote_embedding_endpoint
            &&& r is Err && r->Err_0 is UnknownProvider <==> e.provider@ != "embedded"@
                && e.provider@ != "openai-compatible"@ && e.provider@ != "debug-hash"@
        }),
{
    reveal_strlit("embedded");
    reveal_strlit("openai-compatible");
    reveal_strlit("debug-hash");
    reveal_strlit("bge-small-en-v1.5");
    reveal_strlit("all-MiniLM-L6-v2");
    assert("embedded"@.len() == 8 && "openai-compatible"@.len() == 17 && "debug-hash"@.len() == 10);
    assert("bge-small-en-v1.5"@.len() == 17 && "all-MiniLM-L6-v2"@.len() == 16);
    if config.embeddings.base_url is Some {
        lemma_slashes(config.embeddings.base_url->0@);
    }
}

proof fn lemma_slashes(s: Seq<char>)
    ensures
        ({
            let r = text::without_trailing(s, '/');
            &&& r.len() <= s.len()
            &&& s.take(r.len() as int) == r
            &&& forall|i: int| r.len() <= i < s.len() ==> (#[trigger] s[i]) == '/'
            &&& r.len() > 0 ==> r.last() != '/'
        }),
    decreases s.len(),
{
    let r = text::without_trailing(s, '/');
    if s.len() > 0 && s.last() == '/' {
        let f = s.drop_last();
        lemma_slashes(f);
        assert(s.take(r.len() as int) =~= f.take(r.len() as int));
        assert forall|i: int| r.len() <= i < s.len() implies (#[trigger] s[i]) == '/' by {
            if i < f.len() {
                assert(f[i] == s[i]);
            }
        }
    } else {
        assert(s.take(s.len() as int) =~= s);
    }
}

/// The authority of a URL whose parts are given, where it names no user.
proof fn lemma_authority(scheme: Seq<char>, front: Seq<char>, rest: Seq<char>) -> (n: int)
    requires
        forall|i: int|
            0 <= i < scheme.len() ==> !seq![':', '/', '\\', '?', '#'].contains(
                #[trigger] scheme[i],
            ),
        forall|i: int|
            0 <= i < front.len() ==> !seq!['/', '\\', '?', '#'].contains(#[trigger] front[i])
                && front[i] != '@',
        !rest.contains('@'),
    ensures
        0 <= n <= rest.len(),
        n > 0 ==> !seq!['/', '\\', '?', '#'].contains(rest[0]),
        without_user(authority(scheme + "://"@ + (front + rest))) == front + rest.take(n),
{
    let stops = seq!['/', '\\', '?', '#'];
    let url = scheme + "://"@ + (front + rest);
    lemma_after_scheme(scheme, front + rest);
    text::lemma_run_until_concat(front, rest, stops);
    text::lemma_run_until(rest, stops);
    let n = text::run_until(rest, stops);
    let a = authority(url);
    assert(a =~= front + rest.take(n));
    text::lemma_last_index(a, '@');
    assert forall|i: int| 0 <= i < a.len() implies #[trigger] a[i] != '@' by {
        if i < front.len() {
            assert(a[i] == front[i]);
        } else {
            assert(a[i] == rest[i - front.len()]);
        }
    }
    assert(text::last_index(a, '@') is None);
    n
}

/// Which URLs name this machine: of the form `scheme://host`, followed by
/// nothing, by a port, or by a path, those whose host is `localhost` or
/// `127.0.0.1`, however they go on; no host that only begins or ends like one.
pub proof fn law_which_urls_are_local(scheme: Seq<char>, name: Seq<char>, rest: Seq<char>)
    requires
        forall|i: int|
            0 <= i < scheme.len() ==> !seq![':', '/', '\\', '?', '#'].contains(
                #[trigger] scheme[i],
            ),
        forall|i: int|
            0 <= i < name.len() ==> !seq!['/', '\\', '?', '#'].contains(#[trigger] name[i])
                && name[i] != ':' && name[i] != '@' && name[i] != '[',
        rest.len() == 0 || rest[0] == ':' || rest[0] == '/' || rest[0] == '?' || rest[0] == '#',
        !rest.contains('@'),
    ensures
        is_loopback(scheme + "://"@ + (name + rest)) <==> name == "localhost"@ || name
            == "127.0.0.1"@,
{
    let stops = seq!['/', '\\', '?', '#'];
    let url = scheme + "://"@ + (name + rest);
    let n = lemma_authority(scheme, name, rest);
    let tail = rest.take(n);
    let a = name + tail;
    let colon = seq![':'];
    assert(colon[0] == ':');
    assert(stops[0] == '/' && stops[2] == '?' && stops[3] == '#');
    assert(text::run_until(tail, colon) == 0) by {
        if n > 0 {
            assert(tail[0] == rest[0]);
            assert(colon.contains(tail[0]));
        }
    }
    text::lemma_run_until_concat(name, tail, colon);
    assert(!(a.len() > 0 && a[0] == '[')) by {
        if a.len() > 0 && name.len() > 0 {
            assert(a[0] == name[0]);
        } else if a.len() > 0 {
            assert(a[0] == rest[0]);
        }
    }
    assert(text::until(a, colon) =~= name);
    assert(host(url) == name);
    reveal_strlit("::1");
    if name == "::1"@ {
        assert(name[0] == ':');
    }
}

/// A host in brackets names this machine exactly when it is one of the same
/// names, or `::1`, which no host without brackets can be.
pub proof fn law_which_bracketed_hosts_are_local(scheme: Seq<char>, name: Seq<char>, rest: Seq<char>)
    requires
        forall|i: int|
            0 <= i < scheme.len() ==> !seq![':', '/', '\\', '?', '#'].contains(
                #[trigger] scheme[i],
            ),
        forall|i: int|
            0 <= i < name.len() ==> !seq!['/', '\\', '?', '#'].contains(#[trigger] name[i])
                && name[i] != '@' && name[i] != ']',
        !rest.contains('@'),
    ensures
        is_loopback(scheme + "://"@ + (seq!['['] + name + seq![']'] + rest)) <==> name == "::1"@
            || name == "localhost"@ || name == "127.0.0.1"@,
{
    let stops = seq!['/', '\\', '?', '#'];
    let front = seq!['['] + name + seq![']'];
    let url = scheme + "://"@ + (front + rest);
    assert forall|i: int| 0 <= i < front.len() implies !stops.contains(#[trigger] front[i])
        && front[i] != '@' by {
        if 0 < i <= name.len() {
            assert(front[i] == name[i - 1]);
        }
    }
    let n = lemma_authority(scheme, front, rest);
    let a = front + rest.take(n);
    let close = seq![']'];
    let tail = seq![']'] + rest.take(n);
    assert(close[0] == ']');
    assert(close.contains(tail[0]));
    assert(text::run_until(tail, close) == 0);
    text::lemma_run_until_concat(name, tail, close);
    assert(a[0] == '[');
    assert(a.drop_first() =~= name + tail);
    assert(text::until(a.drop_first(), close) =~= name);
    assert(host(url) == name);
}

/// The vectors of an answer come in the order of the inputs they are for:
/// where the answer numbers them from zero, each once, the vector for input `i`
/// stands at place `i`.
pub proof fn law_vectors_follow_the_inputs(items: Seq<ResponseItem>, k: int)
    requires
        items.len() <= usize::MAX,
        0 <= k < items.len(),
        forall|i: int| 0 <= i < items.len() ==> (#[trigger] items[i]).index < items.len(),
        forall|i: int, j: int|
            0 <= i < j < items.len() ==> (#[trigger] items[i]).index != (
            #[trigger] items[j]).index,
    ensures
        order::arranged(vectors(items), index_keys(items))[items[k].index as int]
            == items[k].embedding@,
{
    let keys = index_keys(items);
    order::lemma_order_is_permutation(keys);
    let o = order::order_of(keys);
    let places = o.map_values(|i: int| items[i].index as int);
    assert forall|a: int, b: int| 0 <= a < b < places.len() implies #[trigger] places[a]
        < #[trigger] places[b] by {
        order::law_order_sorts(keys, a, b);
        assert(o[a] != o[b]);
        if o[a] < o[b] {
            assert(items[o[a]].index != items[o[b]].index);
        } else {
            assert(items[o[b]].index != items[o[a]].index);
        }
    }
    let p = items[k].index as int;
    lemma_rising(places, p);
    assert(o.contains(k));
    let q = choose|q: int| 0 <= q < o.len() && o[q] == k;
    assert(places[q] == p);
    lemma_rising(places, q);
    assert(q == p);
    assert(order::arranged(vectors(items), keys)[q] == vectors(items)[o[q]]);
}

proof fn lemma_rising(s: Seq<int>, k: int)
    requires
        forall|a: int, b: int| 0 <= a < b < s.len() ==> #[trigger] s[a] < #[trigger] s[b],
        forall|a: int| 0 <= a < s.len() ==> 0 <= #[trigger] s[a] < s.len(),
        0 <= k < s.len(),
    ensures
        s[k] == k,
{
    lemma_rising_low(s, k);
    lemma_rising_high(s, k);
}

proof fn lemma_rising_low(s: Seq<int>, k: int)
    requires
        forall|a: int, b: int| 0 <= a < b < s.len() ==> #[trigger] s[a] < #[trigger] s[b],
        forall|a: int| 0 <= a < s.len() ==> 0 <= #[trigger] s[a] < s.len(),
        0 <= k < s.len(),
    ensures
        s[k] >= k,
    decreases k,
{
    if k > 0 {
        lemma_rising_low(s, k - 1);
        assert(s[k - 1] < s[k]);
    }
}

proof fn lemma_rising_high(s: Seq<int>, k: int)
    requires
        forall|a: int, b: int| 0 <= a < b < s.len() ==> #[trigger] s[a] < #[trigger] s[b],
        forall|a: int| 0 <= a < s.len() ==> 0 <= #[trigger] s[a] < s.len(),
        0 <= k < s.len(),
    ensures
        s[k] <= k,
    decreases s.len() - k,
{
    if k < s.len() - 1 {
        lemma_rising_high(s, k + 1);
        assert(s[k] < s[k + 1]);
    }
}

/// Each number of a vector is stored in four bytes of its own, little-endian.
pub proof fn law_bytes_of_a_vector(v: Seq<u32>, i: int)
    requires
        0 <= i < v.len(),
    ensures
        blob_of(v).len() == 4 * v.len(),
        blob_of(v).subrange(4 * i, 4 * i + 4) == spec_u32_to_le_bytes(v[i]),
    decreases v.len(),
{
    law_blob_round_trip(v);
    let front = v.drop_last();
    law_blob_round_trip(front);
    lemma_auto_spec_u32_to_from_le_bytes();
    let b = blob_of(v);
    let a = blob_of(front);
    if i < v.len() - 1 {
        law_bytes_of_a_vector(front, i);
        assert(b.subrange(4 * i, 4 * i + 4) =~= a.subrange(4 * i, 4 * i + 4));
    } else {
        assert(b.subrange(4 * i, 4 * i + 4) =~= spec_u32_to_le_bytes(v.last()));
    }
}

/// Which words the debug provider counts: those of the text in lower case.
pub proof fn law_which_words_are_counted(s: Seq<char>)
    ensures
        debug_words(s) == text::words(text::lowercase(s)),
{
}

} // verus!
