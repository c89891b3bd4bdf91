//! The command line: what can be asked for, and what is said in return.
use crate::chunk::ChunkParams;
use crate::config::{Config, LoadedConfig};
use crate::dryrun;
use crate::dryrun::text_samples;
use crate::index;
use crate::index::{HitView, SearchHit};
use crate::json;
use crate::json::{pretty, quote};
use crate::mcp::{Mode, SearchRequest};
use crate::model::ExtractedMessage;
use crate::numeric;
use crate::numeric::{decimal_u64, hex_text};
use crate::text;
use crate::text::{join, replace_char, trim};
use crate::time;
use crate::time::format_range;
use vstd::prelude::*;
use vstd::string::*;

verus! {

/// A whole command line.
#[derive(Debug, Clone, PartialEq, Eq)]
pub struct Cli {
    /// Path to a config file.
    pub config: Option<Vec<u8>>,
    /// How often more log output was asked for.
    pub verbose: u8,
    pub command: Command,
}

/// What can be asked for.
#[derive(Debug, Clone, PartialEq, Eq)]
pub enum Command {
    /// Diagnose database access, permissions, and configuration.
    Doctor,
    /// Extract, transform, and load messages into the local index.
    Etl(EtlArgs),
    /// Search the indexed history (prints message content).
    Search(SearchArgs),
    /// Serve the index to MCP clients over stdio (default) or HTTP.
    Serve(ServeArgs),
    /// Manage the scheduled background sync.
    Service { command: ServiceCommand },
    /// Print ready-to-paste MCP client configuration.
    Connect(ConnectArgs),
    /// Inspect configuration.
    Config { command: ConfigCommand },
}

/// How messages are loaded.
#[derive(Debug, Clone, PartialEq, Eq)]
pub struct EtlArgs {
    /// Read and report on the source database without writing anything.
    pub dry_run: bool,
    /// Print the first message texts.
    pub debug_show_text: Option<usize>,
    /// Discard the existing index and re-ingest everything from scratch.
    pub rebuild: bool,
    /// Skip the embedding stage (sync and chunk only).
    pub no_embed: bool,
}

/// What is searched for, and how.
#[derive(Debug, Clone, PartialEq, Eq)]
pub struct SearchArgs {
    /// Search terms.
    pub query: Vec<String>,
    /// Maximum number of results.
    pub limit: Option<u32>,
    /// Semantic (embedding) search only, skipping keyword match.
    pub semantic: bool,
    /// Keyword search only, skipping embeddings.
    pub keyword: bool,
}

/// How the index is served.
#[derive(Debug, Clone, PartialEq, Eq)]
pub struct ServeArgs {
    /// Serve MCP over streamable HTTP on this address instead of stdio.
    pub http: Option<String>,
}

/// What of the client configuration is printed.
#[derive(Debug, Clone, PartialEq, Eq)]
pub struct ConnectArgs {
    /// Print only the HTTP bearer token.
    pub token_only: bool,
}

/// What is done with the background agents.
#[derive(Debug, Clone, PartialEq, Eq)]
pub enum ServiceCommand {
    /// Install and load the sync agent.
    Install { no_load: bool, http: Option<String> },
    /// Resume installed agents without reinstalling.
    Start { http_only: bool },
    /// Pause agents, keeping them installed.
    Stop { http_only: bool },
    /// Unload agents and remove their plists.
    Uninstall { http_only: bool },
    /// Show whether the agents are installed, loaded, and their recent logs.
    Status,
}

/// What of the configuration is shown.
#[derive(Debug, Clone, PartialEq, Eq)]
pub enum ConfigCommand {
    /// Print the effective configuration (secrets redacted).
    Show,
    /// Print the config file path.
    Path,
}

/// How much is logged.
pub fn log_level(verbose: u8) -> (r: &'static str)
    ensures
        r@ == if verbose == 0 {
            "warn"@
        } else if verbose == 1 {
            "info"@
        } else {
            "debug"@
        },
{
    if verbose == 0 {
        "warn"
    } else if verbose == 1 {
        "info"
    } else {
        "debug"
    }
}

/// How conversations are cut into chunks.
pub fn chunk_params(config: &Config) -> (r: ChunkParams)
    ensures
        r.gap_minutes == config.index.chunk_gap_minutes,
        r.target_tokens == config.index.chunk_target_tokens,
        r.overlap_messages == config.index.chunk_overlap_messages,
{
    ChunkParams {
        gap_minutes: config.index.chunk_gap_minutes,
        target_tokens: config.index.chunk_target_tokens,
        overlap_messages: config.index.chunk_overlap_messages,
    }
}

/// Whether the progress of an embedding run is worth a line: now and then, and
/// in the end.
pub fn shows_progress(done: u64, todo: u64) -> (r: bool)
    ensures
        r == (done % 2048 == 0 || done == todo),
{
    done % 2048 == 0 || done == todo
}

/// The progress of an embedding run.
pub fn progress_text(done: u64, todo: u64) -> (r: String)
    ensures
        r@ == "embedding… "@ + numeric::decimal(done as nat) + "/"@ + numeric::decimal(todo as nat),
{
    let mut s = "embedding… ".to_owned();
    s.append(decimal_u64(done).as_str());
    s.append("/");
    s.append(decimal_u64(todo).as_str());
    s
}

/// Message texts, each on an indented line.
pub open spec fn sample_lines(samples: Seq<Seq<char>>) -> Seq<char>
    decreases samples.len(),
{
    if samples.len() == 0 {
        Seq::empty()
    } else {
        sample_lines(samples.drop_last()) + "\n  "@ + samples.last()
    }
}

/// The first message texts, as a dry run shows them when asked to.
pub open spec fn shown_samples(samples: Seq<Seq<char>>) -> Seq<char> {
    "\nFirst "@ + numeric::decimal(samples.len()) + " message texts (truncated):"@ + sample_lines(
        samples,
    )
}

/// What a dry run warns of, on the error output, before it shows message texts.
pub const PRIVATE_TEXT_WARNING: &'static str =
    "\nwarning: --debug-show-text prints private message content";

/// Message texts of a dry run, with the warning that goes before them.
#[derive(Debug, Clone, PartialEq, Eq)]
pub struct DebugText {
    pub warning: String,
    pub samples: String,
}

/// The message texts that a dry run shows: none unless they are asked for, and
/// never without the warning.
pub fn debug_text(msgs: &[ExtractedMessage], show_text: Option<usize>) -> (r: Option<DebugText>)
    ensures
        r is Some <==> show_text is Some,
        r matches Some(d) ==> d.warning@ == PRIVATE_TEXT_WARNING@ && d.samples@ == shown_samples(
            dryrun::samples(msgs@, show_text->0 as nat),
        ),
{
    match show_text {
        Some(n) => Some(
            DebugText {
                warning: PRIVATE_TEXT_WARNING.to_owned(),
                samples: samples_text(&text_samples(msgs, n)),
            },
        ),
        None => None,
    }
}

/// The first message texts, as a dry run shows them when asked to.
pub fn samples_text(samples: &[String]) -> (r: String)
    ensures
        r@ == shown_samples(text::views(samples@)),
{
    let ghost all = text::views(samples@);
    let mut s = "\nFirst ".to_owned();
    s.append(decimal_u64(samples.len() as u64).as_str());
    s.append(" message texts (truncated):");
    let ghost head = s@;
    let mut i: usize = 0;
    proof {
        assert(head + sample_lines(all.take(0)) =~= head);
    }
    while i < samples.len()
        invariant
            i <= samples@.len(),
            all == text::views(samples@),
            s@ == head + sample_lines(all.take(i as int)),
        decreases samples@.len() - i,
    {
        proof {
            assert(all[i as int] == samples@[i as int]@);
            assert(all.take(i + 1).drop_last() =~= all.take(i as int));
        }
        let ghost before = s@;
        s.append("\n  ");
        s.append(samples[i].as_str());
        proof {
            assert(before + "\n  "@ + samples@[i as int]@ =~= head + (sample_lines(
                all.take(i as int),
            ) + "\n  "@ + samples@[i as int]@));
        }
        i = i + 1;
    }
    proof {
        assert(all.take(i as int) =~= all);
    }
    s
}

/// What is said when there is nothing to search or serve yet.
pub fn no_index_text(path: &str) -> (r: String)
    ensures
        r@ == "no index at "@ + path@ + " — run `ai-imessage etl` first"@,
{
    let mut s = "no index at ".to_owned();
    s.append(path);
    s.append(" — run `ai-imessage etl` first");
    s
}

/// The search that a command line asks for: semantic or keyword search where
/// that is asked for, else a hybrid one, which embeds the query only when the
/// index has vectors. Without them the vector half contributes nothing.
pub fn search_request(args: &SearchArgs, config: &Config, embeddings: u64) -> (r: SearchRequest)
    ensures
        r.query@ == text::joined(text::views(args.query@), " "@),
        r.limit == match args.limit {
            Some(n) => n,
            None => config.retrieval.result_limit,
        },
        r.mode == if args.semantic {
            Mode::Semantic
        } else if args.keyword {
            Mode::Keyword
        } else {
            Mode::Hybrid
        },
        r.embed == (args.semantic || (!args.keyword && embeddings > 0)),
{
    let query = join(&args.query, " ");
    let limit: u32 = match args.limit {
        Some(n) => n,
        None => config.retrieval.result_limit,
    };
    if args.semantic {
        SearchRequest { query, limit, mode: Mode::Semantic, embed: true }
    } else if args.keyword {
        SearchRequest { query, limit, mode: Mode::Keyword, embed: false }
    } else {
        SearchRequest { query, limit, mode: Mode::Hybrid, embed: embeddings > 0 }
    }
}

/// One result in the terminal, given its place and, for vector search, its
/// similarity in figures.
pub open spec fn result_text(place: nat, h: HitView, similarity: Option<Seq<char>>) -> Seq<char> {
    numeric::decimal(place) + ". "@ + h.chat_label + " — "@ + time::range(
        h.started_at_ms,
        h.ended_at_ms,
    ) + " ("@ + numeric::decimal_int(h.message_count as int) + " messages"@ + (match similarity {
        Some(s) => " · similarity "@ + s,
        None => ""@,
    }) + ")\n   "@ + text::replaced(h.snippet, '\n', "\n   "@) + "\n\n"@
}

/// Results in the terminal, one after the other.
pub open spec fn result_texts(hits: Seq<HitView>, similarities: Seq<Option<Seq<char>>>) -> Seq<char>
    decreases hits.len(),
{
    if hits.len() == 0 {
        Seq::empty()
    } else {
        result_texts(hits.drop_last(), similarities) + result_text(
            hits.len(),
            hits.last(),
            similarities[hits.len() - 1],
        )
    }
}

/// The results of a search in the terminal.
pub open spec fn results(
    query: Seq<char>,
    hits: Seq<HitView>,
    similarities: Seq<Option<Seq<char>>>,
) -> Seq<char> {
    if hits.len() == 0 {
        "No matches for \""@ + query + "\".\n"@
    } else {
        numeric::decimal(hits.len()) + " result(s) for \""@ + query + "\"\n\n"@ + result_texts(
            hits,
            similarities,
        )
    }
}

/// The contents of a list of optional texts.
pub open spec fn opt_views(s: Seq<Option<String>>) -> Seq<Option<Seq<char>>> {
    s.map_values(|x: Option<String>| text::opt_view(x))
}

fn render_result(place: usize, h: &SearchHit, similarity: &Option<String>) -> (r: String)
    ensures
        r@ == result_text(place as nat, h@, text::opt_view(*similarity)),
{
    let mut s = decimal_u64(place as u64);
    s.append(". ");
    s.append(h.chat_label.as_str());
    s.append(" — ");
    s.append(format_range(h.started_at_ms, h.ended_at_ms).as_str());
    s.append(" (");
    s.append(numeric::decimal_i64(h.message_count).as_str());
    s.append(" messages");
    match similarity {
        Some(x) => {
            let mut t = " · similarity ".to_owned();
            t.append(x.as_str());
            s.append(t.as_str());
        },
        None => {
            s.append("");
        },
    }
    s.append(")\n   ");
    s.append(replace_char(h.snippet.as_str(), '\n', "\n   ").as_str());
    s.append("\n\n");
    s
}

/// The results of a search, as the terminal shows them. `similarities` holds
/// the similarity of each in figures, for vector search only.
pub fn render_results(query: &str, hits: &[SearchHit], similarities: &[Option<String>]) -> (r:
    String)
    requires
        similarities@.len() == hits@.len(),
    ensures
        r@ == results(query@, index::hit_views(hits@), opt_views(similarities@)),
{
    let ghost all = index::hit_views(hits@);
    let ghost sims = opt_views(similarities@);
    if hits.len() == 0 {
        let mut s = "No matches for \"".to_owned();
        s.append(query);
        s.append("\".\n");
        return s;
    }
    let mut s = decimal_u64(hits.len() as u64);
    s.append(" result(s) for \"");
    s.append(query);
    s.append("\"\n\n");
    let ghost head = s@;
    let mut i: usize = 0;
    proof {
        assert(head + result_texts(all.take(0), sims) =~= head);
    }
    while i < hits.len()
        invariant
            i <= hits@.len(),
            similarities@.len() == hits@.len(),
            all == index::hit_views(hits@),
            sims == opt_views(similarities@),
            s@ == head + result_texts(all.take(i as int), sims),
        decreases hits@.len() - i,
    {
        proof {
            assert(all[i as int] == hits@[i as int]@);
            assert(sims[i as int] == text::opt_view(similarities@[i as int]));
            assert(all.take(i + 1).drop_last() =~= all.take(i as int));
        }
        let line = render_result(i + 1, &hits[i], &similarities[i]);
        let ghost before = s@;
        s.append(line.as_str());
        proof {
            assert(before + line@ =~= head + (result_texts(all.take(i as int), sims) + line@));
        }
        i = i + 1;
    }
    proof {
        assert(all.take(i as int) =~= all);
    }
    s
}

/// The bearer token that a token file holds; none when it is blank.
pub fn stored_token(content: &str) -> (r: Option<String>)
    ensures
        r is Some <==> !text::blank(content@),
        r matches Some(t) ==> t@ == text::trimmed(content@),
{
    let token = trim(content);
    if token.as_str().is_empty() {
        None
    } else {
        Some(token)
    }
}

/// The bearer token that random bytes give.
pub fn token_of(bytes: &[u8]) -> (r: String)
    ensures
        r@ == numeric::hex(bytes@),
{
    hex_text(bytes)
}

/// The client configuration for MCP over stdio, as JSON.
pub open spec fn stdio_json(binary: Seq<char>) -> Seq<char> {
    "{\"mcpServers\":{\"imessage\":{\"args\":[\"serve\"],\"command\":"@ + json::json_string(binary)
        + "}}}"@
}

/// The client configuration for MCP at a URL, as JSON.
pub open spec fn url_json(url: Seq<char>, token: Seq<char>) -> Seq<char> {
    "{\"mcpServers\":{\"imessage\":{\"headers\":{\"Authorization\":"@ + json::json_string(
        "Bearer "@ + token,
    ) + "},\"url\":"@ + json::json_string(url) + "}}}"@
}

fn stdio_config(binary: &str) -> (r: String)
    ensures
        r@ == stdio_json(binary@),
{
    let mut s =
        "{\"mcpServers\":{\"imessage\":{\"args\":[\"serve\"],\"command\":".to_owned();
    s.append(quote(binary).as_str());
    s.append("}}}");
    s
}

fn url_config(url: &str, token: &str) -> (r: String)
    ensures
        r@ == url_json(url@, token@),
{
    let mut bearer = "Bearer ".to_owned();
    bearer.append(token);
    let mut s =
        "{\"mcpServers\":{\"imessage\":{\"headers\":{\"Authorization\":".to_owned();
    s.append(quote(bearer.as_str()).as_str());
    s.append("},\"url\":");
    s.append(quote(url).as_str());
    s.append("}}}");
    s
}

/// What is said of access over a tailnet: the configuration for it, or how to
/// get there.
pub open spec fn beyond(addr: Seq<char>, token: Seq<char>, tailnet: Option<Seq<char>>) -> Seq<char> {
    match tailnet {
        Some(url) => "MCP over your tailnet — for phones and other tailnet devices:\n\n"@
            + json::pretty_text(url_json(url, token)) + "\n\n"@,
        None =>
            "For access beyond this machine, front the loopback server with a private proxy (e.g. `tailscale serve --bg --https=8443 http://"@
            + addr
            + "`), then re-run `ai-imessage connect` — the tailnet URL will be detected and printed as ready-to-paste JSON.\n\n"@,
    }
}

/// What is said of access over HTTP.
pub open spec fn over_http(
    addr: Option<Seq<char>>,
    token: Seq<char>,
    tailnet: Option<Seq<char>>,
) -> Seq<char> {
    match addr {
        Some(addr) => "MCP over HTTP — served persistently at http://"@ + addr
            + "/mcp:\n(check it is running: ai-imessage service status)\n\n"@ + json::pretty_text(
            url_json("http://"@ + addr + "/mcp"@, token),
        ) + "\n\n"@ + beyond(addr, token, tailnet) + "bearer token: "@ + token + "\n"@,
        None =>
            "MCP over HTTP: not enabled. Opt in with\n  ai-imessage service install --http\nthen re-run `ai-imessage connect` for the URL, token, and JSON.\n"@,
    }
}

/// Everything an MCP client needs, ready to paste.
pub open spec fn connection(
    binary: Seq<char>,
    token: Seq<char>,
    addr: Option<Seq<char>>,
    tailnet: Option<Seq<char>>,
) -> Seq<char> {
    "MCP over stdio — LM Studio, Codex, …:\n\n"@ + json::pretty_text(
        stdio_json(binary),
    ) + "\n\n"@ + over_http(addr, token, tailnet)
}

/// Everything an MCP client needs, ready to paste: the configuration for
/// stdio and, when the HTTP agent is installed at `addr`, that for HTTP, for
/// the tailnet where there is one, and the token.
pub fn connect_text(binary: &str, token: &str, addr: Option<&str>, tailnet: Option<&str>) -> (r:
    String)
    ensures
        r@ == connection(binary@, token@, text::opt_str(addr), text::opt_str(tailnet)),
{
    let mut s = "MCP over stdio — LM Studio, Codex, …:\n\n".to_owned();
    s.append(pretty(stdio_config(binary).as_str()).as_str());
    s.append("\n\n");
    let mut t = String::new();
    match addr {
        Some(addr) => {
            t = "MCP over HTTP — served persistently at http://".to_owned();
            t.append(addr);
            t.append("/mcp:\n(check it is running: ai-imessage service status)\n\n");
            let mut url = "http://".to_owned();
            url.append(addr);
            url.append("/mcp");
            t.append(pretty(url_config(url.as_str(), token).as_str()).as_str());
            t.append("\n\n");
            let mut b = String::new();
            match tailnet {
                Some(url) => {
                    b =
                    "MCP over your tailnet — for phones and other tailnet devices:\n\n".to_owned();
                    b.append(pretty(url_config(url, token).as_str()).as_str());
                    b.append("\n\n");
                },
                None => {
                    b =
                    "For access beyond this machine, front the loopback server with a private proxy (e.g. `tailscale serve --bg --https=8443 http://".to_owned();
                    b.append(addr);
                    b.append(
                        "`), then re-run `ai-imessage connect` — the tailnet URL will be detected and printed as ready-to-paste JSON.\n\n",
                    );
                },
            }
            t.append(b.as_str());
            t.append("bearer token: ");
            t.append(token);
            t.append("\n");
        },
        None => {
            t =
            "MCP over HTTP: not enabled. Opt in with\n  ai-imessage service install --http\nthen re-run `ai-imessage connect` for the URL, token, and JSON.\n".to_owned();
        },
    }
    s.append(t.as_str());
    s
}

/// The line above a configuration that is shown.
pub fn config_header(loaded: &LoadedConfig) -> (r: String)
    ensures
        r@ == "# config file: "@ + loaded.path@ + " ("@ + (if loaded.from_file {
            "loaded"@
        } else {
            "missing — built-in defaults shown"@
        }) + ")\n"@,
{
    let mut s = "# config file: ".to_owned();
    s.append(loaded.path.as_str());
    s.append(" (");
    if loaded.from_file {
        s.append("loaded");
    } else {
        s.append("missing — built-in defaults shown");
    }
    s.append(")\n");
    s
}

/// A result is shown with its place, counted from one, what its chat goes by, its
/// days, how many messages it holds, how similar it is where that is known, and
/// its snippet. Results follow each other in their order.
pub proof fn law_how_results_are_shown(
    hits: Seq<HitView>,
    similarities: Seq<Option<Seq<char>>>,
    h: HitView,
)
    requires
        hits.len() < similarities.len(),
    ensures
        result_texts(Seq::empty(), similarities) == Seq::<char>::empty(),
        result_texts(hits.push(h), similarities) == result_texts(hits, similarities) + (
        numeric::decimal(hits.len() + 1) + ". "@ + h.chat_label + " — "@ + time::range(
            h.started_at_ms,
            h.ended_at_ms,
        ) + " ("@ + numeric::decimal_int(h.message_count as int) + " messages"@ + (
        if similarities[hits.len() as int] is Some {
            " · similarity "@ + similarities[hits.len() as int]->0
        } else {
            ""@
        }) + ")\n   "@ + text::replaced(h.snippet, '\n', "\n   "@) + "\n\n"@),
{
    assert(hits.push(h).drop_last() =~= hits);
}

/// Samples are shown one below the other, in their order.
pub proof fn law_how_samples_are_shown(a: Seq<Seq<char>>, sample: Seq<char>)
    ensures
        sample_lines(Seq::empty()) == Seq::<char>::empty(),
        sample_lines(a.push(sample)) == sample_lines(a) + "\n  "@ + sample,
{
    assert(a.push(sample).drop_last() =~= a);
}

} // verus!
