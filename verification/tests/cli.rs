use ai_imessage::cli::{
    chunk_params, config_header, connect_text, log_level, no_index_text, progress_text,
    render_results, samples_text, search_request, shows_progress, stored_token, token_of,
    SearchArgs,
};
use ai_imessage::config::{Config, LoadedConfig};
use ai_imessage::index::SearchHit;
use ai_imessage::mcp::Mode;

fn args(semantic: bool, keyword: bool, limit: Option<u32>) -> SearchArgs {
    SearchArgs {
        query: vec!["dinner".into(), "plans".into()],
        limit,
        semantic,
        keyword,
    }
}

#[test]
fn a_search_is_hybrid_unless_asked_otherwise() {
    let c = Config::default();
    let q = search_request(&args(false, false, None), &c, 0);
    assert_eq!(q.query, "dinner plans");
    assert_eq!((q.limit, q.mode, q.embed), (10, Mode::Hybrid, false));
    let q = search_request(&args(false, false, Some(3)), &c, 5);
    assert_eq!((q.limit, q.mode, q.embed), (3, Mode::Hybrid, true));
    let q = search_request(&args(true, false, None), &c, 0);
    assert_eq!((q.mode, q.embed), (Mode::Semantic, true));
    let q = search_request(&args(false, true, None), &c, 5);
    assert_eq!((q.mode, q.embed), (Mode::Keyword, false));
}

#[test]
fn results_are_numbered_dated_and_indented() {
    let hits = [
        SearchHit {
            chunk_id: 4,
            chat_label: "Ski Trip".into(),
            started_at_ms: Some(1_782_896_400_000),
            ended_at_ms: Some(1_782_896_400_000 + 86_400_000),
            message_count: 2,
            snippet: "a\nb".into(),
            score: None,
        },
        SearchHit {
            chunk_id: 5,
            chat_label: "Alice".into(),
            started_at_ms: None,
            ended_at_ms: None,
            message_count: 1,
            snippet: "c".into(),
            score: Some(0.5f32.to_bits()),
        },
    ];
    assert_eq!(
        render_results("x", &hits, &[None, Some("0.50".into())]),
        "2 result(s) for \"x\"\n\n\
         1. Ski Trip — 2026-07-01 → 2026-07-02 (2 messages)\n   a\n   b\n\n\
         2. Alice — unknown date (1 messages · similarity 0.50)\n   c\n\n"
    );
    assert_eq!(render_results("x", &[], &[]), "No matches for \"x\".\n");
}

#[test]
fn the_connection_shows_what_is_enabled() {
    let text = connect_text("/bin/ai-imessage", "f00d", None, None);
    assert!(text.starts_with("MCP over stdio"));
    assert!(text.contains("\"command\": \"/bin/ai-imessage\""));
    assert!(text.contains("not enabled"));
    assert!(!text.contains("f00d"));

    let text = connect_text("/b", "f00d", Some("127.0.0.1:8787"), None);
    assert!(text.contains("\"url\": \"http://127.0.0.1:8787/mcp\""));
    assert!(text.contains("\"Authorization\": \"Bearer f00d\""));
    assert!(text.contains("tailscale serve"));
    assert!(text.ends_with("bearer token: f00d\n"));

    let text = connect_text("/b", "f00d", Some("127.0.0.1:8787"), Some("https://m:8443/mcp"));
    assert!(text.contains("\"url\": \"https://m:8443/mcp\""));
    assert!(!text.contains("tailscale serve"));
}

#[test]
fn tokens_are_trimmed_or_made_of_random_bytes() {
    assert_eq!(stored_token(" abc\n").as_deref(), Some("abc"));
    assert_eq!(stored_token(" \n"), None);
    assert_eq!(token_of(&[0, 0xab, 0xff]), "00abff");
}

#[test]
fn config_show_redacts_api_key() {
    let mut c = Config::default();
    c.embeddings.api_key = Some("super-secret-key".into());
    let loaded = LoadedConfig {
        config: c.redacted(),
        path: "/c.toml".into(),
        from_file: true,
    };
    let shown = format!("{}{:?}", config_header(&loaded), loaded.config);
    assert!(shown.contains("<redacted>"));
    assert!(!shown.contains("super-secret-key"));
}

#[test]
fn config_show_reports_defaults_when_no_file_exists() {
    let loaded = LoadedConfig {
        config: Config::default(),
        path: "/c.toml".into(),
        from_file: false,
    };
    assert_eq!(
        config_header(&loaded),
        "# config file: /c.toml (missing — built-in defaults shown)\n"
    );
}

#[test]
fn small_texts_read_as_expected() {
    assert_eq!(log_level(0), "warn");
    assert_eq!(log_level(1), "info");
    assert_eq!(log_level(2), "debug");
    assert_eq!(
        no_index_text("/i"),
        "no index at /i — run `ai-imessage etl` first"
    );
    assert_eq!(progress_text(3, 9), "embedding… 3/9");
    assert!(shows_progress(2048, 9000) && shows_progress(7, 7) && !shows_progress(7, 9));
    assert_eq!(
        samples_text(&["a".into(), "b".into()]),
        "\nFirst 2 message texts (truncated):\n  a\n  b"
    );
    assert_eq!(chunk_params(&Config::default()).target_tokens, 750);
}
