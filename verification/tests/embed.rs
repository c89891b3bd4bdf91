use ai_imessage::config::Config;
use ai_imessage::embed::{
    blob_to_vector, debug_hash_counts, dims_after, is_loopback_url, make_embedder,
    response_vectors, vector_to_blob, EmbedError, EmbeddedModel, Provider, ResponseItem,
    DEBUG_DIMS,
};

fn config_with(provider: &str, base_url: Option<&str>, allow_remote: bool) -> Config {
    let mut c = Config::default();
    c.embeddings.provider = provider.into();
    c.embeddings.base_url = base_url.map(String::from);
    c.privacy.allow_remote_embedding_endpoint = allow_remote;
    c
}

/// The debug provider's vector: its counts at length one.
fn debug_vector(text: &str) -> Vec<f32> {
    let v: Vec<f32> = debug_hash_counts(text).iter().map(|n| *n as f32).collect();
    let norm = v.iter().map(|x| x * x).sum::<f32>().sqrt();
    if norm > 0.0 {
        v.iter().map(|x| x / norm).collect()
    } else {
        v
    }
}

fn cosine(a: &[f32], b: &[f32]) -> f32 {
    a.iter().zip(b).map(|(x, y)| x * y).sum()
}

#[test]
fn debug_hash_is_deterministic_and_normalized() {
    let a = debug_vector("hello world");
    let b = debug_vector("hello world");
    assert_eq!(a, b);
    let norm: f32 = a.iter().map(|x| x * x).sum::<f32>().sqrt();
    assert!((norm - 1.0).abs() < 1e-5);
}

#[test]
fn debug_hash_scores_shared_words_higher() {
    let docs = [
        debug_vector("pizza dinner tonight"),
        debug_vector("quarterly budget review"),
    ];
    let q = debug_vector("pizza tonight");
    assert!(cosine(&q, &docs[0]) > cosine(&q, &docs[1]));
}

#[test]
fn debug_hash_buckets_are_the_first_digest_byte_of_each_lower_case_word() {
    let counts = debug_hash_counts("Hello hello WORLD");
    assert_eq!(counts.len(), DEBUG_DIMS);
    assert_eq!(counts.iter().sum::<u64>(), 3);
    // SHA-256 of "hello" begins with 0x2c, that of "world" with 0x48.
    assert_eq!(counts[0x2c], 2);
    assert_eq!(counts[0x48 % 64], 1);
    assert_eq!(debug_hash_counts("ÄRGER"), debug_hash_counts("ärger"));
}

#[test]
fn unknown_provider_is_an_error() {
    let cfg = config_with("telepathy", None, false);
    let err = make_embedder(&cfg, b"/models").unwrap_err();
    assert_eq!(err, EmbedError::UnknownProvider("telepathy".into()));
    assert!(err.message().contains("unknown embeddings.provider \"telepathy\""));
}

#[test]
fn remote_endpoint_requires_the_privacy_flag() {
    let cfg = config_with(
        "openai-compatible",
        Some("https://api.example.com/v1"),
        false,
    );
    let err = match make_embedder(&cfg, b"/models") {
        Err(e) => e.message(),
        Ok(_) => panic!("expected the privacy guard to reject a remote endpoint"),
    };
    assert!(err.contains("allow_remote_embedding_endpoint"));

    let cfg = config_with(
        "openai-compatible",
        Some("https://api.example.com/v1"),
        true,
    );
    assert!(make_embedder(&cfg, b"/models").is_ok());
}

#[test]
fn loopback_endpoints_never_need_the_privacy_flag() {
    for url in [
        "http://localhost:1234/v1",
        "http://127.0.0.1:8080/v1",
        "http://[::1]:11434/v1",
    ] {
        let cfg = config_with("openai-compatible", Some(url), false);
        assert!(make_embedder(&cfg, b"/models").is_ok(), "{url}");
    }
}

#[test]
fn missing_base_url_is_an_error() {
    let cfg = config_with("openai-compatible", None, false);
    assert_eq!(
        make_embedder(&cfg, b"/models"),
        Err(EmbedError::MissingBaseUrl)
    );
}

#[test]
fn blob_roundtrip_preserves_vectors() {
    let v = vec![0.25f32, -1.5, 3.25, 0.0];
    let bits: Vec<u32> = v.iter().map(|x| x.to_bits()).collect();
    let blob = vector_to_blob(&bits);
    let expected: Vec<u8> = v.iter().flat_map(|x| x.to_le_bytes()).collect();
    assert_eq!(blob, expected);
    let back: Vec<f32> = blob_to_vector(&blob).iter().map(|b| f32::from_bits(*b)).collect();
    assert_eq!(back, v);
}

#[test]
fn left_over_bytes_of_a_blob_are_dropped() {
    assert_eq!(blob_to_vector(&[1, 0, 0, 0, 9, 9]), vec![1]);
    assert_eq!(blob_to_vector(&[9, 9, 9]), Vec::<u32>::new());
}

#[test]
fn hosts_are_told_from_ports_paths_and_brackets() {
    for (url, expected) in [
        ("localhost", true),
        ("localhost:80/x", true),
        ("http://localhost.example.com/", false),
        ("http://user@localhost/", true),
        ("http://localhost:pw@evil.example/v1", false),
        ("http://localhost@evil.example", false),
        ("http://[::1]@evil.example/", false),
        ("http://evil.example/@localhost", false),
        ("http://evil.example?@localhost", false),
        ("http://evil.example#@localhost", false),
        ("http://evil.example\\@localhost", false),
        ("http:/evil.example//localhost", false),
        ("http:evil.example://localhost", false),
        ("http://u:p@127.0.0.1:80?x", true),
        ("http://[::1", true),
        ("http://[::2]:1/", false),
        ("http:////localhost", false),
        ("localhost//evil.example/v1", false),
        ("localhost/v1//x", false),
        ("evil.example//localhost", false),
        ("http://localhost//v1", true),
        ("//localhost/v1//x", true),
        ("", false),
    ] {
        assert_eq!(is_loopback_url(url), expected, "{url}");
    }
}

#[test]
fn the_embedded_provider_knows_two_models() {
    let mut cfg = Config::default();
    cfg.embeddings.batch_size = 0;
    let p = make_embedder(&cfg, b"/models").unwrap();
    assert_eq!(
        p,
        Provider::Embedded {
            model_name: "bge-small-en-v1.5".into(),
            which: EmbeddedModel::BgeSmallEnV15,
            cache_dir: b"/models".to_vec(),
            batch_size: 1,
        }
    );
    assert_eq!(p.id(), "embedded/bge-small-en-v1.5");
    assert_eq!(p.dims(None), 384);
    assert_eq!(
        p.query_text("pizza"),
        "Represent this sentence for searching relevant passages: pizza"
    );
    cfg.embeddings.model = "all-MiniLM-L6-v2".into();
    assert_eq!(make_embedder(&cfg, b"/models").unwrap().query_text("pizza"), "pizza");
    cfg.embeddings.model = "other".into();
    let err = make_embedder(&cfg, b"/models").unwrap_err();
    assert_eq!(err, EmbedError::UnsupportedModel("other".into()));
    assert!(err.message().contains("\"other\""));
}

#[test]
fn the_endpoint_loses_its_trailing_slashes() {
    let cfg = config_with("openai-compatible", Some("http://localhost:1/v1//"), false);
    let p = make_embedder(&cfg, b"/models").unwrap();
    match &p {
        Provider::OpenAiCompatible { base_url, .. } => {
            assert_eq!(base_url, "http://localhost:1/v1")
        }
        other => panic!("unexpected {other:?}"),
    }
    assert_eq!(p.id(), "openai-compatible/bge-small-en-v1.5");
    assert_eq!(p.dims(None), 0);
    assert_eq!(p.dims(Some(7)), 7);
    assert_eq!(Provider::DebugHash.id(), "debug-hash");
    assert_eq!(Provider::DebugHash.dims(None), 64);
}

#[test]
fn an_answer_is_put_in_the_order_of_its_inputs() {
    let items = [
        ResponseItem {
            index: 1,
            embedding: vec![20],
        },
        ResponseItem {
            index: 0,
            embedding: vec![10, 11],
        },
    ];
    let v = response_vectors(&items, 2).unwrap();
    assert_eq!(v, vec![vec![10, 11], vec![20]]);
    assert_eq!(dims_after(None, &v), Some(2));
    assert_eq!(dims_after(Some(5), &v), Some(5));
    assert_eq!(dims_after(None, &[]), None);
    let err = response_vectors(&items, 3).unwrap_err();
    assert_eq!(err, EmbedError::WrongCount { got: 2, wanted: 3 });
    assert_eq!(
        err.message(),
        "embeddings endpoint returned 2 vectors for 3 inputs"
    );
}
