use ai_imessage::config::{config_origin, Config, ConfigOrigin};
use ai_imessage::paths::{parent, PathError};

#[test]
fn defaults_match_the_spec() {
    let c = Config::default();
    assert_eq!(c.source.database_path, "~/Library/Messages/chat.db");
    assert_eq!(c.source.recent_overlap_rows, 5000);
    assert_eq!(
        c.source.contacts_path,
        "~/Library/Application Support/AddressBook"
    );
    assert_eq!(c.index.chunk_gap_minutes, 45);
    assert_eq!(c.index.chunk_target_tokens, 750);
    assert_eq!(c.index.chunk_overlap_messages, 3);
    assert_eq!(c.embeddings.provider, "embedded");
    assert_eq!(c.embeddings.batch_size, 32);
    assert_eq!(c.service.interval_seconds, 300);
    assert_eq!(c.retrieval.fts_candidates, 30);
    assert_eq!(c.retrieval.vector_candidates, 30);
    assert_eq!(c.retrieval.result_limit, 10);
    assert!(!c.privacy.allow_remote_embedding_endpoint);
    assert!(!c.privacy.index_attachment_contents);
}

#[test]
fn api_key_is_redacted() {
    let mut c = Config::default();
    c.embeddings.api_key = Some("super-secret".into());
    let shown = format!("{:?}", c.redacted());
    assert!(!shown.contains("super-secret"));
    assert!(shown.contains("<redacted>"));
}

#[test]
fn http_token_is_redacted() {
    let mut c = Config::default();
    c.service.http_token = Some("token-secret".into());
    let shown = format!("{:?}", c.redacted());
    assert!(!shown.contains("token-secret"));
    assert!(shown.contains("<redacted>"));
}

#[test]
fn redaction_without_key_keeps_config_identical() {
    let c = Config::default();
    assert_eq!(c.redacted(), c);
}

#[test]
fn source_path_expands_tilde() {
    let c = Config::default();
    let p = c.source_db_path().unwrap();
    assert!(p.starts_with(b"/"));
    assert!(p.ends_with(b"Library/Messages/chat.db"));
    assert!(!p.contains(&b'~'));
}

#[test]
fn index_dir_is_parent_of_index_db() {
    let c = Config::default();
    assert_eq!(
        c.index_dir().unwrap(),
        parent(&c.index_db_path().unwrap()).unwrap()
    );
    assert_eq!(
        c.model_cache_dir().unwrap(),
        [c.index_dir().unwrap(), b"/models".to_vec()].concat()
    );
}

#[test]
fn configured_paths_follow_from_the_home_that_was_found() {
    let c = Config::default();
    let h = || Some(b"/h".to_vec());
    let dir: &[u8] = b"/h/Library/Application Support/ai-imessage";
    assert_eq!(
        c.source_db_path_from(h()),
        Ok(b"/h/Library/Messages/chat.db".to_vec())
    );
    assert_eq!(c.index_db_path_from(h()), Ok([dir, b"/index.sqlite"].concat()));
    assert_eq!(c.index_dir_from(h()), Ok(dir.to_vec()));
    assert_eq!(c.model_cache_dir_from(h()), Ok([dir, b"/models"].concat()));
    assert_eq!(c.source_db_path_from(None), Err(PathError::NoHome));
    assert_eq!(
        c.contacts_path_from(h()),
        Ok(Some(b"/h/Library/Application Support/AddressBook".to_vec()))
    );
    assert_eq!(c.contacts_path_from(None), Err(PathError::NoHome));
    let mut off = Config::default();
    off.source.contacts_path = "  ".into();
    assert_eq!(off.contacts_path_from(None), Ok(None));
    assert_eq!(c.index_db_path_from(None), Err(PathError::NoHome));
    assert_eq!(c.index_dir_from(None), Err(PathError::NoHome));
    assert_eq!(c.model_cache_dir_from(None), Err(PathError::NoHome));
}

#[test]
fn a_blank_contacts_path_disables_contact_names() {
    let mut c = Config::default();
    assert!(c.contacts_path().unwrap().unwrap().ends_with(b"AddressBook"));
    c.source.contacts_path = "  ".into();
    assert_eq!(c.contacts_path(), Ok(None));
}

#[test]
fn the_configuration_comes_from_the_explicit_file_the_default_file_or_nowhere() {
    assert_eq!(
        config_origin(Some(b"/x.toml"), b"/d.toml", true),
        ConfigOrigin::File(b"/x.toml".to_vec())
    );
    assert_eq!(
        config_origin(Some(b"/x.toml"), b"/d.toml", false),
        ConfigOrigin::File(b"/x.toml".to_vec())
    );
    assert_eq!(
        config_origin(None, b"/d.toml", true),
        ConfigOrigin::File(b"/d.toml".to_vec())
    );
    assert_eq!(
        config_origin(None, b"/d.toml", false),
        ConfigOrigin::Defaults(b"/d.toml".to_vec())
    );
}
