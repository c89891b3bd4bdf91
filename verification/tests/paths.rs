use ai_imessage::paths::{
    app_support_dir, app_support_dir_from, default_config_path, default_config_path_from,
    expand_tilde, expand_tilde_from, expand_tilde_with_home, home_dir, join, parent, require_home,
    PathError,
};

fn home() -> &'static [u8] {
    b"/Users/testuser"
}

#[test]
fn bare_tilde_expands_to_home() {
    assert_eq!(expand_tilde_with_home("~", home()), home());
}

#[test]
fn tilde_slash_prefix_expands() {
    assert_eq!(
        expand_tilde_with_home("~/Library/Messages/chat.db", home()),
        b"/Users/testuser/Library/Messages/chat.db"
    );
}

#[test]
fn absolute_paths_pass_through() {
    assert_eq!(expand_tilde_with_home("/var/tmp/x", home()), b"/var/tmp/x");
}

#[test]
fn relative_paths_pass_through() {
    assert_eq!(expand_tilde_with_home("data/chat.db", home()), b"data/chat.db");
}

#[test]
fn tilde_user_forms_are_not_expanded() {
    assert_eq!(expand_tilde_with_home("~other/x", home()), b"~other/x");
}

#[test]
fn tilde_in_the_middle_is_not_expanded() {
    assert_eq!(expand_tilde_with_home("/a/~/b", home()), b"/a/~/b");
}

#[test]
fn app_support_dir_is_under_home() {
    let dir = app_support_dir().unwrap();
    assert!(dir.ends_with(b"Library/Application Support/ai-imessage"));
}

#[test]
fn default_config_path_is_in_app_dir() {
    let p = default_config_path().unwrap();
    assert!(p.ends_with(b"ai-imessage/config.toml"));
}

#[test]
fn joining_and_parents_follow_the_path_rules() {
    for (base, rest) in [("/a", "b"), ("/a/", "b"), ("/a", "/b"), ("", "b"), ("/", "b/c")] {
        let expected = std::path::Path::new(base).join(rest);
        assert_eq!(
            join(base.as_bytes(), rest.as_bytes()),
            expected.to_str().unwrap().as_bytes()
        );
    }
    for p in ["/a/b", "/a", "/", "a", "", "a/b/", "/a//b"] {
        let expected = std::path::Path::new(p)
            .parent()
            .map(|p| p.to_str().unwrap().as_bytes().to_vec());
        assert_eq!(parent(p.as_bytes()), expected, "{p}");
    }
}

#[test]
fn a_missing_home_is_an_error() {
    assert_eq!(require_home(None), Err(PathError::NoHome));
    assert_eq!(require_home(Some(b"/h".to_vec())), Ok(b"/h".to_vec()));
    assert_eq!(
        PathError::NoHome.message(),
        "could not determine the current user's home directory"
    );
    assert_eq!(
        PathError::NoAgentHome.message(),
        "could not determine home directory"
    );
    assert_eq!(expand_tilde_from("~/x", None), Err(PathError::NoHome));
    assert_eq!(expand_tilde_from("/x", None), Err(PathError::NoHome));
    assert_eq!(app_support_dir_from(None), Err(PathError::NoHome));
    assert_eq!(default_config_path_from(None), Err(PathError::NoHome));
}

#[test]
fn locations_follow_from_the_home_that_was_found() {
    let h = || Some(b"/h".to_vec());
    assert_eq!(expand_tilde_from("~/x", h()), Ok(b"/h/x".to_vec()));
    assert_eq!(expand_tilde_from("/x", h()), Ok(b"/x".to_vec()));
    assert_eq!(expand_tilde_from("~//x//y", h()), Ok(b"/h/x//y".to_vec()));
    assert_eq!(expand_tilde_from("~/", h()), Ok(b"/h/".to_vec()));
    assert_eq!(
        app_support_dir_from(h()),
        Ok(b"/h/Library/Application Support/ai-imessage".to_vec())
    );
    assert_eq!(
        default_config_path_from(h()),
        Ok(b"/h/Library/Application Support/ai-imessage/config.toml".to_vec())
    );
}

#[test]
fn the_users_home_is_what_the_system_says() {
    let known = dirs::home_dir().unwrap();
    assert_eq!(home_dir().unwrap(), known.as_os_str().as_encoded_bytes());
    assert_eq!(expand_tilde("~").unwrap(), known.as_os_str().as_encoded_bytes());
}

#[test]
fn bytes_of_a_home_that_is_no_text_are_kept() {
    let h = || Some(b"/h/\xff\xfe".to_vec());
    assert_eq!(expand_tilde_from("~", h()), Ok(b"/h/\xff\xfe".to_vec()));
    assert_eq!(expand_tilde_from("~/\u{e9}", h()), Ok(b"/h/\xff\xfe/\xc3\xa9".to_vec()));
    assert_eq!(parent(b"/h/\xff/x"), Some(b"/h/\xff".to_vec()));
}
