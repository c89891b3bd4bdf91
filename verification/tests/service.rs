use ai_imessage::config::{Config, LoadedConfig};
use ai_imessage::paths::PathError;
use ai_imessage::service::{
    agent_path, agent_path_from, installed_http_addr, launchd_target, log_path, log_path_from,
    log_text, plist_path, plist_path_in, render_http_plist, render_plist, targets, xml_escape,
    Agent, DEFAULT_HTTP_ADDR,
};

#[test]
fn plist_contains_label_binary_interval_and_log() {
    let plist = render_plist("/opt/bin/ai-imessage", 300, "/tmp/logs/etl.log", None);
    assert!(plist.contains("<string>com.ai-imessage.etl</string>"));
    assert!(plist.contains("<string>/opt/bin/ai-imessage</string>"));
    assert!(plist.contains("<string>etl</string>"));
    assert!(plist.contains("<integer>300</integer>"));
    assert!(plist.contains("<string>/tmp/logs/etl.log</string>"));
    assert!(!plist.contains("--config"));
}

#[test]
fn explicit_config_is_baked_into_the_agent() {
    let plist = render_plist(
        "/opt/bin/ai-imessage",
        60,
        "/tmp/etl.log",
        Some("/etc/custom.toml"),
    );
    let config_pos = plist.find("<string>--config</string>").unwrap();
    let etl_pos = plist.find("<string>etl</string>").unwrap();
    assert!(plist.contains("<string>/etc/custom.toml</string>"));
    assert!(config_pos < etl_pos, "--config must precede the subcommand");
}

#[test]
fn paths_with_xml_metacharacters_are_escaped() {
    let plist = render_plist(
        "/odd & <weird>/ai-imessage",
        300,
        "/logs & more/etl.log",
        None,
    );
    assert!(plist.contains("/odd &amp; &lt;weird&gt;/ai-imessage"));
    assert!(plist.contains("/logs &amp; more/etl.log"));
    assert!(!plist.contains("& <"));
}

#[test]
fn plist_path_is_under_launch_agents() {
    let p = plist_path().unwrap();
    assert!(p.ends_with(b"Library/LaunchAgents/com.ai-imessage.etl.plist"));
    assert_eq!(
        plist_path_in(b"/home/u", Agent::Http),
        b"/home/u/Library/LaunchAgents/com.ai-imessage.http.plist"
    );
}

#[test]
fn plist_is_valid_enough_for_launchd_basics() {
    let plist = render_plist("/b", 1, "/l", None);
    assert!(plist.starts_with("<?xml"));
    assert!(plist.contains("<key>RunAtLoad</key>"));
    assert!(plist.contains("<key>ProcessType</key>"));
    // Balanced dict: one open, one close.
    assert_eq!(plist.matches("<dict>").count(), 1);
    assert_eq!(plist.matches("</dict>").count(), 1);
}

#[test]
fn a_whole_plist_reads_as_expected() {
    assert_eq!(
        render_plist("/b", 1, "/l", None),
        r#"<?xml version="1.0" encoding="UTF-8"?>
<!DOCTYPE plist PUBLIC "-//Apple//DTD PLIST 1.0//EN" "http://www.apple.com/DTDs/PropertyList-1.0.dtd">
<plist version="1.0">
<dict>
  <key>Label</key>
  <string>com.ai-imessage.etl</string>
  <key>ProgramArguments</key>
  <array>
    <string>/b</string>
    <string>etl</string>
  </array>
  <key>StartInterval</key>
  <integer>1</integer>
  <key>RunAtLoad</key>
  <true/>
  <key>ProcessType</key>
  <string>Background</string>
  <key>StandardOutPath</key>
  <string>/l</string>
  <key>StandardErrorPath</key>
  <string>/l</string>
</dict>
</plist>
"#
    );
}

#[test]
fn the_installed_address_is_read_back() {
    for config in [None, Some("/etc/custom.toml")] {
        let plist = render_http_plist("/b", DEFAULT_HTTP_ADDR, "/l", config);
        assert_eq!(installed_http_addr(&plist).as_deref(), Some("127.0.0.1:8787"));
    }
    assert_eq!(installed_http_addr(&render_plist("/b", 1, "/l", None)), None);
    let plist = render_http_plist("/b", "a<&>b", "/l", None);
    assert_eq!(installed_http_addr(&plist), Some(xml_escape("a<&>b")));
    let plist = render_http_plist("/--http", "::1:80", "--http", Some("x--http"));
    assert_eq!(installed_http_addr(&plist).as_deref(), Some("::1:80"));
}

#[test]
fn escaped_text_has_no_markup() {
    assert_eq!(xml_escape("a<b>&c"), "a&lt;b&gt;&amp;c");
}

#[test]
fn the_log_shows_its_last_eight_lines() {
    let content: String = (1..=10).map(|i| format!("line {i}\n")).collect();
    let text = log_text("/l", Some(&content));
    assert!(text.starts_with("log:       /l (last 8 line(s)):\n  line 3\n"));
    assert!(text.ends_with("\n  line 10"));
    assert_eq!(log_text("/l", None), "log:       /l (no runs logged yet)");
}

#[test]
fn agents_are_addressed_by_their_labels() {
    assert_eq!(targets(true), vec![Agent::Http]);
    assert_eq!(targets(false), vec![Agent::Sync, Agent::Http]);
    assert_eq!(launchd_target("501", Agent::Sync), "gui/501/com.ai-imessage.etl");
    let loaded = LoadedConfig {
        config: Config::default(),
        path: "/c".into(),
        from_file: false,
    };
    assert!(log_path(&loaded, Agent::Sync).unwrap().ends_with(b"ai-imessage/logs/etl.log"));
    let h = || Some(b"/h".to_vec());
    assert_eq!(
        log_path_from(&loaded, Agent::Http, h()),
        Ok(b"/h/Library/Application Support/ai-imessage/logs/http.log".to_vec())
    );
    assert_eq!(
        log_path_from(&loaded, Agent::Sync, None),
        Err(PathError::NoHome)
    );
    assert_eq!(
        agent_path_from(Agent::Sync, h()),
        Ok(b"/h/Library/LaunchAgents/com.ai-imessage.etl.plist".to_vec())
    );
    assert_eq!(
        agent_path_from(Agent::Http, None),
        Err(PathError::NoAgentHome)
    );
    assert_eq!(agent_path(Agent::Sync), plist_path());
}

#[test]
fn texts_that_differ_are_escaped_differently() {
    let texts = ["", "&", "&amp;", "&amp;amp;", "<", "&lt;", ">", "&gt;", "a<b", "a&lt;b", "<>"];
    for (i, a) in texts.iter().enumerate() {
        for b in &texts[..i] {
            assert_ne!(xml_escape(a), xml_escape(b));
        }
    }
}
