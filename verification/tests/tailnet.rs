use ai_imessage::tailnet::{mcp_url_for, parse_serve_proxy, parse_status, running_node};

const STATUS: &str = r#"{
  "BackendState": "Running",
  "Self": {
    "DNSName": "mac.tail1234.ts.net.",
    "TailscaleIPs": ["100.1.2.3", "fd7a::1"]
  }
}"#;

const SERVE: &str = r#"{
  "TCP": { "8443": { "HTTPS": true } },
  "Web": {
    "mac.tail1234.ts.net:8443": {
      "Handlers": { "/": { "Proxy": "http://127.0.0.1:8787" } }
    }
  }
}"#;

#[test]
fn status_parses_dns_name_without_trailing_dot() {
    let info = parse_status(STATUS).unwrap();
    assert_eq!(info.dns_name, "mac.tail1234.ts.net");
    assert_eq!(info.ips, vec!["100.1.2.3", "fd7a::1"]);
}

#[test]
fn stopped_backend_is_not_detected() {
    let stopped = STATUS.replace("Running", "Stopped");
    assert_eq!(parse_status(&stopped), None);
    assert_eq!(parse_status("not json"), None);
    assert_eq!(parse_status("{}"), None);
}

#[test]
fn serve_proxy_is_found_for_the_matching_backend() {
    assert_eq!(
        parse_serve_proxy(SERVE, "127.0.0.1:8787").as_deref(),
        Some("https://mac.tail1234.ts.net:8443")
    );
}

#[test]
fn serve_proxy_ignores_other_backends_and_bad_json() {
    assert_eq!(parse_serve_proxy(SERVE, "127.0.0.1:9999"), None);
    assert_eq!(parse_serve_proxy("{}", "127.0.0.1:8787"), None);
    assert_eq!(parse_serve_proxy("nope", "127.0.0.1:8787"), None);
}

#[test]
fn serve_proxy_keeps_non_root_mounts() {
    let nested = SERVE.replace(r#""/":"#, r#""/imessage":"#);
    assert_eq!(
        parse_serve_proxy(&nested, "127.0.0.1:8787").as_deref(),
        Some("https://mac.tail1234.ts.net:8443/imessage")
    );
}

#[test]
fn the_url_is_that_of_the_proxy_or_of_a_tailnet_bind() {
    assert_eq!(
        mcp_url_for("127.0.0.1:8787", Some(STATUS), Some(SERVE)).as_deref(),
        Some("https://mac.tail1234.ts.net:8443/mcp")
    );
    assert_eq!(
        mcp_url_for("100.1.2.3:9000", Some(STATUS), Some("{}")).as_deref(),
        Some("http://mac.tail1234.ts.net:9000/mcp")
    );
    assert_eq!(
        mcp_url_for("0.0.0.0:9000", Some(STATUS), Some("{}")).as_deref(),
        Some("http://mac.tail1234.ts.net:9000/mcp")
    );
    for addr in ["[::]:8787", "[fd7a::1]:8787", "100.1.2.3:8787"] {
        assert_eq!(
            mcp_url_for(addr, Some(STATUS), Some("{}")).as_deref(),
            Some("http://mac.tail1234.ts.net:8787/mcp"),
            "{addr}"
        );
    }
    assert_eq!(mcp_url_for("[::1]:9000", Some(STATUS), Some("{}")), None);
    assert_eq!(mcp_url_for("127.0.0.1:9000", Some(STATUS), Some("{}")), None);
    assert_eq!(mcp_url_for("no-port", Some(STATUS), Some("{}")), None);
    assert_eq!(mcp_url_for("0.0.0.0:1", Some("{}"), Some("{}")), None);
    assert_eq!(mcp_url_for("0.0.0.0:1", None, Some("{}")), None);
    assert_eq!(mcp_url_for("0.0.0.0:1", Some(STATUS), None), None);
}

#[test]
fn a_node_needs_a_name() {
    assert_eq!(running_node(Some("Running"), Some(".")), None);
    assert_eq!(running_node(None, Some("a.")), None);
    assert_eq!(running_node(Some("Running"), Some("a.")).as_deref(), Some("a"));
}
