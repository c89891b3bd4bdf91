use ai_imessage::http::{parse_head, refuse, response, status_of, RequestHead};

fn head(method: &str, path: &str, authorization: Option<&str>) -> RequestHead {
    RequestHead {
        method: method.into(),
        path: path.into(),
        authorization: authorization.map(String::from),
        content_length: None,
    }
}

#[test]
fn a_head_gives_method_path_token_and_length() {
    let h = parse_head("POST /mcp HTTP/1.1\r\nHost: x\r\nAUTHORIZATION:  Bearer t \r\ncontent-length: 12\r\n")
        .unwrap();
    assert_eq!(h.method, "POST");
    assert_eq!(h.path, "/mcp");
    assert_eq!(h.authorization.as_deref(), Some("Bearer t"));
    assert_eq!(h.content_length, Some(12));
    assert_eq!(parse_head(""), None);
    assert_eq!(parse_head("GET\r\n"), None);
    let h = parse_head("GET / HTTP/1.1\r\nContent-Length: soon\r\n").unwrap();
    assert_eq!(h.content_length, None);
    assert_eq!(h.authorization, None);
}

#[test]
fn requests_are_refused_in_order() {
    assert_eq!(refuse(&head("POST", "/mcp", Some("Bearer t")), "t"), None);
    assert_eq!(refuse(&head("POST", "/mcp", None), "t"), Some(401));
    assert_eq!(refuse(&head("POST", "/mcp", Some("Bearer u")), "t"), Some(401));
    assert_eq!(refuse(&head("GET", "/other", None), "t"), Some(401));
    assert_eq!(refuse(&head("POST", "/other", Some("Bearer t")), "t"), Some(404));
    assert_eq!(refuse(&head("GET", "/mcp", Some("Bearer t")), "t"), Some(405));
}

#[test]
fn a_response_counts_bytes() {
    assert_eq!(
        response(200, "{\"ü\":1}"),
        "HTTP/1.1 200 OK\r\nContent-Type: application/json\r\nContent-Length: 8\r\nConnection: close\r\n\r\n{\"ü\":1}"
    );
    assert!(response(202, "").starts_with("HTTP/1.1 202 Accepted\r\n"));
    assert!(response(405, "").starts_with("HTTP/1.1 405 Method Not Allowed\r\n"));
}

#[test]
fn the_status_tells_bad_silent_and_answered_messages_apart() {
    assert_eq!(status_of(false, true), 400);
    assert_eq!(status_of(true, false), 202);
    assert_eq!(status_of(true, true), 200);
}
