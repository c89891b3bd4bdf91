use ai_imessage::config::Config;
use ai_imessage::index::IndexDb;
use ai_imessage::mcp::{Action, Args, McpServer, Mode, Outcome};
use serde_json::Value;

fn server() -> McpServer {
    McpServer::new(IndexDb::new(), Config::default())
}

fn req(id: i64, method: &str, params: &str) -> String {
    format!(r#"{{"jsonrpc":"2.0","id":{id},"method":"{method}","params":{params}}}"#)
}

fn reply(s: &McpServer, message: &str) -> Value {
    match s.receive(message).unwrap() {
        Action::Reply(text) => serde_json::from_str(&text).unwrap(),
        other => panic!("expected a reply, got {other:?}"),
    }
}

#[test]
fn initialize_echoes_a_supported_protocol_version() {
    let s = server();
    let resp = reply(
        &s,
        &req(1, "initialize", r#"{"protocolVersion": "2025-03-26"}"#),
    );
    assert_eq!(resp["result"]["protocolVersion"], "2025-03-26");
    assert_eq!(resp["result"]["serverInfo"]["name"], "ai-imessage");
}

#[test]
fn initialize_falls_back_to_newest_supported_version() {
    let s = server();
    let resp = reply(
        &s,
        &req(1, "initialize", r#"{"protocolVersion": "1999-01-01"}"#),
    );
    assert_eq!(resp["result"]["protocolVersion"], "2025-06-18");
}

#[test]
fn notifications_get_no_response() {
    let s = server();
    let note = r#"{ "jsonrpc": "2.0", "method": "notifications/initialized" }"#;
    assert_eq!(s.receive(note), Ok(Action::Silence));
    assert_eq!(
        s.receive(r#"{"id":null,"method":"ping"}"#),
        Ok(Action::Silence)
    );
    assert_eq!(s.receive("[1,2]"), Ok(Action::Silence));
}

#[test]
fn ping_answers_with_empty_result() {
    let s = server();
    let resp = reply(&s, &req(7, "ping", "null"));
    assert_eq!(resp["result"], serde_json::from_str::<Value>("{}").unwrap());
    assert_eq!(resp["id"], 7);
}

#[test]
fn tools_list_names_all_three_tools() {
    let s = server();
    let resp = reply(&s, &req(2, "tools/list", "null"));
    let names: Vec<&str> = resp["result"]["tools"]
        .as_array()
        .unwrap()
        .iter()
        .map(|t| t["name"].as_str().unwrap())
        .collect();
    assert_eq!(
        names,
        vec!["search_messages", "get_conversation", "list_chats"]
    );
    for tool in resp["result"]["tools"].as_array().unwrap() {
        assert_eq!(tool["inputSchema"]["type"], "object");
        assert!(!tool["description"].as_str().unwrap().is_empty());
    }
}

#[test]
fn unknown_method_is_a_protocol_error() {
    let s = server();
    let resp = reply(&s, &req(3, "resources/list", "null"));
    assert_eq!(resp["error"]["code"], -32601);
    assert_eq!(
        resp["error"]["message"],
        "method not found: resources/list"
    );
}

#[test]
fn unknown_tool_is_an_invalid_params_error() {
    let s = server();
    let resp = reply(&s, &req(4, "tools/call", r#"{"name": "drop_tables"}"#));
    assert_eq!(resp["error"]["code"], -32602);
}

#[test]
fn search_without_query_is_a_tool_error_result() {
    let s = server();
    let resp = reply(
        &s,
        &req(
            5,
            "tools/call",
            r#"{"name": "search_messages", "arguments": {}}"#,
        ),
    );
    assert_eq!(resp["result"]["isError"], true);
    assert!(resp["result"]["content"][0]["text"]
        .as_str()
        .unwrap()
        .contains("query"));
}

#[test]
fn conversation_for_missing_chunk_is_a_tool_error_result() {
    let s = server();
    let resp = reply(
        &s,
        &req(
            6,
            "tools/call",
            r#"{"name": "get_conversation", "arguments": {"chunk_id": 999}}"#,
        ),
    );
    assert_eq!(resp["result"]["isError"], true);
    assert_eq!(
        resp["result"]["content"][0]["text"],
        "error: no chunk with id 999"
    );
}

#[test]
fn a_message_that_is_no_json_is_a_parse_error() {
    let s = server();
    let resp: Value = serde_json::from_str(&s.receive("not json").unwrap_err()).unwrap();
    assert_eq!(resp["error"]["code"], -32700);
    assert_eq!(resp["id"], Value::Null);
    assert!(resp["error"]["message"]
        .as_str()
        .unwrap()
        .starts_with("parse error: expected"));
}

#[test]
fn a_request_without_a_method_is_invalid_and_its_id_comes_back() {
    let s = server();
    let resp = reply(&s, r#"{"id":"a\"b"}"#);
    assert_eq!(resp["error"]["code"], -32600);
    assert_eq!(resp["id"], "a\"b");
}

#[test]
fn arguments_are_held_to_their_bounds() {
    let s = server();
    let args = |limit: Option<u64>, mode: Option<&str>| Args {
        query: Some("x".into()),
        mode: mode.map(String::from),
        limit,
        ..Args::default()
    };
    for (given, expected) in [(None, 10), (Some(0), 1), (Some(7), 7), (Some(1000), 50)] {
        match s.run_tool("search_messages", &args(given, None)) {
            Outcome::Search(q) => {
                assert_eq!(q.limit, expected);
                assert_eq!(q.mode, Mode::Hybrid);
                assert!(!q.embed);
            }
            other => panic!("unexpected {other:?}"),
        }
    }
    assert_eq!(
        s.run_tool("search_messages", &args(None, Some("semantic"))),
        Outcome::Failure("no embeddings in the index; run `ai-imessage etl`".into())
    );
    assert_eq!(
        s.run_tool("search_messages", &args(None, Some("psychic"))),
        Outcome::Failure("unknown mode \"psychic\" (hybrid, keyword, or semantic)".into())
    );
    assert_eq!(
        s.run_tool("get_conversation", &Args::default()),
        Outcome::Failure("'chunk_id' (integer) is required".into())
    );
    assert_eq!(
        s.run_tool("list_chats", &Args::default()),
        Outcome::Text("No chats match.".into())
    );
    assert_eq!(s.run_tool("other", &Args::default()), Outcome::UnknownTool);
}

#[test]
fn a_search_without_results_says_so() {
    let s = server();
    assert_eq!(s.search_text("x y", &[]), "No matches for \"x y\".");
}
