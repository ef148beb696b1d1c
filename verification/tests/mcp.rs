use ambient::api::Folder;
use ambient::mcp::{serve, serve_line};
use ambient::shelf::SessionFacts;
use serde_json::Value;

const VERSION: &str = "0.1.0";

/// Feed request lines through `serve` and parse what came back, one value
/// per answer.
fn exchange(folders: &[Folder], requests: &[&str]) -> Vec<Value> {
    let input: String = requests.iter().map(|r| format!("{r}\n")).collect();
    serve(input.as_bytes(), VERSION, folders)
        .lines()
        .map(|l| serde_json::from_str(l).expect("each line is one JSON message"))
        .collect()
}

fn json(s: &str) -> Value {
    serde_json::from_str(s).unwrap()
}

fn folder(name: &str) -> Folder {
    Folder {
        facts: SessionFacts {
            name: name.into(),
            has_meta: false,
            has_transcript: false,
            has_room: false,
            has_call: false,
            growing: false,
            transcriber: None,
        },
        real: true,
    }
}

#[test]
fn initialize_names_the_protocol_and_this_server() {
    let got = exchange(
        &[],
        &[
            r#"{"jsonrpc":"2.0","id":1,"method":"initialize","params":{"protocolVersion":"2025-11-25","capabilities":{},"clientInfo":{"name":"t","version":"0"}}}"#,
        ],
    );
    let result = &got[0]["result"];
    assert_eq!(result["protocolVersion"], "2025-11-25");
    assert!(result["capabilities"]["tools"].is_object());
    assert_eq!(result["serverInfo"]["name"], "ambient");
    assert_eq!(result["serverInfo"]["version"], VERSION);
}

/// A revision we do not speak: name the latest we do and let the client decide,
/// rather than fail the handshake.
#[test]
fn an_unsupported_protocol_version_gets_the_latest_we_speak() {
    let got = exchange(
        &[],
        &[
            r#"{"jsonrpc":"2.0","id":1,"method":"initialize","params":{"protocolVersion":"2026-07-28","capabilities":{},"clientInfo":{"name":"t","version":"0"}}}"#,
        ],
    );
    assert_eq!(got[0]["result"]["protocolVersion"], "2025-11-25");
}

/// A notification has no `id`, and answering one is a protocol violation.
#[test]
fn notifications_are_not_answered() {
    let got = exchange(
        &[],
        &[r#"{"jsonrpc":"2.0","method":"notifications/initialized"}"#],
    );
    assert!(got.is_empty(), "expected no output, got {got:?}");
}

#[test]
fn ping_returns_an_empty_result_under_the_id_it_was_asked_with() {
    let got = exchange(&[], &[r#"{"jsonrpc":"2.0","id":"a","method":"ping"}"#]);
    assert_eq!(got[0]["id"], "a");
    assert_eq!(got[0]["result"], json("{}"));
}

#[test]
fn tools_list_describes_the_three_tools() {
    let got = exchange(
        &[],
        &[r#"{"jsonrpc":"2.0","id":1,"method":"tools/list"}"#],
    );
    let tools = got[0]["result"]["tools"].as_array().unwrap().clone();
    let names: Vec<&str> = tools.iter().map(|t| t["name"].as_str().unwrap()).collect();
    assert_eq!(names, ["sessions", "transcript", "status"]);
    for t in &tools {
        assert_eq!(t["inputSchema"]["type"], "object", "{t}");
    }
    let schema = &tools[1]["inputSchema"];
    assert_eq!(schema["properties"]["session"]["type"], "string");
    assert_eq!(schema["properties"]["since"]["type"], "integer");
    assert_eq!(schema["properties"]["verbatim"]["type"], "boolean");
    assert_eq!(schema["required"], json(r#"["session"]"#));
}

/// `status` counts the directories that are sessions, and only those: a
/// stray folder is not one, and no field is answered from behind a symlink
/// out of the root.
#[test]
fn status_counts_the_session_directories_and_names_the_live_one() {
    let mut done = folder("2026-09-05-1200");
    done.facts.has_meta = true;
    done.facts.has_transcript = true;
    let notes = folder("notes");
    let mut outside = folder("outside");
    outside.real = false;
    outside.facts.has_meta = true;
    outside.facts.has_room = true;
    let mut outside_live = folder("outside-live");
    outside_live.real = false;
    outside_live.facts.growing = true;
    let mut live = folder("live");
    live.facts.growing = true;

    let got = exchange(
        &[done, live, notes, outside, outside_live],
        &[
            r#"{"jsonrpc":"2.0","id":1,"method":"tools/call","params":{"name":"status","arguments":{}}}"#,
        ],
    );
    let result = &got[0]["result"];
    assert_eq!(result["isError"], false);
    let text = result["content"][0]["text"].as_str().unwrap();
    assert_eq!(
        json(text),
        json(r#"{"live": {"id": "live"}, "awaiting_transcript": 0, "sessions": 2}"#)
    );
}

/// A call the server cannot even attempt is a protocol error, not a tool
/// that ran and failed — the request itself was malformed.
#[test]
fn a_malformed_tool_call_is_invalid_params() {
    let got = exchange(
        &[],
        &[
            r#"{"jsonrpc":"2.0","id":1,"method":"tools/call","params":{"name":"nope","arguments":{}}}"#,
            r#"{"jsonrpc":"2.0","id":2,"method":"tools/call"}"#,
            r#"{"jsonrpc":"2.0","id":3,"method":"tools/call","params":{"name":5}}"#,
        ],
    );
    assert_eq!(got.len(), 3);
    for r in &got {
        assert_eq!(r["error"]["code"], -32602, "{r}");
    }
}

/// Every way a line can be wrong, and then a `ping`: what can be answered is.
#[test]
fn bad_lines_are_reported_and_the_loop_reads_on() {
    let got = exchange(
        &[],
        &[
            "not json at all",
            r#"{"id":1,"method":"ping"}"#,
            r#"{"jsonrpc":"2.0","id":2,"method":7}"#,
            r#"{"jsonrpc":"2.0","id":3,"method":"no/such/method"}"#,
            r#"{"jsonrpc":"2.0","id":4,"method":"ping"}"#,
        ],
    );
    assert_eq!(got[0]["id"], Value::Null);
    assert_eq!(got[0]["error"]["code"], -32700);
    assert_eq!(got[1]["error"]["code"], -32600);
    assert_eq!(got[2]["error"]["code"], -32600);
    assert_eq!(got[3]["error"]["code"], -32601);
    assert_eq!(got[4]["result"], json("{}"));
}

/// A line of bytes that is not UTF-8 is a bad request like any other.
#[test]
fn a_line_that_is_not_utf8_does_not_end_the_session() {
    let mut input = b"\xff\xfe garbage\n".to_vec();
    input.extend_from_slice(b"{\"jsonrpc\":\"2.0\",\"id\":1,\"method\":\"ping\"}\n");
    let got: Vec<Value> = serve(&input, VERSION, &[]).lines().map(json).collect();
    assert_eq!(got.len(), 2, "{got:?}");
    assert_eq!(got[0]["error"]["code"], -32700);
    assert_eq!(got[1]["id"], 1);
    assert_eq!(got[1]["result"], json("{}"));
}

/// These answer, so a client sees a tool that failed rather than a method that is
/// not there.
#[test]
fn the_unwritten_tools_report_themselves_as_failing() {
    let got = exchange(
        &[],
        &[
            r#"{"jsonrpc":"2.0","id":1,"method":"tools/call","params":{"name":"sessions","arguments":{}}}"#,
            r#"{"jsonrpc":"2.0","id":2,"method":"tools/call","params":{"name":"transcript","arguments":{"session":"x"}}}"#,
        ],
    );
    assert_eq!(got.len(), 2);
    for r in &got {
        assert_eq!(r["result"]["isError"], true, "{r}");
        assert_eq!(r["result"]["content"][0]["text"], "not implemented", "{r}");
    }
}

#[test]
fn blank_lines_are_passed_over() {
    assert_eq!(serve_line(b" \t\r\n", VERSION, &[]), None);
    assert_eq!(serve_line(b"", VERSION, &[]), None);
    assert_eq!(serve(b" \t\r\n\n", VERSION, &[]), "");
    assert_eq!(serve(b"", VERSION, &[]), "");
}

/// The id comes back as it was sent, whatever JSON it is.
#[test]
fn an_answer_carries_the_id_it_was_asked_with() {
    for id in ["17", "\"a\\u0000b\"", "null", "[1,{\"b\":2}]", "1.5"] {
        let line = format!(r#"{{"jsonrpc":"2.0","id":{id},"method":"ping"}}"#);
        let got = exchange(&[], &[&line]);
        assert_eq!(got[0]["id"], json(id), "{id}");
        assert_eq!(got[0]["jsonrpc"], "2.0");
    }
}

/// Over a whole input every request is answered on a line of its own and in order,
/// the last one with or without its newline, and nothing else is written.
#[test]
fn a_whole_input_is_answered_line_by_line() {
    let ping = |id: u32| format!(r#"{{"jsonrpc":"2.0","id":{id},"method":"ping"}}"#);
    let note = r#"{"jsonrpc":"2.0","method":"notifications/initialized"}"#;
    let input = format!("{}\n\n{note}\n{{\n{}", ping(1), ping(2));
    let got = serve(input.as_bytes(), VERSION, &[]);
    let one = |id: u32| format!("{{\"id\":{id},\"jsonrpc\":\"2.0\",\"result\":{{}}}}\n");
    let lines: Vec<&str> = got.lines().collect();
    assert_eq!(lines.len(), 3, "{got}");
    assert!(got.starts_with(&one(1)) && got.ends_with(&one(2)), "{got}");
    assert_eq!(json(lines[1])["error"]["code"], -32700);
    let each: String = input
        .split_inclusive('\n')
        .filter_map(|l| serve_line(l.as_bytes(), VERSION, &[]))
        .map(|a| a + "\n")
        .collect();
    assert_eq!(got, each);
}

/// Whatever is asked, and with whatever id, the answer is one line.
#[test]
fn an_answer_is_one_line() {
    let lines = [
        r#"{"jsonrpc":"2.0","id":"a\nb","method":"ping"}"#,
        r#"{"jsonrpc":"2.0","id":{"a\nb" : [1, "c\n"]},"method":"no\nsuch"}"#,
        r#"{"jsonrpc":"2.0","id":1,"method":"tools/list"}"#,
        r#"{"jsonrpc":"2.0","id":1,"method":"tools/call","params":{"name":"x\ny"}}"#,
        r#"{"jsonrpc":"2.0","id":1,"method":"tools/call","params":{"name":"status"}}"#,
        "{",
    ];
    let mut odd = folder("two\nlines");
    odd.facts.growing = true;
    let folders = [odd];
    for l in lines {
        let got = serve_line(l.as_bytes(), VERSION, &folders).unwrap();
        assert!(!got.contains('\n'), "{got:?}");
    }
    assert_eq!(serve(lines.join("\n").as_bytes(), VERSION, &folders).lines().count(), lines.len());
}
