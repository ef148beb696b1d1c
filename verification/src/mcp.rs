//! The sessions on this machine, read over MCP.
//!
//! JSON-RPC 2.0, one message per line in, one per line out. The loop never dies
//! on input: every way a line can be wrong — down to bytes that are not UTF-8 —
//! becomes an error *response*, so a client that sends one bad line keeps its
//! session.

use crate::api;
use crate::api::{methods, status, Folder, Method};
use crate::attribution;
use crate::attribution::quote_debug;
use crate::json;
use crate::json::{array_of, flag_str, open, quote, Layer, LayerText};
use crate::text;
use crate::text::{chars_of, decimal_string, same_str, trimmed};
use vstd::prelude::*;

verus! {

/// The revision this server implements, and the only one it claims. A client
/// offering any other gets this back rather than its own version.
pub const PROTOCOL: &'static str = "2025-11-25";

/// How far below zero the code for a line that is not JSON is.
pub const PARSE_ERROR: u64 = 32700;

/// How far below zero the code for a message that is no request is.
pub const INVALID_REQUEST: u64 = 32600;

/// How far below zero the code for a method there is not is.
pub const METHOD_NOT_FOUND: u64 = 32601;

/// How far below zero the code for arguments that cannot be used is.
pub const INVALID_PARAMS: u64 = 32602;

/// What bytes read as, with everything that is not UTF-8 replaced.
pub uninterp spec fn lossy(bytes: Seq<u8>) -> Seq<char>;

/// `String::from_utf8_lossy`: bytes as text, with what is not UTF-8 replaced. The
/// result is named [`lossy`].
#[verifier::external_body]
pub(crate) fn decode(bytes: &[u8]) -> (r: String)
    ensures
        r@ == lossy(bytes@),
{
    String::from_utf8_lossy(bytes).into_owned()
}

/// A protocol-level refusal: the request was malformed, so no tool ran. A tool
/// that ran and failed is a *result* with `isError` instead, which is what lets a
/// model read the reason rather than see a transport error.
#[derive(Debug)]
pub struct Refusal {
    pub code: u64,
    pub message: String,
}

/// An error response.
pub open spec fn failure_text(id: Seq<char>, code: nat, message: Seq<char>) -> Seq<char> {
    "{\"error\":{\"code\":-"@ + text::decimal(code) + ",\"message\":"@ + json::quoted(message)
        + "},\"id\":"@ + id + ",\"jsonrpc\":\"2.0\"}"@
}

fn failure(id: &str, code: u64, message: &str) -> (r: String)
    ensures
        r@ == failure_text(id@, code as nat, message@),
{
    let mut out: String = "{\"error\":{\"code\":-".to_owned();
    out.append(decimal_string(code).as_str());
    out.append(",\"message\":");
    out.append(quote(message).as_str());
    out.append("},\"id\":");
    out.append(id);
    out.append(",\"jsonrpc\":\"2.0\"}");
    out
}

/// A response with a result.
pub open spec fn success_text(id: Seq<char>, result: Seq<char>) -> Seq<char> {
    "{\"id\":"@ + id + ",\"jsonrpc\":\"2.0\",\"result\":"@ + result + "}"@
}

fn success(id: &str, result: &str) -> (r: String)
    ensures
        r@ == success_text(id@, result@),
{
    let mut out: String = "{\"id\":".to_owned();
    out.append(id);
    out.append(",\"jsonrpc\":\"2.0\",\"result\":");
    out.append(result);
    out.append("}");
    out
}

/// What this server is, in this version.
pub open spec fn introduction(version: Seq<char>) -> Seq<char> {
    "{\"capabilities\":{\"tools\":{\"listChanged\":false}},\"protocolVersion\":"@ + json::quoted(
        PROTOCOL@,
    ) + ",\"serverInfo\":{\"name\":\"ambient\",\"version\":"@ + json::quoted(version) + "}}"@
}

fn initialize(version: &str) -> (r: String)
    ensures
        r@ == introduction(version@),
{
    let mut out: String =
        "{\"capabilities\":{\"tools\":{\"listChanged\":false}},\"protocolVersion\":".to_owned();
    out.append(quote(PROTOCOL).as_str());
    out.append(",\"serverInfo\":{\"name\":\"ambient\",\"version\":");
    out.append(quote(version).as_str());
    out.append("}}");
    out
}

/// A tool as `tools/list` describes it.
pub open spec fn tool_text(m: Method) -> Seq<char> {
    "{\"description\":"@ + json::quoted(m.description@) + ",\"inputSchema\":"@ + m.input_schema@
        + ",\"name\":"@ + json::quoted(m.name@) + "}"@
}

/// What `tools/list` answers.
pub open spec fn tools_text() -> Seq<char> {
    "{\"tools\":"@ + json::array(api::offered().map_values(|m: Method| tool_text(m))) + "}"@
}

fn tools() -> (r: String)
    ensures
        r@ == tools_text(),
{
    let ms: Vec<Method> = methods();
    let mut items: Vec<String> = Vec::new();
    let mut i: usize = 0;
    while i < ms.len()
        invariant
            ms@ == api::offered(),
            i <= ms@.len(),
            items@.len() == i,
            forall|j: int| 0 <= j < i ==> (#[trigger] items@[j])@ == tool_text(ms@[j]),
        decreases ms@.len() - i,
    {
        let m: Method = ms[i];
        let mut o: String = "{\"description\":".to_owned();
        o.append(quote(m.description).as_str());
        o.append(",\"inputSchema\":");
        o.append(m.input_schema);
        o.append(",\"name\":");
        o.append(quote(m.name).as_str());
        o.append("}");
        items.push(o);
        i = i + 1;
    }
    proof {
        assert(text::views(items@) == api::offered().map_values(|m: Method| tool_text(m)));
    }
    let mut out: String = "{\"tools\":".to_owned();
    out.append(array_of(items.as_slice()).as_str());
    out.append("}");
    out
}

/// A tool's answer, as one block of text.
pub open spec fn content_text(words: Seq<char>, is_error: bool) -> Seq<char> {
    "{\"content\":[{\"text\":"@ + json::quoted(words) + ",\"type\":\"text\"}],\"isError\":"@
        + json::flag(is_error) + "}"@
}

fn content(words: &str, is_error: bool) -> (r: String)
    ensures
        r@ == content_text(words@, is_error),
{
    let mut out: String = "{\"content\":[{\"text\":".to_owned();
    out.append(quote(words).as_str());
    out.append(",\"type\":\"text\"}],\"isError\":");
    out.append(flag_str(is_error));
    out.append("}");
    out
}

/// Which tool a call is for, or why it is for none.
pub open spec fn tool_named(params: Option<Seq<char>>) -> Result<Seq<char>, Seq<char>> {
    match params {
        None => Err("tools/call needs an object `params`"@),
        Some(p) => match json::opened(p) {
            Ok(LayerText::Object(m)) => {
                let l = LayerText::Object(m);
                match json::text_at(l, "name"@) {
                    None => Err("tools/call needs a string `name`"@),
                    Some(name) => match json::member(l, "arguments"@) {
                        Some(a) => match json::opened(a) {
                            Ok(LayerText::Object(_)) => Ok(name),
                            _ => Err("`arguments` must be an object"@),
                        },
                        None => Ok(name),
                    },
                }
            },
            _ => Err("tools/call needs an object `params`"@),
        },
    }
}

fn invalid_params(message: &str) -> (r: Refusal)
    ensures
        r.code == INVALID_PARAMS,
        r.message@ == message@,
{
    Refusal { code: INVALID_PARAMS, message: message.to_owned() }
}

fn tool_name(params: &Option<String>) -> (r: Result<String, Refusal>)
    ensures
        match r {
            Ok(n) => tool_named(text::opt(*params)) == Ok::<Seq<char>, Seq<char>>(n@),
            Err(e) => e.code == INVALID_PARAMS && tool_named(text::opt(*params)) == Err::<
                Seq<char>,
                Seq<char>,
            >(e.message@),
        },
{
    let p: &String = match params {
        Some(p) => p,
        None => {
            return Err(invalid_params("tools/call needs an object `params`"));
        },
    };
    let l: Layer = match open(p.as_str()) {
        Ok(l) => l,
        Err(_) => {
            return Err(invalid_params("tools/call needs an object `params`"));
        },
    };
    if !l.is_object() {
        return Err(invalid_params("tools/call needs an object `params`"));
    }
    let name: String = match l.text("name") {
        Some(n) => n,
        None => {
            return Err(invalid_params("tools/call needs a string `name`"));
        },
    };
    if let Some(a) = l.get("arguments") {
        let fine: bool = match open(a.as_str()) {
            Ok(x) => x.is_object(),
            Err(_) => false,
        };
        if !fine {
            return Err(invalid_params("`arguments` must be an object"));
        }
    }
    Ok(name)
}

/// What a tool answers, or why there is none of that name. `status` is what the
/// status tool says.
pub open spec fn tool_answer(name: Seq<char>, status: Seq<char>) -> Result<Seq<char>, Seq<char>> {
    if name == "status"@ {
        Ok(content_text(status, false))
    } else if name == "sessions"@ || name == "transcript"@ {
        Ok(content_text("not implemented"@, true))
    } else {
        Err("no such tool "@ + attribution::debug_quoted(name))
    }
}

/// `tools/call`. Arguments are validated before anything else is looked at.
fn call(params: &Option<String>, status: &str) -> (r: Result<String, Refusal>)
    ensures
        match tool_named(text::opt(*params)) {
            Err(m) => r is Err && r->Err_0.code == INVALID_PARAMS && r->Err_0.message@ == m,
            Ok(name) => match tool_answer(name, status@) {
                Ok(t) => r is Ok && r->Ok_0@ == t,
                Err(m) => r is Err && r->Err_0.code == INVALID_PARAMS && r->Err_0.message@ == m,
            },
        },
{
    let name: String = match tool_name(params) {
        Ok(n) => n,
        Err(e) => {
            return Err(e);
        },
    };
    if same_str(name.as_str(), "status") {
        Ok(content(status, false))
    } else if same_str(name.as_str(), "sessions") || same_str(name.as_str(), "transcript") {
        Ok(content("not implemented", true))
    } else {
        let mut m: String = "no such tool ".to_owned();
        m.append(quote_debug(name.as_str()).as_str());
        Err(invalid_params(m.as_str()))
    }
}

/// What a request with an id is answered.
pub open spec fn answer_text(
    id: Seq<char>,
    method: Seq<char>,
    params: Option<Seq<char>>,
    version: Seq<char>,
    status: Seq<char>,
) -> Seq<char> {
    if method == "initialize"@ {
        success_text(id, introduction(version))
    } else if method == "ping"@ {
        success_text(id, "{}"@)
    } else if method == "tools/list"@ {
        success_text(id, tools_text())
    } else if method == "tools/call"@ {
        match tool_named(params) {
            Err(m) => failure_text(id, INVALID_PARAMS as nat, m),
            Ok(name) => match tool_answer(name, status) {
                Ok(t) => success_text(id, t),
                Err(m) => failure_text(id, INVALID_PARAMS as nat, m),
            },
        }
    } else {
        failure_text(
            id,
            METHOD_NOT_FOUND as nat,
            "no such method "@ + attribution::debug_quoted(method),
        )
    }
}

/// What a message is answered, if anything. A notification has no id, and
/// answering one is forbidden, even to complain.
pub open spec fn reply(
    message: Result<LayerText, Seq<char>>,
    version: Seq<char>,
    status: Seq<char>,
) -> Option<Seq<char>> {
    match message {
        Err(e) => Some(failure_text("null"@, PARSE_ERROR as nat, e)),
        Ok(LayerText::Object(m)) => {
            let l = LayerText::Object(m);
            match json::member(l, "id"@) {
                None => None,
                Some(id) => if json::text_at(l, "jsonrpc"@) != Some("2.0"@) {
                    Some(
                        failure_text(
                            id,
                            INVALID_REQUEST as nat,
                            "expected \"jsonrpc\":\"2.0\""@,
                        ),
                    )
                } else {
                    match json::text_at(l, "method"@) {
                        None => Some(
                            failure_text(id, INVALID_REQUEST as nat, "method must be a string"@),
                        ),
                        Some(method) => Some(
                            answer_text(id, method, json::member(l, "params"@), version, status),
                        ),
                    }
                },
            }
        },
        Ok(_) => Some(failure_text("null"@, INVALID_REQUEST as nat, "expected an object"@)),
    }
}

proof fn lemma_tools_one_line()
    ensures
        text::one_line(tools_text()),
{
    broadcast use text::lemma_one_line_glued;

    reveal_with_fuel(text::clear_up_to, 16);
    reveal_strlit("{\"tools\":");
    reveal_strlit("}");
    reveal_strlit("[");
    reveal_strlit("]");
    reveal_strlit(",");
    reveal_strlit("{\"description\":");
    reveal_strlit(",\"inputSchema\":");
    reveal_strlit(",\"name\":");
    text::lemma_clear("{\"tools\":"@);
    text::lemma_clear("}"@);
    text::lemma_clear("["@);
    text::lemma_clear("]"@);
    text::lemma_clear(","@);
    text::lemma_clear("{\"description\":"@);
    text::lemma_clear(",\"inputSchema\":"@);
    text::lemma_clear(",\"name\":"@);
    lemma_schemas_one_line();
    let parts = api::offered().map_values(|m: Method| tool_text(m));
    assert forall|i: int| 0 <= i < parts.len() implies text::one_line(#[trigger] parts[i]) by {
        let m = api::offered()[i];
        json::quoted_is_one_line(m.description@);
        json::quoted_is_one_line(m.name@);
        assert(text::one_line(m.input_schema@));
    }
    text::lemma_joined_one_line(parts, ","@);
}

proof fn lemma_schemas_one_line()
    ensures
        text::one_line(api::NO_ARGUMENTS@),
        text::one_line(api::TRANSCRIPT_ARGUMENTS@),
{
    reveal_with_fuel(text::clear_up_to, 41);
    reveal_strlit("{\"properties\":{},\"type\":\"object\"}");
    text::lemma_clear(api::NO_ARGUMENTS@);
    reveal_strlit("{\"properties\":{\"session\":{\"description\":\"The session id, as `sessions` reports it.\",\"type\":\"string\"},\"since\":{\"description\":\"Skip this many lines; pass back the previous reply's `next`.\",\"type\":\"integer\"},\"verbatim\":{\"description\":\"Return the words as recognised, before any naming edits.\",\"type\":\"boolean\"}},\"required\":[\"session\"],\"type\":\"object\"}");
    let s = api::TRANSCRIPT_ARGUMENTS@;
    assert(text::clear_up_to(s, 40));
    assert(text::clear_up_to(s, 80));
    assert(text::clear_up_to(s, 120));
    assert(text::clear_up_to(s, 160));
    assert(text::clear_up_to(s, 200));
    assert(text::clear_up_to(s, 240));
    assert(text::clear_up_to(s, 280));
    assert(text::clear_up_to(s, 320));
    text::lemma_clear(s);
}

proof fn lemma_failure_one_line(id: Seq<char>, code: nat, message: Seq<char>)
    requires
        text::one_line(id),
    ensures
        text::one_line(failure_text(id, code, message)),
{
    broadcast use text::lemma_one_line_glued;

    reveal_with_fuel(text::clear_up_to, 19);
    reveal_strlit("{\"error\":{\"code\":-");
    reveal_strlit(",\"message\":");
    reveal_strlit("},\"id\":");
    reveal_strlit(",\"jsonrpc\":\"2.0\"}");
    text::lemma_clear("{\"error\":{\"code\":-"@);
    text::lemma_clear(",\"message\":"@);
    text::lemma_clear("},\"id\":"@);
    text::lemma_clear(",\"jsonrpc\":\"2.0\"}"@);
    text::lemma_decimal_one_line(code);
    json::quoted_is_one_line(message);
}

proof fn lemma_success_one_line(id: Seq<char>, result: Seq<char>)
    requires
        text::one_line(id),
        text::one_line(result),
    ensures
        text::one_line(success_text(id, result)),
{
    broadcast use text::lemma_one_line_glued;

    reveal_with_fuel(text::clear_up_to, 27);
    reveal_strlit("{\"id\":");
    reveal_strlit(",\"jsonrpc\":\"2.0\",\"result\":");
    reveal_strlit("}");
    text::lemma_clear("{\"id\":"@);
    text::lemma_clear(",\"jsonrpc\":\"2.0\",\"result\":"@);
    text::lemma_clear("}"@);
}

proof fn lemma_introduction_one_line(version: Seq<char>)
    ensures
        text::one_line(introduction(version)),
{
    broadcast use text::lemma_one_line_glued;

    reveal_with_fuel(text::clear_up_to, 67);
    reveal_strlit("{\"capabilities\":{\"tools\":{\"listChanged\":false}},\"protocolVersion\":");
    reveal_strlit(",\"serverInfo\":{\"name\":\"ambient\",\"version\":");
    reveal_strlit("}}");
    text::lemma_clear("{\"capabilities\":{\"tools\":{\"listChanged\":false}},\"protocolVersion\":"@);
    text::lemma_clear(",\"serverInfo\":{\"name\":\"ambient\",\"version\":"@);
    text::lemma_clear("}}"@);
    json::quoted_is_one_line(PROTOCOL@);
    json::quoted_is_one_line(version);
}

proof fn lemma_content_one_line(words: Seq<char>, is_error: bool)
    ensures
        text::one_line(content_text(words, is_error)),
{
    broadcast use text::lemma_one_line_glued;

    reveal_with_fuel(text::clear_up_to, 28);
    reveal_strlit("{\"content\":[{\"text\":");
    reveal_strlit(",\"type\":\"text\"}],\"isError\":");
    reveal_strlit("}");
    reveal_strlit("true");
    reveal_strlit("false");
    text::lemma_clear("{\"content\":[{\"text\":"@);
    text::lemma_clear(",\"type\":\"text\"}],\"isError\":"@);
    text::lemma_clear("}"@);
    text::lemma_clear("true"@);
    text::lemma_clear("false"@);
    json::quoted_is_one_line(words);
}

/// One message goes out per line: whatever comes in, and whatever the sessions are
/// called, an answer holds no newline. Only the id goes back as it was sent, so it
/// has to hold none.
pub proof fn an_answer_is_one_line(
    message: Result<LayerText, Seq<char>>,
    version: Seq<char>,
    status: Seq<char>,
)
    requires
        message matches Ok(l) ==> (json::member(l, "id"@) matches Some(id) ==> text::one_line(id)),
    ensures
        reply(message, version, status) matches Some(answer) ==> text::one_line(answer),
{
    reveal_with_fuel(text::clear_up_to, 5);
    reveal_strlit("null");
    text::lemma_clear("null"@);
    match message {
        Err(e) => {
            lemma_failure_one_line("null"@, PARSE_ERROR as nat, e);
        },
        Ok(LayerText::Object(m)) => {
            let l = LayerText::Object(m);
            if let Some(id) = json::member(l, "id"@) {
                lemma_failure_one_line(
                    id,
                    INVALID_REQUEST as nat,
                    "expected \"jsonrpc\":\"2.0\""@,
                );
                lemma_failure_one_line(id, INVALID_REQUEST as nat, "method must be a string"@);
                if let Some(method) = json::text_at(l, "method"@) {
                    lemma_answer_one_line(id, method, json::member(l, "params"@), version, status);
                }
            }
        },
        Ok(_) => {
            lemma_failure_one_line("null"@, INVALID_REQUEST as nat, "expected an object"@);
        },
    }
}

proof fn lemma_answer_one_line(
    id: Seq<char>,
    method: Seq<char>,
    params: Option<Seq<char>>,
    version: Seq<char>,
    status: Seq<char>,
)
    requires
        text::one_line(id),
    ensures
        text::one_line(answer_text(id, method, params, version, status)),
{
    if method == "initialize"@ {
        lemma_introduction_one_line(version);
        lemma_success_one_line(id, introduction(version));
    } else if method == "ping"@ {
        reveal_with_fuel(text::clear_up_to, 3);
        reveal_strlit("{}");
        text::lemma_clear("{}"@);
        lemma_success_one_line(id, "{}"@);
    } else if method == "tools/list"@ {
        lemma_tools_one_line();
        lemma_success_one_line(id, tools_text());
    } else if method == "tools/call"@ {
        match tool_named(params) {
            Err(m) => lemma_failure_one_line(id, INVALID_PARAMS as nat, m),
            Ok(name) => match tool_answer(name, status) {
                Ok(t) => {
                    lemma_content_one_line(status, false);
                    lemma_content_one_line("not implemented"@, true);
                    lemma_success_one_line(id, t);
                },
                Err(m) => lemma_failure_one_line(id, INVALID_PARAMS as nat, m),
            },
        }
    } else {
        lemma_failure_one_line(
            id,
            METHOD_NOT_FOUND as nat,
            "no such method "@ + attribution::debug_quoted(method),
        );
    }
}

/// What a message that was read one level deep is answered.
pub fn respond(message: &Result<Layer, String>, version: &str, status: &str) -> (r: Option<String>)
    ensures
        text::opt(r) == reply(
            match *message {
                Ok(l) => Ok(l@),
                Err(e) => Err(e@),
            },
            version@,
            status@,
        ),
{
    let l: &Layer = match message {
        Ok(l) => l,
        Err(e) => {
            return Some(failure("null", PARSE_ERROR, e.as_str()));
        },
    };
    if !l.is_object() {
        return Some(failure("null", INVALID_REQUEST, "expected an object"));
    }
    let id: String = match l.get("id") {
        Some(id) => id,
        None => {
            return None;
        },
    };
    let ours: bool = match l.text("jsonrpc") {
        Some(v) => same_str(v.as_str(), "2.0"),
        None => false,
    };
    if !ours {
        return Some(failure(id.as_str(), INVALID_REQUEST, "expected \"jsonrpc\":\"2.0\""));
    }
    let method: String = match l.text("method") {
        Some(m) => m,
        None => {
            return Some(failure(id.as_str(), INVALID_REQUEST, "method must be a string"));
        },
    };
    let params: Option<String> = l.get("params");
    Some(
        if same_str(method.as_str(), "initialize") {
            success(id.as_str(), initialize(version).as_str())
        } else if same_str(method.as_str(), "ping") {
            success(id.as_str(), "{}")
        } else if same_str(method.as_str(), "tools/list") {
            success(id.as_str(), tools().as_str())
        } else if same_str(method.as_str(), "tools/call") {
            match call(&params, status) {
                Ok(t) => success(id.as_str(), t.as_str()),
                Err(e) => failure(id.as_str(), e.code, e.message.as_str()),
            }
        } else {
            let mut m: String = "no such method ".to_owned();
            m.append(quote_debug(method.as_str()).as_str());
            failure(id.as_str(), METHOD_NOT_FOUND, m.as_str())
        },
    )
}

/// One request line to its response, or nothing for a notification.
pub fn handle(line: &str, version: &str, status: &str) -> (r: Option<String>)
    ensures
        text::opt(r) == reply(json::opened(line@), version@, status@),
        r matches Some(answer) ==> text::one_line(answer@),
{
    let message: Result<Layer, String> = open(line);
    proof {
        if message is Ok {
            json::lemma_member_one_line(message->Ok_0@, "id"@);
        }
        an_answer_is_one_line(json::opened(line@), version@, status@);
    }
    respond(&message, version, status)
}

/// What a line of bytes is answered: nothing where it is blank.
pub open spec fn served(line: Seq<u8>, version: Seq<char>, status: Seq<char>) -> Option<Seq<char>> {
    if text::trim(lossy(line)).len() == 0 {
        None
    } else {
        reply(json::opened(lossy(line)), version, status)
    }
}

fn served_line(line: &[u8], version: &str, status: &str) -> (r: Option<String>)
    ensures
        text::opt(r) == served(line@, version@, status@),
        r matches Some(answer) ==> text::one_line(answer@),
{
    let words: String = decode(line);
    let c: Vec<char> = chars_of(words.as_str());
    if trimmed(c.as_slice()).len() == 0 {
        None
    } else {
        handle(words.as_str(), version, status)
    }
}

/// One turn of the loop: the bytes of one line to the line to write back, if
/// any. `folders` is what stands in the sessions folder.
pub fn serve_line(line: &[u8], version: &str, folders: &[Folder]) -> (r: Option<String>)
    ensures
        exists|live: Option<Seq<char>>| #[trigger]
            api::live_name(folders@, live) && text::opt(r) == served(
                line@,
                version@,
                api::status_text(folders@, live),
            ),
        r matches Some(answer) ==> text::one_line(answer@),
{
    let now: String = status(folders);
    let ghost live = choose|live: Option<Seq<char>>| #[trigger]
        api::live_name(folders@, live) && now@ == api::status_text(folders@, live);
    let r: Option<String> = served_line(line, version, now.as_str());
    proof {
        assert(text::opt(r) == served(line@, version@, api::status_text(folders@, live)));
    }
    r
}

/// Where the first line of an input ends: behind its newline, or with the input.
pub open spec fn line_end(input: Seq<u8>) -> nat
    decreases input.len(),
{
    if input.len() == 0 {
        0
    } else if input[0] == 10 {
        1
    } else {
        1 + line_end(input.skip(1))
    }
}

proof fn lemma_line_end(input: Seq<u8>)
    ensures
        line_end(input) <= input.len(),
        input.len() > 0 ==> line_end(input) > 0,
    decreases input.len(),
{
    if input.len() > 0 && input[0] != 10 {
        lemma_line_end(input.skip(1));
    }
}

/// The lines of an input, each with the newline that ends it.
pub open spec fn lines_of(input: Seq<u8>) -> Seq<Seq<u8>>
    decreases input.len(),
    via lines_of_decreases
{
    if input.len() == 0 {
        Seq::empty()
    } else {
        let n = line_end(input) as int;
        seq![input.take(n)] + lines_of(input.skip(n))
    }
}

#[via_fn]
proof fn lines_of_decreases(input: Seq<u8>) {
    lemma_line_end(input);
}

/// What one line adds to what is written: its answer on a line of its own, or
/// nothing.
pub open spec fn line_written(line: Seq<u8>, version: Seq<char>, status: Seq<char>) -> Seq<char> {
    match served(line, version, status) {
        Some(answer) => answer + "\n"@,
        None => Seq::empty(),
    }
}

/// What is written over a whole session: the lines that came, each with what the
/// status tool said when it came.
pub open spec fn written(came: Seq<(Seq<u8>, Seq<char>)>, version: Seq<char>) -> Seq<char>
    decreases came.len(),
{
    if came.len() == 0 {
        Seq::empty()
    } else {
        written(came.drop_last(), version) + line_written(came.last().0, version, came.last().1)
    }
}

/// Lines that all came while the sessions stood the same way.
pub open spec fn together(lines: Seq<Seq<u8>>, status: Seq<char>) -> Seq<(Seq<u8>, Seq<char>)> {
    lines.map_values(|l: Seq<u8>| (l, status))
}

fn end_of_line(input: &[u8], from: usize) -> (end: usize)
    requires
        from < input@.len(),
    ensures
        from < end <= input@.len(),
        end - from == line_end(input@.skip(from as int)),
{
    let mut end: usize = from;
    proof {
        lemma_line_end(input@.skip(from as int));
    }
    while end < input.len()
        invariant_except_break
            from <= end <= input@.len(),
            line_end(input@.skip(from as int)) == end - from + line_end(input@.skip(end as int)),
        ensures
            from <= end <= input@.len(),
            end - from == line_end(input@.skip(from as int)),
        decreases input@.len() - end,
    {
        let ghost rest = input@.skip(end as int);
        let newline: bool = input[end] == 10;
        proof {
            assert(rest[0] == input@[end as int]);
            assert(rest.skip(1) == input@.skip(end + 1));
        }
        end = end + 1;
        if newline {
            break;
        }
    }
    end
}

/// Every answer to these lines is on one line.
pub open spec fn one_line_each(lines: Seq<Seq<u8>>, version: Seq<char>, status: Seq<char>) -> bool {
    forall|i: int|
        0 <= i < lines.len() ==> (served(#[trigger] lines[i], version, status) matches Some(answer)
            ==> text::one_line(answer))
}

/// Everything that is written back over an input, from its first line to its end:
/// one line for each line that is answered, in order, and nothing else. `folders`
/// is what stands in the sessions folder.
pub fn serve(input: &[u8], version: &str, folders: &[Folder]) -> (r: String)
    ensures
        exists|live: Option<Seq<char>>| #[trigger]
            api::live_name(folders@, live) && r@ == written(
                together(lines_of(input@), api::status_text(folders@, live)),
                version@,
            ) && one_line_each(lines_of(input@), version@, api::status_text(folders@, live)),
{
    let now: String = status(folders);
    let ghost live = choose|live: Option<Seq<char>>| #[trigger]
        api::live_name(folders@, live) && now@ == api::status_text(folders@, live);
    let mut out: String = String::new();
    let mut from: usize = 0;
    let ghost mut done: Seq<Seq<u8>> = Seq::empty();
    proof {
        assert(input@.skip(0) == input@);
        assert(done + lines_of(input@) == lines_of(input@));
        assert(together(done, now@) == Seq::<(Seq<u8>, Seq<char>)>::empty());
    }
    while from < input.len()
        invariant
            from <= input@.len(),
            lines_of(input@) == done + lines_of(input@.skip(from as int)),
            out@ == written(together(done, now@), version@),
            one_line_each(done, version@, now@),
        decreases input@.len() - from,
    {
        let end: usize = end_of_line(input, from);
        let line: &[u8] = vstd::slice::slice_subrange(input, from, end);
        let ghost before = done;
        proof {
            let rest = input@.skip(from as int);
            let n = end - from;
            assert(line@ == rest.take(n));
            assert(rest.skip(n) == input@.skip(end as int));
            done = before.push(line@);
            assert(before + (seq![line@] + lines_of(input@.skip(end as int))) == done + lines_of(
                input@.skip(end as int),
            ));
            assert(together(done, now@).drop_last() == together(before, now@));
            assert(together(done, now@).last() == (line@, now@));
        }
        if let Some(answer) = served_line(line, version, now.as_str()) {
            out.append(answer.as_str());
            out.append("\n");
        }
        from = end;
    }
    proof {
        assert(lines_of(input@.skip(from as int)) == Seq::<Seq<u8>>::empty());
        assert(done == lines_of(input@));
        assert(api::live_name(folders@, live));
    }
    out
}

/// A session goes on whatever came before: what is written for later lines follows
/// what was written for earlier ones, and depends on none of them.
pub proof fn no_line_stops_the_ones_after_it(
    first: Seq<(Seq<u8>, Seq<char>)>,
    then: Seq<(Seq<u8>, Seq<char>)>,
    version: Seq<char>,
)
    ensures
        written(first + then, version) == written(first, version) + written(then, version),
    decreases then.len(),
{
    if then.len() == 0 {
        assert(first + then == first);
        assert(written(first, version) + written(then, version) == written(first, version));
    } else {
        no_line_stops_the_ones_after_it(first, then.drop_last(), version);
        assert((first + then).drop_last() == first + then.drop_last());
        assert((first + then).last() == then.last());
        let last = line_written(then.last().0, version, then.last().1);
        assert(written(first, version) + written(then.drop_last(), version) + last == written(
            first,
            version,
        ) + (written(then.drop_last(), version) + last));
    }
}

/// A blank line and a notification get no answer; a line that does not read as JSON
/// gets an error.
pub proof fn only_requests_are_answered(line: Seq<u8>, version: Seq<char>, status: Seq<char>)
    ensures
        text::trim(lossy(line)).len() == 0 ==> line_written(line, version, status) == Seq::<
            char,
        >::empty(),
        text::trim(lossy(line)).len() > 0 && json::opened(lossy(line)) is Err ==> line_written(
            line,
            version,
            status,
        ) == failure_text("null"@, PARSE_ERROR as nat, json::opened(lossy(line))->Err_0) + "\n"@,
        json::opened(lossy(line)) matches Ok(LayerText::Object(m)) && json::lookup(m, "id"@) is None
            ==> line_written(line, version, status) == Seq::<char>::empty(),
{
}

/// No byte of an input is left out: its lines, one after the other, are the input.
pub proof fn every_byte_is_in_a_line(input: Seq<u8>)
    ensures
        lines_of(input).flatten() == input,
    decreases input.len(),
{
    if input.len() == 0 {
        assert(lines_of(input).flatten() == input);
    } else {
        lemma_line_end(input);
        let n = line_end(input) as int;
        let rest = lines_of(input.skip(n));
        every_byte_is_in_a_line(input.skip(n));
        assert(lines_of(input).first() == input.take(n));
        assert(lines_of(input).drop_first() == rest);
        assert(input.take(n) + input.skip(n) == input);
    }
}

/// Whatever a message holds, what it is answered carries its id, and a message
/// without one is answered only where it is no request at all.
pub proof fn answers_carry_the_id(
    members: Seq<(Seq<char>, Seq<char>)>,
    version: Seq<char>,
    status: Seq<char>,
)
    ensures
        match json::lookup(members, "id"@) {
            None => reply(Ok(LayerText::Object(members)), version, status) is None,
            Some(id) => {
                &&& reply(Ok(LayerText::Object(members)), version, status) is Some
                &&& (exists|result: Seq<char>|
                    reply(Ok(LayerText::Object(members)), version, status)->0
                        == #[trigger] success_text(id, result)) || (exists|
                    code: nat,
                    message: Seq<char>,
                |
                    reply(Ok(LayerText::Object(members)), version, status)->0
                        == #[trigger] failure_text(id, code, message))
            },
        },
{
}

proof fn lemma_newline_ends(input: Seq<u8>)
    requires
        input.len() > 0,
    ensures
        1 <= line_end(input) <= input.len(),
        forall|i: int| 0 <= i < line_end(input) - 1 ==> #[trigger] input[i] != 10,
        line_end(input) < input.len() ==> input[line_end(input) - 1] == 10,
    decreases input.len(),
{
    if input[0] != 10 && input.len() > 1 {
        let rest = input.skip(1);
        lemma_newline_ends(rest);
        assert forall|i: int| 0 <= i < line_end(input) - 1 implies #[trigger] input[i] != 10 by {
            if i > 0 {
                assert(rest[i - 1] == input[i]);
            }
        }
    } else if input[0] != 10 {
        assert(input.skip(1) == Seq::<u8>::empty());
        assert(line_end(input.skip(1)) == 0);
    }
}

/// A line goes up to a newline and no further, and every line but the last ends with
/// one.
pub proof fn newlines_end_messages(input: Seq<u8>, i: int)
    requires
        0 <= i < lines_of(input).len(),
    ensures
        lines_of(input)[i].len() > 0,
        forall|j: int|
            0 <= j < lines_of(input)[i].len() - 1 ==> #[trigger] lines_of(input)[i][j] != 10,
        i < lines_of(input).len() - 1 ==> lines_of(input)[i].last() == 10,
    decreases input.len(),
{
    if input.len() > 0 {
        lemma_newline_ends(input);
        let n = line_end(input) as int;
        let rest = lines_of(input.skip(n));
        let all = lines_of(input);
        assert(all == seq![input.take(n)] + rest);
        if i == 0 {
            assert(all[0] == input.take(n));
            if n == input.len() {
                assert(input.skip(n) == Seq::<u8>::empty());
                assert(rest == Seq::<Seq<u8>>::empty());
            }
        } else {
            newlines_end_messages(input.skip(n), i - 1);
            assert(all[i] == rest[i - 1]);
        }
    }
}

/// A request in another protocol, or without a method, is refused as no request; a
/// method there is none of, as such.
pub proof fn refusals_say_what_is_wrong(
    members: Seq<(Seq<char>, Seq<char>)>,
    version: Seq<char>,
    status: Seq<char>,
)
    requires
        json::lookup(members, "id"@) is Some,
    ensures
        ({
            let l = LayerText::Object(members);
            let id = json::lookup(members, "id"@)->0;
            let answer = reply(Ok(l), version, status)->0;
            &&& json::text_at(l, "jsonrpc"@) != Some("2.0"@) ==> exists|m: Seq<char>|
                answer == #[trigger] failure_text(id, 32600, m)
            &&& json::text_at(l, "method"@) is None ==> exists|m: Seq<char>|
                answer == #[trigger] failure_text(id, 32600, m)
            &&& json::text_at(l, "jsonrpc"@) == Some("2.0"@) && json::text_at(l, "method"@) == Some(
                "ping"@,
            ) ==> answer == success_text(id, "{}"@)
        }),
{
    reveal_strlit("ping");
    reveal_strlit("initialize");
    assert("ping"@.len() == 4 && "initialize"@.len() == 10);
}

/// The status tool answers what the status is; the tools that are not there yet say
/// so, as an error; no other name is answered by a tool.
pub proof fn only_the_status_tool_answers(name: Seq<char>, status: Seq<char>)
    ensures
        tool_answer("status"@, status) == Ok::<Seq<char>, Seq<char>>(content_text(status, false)),
        tool_answer(name, status) is Err <==> name != "status"@ && name != "sessions"@ && name
            != "transcript"@,
        tool_answer(name, status) matches Ok(t) ==> t == content_text(status, false) || t
            == content_text("not implemented"@, true),
        json::says(content_text(status, true), ",\"type\":\"text\"}],\"isError\":"@, "true"@),
        json::says(content_text(status, false), ",\"type\":\"text\"}],\"isError\":"@, "false"@),
{
    reveal_strlit("}");
    let a = "{\"content\":[{\"text\":"@ + json::quoted(status);
    let b = ",\"type\":\"text\"}],\"isError\":"@;
    json::lemma_says(content_text(status, true), a, b, "true"@, "}"@);
    json::lemma_says(content_text(status, false), a, b, "false"@, "}"@);
}

} // verus!
