//! The one dispatcher every session verb goes through.
//!
//! A method name and JSON `params` in; what to do, or an [`ApiError`], out. What
//! each method answers once it was done is JSON text. Every argument is checked
//! here, before any of them reaches the filesystem.

use crate::attribution;
use crate::attribution::quote_debug;
use crate::config;
use crate::config::{refuse_while_live, Config};
use crate::doctor;
use crate::doctor::{Check, CheckText};
use crate::export;
use crate::export::Format;
use crate::json;
use crate::json::{array_of, array_of_strings, flag_str, open, quote, quote_or_null, read_count, read_flag, read_text, Layer, LayerText};
use crate::session;
use crate::session::{Line, LineText};
use crate::shelf;
use crate::shelf::SessionFacts;
use crate::text;
use crate::text::{chars_of, decimal_string, path_beneath, same_str, string_before};
use vstd::prelude::*;

verus! {

/// A call that never ran, which is the client's bug, or one that ran and could
/// not answer. The distinction is what lets a caller retry a failure with
/// different arguments and know that invalid ones need a different shape
/// instead.
#[derive(Debug)]
pub enum ApiError {
    InvalidParams(String),
    Failed(String),
}

/// An error as plain characters.
pub enum ErrorText {
    InvalidParams(Seq<char>),
    Failed(Seq<char>),
}

impl View for ApiError {
    type V = ErrorText;

    open spec fn view(&self) -> ErrorText {
        match *self {
            ApiError::InvalidParams(m) => ErrorText::InvalidParams(m@),
            ApiError::Failed(m) => ErrorText::Failed(m@),
        }
    }
}

/// A name, a human description and a JSON Schema for its arguments.
#[derive(Debug, Clone, Copy)]
pub struct Method {
    pub name: &'static str,
    pub description: &'static str,
    pub input_schema: &'static str,
}

pub const NO_ARGUMENTS: &'static str = "{\"properties\":{},\"type\":\"object\"}";

pub const TRANSCRIPT_ARGUMENTS: &'static str =
    "{\"properties\":{\"session\":{\"description\":\"The session id, as `sessions` reports it.\",\"type\":\"string\"},\"since\":{\"description\":\"Skip this many lines; pass back the previous reply's `next`.\",\"type\":\"integer\"},\"verbatim\":{\"description\":\"Return the words as recognised, before any naming edits.\",\"type\":\"boolean\"}},\"required\":[\"session\"],\"type\":\"object\"}";

/// The methods that are offered as tools, as plain values.
pub open spec fn offered() -> Seq<Method> {
    seq![
        Method {
            name: "sessions",
            description: "Every recorded session on this machine, newest first.",
            input_schema: NO_ARGUMENTS,
        },
        Method {
            name: "transcript",
            description: "The lines of one session, including one being recorded now.",
            input_schema: TRANSCRIPT_ARGUMENTS,
        },
        Method {
            name: "status",
            description: "What Ambient is doing right now: the live session, if any, and what is waiting.",
            input_schema: NO_ARGUMENTS,
        },
    ]
}

/// Every method offered as a tool, in that order — not every method [`call`]
/// answers.
pub fn methods() -> (r: Vec<Method>)
    ensures
        r@ == offered(),
{
    let mut out: Vec<Method> = Vec::new();
    out.push(
        Method {
            name: "sessions",
            description: "Every recorded session on this machine, newest first.",
            input_schema: NO_ARGUMENTS,
        },
    );
    out.push(
        Method {
            name: "transcript",
            description: "The lines of one session, including one being recorded now.",
            input_schema: TRANSCRIPT_ARGUMENTS,
        },
    );
    out.push(
        Method {
            name: "status",
            description: "What Ambient is doing right now: the live session, if any, and what is waiting.",
            input_schema: NO_ARGUMENTS,
        },
    );
    proof {
        assert(out@ == offered());
    }
    out
}

/// The files and folders every call reads and writes through, rather than a
/// global default.
#[derive(Debug)]
pub struct Paths {
    pub config_file: String,
    pub roster_file: String,
    /// Set only when the caller handed a sessions root over explicitly. Anything
    /// else goes by the config file on every call, so a change of it moves the
    /// very next call.
    pub sessions_root: Option<String>,
}

impl Paths {
    /// The sessions root for this call: a pinned one wins, otherwise what the
    /// config file says today, otherwise the default in the user's home.
    pub fn root(&self, configured: Option<&str>, user_home: Option<&str>) -> (r: String)
        ensures
            r@ == (match (self.sessions_root, configured) {
                (Some(root), _) => root@,
                (None, Some(dir)) => dir@,
                (None, None) => text::beneath(
                    match user_home {
                        Some(h) => h@,
                        None => "."@,
                    },
                    "Documents/Ambient"@,
                ),
            }),
    {
        if let Some(root) = &self.sessions_root {
            return root.clone();
        }
        if let Some(dir) = configured {
            return dir.to_owned();
        }
        let home: &str = match user_home {
            Some(h) => h,
            None => ".",
        };
        path_beneath(home, "Documents/Ambient")
    }
}

/// A call whose arguments were understood.
#[derive(Debug)]
pub enum Call {
    Status,
    Sessions,
    Transcript { session: String, since: u64, verbatim: bool },
    Search { query: String, limit: u64 },
    /// The patch is the whole of the arguments, as they were sent.
    SessionUpdate { session: String, patch: String },
    SessionDelete { session: String },
    Export { session: String, format: Format, name: String },
    ConfigGet,
    ConfigSet { key: String, value: String },
    RosterList,
    RosterAdd { name: String },
    RosterRemove { name: String },
    SpeakersName { session: String, label: String, name: String },
    SpeakersUndo { session: String },
    SpeakersUnnamed { session: String },
    Devices,
    Doctor,
}

/// A call as plain characters.
pub enum CallText {
    Status,
    Sessions,
    Transcript { session: Seq<char>, since: u64, verbatim: bool },
    Search { query: Seq<char>, limit: u64 },
    SessionUpdate { session: Seq<char>, patch: Seq<char> },
    SessionDelete { session: Seq<char> },
    Export { session: Seq<char>, format: Format, name: Seq<char> },
    ConfigGet,
    ConfigSet { key: Seq<char>, value: Seq<char> },
    RosterList,
    RosterAdd { name: Seq<char> },
    RosterRemove { name: Seq<char> },
    SpeakersName { session: Seq<char>, label: Seq<char>, name: Seq<char> },
    SpeakersUndo { session: Seq<char> },
    SpeakersUnnamed { session: Seq<char> },
    Devices,
    Doctor,
}

impl View for Call {
    type V = CallText;

    open spec fn view(&self) -> CallText {
        match *self {
            Call::Status => CallText::Status,
            Call::Sessions => CallText::Sessions,
            Call::Transcript { session, since, verbatim } => CallText::Transcript {
                session: session@,
                since,
                verbatim,
            },
            Call::Search { query, limit } => CallText::Search { query: query@, limit },
            Call::SessionUpdate { session, patch } => CallText::SessionUpdate {
                session: session@,
                patch: patch@,
            },
            Call::SessionDelete { session } => CallText::SessionDelete { session: session@ },
            Call::Export { session, format, name } => CallText::Export {
                session: session@,
                format,
                name: name@,
            },
            Call::ConfigGet => CallText::ConfigGet,
            Call::ConfigSet { key, value } => CallText::ConfigSet { key: key@, value: value@ },
            Call::RosterList => CallText::RosterList,
            Call::RosterAdd { name } => CallText::RosterAdd { name: name@ },
            Call::RosterRemove { name } => CallText::RosterRemove { name: name@ },
            Call::SpeakersName { session, label, name } => CallText::SpeakersName {
                session: session@,
                label: label@,
                name: name@,
            },
            Call::SpeakersUndo { session } => CallText::SpeakersUndo { session: session@ },
            Call::SpeakersUnnamed { session } => CallText::SpeakersUnnamed { session: session@ },
            Call::Devices => CallText::Devices,
            Call::Doctor => CallText::Doctor,
        }
    }
}

pub open spec fn outcome(r: Result<Call, ApiError>) -> Result<CallText, ErrorText> {
    match r {
        Ok(c) => Ok(c@),
        Err(e) => Err(e@),
    }
}

pub open spec fn invalid<T>(message: Seq<char>) -> Result<T, ErrorText> {
    Err(ErrorText::InvalidParams(message))
}

/// The arguments of a call, if they are an object.
pub open spec fn arguments(params: Seq<char>) -> Option<LayerText> {
    match json::opened(params) {
        Ok(LayerText::Object(m)) => Some(LayerText::Object(m)),
        _ => None,
    }
}

/// The string under a name in the arguments, if there is one.
pub open spec fn argument(params: Seq<char>, name: Seq<char>) -> Option<Seq<char>> {
    match arguments(params) {
        Some(l) => json::text_at(l, name),
        None => None,
    }
}

pub open spec fn transcript_call(params: Seq<char>) -> Result<CallText, ErrorText> {
    match arguments(params) {
        None => invalid("`transcript` needs a string `session`"@),
        Some(l) => match json::text_at(l, "session"@) {
            None => invalid("`session` must be a string"@),
            Some(session) => {
                let since = match json::member(l, "since"@) {
                    None => Some(0u64),
                    Some(v) => json::as_count(v),
                };
                let verbatim = match json::member(l, "verbatim"@) {
                    None => Some(false),
                    Some(v) => json::as_flag(v),
                };
                match (since, verbatim) {
                    (None, _) => invalid("`since` must be a whole number of lines"@),
                    (_, None) => invalid("`verbatim` must be true or false"@),
                    (Some(since), Some(verbatim)) => Ok(
                        CallText::Transcript { session, since, verbatim },
                    ),
                }
            },
        },
    }
}

pub open spec fn search_call(params: Seq<char>) -> Result<CallText, ErrorText> {
    match arguments(params) {
        None => invalid("`search` needs a string `query`"@),
        Some(l) => match json::text_at(l, "query"@) {
            None => invalid("`query` must be a string"@),
            Some(query) => match json::member(l, "limit"@) {
                None => Ok(CallText::Search { query, limit: 50 }),
                Some(v) => match json::as_count(v) {
                    Some(limit) => Ok(CallText::Search { query, limit }),
                    None => invalid("`limit` must be a whole number"@),
                },
            },
        },
    }
}

/// A call that takes a session and nothing else that is checked here; `needs` is
/// what is said where the arguments are no object.
pub open spec fn session_argument(params: Seq<char>, needs: Seq<char>) -> Result<
    Seq<char>,
    ErrorText,
> {
    match arguments(params) {
        None => invalid(needs),
        Some(l) => match json::text_at(l, "session"@) {
            None => invalid("`session` must be a string"@),
            Some(session) => Ok(session),
        },
    }
}

pub open spec fn export_call(params: Seq<char>) -> Result<CallText, ErrorText> {
    match session_argument(params, "`export` needs a string `session`"@) {
        Err(e) => Err(e),
        Ok(session) => {
            let name = match json::member(arguments(params)->0, "format"@) {
                None => Some("markdown"@),
                Some(v) => json::as_text(v),
            };
            match name {
                None => invalid("`format` must be a string"@),
                Some(name) => match export::format_of(name) {
                    Some(format) => Ok(CallText::Export { session, format, name }),
                    None => invalid(export::unknown_format(name)),
                },
            }
        },
    }
}

pub open spec fn config_call(params: Seq<char>) -> Result<CallText, ErrorText> {
    match arguments(params) {
        None => invalid("`config.set` needs a string `key` and `value`"@),
        Some(l) => match (json::text_at(l, "key"@), json::text_at(l, "value"@)) {
            (None, _) => invalid("`key` must be a string"@),
            (_, None) => invalid("`value` must be a string"@),
            (Some(key), Some(value)) => Ok(CallText::ConfigSet { key, value }),
        },
    }
}

pub open spec fn name_call(params: Seq<char>) -> Result<CallText, ErrorText> {
    match session_argument(params, "`speakers.name` needs `session`, `label` and `name`"@) {
        Err(e) => Err(e),
        Ok(session) => match (argument(params, "label"@), argument(params, "name"@)) {
            (None, _) => invalid("`label` must be a string"@),
            (_, None) => invalid("`name` must be a string"@),
            (Some(label), Some(name)) => Ok(CallText::SpeakersName { session, label, name }),
        },
    }
}

/// What a method and its arguments ask for, or why they ask for nothing.
pub open spec fn asked(method: Seq<char>, params: Seq<char>) -> Result<CallText, ErrorText> {
    if method == "status"@ {
        Ok(CallText::Status)
    } else if method == "sessions"@ {
        Ok(CallText::Sessions)
    } else if method == "transcript"@ {
        transcript_call(params)
    } else if method == "search"@ {
        search_call(params)
    } else if method == "session.update"@ {
        match session_argument(params, "`session.update` needs a string `session`"@) {
            Ok(session) => Ok(CallText::SessionUpdate { session, patch: params }),
            Err(e) => Err(e),
        }
    } else if method == "session.delete"@ {
        match session_argument(params, "`session.delete` needs a string `session`"@) {
            Ok(session) => Ok(CallText::SessionDelete { session }),
            Err(e) => Err(e),
        }
    } else if method == "export"@ {
        export_call(params)
    } else if method == "config.get"@ {
        Ok(CallText::ConfigGet)
    } else if method == "config.set"@ {
        config_call(params)
    } else if method == "roster.list"@ {
        Ok(CallText::RosterList)
    } else if method == "roster.add"@ {
        match argument(params, "name"@) {
            Some(name) => Ok(CallText::RosterAdd { name }),
            None => invalid("`name` must be a string"@),
        }
    } else if method == "roster.remove"@ {
        match argument(params, "name"@) {
            Some(name) => Ok(CallText::RosterRemove { name }),
            None => invalid("`name` must be a string"@),
        }
    } else if method == "speakers.name"@ {
        name_call(params)
    } else if method == "speakers.undo"@ {
        match argument(params, "session"@) {
            Some(session) => Ok(CallText::SpeakersUndo { session }),
            None => invalid("`session` must be a string"@),
        }
    } else if method == "speakers.unnamed"@ {
        match argument(params, "session"@) {
            Some(session) => Ok(CallText::SpeakersUnnamed { session }),
            None => invalid("`session` must be a string"@),
        }
    } else if method == "devices"@ {
        Ok(CallText::Devices)
    } else if method == "doctor"@ {
        Ok(CallText::Doctor)
    } else {
        invalid("no such method "@ + attribution::debug_quoted(method))
    }
}

fn refuse(message: &str) -> (e: ApiError)
    ensures
        e@ == ErrorText::InvalidParams(message@),
{
    ApiError::InvalidParams(message.to_owned())
}

/// The arguments, as one level of JSON, if they are an object.
fn object_of(params: &str) -> (r: Option<Layer>)
    ensures
        match r {
            Some(l) => arguments(params@) == Some(l@),
            None => arguments(params@) is None,
        },
{
    match open(params) {
        Ok(l) => {
            if l.is_object() {
                Some(l)
            } else {
                None
            }
        },
        Err(_) => None,
    }
}

fn string_of_argument(params: &str, name: &str) -> (r: Option<String>)
    ensures
        text::opt(r) == argument(params@, name@),
{
    match object_of(params) {
        Some(l) => l.text(name),
        None => None,
    }
}

fn call_transcript(params: &str) -> (r: Result<Call, ApiError>)
    ensures
        outcome(r) == transcript_call(params@),
{
    let args: Layer = match object_of(params) {
        Some(l) => l,
        None => {
            return Err(refuse("`transcript` needs a string `session`"));
        },
    };
    let session: String = match args.text("session") {
        Some(s) => s,
        None => {
            return Err(refuse("`session` must be a string"));
        },
    };
    let since: u64 = match args.get("since") {
        None => 0,
        Some(v) => match read_count(v.as_str()) {
            Some(n) => n,
            None => {
                return Err(refuse("`since` must be a whole number of lines"));
            },
        },
    };
    let verbatim: bool = match args.get("verbatim") {
        None => false,
        Some(v) => match read_flag(v.as_str()) {
            Some(b) => b,
            None => {
                return Err(refuse("`verbatim` must be true or false"));
            },
        },
    };
    Ok(Call::Transcript { session, since, verbatim })
}

fn call_search(params: &str) -> (r: Result<Call, ApiError>)
    ensures
        outcome(r) == search_call(params@),
{
    let args: Layer = match object_of(params) {
        Some(l) => l,
        None => {
            return Err(refuse("`search` needs a string `query`"));
        },
    };
    let query: String = match args.text("query") {
        Some(s) => s,
        None => {
            return Err(refuse("`query` must be a string"));
        },
    };
    let limit: u64 = match args.get("limit") {
        None => 50,
        Some(v) => match read_count(v.as_str()) {
            Some(n) => n,
            None => {
                return Err(refuse("`limit` must be a whole number"));
            },
        },
    };
    Ok(Call::Search { query, limit })
}

fn session_of(params: &str, needs: &str) -> (r: Result<String, ApiError>)
    ensures
        match r {
            Ok(s) => session_argument(params@, needs@) == Ok::<Seq<char>, ErrorText>(s@),
            Err(e) => session_argument(params@, needs@) == Err::<Seq<char>, ErrorText>(e@),
        },
{
    match object_of(params) {
        Some(l) => match l.text("session") {
            Some(s) => Ok(s),
            None => Err(refuse("`session` must be a string")),
        },
        None => Err(refuse(needs)),
    }
}

fn call_export(params: &str) -> (r: Result<Call, ApiError>)
    ensures
        outcome(r) == export_call(params@),
{
    let session: String = match session_of(params, "`export` needs a string `session`") {
        Ok(s) => s,
        Err(e) => {
            return Err(e);
        },
    };
    let asked: Option<String> = match object_of(params) {
        Some(l) => l.get("format"),
        None => None,
    };
    let name: String = match asked {
        None => "markdown".to_owned(),
        Some(v) => match read_text(v.as_str()) {
            Some(s) => s,
            None => {
                return Err(refuse("`format` must be a string"));
            },
        },
    };
    match Format::named(name.as_str()) {
        Ok(format) => Ok(Call::Export { session, format, name }),
        Err(e) => Err(ApiError::InvalidParams(e)),
    }
}

fn call_config(params: &str) -> (r: Result<Call, ApiError>)
    ensures
        outcome(r) == config_call(params@),
{
    let args: Layer = match object_of(params) {
        Some(l) => l,
        None => {
            return Err(refuse("`config.set` needs a string `key` and `value`"));
        },
    };
    let key: String = match args.text("key") {
        Some(s) => s,
        None => {
            return Err(refuse("`key` must be a string"));
        },
    };
    let value: String = match args.text("value") {
        Some(s) => s,
        None => {
            return Err(refuse("`value` must be a string"));
        },
    };
    Ok(Call::ConfigSet { key, value })
}

fn call_name(params: &str) -> (r: Result<Call, ApiError>)
    ensures
        outcome(r) == name_call(params@),
{
    let session: String = match session_of(
        params,
        "`speakers.name` needs `session`, `label` and `name`",
    ) {
        Ok(s) => s,
        Err(e) => {
            return Err(e);
        },
    };
    let label: String = match string_of_argument(params, "label") {
        Some(s) => s,
        None => {
            return Err(refuse("`label` must be a string"));
        },
    };
    let name: String = match string_of_argument(params, "name") {
        Some(s) => s,
        None => {
            return Err(refuse("`name` must be a string"));
        },
    };
    Ok(Call::SpeakersName { session, label, name })
}

/// The dispatcher: what a method and its arguments ask for. A wrong type is the
/// client's bug and is told apart here from a call that ran and could not
/// answer.
pub fn call(method: &str, params: &str) -> (r: Result<Call, ApiError>)
    ensures
        outcome(r) == asked(method@, params@),
{
    if same_str(method, "status") {
        Ok(Call::Status)
    } else if same_str(method, "sessions") {
        Ok(Call::Sessions)
    } else if same_str(method, "transcript") {
        call_transcript(params)
    } else if same_str(method, "search") {
        call_search(params)
    } else if same_str(method, "session.update") {
        match session_of(params, "`session.update` needs a string `session`") {
            Ok(session) => Ok(Call::SessionUpdate { session, patch: params.to_owned() }),
            Err(e) => Err(e),
        }
    } else if same_str(method, "session.delete") {
        match session_of(params, "`session.delete` needs a string `session`") {
            Ok(session) => Ok(Call::SessionDelete { session }),
            Err(e) => Err(e),
        }
    } else if same_str(method, "export") {
        call_export(params)
    } else if same_str(method, "config.get") {
        Ok(Call::ConfigGet)
    } else if same_str(method, "config.set") {
        call_config(params)
    } else if same_str(method, "roster.list") {
        Ok(Call::RosterList)
    } else if same_str(method, "roster.add") {
        match string_of_argument(params, "name") {
            Some(name) => Ok(Call::RosterAdd { name }),
            None => Err(refuse("`name` must be a string")),
        }
    } else if same_str(method, "roster.remove") {
        match string_of_argument(params, "name") {
            Some(name) => Ok(Call::RosterRemove { name }),
            None => Err(refuse("`name` must be a string")),
        }
    } else if same_str(method, "speakers.name") {
        call_name(params)
    } else if same_str(method, "speakers.undo") {
        match string_of_argument(params, "session") {
            Some(session) => Ok(Call::SpeakersUndo { session }),
            None => Err(refuse("`session` must be a string")),
        }
    } else if same_str(method, "speakers.unnamed") {
        match string_of_argument(params, "session") {
            Some(session) => Ok(Call::SpeakersUnnamed { session }),
            None => Err(refuse("`session` must be a string")),
        }
    } else if same_str(method, "devices") {
        Ok(Call::Devices)
    } else if same_str(method, "doctor") {
        Ok(Call::Doctor)
    } else {
        let mut m: String = "no such method ".to_owned();
        m.append(quote_debug(method).as_str());
        Err(ApiError::InvalidParams(m))
    }
}

/// Whether the dispatcher fails here, it fails as the client's bug: nothing that
/// [`call`] refuses was ever tried.
pub proof fn refusals_are_the_clients_bug(method: Seq<char>, params: Seq<char>)
    requires
        asked(method, params) is Err,
    ensures
        asked(method, params)->Err_0 is InvalidParams,
{
}

/// An id is one path segment.
pub open spec fn is_session_id(id: Seq<char>) -> bool {
    &&& id.len() > 0
    &&& id != "."@
    &&& id != ".."@
    &&& !id.contains('/')
}

/// Whether a text is one path segment that is not a way up.
pub fn session_id(id: &str) -> (r: bool)
    ensures
        r == is_session_id(id@),
{
    let c: Vec<char> = chars_of(id);
    let mut i: usize = 0;
    while i < c.len()
        invariant
            c@ == id@,
            i <= c@.len(),
            forall|j: int| 0 <= j < i ==> #[trigger] c@[j] != '/',
        decreases c@.len() - i,
    {
        if c[i] == '/' {
            proof {
                assert(id@[i as int] == '/');
            }
            return false;
        }
        i = i + 1;
    }
    proof {
        assert(!id@.contains('/'));
    }
    c.len() > 0 && !same_str(id, ".") && !same_str(id, "..")
}

/// The directory of a session, or why that is not a session of this machine. A
/// separator or a `..` in an id is a request for a path outside the sessions
/// folder, and is answered before anything is opened. `is_dir` says whether the
/// directory is there, and is no link.
pub fn session_dir(root: &str, id: &str, is_dir: bool) -> (r: Result<String, String>)
    ensures
        match r {
            Ok(d) => is_session_id(id@) && is_dir && d@ == text::beneath(root@, id@),
            Err(e) => if !is_session_id(id@) {
                e@ == attribution::debug_quoted(id@) + " is not a session id"@
            } else {
                !is_dir && e@ == "no session "@ + id@
            },
        },
{
    if !session_id(id) {
        let mut e: String = quote_debug(id);
        e.append(" is not a session id");
        return Err(e);
    }
    if !is_dir {
        let mut e: String = "no session ".to_owned();
        e.append(id);
        return Err(e);
    }
    Ok(path_beneath(root, id))
}

/// What stands where a file of a session is read.
#[derive(Debug, Clone, Copy, PartialEq, Eq, Structural)]
pub enum Standing {
    Nothing,
    File,
    Else,
}

/// The refusal for the first of the files a method reads that is there and is not
/// a regular file. Containment is the whole point: the directory being inside the
/// root says nothing about where a file inside it points.
pub open spec fn refusal(
    dir: Seq<char>,
    meta: Standing,
    raw: Standing,
    edits: Standing,
) -> Option<Seq<char>> {
    if meta == Standing::Else {
        Some("refusing symlink "@ + text::beneath(dir, "session.json"@))
    } else if raw == Standing::Else {
        Some("refusing symlink "@ + text::beneath(dir, "raw.jsonl"@))
    } else if edits == Standing::Else {
        Some("refusing symlink "@ + text::beneath(dir, "edits.jsonl"@))
    } else {
        None
    }
}

pub fn symlinked(dir: &str, meta: Standing, raw: Standing, edits: Standing) -> (r: Option<String>)
    ensures
        text::opt(r) == refusal(dir@, meta, raw, edits),
{
    let name: &str = if meta == Standing::Else {
        "session.json"
    } else if raw == Standing::Else {
        "raw.jsonl"
    } else if edits == Standing::Else {
        "edits.jsonl"
    } else {
        return None;
    };
    let mut e: String = "refusing symlink ".to_owned();
    e.append(path_beneath(dir, name).as_str());
    Some(e)
}

/// The directory of a session whose files may be read, or why it may not: not a
/// session of this machine, or a link among the files.
pub fn contained(
    root: &str,
    id: &str,
    is_dir: bool,
    meta: Standing,
    raw: Standing,
    edits: Standing,
) -> (r: Result<String, ApiError>)
    ensures
        match r {
            Ok(d) => {
                &&& is_session_id(id@)
                &&& is_dir
                &&& d@ == text::beneath(root@, id@)
                &&& refusal(d@, meta, raw, edits) is None
            },
            Err(e) => e@ == ErrorText::Failed(
                if !is_session_id(id@) {
                    attribution::debug_quoted(id@) + " is not a session id"@
                } else if !is_dir {
                    "no session "@ + id@
                } else {
                    refusal(text::beneath(root@, id@), meta, raw, edits)->0
                },
            ) && (is_session_id(id@) && is_dir ==> refusal(
                text::beneath(root@, id@),
                meta,
                raw,
                edits,
            ) is Some),
        },
{
    match session_dir(root, id, is_dir) {
        Err(e) => Err(ApiError::Failed(e)),
        Ok(dir) => match symlinked(dir.as_str(), meta, raw, edits) {
            Some(e) => Err(ApiError::Failed(e)),
            None => Ok(dir),
        },
    }
}

/// Change one setting. A change of the sessions folder while a session is
/// recording is refused as something that could not be done now, an unknown key
/// or value as the client's bug; either way nothing changes.
pub fn config_set(
    c: &mut Config,
    key: &str,
    value: &str,
    number: Result<u32, String>,
    live: Option<&str>,
) -> (r: Result<(), ApiError>)
    ensures
        if key@ == "sessions_dir"@ && live is Some {
            &&& r is Err
            &&& r->Err_0@ == ErrorText::Failed(
                "a recording is in progress in "@ + live->0@
                    + "; stop it before moving the sessions directory"@,
            )
            &&& final(c)@ == old(c)@
        } else {
            match config::setting(old(c)@, key@, value@, config::number_text(number)) {
                Ok(after) => r is Ok && final(c)@ == after,
                Err(e) => r is Err && r->Err_0@ == ErrorText::InvalidParams(e) && final(c)@
                    == old(c)@,
            }
        },
{
    match refuse_while_live(key, live) {
        Err(e) => Err(ApiError::Failed(e)),
        Ok(()) => match c.set(key, value, number) {
            Ok(()) => Ok(()),
            Err(e) => Err(ApiError::InvalidParams(e)),
        },
    }
}

/// The one word for what is happening to a session, in the order it is happening:
/// a capture in flight outranks a transcriber, which outranks the transcript a
/// previous run left.
pub open spec fn state_word(growing: bool, transcribing: bool, has_transcript: bool) -> Seq<char> {
    if growing {
        "live"@
    } else if transcribing {
        "transcribing"@
    } else if has_transcript {
        "done"@
    } else {
        "pending"@
    }
}

pub fn state(growing: bool, transcriber: Option<u32>, has_transcript: bool) -> (r: &'static str)
    ensures
        r@ == state_word(growing, transcriber is Some, has_transcript),
{
    if growing {
        "live"
    } else if transcriber.is_some() {
        "transcribing"
    } else if has_transcript {
        "done"
    } else {
        "pending"
    }
}

/// A line as JSON text.
pub open spec fn line_text(l: LineText) -> Seq<char> {
    "{\"end_ms\":"@ + text::decimal(l.end_ms as nat) + ",\"speaker\":"@ + json::nullable(l.speaker)
        + ",\"start_ms\":"@ + text::decimal(l.start_ms as nat) + ",\"text\":"@ + json::quoted(l.text)
        + ",\"track\":"@ + json::quoted(l.track.word()) + "}"@
}

fn line_json(l: &Line) -> (r: String)
    ensures
        r@ == line_text(l@),
{
    let mut out: String = "{\"end_ms\":".to_owned();
    out.append(decimal_string(l.end_ms).as_str());
    out.append(",\"speaker\":");
    let who: Option<&str> = match &l.speaker {
        Some(s) => Some(s.as_str()),
        None => None,
    };
    out.append(quote_or_null(who).as_str());
    out.append(",\"start_ms\":");
    out.append(decimal_string(l.start_ms).as_str());
    out.append(",\"text\":");
    out.append(quote(l.text.as_str()).as_str());
    out.append(",\"track\":");
    out.append(quote(l.track.as_str()).as_str());
    out.append("}");
    out
}

/// The lines that have not been seen.
pub open spec fn unseen(lines: Seq<LineText>, since: nat) -> Seq<LineText> {
    if since < lines.len() {
        lines.skip(since as int)
    } else {
        Seq::empty()
    }
}

/// What `transcript` answers: the lines from `since` on, and where to go on from.
pub open spec fn transcript_answer(
    id: Seq<char>,
    state: Seq<char>,
    lines: Seq<LineText>,
    since: nat,
) -> Seq<char> {
    "{\"lines\":"@ + json::array(
        unseen(lines, since).map_values(|l: LineText| line_text(l)),
    ) + ",\"next\":"@ + text::decimal(lines.len()) + ",\"session\":"@ + json::quoted(id)
        + ",\"state\":"@ + json::quoted(state) + "}"@
}

/// One session from `since` lines on, in the order the lines were written: a
/// cursor on their times would step past lines of the other track that arrive
/// later and never show them.
pub fn read(id: &str, state: &str, lines: &[Line], since: u64) -> (r: String)
    ensures
        r@ == transcript_answer(id@, state@, session::line_texts(lines@), since as nat),
{
    let ghost all = session::line_texts(lines@);
    let n: usize = lines.len();
    let seen: usize = if since < n as u64 {
        since as usize
    } else {
        n
    };
    let ghost want = unseen(all, since as nat);
    let mut items: Vec<String> = Vec::new();
    let mut i: usize = seen;
    proof {
        assert(want == all.skip(seen as int));
    }
    while i < n
        invariant
            n == lines@.len(),
            all == session::line_texts(lines@),
            seen <= i <= n,
            want == all.skip(seen as int),
            items@.len() == i - seen,
            forall|j: int| 0 <= j < items@.len() ==> (#[trigger] items@[j])@ == line_text(want[j]),
        decreases n - i,
    {
        items.push(line_json(&lines[i]));
        i = i + 1;
    }
    proof {
        assert(text::views(items@) == want.map_values(|l: LineText| line_text(l)));
    }
    let mut out: String = "{\"lines\":".to_owned();
    out.append(array_of(items.as_slice()).as_str());
    out.append(",\"next\":");
    out.append(decimal_string(n as u64).as_str());
    out.append(",\"session\":");
    out.append(quote(id).as_str());
    out.append(",\"state\":");
    out.append(quote(state).as_str());
    out.append("}");
    out
}

/// Reading a session twice, the second time from where the first left off, shows
/// every line exactly once, also those that were written in between.
pub proof fn nothing_is_shown_twice(first: Seq<LineText>, second: Seq<LineText>)
    requires
        first.len() <= second.len(),
        second.take(first.len() as int) == first,
    ensures
        unseen(first, 0) + unseen(second, first.len()) == second,
{
    assert(unseen(first, 0) == first);
    assert(first + unseen(second, first.len()) == second);
}

/// What `export` answers.
pub fn export_answer(id: &str, format: &str, text: &str) -> (r: String)
    ensures
        r@ == "{\"format\":"@ + json::quoted(format@) + ",\"session\":"@ + json::quoted(id@)
            + ",\"text\":"@ + json::quoted(text@) + "}"@,
{
    let mut out: String = "{\"format\":".to_owned();
    out.append(quote(format).as_str());
    out.append(",\"session\":");
    out.append(quote(id).as_str());
    out.append(",\"text\":");
    out.append(quote(text).as_str());
    out.append("}");
    out
}

/// What `session.delete` answers.
pub fn delete_answer(id: &str) -> (r: String)
    ensures
        r@ == "{\"deleted\":true,\"session\":"@ + json::quoted(id@) + "}"@,
{
    let mut out: String = "{\"deleted\":true,\"session\":".to_owned();
    out.append(quote(id).as_str());
    out.append("}");
    out
}

/// What `speakers.name` answers.
pub fn renamed_answer(renamed: usize) -> (r: String)
    ensures
        r@ == "{\"renamed\":"@ + text::decimal(renamed as nat) + "}"@,
{
    let mut out: String = "{\"renamed\":".to_owned();
    out.append(decimal_string(renamed as u64).as_str());
    out.append("}");
    out
}

/// A label and the first thing that voice said, as JSON text.
pub open spec fn label_text(l: (String, String)) -> Seq<char> {
    "{\"label\":"@ + json::quoted(l.0@) + ",\"sample\":"@ + json::quoted(l.1@) + "}"@
}

/// What `speakers.unnamed` answers: the labels nobody has named yet.
pub fn unnamed_answer(labels: &[(String, String)]) -> (r: String)
    ensures
        r@ == json::array(labels@.map_values(|l: (String, String)| label_text(l))),
{
    let mut items: Vec<String> = Vec::new();
    let mut i: usize = 0;
    while i < labels.len()
        invariant
            i <= labels@.len(),
            items@.len() == i,
            forall|j: int| 0 <= j < i ==> (#[trigger] items@[j])@ == label_text(labels@[j]),
        decreases labels@.len() - i,
    {
        let mut o: String = "{\"label\":".to_owned();
        o.append(quote(labels[i].0.as_str()).as_str());
        o.append(",\"sample\":");
        o.append(quote(labels[i].1.as_str()).as_str());
        o.append("}");
        items.push(o);
        i = i + 1;
    }
    proof {
        assert(text::views(items@) == labels@.map_values(|l: (String, String)| label_text(l)));
    }
    array_of(items.as_slice())
}

/// What `devices` answers.
pub fn devices_answer(names: &[String]) -> (r: String)
    ensures
        r@ == "{\"devices\":"@ + json::strings(text::views(names@)) + "}"@,
{
    let mut out: String = "{\"devices\":".to_owned();
    out.append(array_of_strings(names).as_str());
    out.append("}");
    out
}

/// A check as JSON text.
pub open spec fn check_text(c: CheckText) -> Seq<char> {
    "{\"detail\":"@ + json::quoted(c.detail) + ",\"name\":"@ + json::quoted(c.name) + ",\"ok\":"@
        + json::flag(c.ok) + "}"@
}

/// What `doctor` answers.
pub fn doctor_answer(checks: &[Check]) -> (r: String)
    ensures
        r@ == json::array(
            doctor::check_texts(checks@).map_values(|c: CheckText| check_text(c)),
        ),
{
    let ghost all = doctor::check_texts(checks@);
    let mut items: Vec<String> = Vec::new();
    let mut i: usize = 0;
    while i < checks.len()
        invariant
            i <= checks@.len(),
            all == doctor::check_texts(checks@),
            items@.len() == i,
            forall|j: int| 0 <= j < i ==> (#[trigger] items@[j])@ == check_text(all[j]),
        decreases checks@.len() - i,
    {
        let c: &Check = &checks[i];
        let mut o: String = "{\"detail\":".to_owned();
        o.append(quote(c.detail.as_str()).as_str());
        o.append(",\"name\":");
        o.append(quote(c.name.as_str()).as_str());
        o.append(",\"ok\":");
        o.append(flag_str(c.ok));
        o.append("}");
        proof {
            assert(all[i as int] == c@);
        }
        items.push(o);
        i = i + 1;
    }
    proof {
        assert(text::views(items@) == all.map_values(|c: CheckText| check_text(c)));
    }
    array_of(items.as_slice())
}

/// How long audio is kept, in a word or a number.
pub open spec fn retention_text(days: Option<u32>) -> Seq<char> {
    match days {
        None => "forever"@,
        Some(n) => text::decimal(n as nat),
    }
}

/// What `config.get` answers. `threshold` is the number as JSON writes it.
pub open spec fn config_answer(
    c: config::ConfigText,
    threshold: Seq<char>,
    devices: Seq<Seq<char>>,
    home: Seq<char>,
    roster: Seq<Seq<char>>,
    latest: Option<Seq<char>>,
) -> Seq<char> {
    "{\"apps\":"@ + json::strings(c.apps) + ",\"ask_before_recording\":"@ + json::flag(
        c.ask_before_recording,
    ) + ",\"audio_retention\":"@ + json::quoted(retention_text(c.audio_retention_days))
        + ",\"default_dir\":"@ + json::quoted(home + "/Documents/Ambient"@) + ",\"devices\":"@
        + json::strings(devices) + ",\"diarize\":"@ + json::flag(c.diarize) + ",\"input_device\":"@
        + json::nullable(c.input_device) + ",\"latest_session\":"@ + json::nullable(latest)
        + ",\"roster\":"@ + json::strings(roster) + ",\"sessions_dir\":"@ + json::nullable(
        c.sessions_dir,
    ) + ",\"threshold\":"@ + threshold + "}"@
}

fn borrowed(s: &Option<String>) -> (r: Option<&str>)
    ensures
        match r {
            Some(t) => text::opt(*s) == Some(t@),
            None => *s is None,
        },
{
    match s {
        Some(t) => Some(t.as_str()),
        None => None,
    }
}

/// The settings the window's page receives.
pub fn config_get(
    c: &Config,
    threshold: &str,
    devices: &[String],
    home: &str,
    roster: &[String],
    latest: Option<&str>,
) -> (r: String)
    ensures
        r@ == config_answer(
            c@,
            threshold@,
            text::views(devices@),
            home@,
            text::views(roster@),
            match latest {
                Some(s) => Some(s@),
                None => None,
            },
        ),
{
    let mut dir: String = home.to_owned();
    dir.append("/Documents/Ambient");
    let kept: String = match c.audio_retention_days {
        None => "forever".to_owned(),
        Some(n) => decimal_string(n as u64),
    };
    let mut out: String = "{\"apps\":".to_owned();
    out.append(array_of_strings(c.apps.as_slice()).as_str());
    out.append(",\"ask_before_recording\":");
    out.append(flag_str(c.ask_before_recording));
    out.append(",\"audio_retention\":");
    out.append(quote(kept.as_str()).as_str());
    out.append(",\"default_dir\":");
    out.append(quote(dir.as_str()).as_str());
    out.append(",\"devices\":");
    out.append(array_of_strings(devices).as_str());
    out.append(",\"diarize\":");
    out.append(flag_str(c.diarize));
    out.append(",\"input_device\":");
    out.append(quote_or_null(borrowed(&c.input_device)).as_str());
    out.append(",\"latest_session\":");
    out.append(quote_or_null(latest).as_str());
    out.append(",\"roster\":");
    out.append(array_of_strings(roster).as_str());
    out.append(",\"sessions_dir\":");
    out.append(quote_or_null(borrowed(&c.sessions_dir)).as_str());
    out.append(",\"threshold\":");
    out.append(threshold);
    out.append("}");
    out
}

/// Something in the sessions folder that may be a session.
#[derive(Debug)]
pub struct Folder {
    pub facts: SessionFacts,
    /// It is a directory, and no link to one.
    pub real: bool,
}

/// A directory counts when it holds its metadata or growing scratch audio — the
/// two ends of a recording's life — and is no link, whatever that points at.
pub open spec fn counts(f: Folder) -> bool {
    f.real && (f.facts.has_meta || f.facts.growing)
}

/// How many of the folders count, and how many of those await a transcript.
pub open spec fn tally(folders: Seq<Folder>) -> (nat, nat)
    decreases folders.len(),
{
    if folders.len() == 0 {
        (0, 0)
    } else {
        let rest = tally(folders.drop_last());
        let f = folders.last();
        if !counts(f) {
            rest
        } else if shelf::awaits(f.facts) {
            (rest.0 + 1, rest.1 + 1)
        } else {
            (rest.0 + 1, rest.1)
        }
    }
}

/// Folder `i` is the live session: it counts, its audio is growing, and none that
/// does so sorts after it.
pub open spec fn is_live(folders: Seq<Folder>, i: int) -> bool {
    &&& 0 <= i < folders.len()
    &&& counts(folders[i])
    &&& folders[i].facts.growing
    &&& forall|j: int|
        0 <= j < folders.len() && counts(#[trigger] folders[j]) && folders[j].facts.growing
            ==> !text::before(folders[i].facts.name@, folders[j].facts.name@)
}

/// Which folder is the live session.
pub fn live_folder(folders: &[Folder]) -> (r: Option<usize>)
    ensures
        match r {
            Some(i) => is_live(folders@, i as int),
            None => forall|j: int|
                0 <= j < folders@.len() && counts(#[trigger] folders@[j])
                    ==> !folders@[j].facts.growing,
        },
{
    let mut best: Option<usize> = None;
    let mut i: usize = 0;
    while i < folders.len()
        invariant
            i <= folders@.len(),
            match best {
                Some(b) => b < i && is_live(folders@.take(i as int), b as int),
                None => forall|j: int|
                    0 <= j < i && counts(#[trigger] folders@[j]) ==> !folders@[j].facts.growing,
            },
        decreases folders@.len() - i,
    {
        let f: &Folder = &folders[i];
        let ghost was = folders@.take(i as int);
        let ghost next = folders@.take(i + 1);
        proof {
            assert(forall|j: int| 0 <= j < i ==> was[j] == next[j] && next[j] == #[trigger] folders@[j]);
            assert(next[i as int] == *f);
        }
        if f.real && f.facts.growing {
            let later: bool = match best {
                Some(b) => string_before(folders[b].facts.name.as_str(), f.facts.name.as_str()),
                None => true,
            };
            proof {
                let x = f.facts.name@;
                text::lemma_before_total(x, x);
                if best is Some {
                    let b = folders@[best->0 as int].facts.name@;
                    text::lemma_before_total(b, x);
                    assert forall|j: int|
                        0 <= j < i && counts(#[trigger] next[j]) && next[j].facts.growing
                            && later implies !text::before(x, next[j].facts.name@) by {
                        assert(counts(was[j]));
                        let y = next[j].facts.name@;
                        if text::before(x, y) {
                            text::lemma_before_trans(b, x, y);
                        }
                    }
                    assert forall|j: int|
                        0 <= j < i && counts(#[trigger] next[j])
                            && next[j].facts.growing implies !text::before(
                        b,
                        next[j].facts.name@,
                    ) by {
                        assert(counts(was[j]));
                    }
                }
            }
            if later {
                best = Some(i);
            }
        } else {
            proof {
                if best is Some {
                    let b = folders@[best->0 as int].facts.name@;
                    assert forall|j: int|
                        0 <= j < next.len() && counts(#[trigger] next[j])
                            && next[j].facts.growing implies !text::before(
                        b,
                        next[j].facts.name@,
                    ) by {
                        assert(j < i);
                        assert(counts(was[j]));
                    }
                }
            }
        }
        i = i + 1;
    }
    proof {
        assert(folders@.take(folders@.len() as int) == folders@);
    }
    best
}

/// A session with a link among its files, as JSON text: it is on this machine and
/// a person should see it, but nothing behind the link is read.
pub open spec fn refused_entry(dir: Seq<char>, f: SessionFacts, refusal: Seq<char>) -> Seq<char> {
    "{\"dir\":"@ + json::quoted(dir) + ",\"duration_s\":null,\"error\":"@ + json::quoted(refusal)
        + ",\"id\":"@ + json::quoted(f.name@) + ",\"live\":"@ + json::flag(f.growing)
        + ",\"name\":null,\"pinned\":false,\"started_at\":null,\"tags\":[],\"transcribed\":"@
        + json::flag(f.has_transcript) + ",\"transcribing\":"@ + json::flag(f.transcriber is Some)
        + "}"@
}

fn refused_json(dir: &str, f: &SessionFacts, refusal: &str) -> (r: String)
    ensures
        r@ == refused_entry(dir@, *f, refusal@),
{
    let mut out: String = "{\"dir\":".to_owned();
    out.append(quote(dir).as_str());
    out.append(",\"duration_s\":null,\"error\":");
    out.append(quote(refusal).as_str());
    out.append(",\"id\":");
    out.append(quote(f.name.as_str()).as_str());
    out.append(",\"live\":");
    out.append(flag_str(f.growing));
    out.append(
        ",\"name\":null,\"pinned\":false,\"started_at\":null,\"tags\":[],\"transcribed\":",
    );
    out.append(flag_str(f.has_transcript));
    out.append(",\"transcribing\":");
    out.append(flag_str(f.transcriber.is_some()));
    out.append("}");
    out
}

/// What stands in a session's directory as its metadata, its raw transcript and its
/// edits.
pub type Standings = (Standing, Standing, Standing);

/// What `sessions` says of one folder that counts: the refusal where a file is a
/// link, otherwise its summary, if there is one.
pub open spec fn entry(
    root: Seq<char>,
    f: Folder,
    s: Standings,
    summary: Option<Seq<char>>,
) -> Option<Seq<char>> {
    let dir = text::beneath(root, f.facts.name@);
    match refusal(dir, s.0, s.1, s.2) {
        Some(e) => Some(refused_entry(dir, f.facts, e)),
        None => summary,
    }
}

/// Folder `i` put among folders that stand newest first.
pub open spec fn placed(folders: Seq<Folder>, order: Seq<int>, i: int) -> Seq<int>
    decreases order.len(),
{
    if order.len() > 0 && text::before(folders[order.last()].facts.name@, folders[i].facts.name@) {
        placed(folders, order.drop_last(), i).push(order.last())
    } else {
        order.push(i)
    }
}

/// Which of the first `k` folders count, newest first: ids are timestamps, so the
/// newest is the one that sorts last.
pub open spec fn newest_first(folders: Seq<Folder>, k: nat) -> Seq<int>
    decreases k,
{
    if k == 0 {
        Seq::empty()
    } else {
        let before = newest_first(folders, (k - 1) as nat);
        if counts(folders[k - 1]) {
            placed(folders, before, k - 1)
        } else {
            before
        }
    }
}

/// What `sessions` says of the folders in an order.
pub open spec fn entries(
    root: Seq<char>,
    folders: Seq<Folder>,
    standings: Seq<Standings>,
    summaries: Seq<Option<String>>,
    order: Seq<int>,
) -> Seq<Seq<char>>
    decreases order.len(),
{
    if order.len() == 0 {
        Seq::empty()
    } else {
        let rest = entries(root, folders, standings, summaries, order.drop_last());
        let i = order.last();
        match entry(root, folders[i], standings[i], text::opt(summaries[i])) {
            Some(e) => rest.push(e),
            None => rest,
        }
    }
}

spec fn indices(v: Seq<usize>) -> Seq<int> {
    v.map_values(|i: usize| i as int)
}

proof fn lemma_placed_at(folders: Seq<Folder>, order: Seq<int>, i: int, j: int)
    requires
        0 <= j <= order.len(),
        forall|m: int|
            j <= m < order.len() ==> text::before(
                folders[#[trigger] order[m]].facts.name@,
                folders[i].facts.name@,
            ),
        j > 0 ==> !text::before(folders[order[j - 1]].facts.name@, folders[i].facts.name@),
    ensures
        placed(folders, order, i) == order.insert(j, i),
    decreases order.len(),
{
    if j == order.len() {
        assert(order.insert(j, i) == order.push(i));
    } else {
        let front = order.drop_last();
        assert(order[order.len() - 1] == order.last());
        lemma_placed_at(folders, front, i, j);
        assert(front.insert(j, i).push(order.last()) == order.insert(j, i));
    }
}

fn place(folders: &[Folder], order: &mut Vec<usize>, i: usize)
    requires
        i < folders@.len(),
        forall|m: int| 0 <= m < old(order)@.len() ==> #[trigger] old(order)@[m] < folders@.len(),
    ensures
        indices(final(order)@) == placed(folders@, indices(old(order)@), i as int),
        forall|m: int| 0 <= m < final(order)@.len() ==> #[trigger] final(order)@[m] < folders@.len(),
{
    let mut j: usize = order.len();
    let ghost was = indices(order@);
    while j > 0 && string_before(
        folders[order[j - 1]].facts.name.as_str(),
        folders[i].facts.name.as_str(),
    )
        invariant
            i < folders@.len(),
            order@ == old(order)@,
            was == indices(order@),
            forall|m: int| 0 <= m < order@.len() ==> #[trigger] order@[m] < folders@.len(),
            j <= order@.len(),
            forall|m: int|
                j <= m < was.len() ==> text::before(
                    folders@[#[trigger] was[m]].facts.name@,
                    folders@[i as int].facts.name@,
                ),
        decreases j,
    {
        j = j - 1;
    }
    proof {
        lemma_placed_at(folders@, was, i as int, j as int);
    }
    order.insert(j, i);
    proof {
        assert(indices(order@) == was.insert(j as int, i as int));
    }
}

/// What `sessions` answers: every session under the root, newest first. A folder
/// that is a link does not count; one with a link among its files is listed with
/// the refusal and nothing else of what it holds. `summaries` are those of the
/// other folders, as JSON text; one without any is left out.
pub fn sessions(
    root: &str,
    folders: &[Folder],
    standings: &[Standings],
    summaries: &[Option<String>],
) -> (r: String)
    requires
        standings@.len() == folders@.len(),
        summaries@.len() == folders@.len(),
    ensures
        r@ == json::array(
            entries(
                root@,
                folders@,
                standings@,
                summaries@,
                newest_first(folders@, folders@.len()),
            ),
        ),
{
    let mut order: Vec<usize> = Vec::new();
    let mut i: usize = 0;
    proof {
        assert(indices(order@) == Seq::<int>::empty());
    }
    while i < folders.len()
        invariant
            i <= folders@.len(),
            indices(order@) == newest_first(folders@, i as nat),
            forall|m: int| 0 <= m < order@.len() ==> #[trigger] order@[m] < folders@.len(),
        decreases folders@.len() - i,
    {
        let f: &Folder = &folders[i];
        if f.real && (f.facts.has_meta || f.facts.growing) {
            place(folders, &mut order, i);
        }
        i = i + 1;
    }
    let ghost all = indices(order@);
    let mut out: Vec<String> = Vec::new();
    let mut k: usize = 0;
    proof {
        assert(all.take(0) == Seq::<int>::empty());
        assert(text::views(out@) == Seq::<Seq<char>>::empty());
    }
    while k < order.len()
        invariant
            standings@.len() == folders@.len(),
            summaries@.len() == folders@.len(),
            k <= order@.len(),
            all == indices(order@),
            forall|m: int| 0 <= m < order@.len() ==> #[trigger] order@[m] < folders@.len(),
            text::views(out@) == entries(
                root@,
                folders@,
                standings@,
                summaries@,
                all.take(k as int),
            ),
        decreases order@.len() - k,
    {
        let at: usize = order[k];
        let f: &Folder = &folders[at];
        let s: Standings = standings[at];
        proof {
            assert(all.take(k + 1).drop_last() == all.take(k as int));
            assert(all.take(k + 1).last() == at);
        }
        let dir: String = path_beneath(root, f.facts.name.as_str());
        let said: Option<String> = match symlinked(dir.as_str(), s.0, s.1, s.2) {
            Some(e) => Some(refused_json(dir.as_str(), &f.facts, e.as_str())),
            None => match &summaries[at] {
                Some(t) => Some(t.clone()),
                None => None,
            },
        };
        if let Some(e) = said {
            proof {
                assert(text::views(out@.push(e)) == text::views(out@).push(e@));
            }
            out.push(e);
        }
        k = k + 1;
    }
    proof {
        assert(all.take(order@.len() as int) == all);
    }
    array_of(out.as_slice())
}

proof fn lemma_placed_keeps(folders: Seq<Folder>, order: Seq<int>, i: int)
    requires
        !order.contains(i),
        order.no_duplicates(),
        forall|a: int, b: int|
            0 <= a < b < order.len() ==> !text::before(
                folders[#[trigger] order[a]].facts.name@,
                folders[#[trigger] order[b]].facts.name@,
            ),
    ensures
        ({
            let after = placed(folders, order, i);
            &&& after.len() == order.len() + 1
            &&& after.no_duplicates()
            &&& forall|x: int| #[trigger] after.contains(x) <==> order.contains(x) || x == i
            &&& forall|a: int, b: int|
                0 <= a < b < after.len() ==> !text::before(
                    folders[#[trigger] after[a]].facts.name@,
                    folders[#[trigger] after[b]].facts.name@,
                )
        }),
    decreases order.len(),
{
    let after = placed(folders, order, i);
    let name = |x: int| folders[x].facts.name@;
    if order.len() > 0 && text::before(name(order.last()), name(i)) {
        let front = order.drop_last();
        assert forall|a: int, b: int| 0 <= a < b < front.len() implies !text::before(
            folders[#[trigger] front[a]].facts.name@,
            folders[#[trigger] front[b]].facts.name@,
        ) by {
            assert(front[a] == order[a] && front[b] == order[b]);
        }
        assert(!front.contains(i)) by {
            if front.contains(i) {
                let k = choose|k: int| 0 <= k < front.len() && front[k] == i;
                assert(order[k] == i);
            }
        }
        lemma_placed_keeps(folders, front, i);
        let part = placed(folders, front, i);
        let last = order.last();
        assert(order[order.len() - 1] == last);
        assert(!part.contains(last)) by {
            if front.contains(last) {
                let k = choose|k: int| 0 <= k < front.len() && front[k] == last;
                assert(order[k] == last);
            }
        }
        assert(after == part.push(last));
        assert(after.no_duplicates()) by {
            assert forall|a: int, b: int|
                0 <= a < after.len() && 0 <= b < after.len() && a != b implies after[a] != after[b] by {
                if a < part.len() {
                    assert(part.contains(part[a]));
                }
                if b < part.len() {
                    assert(part.contains(part[b]));
                }
            }
        }
        assert forall|x: int| #[trigger] after.contains(x) <==> order.contains(x) || x == i by {
            if after.contains(x) {
                let k = choose|k: int| 0 <= k < after.len() && after[k] == x;
                if k < part.len() {
                    assert(part.contains(x));
                    if front.contains(x) {
                        let m = choose|m: int| 0 <= m < front.len() && front[m] == x;
                        assert(order[m] == x);
                    }
                }
            }
            if order.contains(x) {
                let m = choose|m: int| 0 <= m < order.len() && order[m] == x;
                if m < front.len() {
                    assert(front[m] == x);
                    assert(part.contains(x));
                    let k = choose|k: int| 0 <= k < part.len() && part[k] == x;
                    assert(after[k] == x);
                } else {
                    assert(after[part.len() as int] == x);
                }
            }
            if x == i {
                assert(part.contains(i));
                let k = choose|k: int| 0 <= k < part.len() && part[k] == i;
                assert(after[k] == i);
            }
        }
        assert forall|a: int, b: int| 0 <= a < b < after.len() implies !text::before(
            folders[#[trigger] after[a]].facts.name@,
            folders[#[trigger] after[b]].facts.name@,
        ) by {
            if b < part.len() {
                assert(after[a] == part[a] && after[b] == part[b]);
            } else {
                assert(part.contains(part[a]));
                if part[a] == i {
                    text::lemma_before_total(name(last), name(i));
                    text::lemma_before_total(name(last), name(last));
                    if text::before(name(i), name(last)) {
                        text::lemma_before_trans(name(last), name(i), name(last));
                    }
                } else {
                    let m = choose|m: int| 0 <= m < front.len() && front[m] == part[a];
                    assert(order[m] == part[a]);
                }
            }
        }
    } else {
        assert(after == order.push(i));
        assert(after.no_duplicates()) by {
            assert forall|a: int, b: int|
                0 <= a < after.len() && 0 <= b < after.len() && a != b implies after[a] != after[b] by {
                if a < order.len() {
                    assert(order.contains(order[a]));
                }
                if b < order.len() {
                    assert(order.contains(order[b]));
                }
            }
        }
        assert forall|x: int| #[trigger] after.contains(x) <==> order.contains(x) || x == i by {
            if order.contains(x) {
                let m = choose|m: int| 0 <= m < order.len() && order[m] == x;
                assert(after[m] == x);
            }
            if x == i {
                assert(after[order.len() as int] == i);
            }
            if after.contains(x) {
                let k = choose|k: int| 0 <= k < after.len() && after[k] == x;
                if k < order.len() {
                    assert(order[k] == x);
                }
            }
        }
        assert forall|a: int, b: int| 0 <= a < b < after.len() implies !text::before(
            folders[#[trigger] after[a]].facts.name@,
            folders[#[trigger] after[b]].facts.name@,
        ) by {
            if b < order.len() {
                assert(after[a] == order[a] && after[b] == order[b]);
            } else if a == order.len() - 1 {
                assert(after[a] == order.last());
            } else {
                let x = name(order[a]);
                let l = name(order.last());
                assert(!text::before(
                    folders[order[a]].facts.name@,
                    folders[order[order.len() - 1]].facts.name@,
                ));
                text::lemma_before_total(x, l);
                text::lemma_before_total(l, name(i));
                if text::before(x, name(i)) {
                    if text::before(l, x) {
                        text::lemma_before_trans(l, x, name(i));
                    }
                }
            }
        }
    }
}

/// The sessions are listed newest first, and each that counts exactly once: what
/// `status` counts and what `sessions` lists cannot disagree.
pub proof fn sessions_are_listed_newest_first(folders: Seq<Folder>, k: nat)
    requires
        k <= folders.len(),
    ensures
        ({
            let order = newest_first(folders, k);
            &&& order.len() == tally(folders.take(k as int)).0
            &&& order.no_duplicates()
            &&& forall|x: int| #[trigger]
                order.contains(x) <==> 0 <= x < k && counts(folders[x])
            &&& forall|a: int, b: int|
                0 <= a < b < order.len() ==> !text::before(
                    folders[#[trigger] order[a]].facts.name@,
                    folders[#[trigger] order[b]].facts.name@,
                )
        }),
    decreases k,
{
    if k > 0 {
        let before = newest_first(folders, (k - 1) as nat);
        sessions_are_listed_newest_first(folders, (k - 1) as nat);
        assert(folders.take(k as int).drop_last() == folders.take(k - 1));
        assert(folders.take(k as int).last() == folders[k - 1]);
        if counts(folders[k - 1]) {
            assert(!before.contains(k - 1));
            lemma_placed_keeps(folders, before, k - 1);
        }
    } else {
        assert(folders.take(0) == Seq::<Folder>::empty());
    }
}

/// What `status` answers, given the live session's name.
pub open spec fn status_text(folders: Seq<Folder>, live: Option<Seq<char>>) -> Seq<char> {
    "{\"awaiting_transcript\":"@ + text::decimal(tally(folders).1) + ",\"live\":"@ + (match live {
        Some(id) => "{\"id\":"@ + json::quoted(id) + "}"@,
        None => "null"@,
    }) + ",\"sessions\":"@ + text::decimal(tally(folders).0) + "}"@
}

/// A live session is rightly named, or there is none.
pub open spec fn live_name(folders: Seq<Folder>, live: Option<Seq<char>>) -> bool {
    match live {
        Some(id) => exists|i: int| #[trigger]
            is_live(folders, i) && folders[i].facts.name@ == id,
        None => forall|j: int|
            0 <= j < folders.len() && counts(#[trigger] folders[j]) ==> !folders[j].facts.growing,
    }
}

/// What Ambient is doing right now. Every field is drawn from the folders that
/// count, and none of them from anywhere else: a link in the sessions folder is
/// neither counted nor able to hide a session that is.
pub fn status(folders: &[Folder]) -> (r: String)
    ensures
        exists|live: Option<Seq<char>>| #[trigger]
            live_name(folders@, live) && r@ == status_text(folders@, live),
{
    let mut sessions: u64 = 0;
    let mut awaiting: u64 = 0;
    let mut i: usize = 0;
    proof {
        assert(folders@.take(0) == Seq::<Folder>::empty());
    }
    while i < folders.len()
        invariant
            i <= folders@.len(),
            sessions <= i,
            awaiting <= i,
            sessions == tally(folders@.take(i as int)).0,
            awaiting == tally(folders@.take(i as int)).1,
        decreases folders@.len() - i,
    {
        let f: &Folder = &folders[i];
        proof {
            assert(folders@.take(i + 1).drop_last() == folders@.take(i as int));
            assert(folders@.take(i + 1).last() == *f);
        }
        if f.real && (f.facts.has_meta || f.facts.growing) {
            sessions = sessions + 1;
            if f.facts.has_meta && !f.facts.has_transcript && (f.facts.has_room
                || f.facts.has_call) && !f.facts.growing && f.facts.transcriber.is_none() {
                awaiting = awaiting + 1;
            }
        }
        i = i + 1;
    }
    proof {
        assert(folders@.take(folders@.len() as int) == folders@);
    }
    let mut out: String = "{\"awaiting_transcript\":".to_owned();
    out.append(decimal_string(awaiting).as_str());
    out.append(",\"live\":");
    let ghost mut named: Option<Seq<char>> = None;
    match live_folder(folders) {
        Some(k) => {
            let mut o: String = "{\"id\":".to_owned();
            o.append(quote(folders[k].facts.name.as_str()).as_str());
            o.append("}");
            out.append(o.as_str());
            proof {
                named = Some(folders@[k as int].facts.name@);
                assert(is_live(folders@, k as int));
            }
        },
        None => {
            out.append("null");
        },
    }
    out.append(",\"sessions\":");
    out.append(decimal_string(sessions).as_str());
    out.append("}");
    proof {
        assert(live_name(folders@, named));
        assert(out@ == status_text(folders@, named));
    }
    out
}

/// At most one name is the live session's: `status` has one answer.
pub proof fn one_session_is_live(folders: Seq<Folder>, a: Option<Seq<char>>, b: Option<Seq<char>>)
    requires
        live_name(folders, a),
        live_name(folders, b),
    ensures
        a == b,
{
    if let Some(x) = a {
        let i = choose|i: int| #[trigger] is_live(folders, i) && folders[i].facts.name@ == x;
        assert(counts(folders[i]));
        if let Some(y) = b {
            let j = choose|j: int| #[trigger] is_live(folders, j) && folders[j].facts.name@ == y;
            assert(counts(folders[j]));
            text::lemma_before_total(x, y);
        }
    } else if let Some(y) = b {
        let j = choose|j: int| #[trigger] is_live(folders, j) && folders[j].facts.name@ == y;
        assert(counts(folders[j]));
    }
}

/// A link in the sessions folder changes nothing that `status` says.
pub proof fn links_are_not_counted(folders: Seq<Folder>, link: Folder)
    requires
        !link.real,
    ensures
        tally(folders.push(link)) == tally(folders),
        forall|live: Option<Seq<char>>| #[trigger]
            live_name(folders, live) ==> live_name(folders.push(link), live),
{
    let more = folders.push(link);
    assert(more.drop_last() == folders);
    assert forall|live: Option<Seq<char>>| #[trigger] live_name(folders, live) implies live_name(
        more,
        live,
    ) by {
        match live {
            Some(id) => {
                let i = choose|i: int| #[trigger]
                    is_live(folders, i) && folders[i].facts.name@ == id;
                assert forall|j: int|
                    0 <= j < more.len() && counts(#[trigger] more[j])
                        && more[j].facts.growing implies !text::before(
                    more[i].facts.name@,
                    more[j].facts.name@,
                ) by {
                    assert(j < folders.len());
                    assert(counts(folders[j]));
                }
                assert(counts(more[i]));
                assert(is_live(more, i));
            },
            None => {
                assert forall|j: int|
                    0 <= j < more.len() && counts(#[trigger] more[j]) implies !more[j].facts.growing by {
                    assert(j < folders.len());
                    assert(counts(folders[j]));
                }
            },
        }
    }
}

/// What `transcript` is asked for is what its arguments say: the session, how many
/// lines to skip, none if that is not said, and whether verbatim, not if that is not
/// said. With anything of the wrong kind it is not asked at all.
pub proof fn a_transcript_is_asked_for_as_said(
    params: Seq<char>,
    session: Seq<char>,
    since: u64,
    verbatim: bool,
)
    ensures
        transcript_call(params) == Ok::<CallText, ErrorText>(
            CallText::Transcript { session, since, verbatim },
        ) <==> {
            &&& json::opened(params) matches Ok(LayerText::Object(_))
            &&& json::text_at(json::opened(params)->Ok_0, "session"@) == Some(session)
            &&& json::member(json::opened(params)->Ok_0, "since"@) is None ==> since == 0
            &&& json::member(json::opened(params)->Ok_0, "since"@) matches Some(v)
                ==> json::as_count(v) == Some(since)
            &&& json::member(json::opened(params)->Ok_0, "verbatim"@) is None ==> !verbatim
            &&& json::member(json::opened(params)->Ok_0, "verbatim"@) matches Some(v)
                ==> json::as_flag(v) == Some(verbatim)
        },
{
}

/// What `search` is asked for is what its arguments say, at most fifty lines if that
/// is not said.
pub proof fn a_search_is_asked_for_as_said(params: Seq<char>, query: Seq<char>, limit: u64)
    ensures
        search_call(params) == Ok::<CallText, ErrorText>(CallText::Search { query, limit }) <==> {
            &&& json::opened(params) matches Ok(LayerText::Object(_))
            &&& json::text_at(json::opened(params)->Ok_0, "query"@) == Some(query)
            &&& json::member(json::opened(params)->Ok_0, "limit"@) is None ==> limit == 50
            &&& json::member(json::opened(params)->Ok_0, "limit"@) matches Some(v)
                ==> json::as_count(v) == Some(limit)
        },
{
}

/// An export is of the session and in the format that is said, markdown if none is.
pub proof fn an_export_is_asked_for_as_said(
    params: Seq<char>,
    session: Seq<char>,
    format: Format,
    name: Seq<char>,
)
    ensures
        export_call(params) == Ok::<CallText, ErrorText>(
            CallText::Export { session, format, name },
        ) <==> {
            &&& json::opened(params) matches Ok(LayerText::Object(_))
            &&& json::text_at(json::opened(params)->Ok_0, "session"@) == Some(session)
            &&& json::member(json::opened(params)->Ok_0, "format"@) is None ==> name
                == "markdown"@
            &&& json::member(json::opened(params)->Ok_0, "format"@) matches Some(v)
                ==> json::as_text(v) == Some(name)
            &&& export::format_of(name) == Some(format)
        },
{
}

/// A setting is changed to the value and under the key that are said.
pub proof fn a_setting_is_changed_as_said(params: Seq<char>, key: Seq<char>, value: Seq<char>)
    ensures
        config_call(params) == Ok::<CallText, ErrorText>(CallText::ConfigSet { key, value }) <==> {
            &&& json::opened(params) matches Ok(LayerText::Object(_))
            &&& json::text_at(json::opened(params)->Ok_0, "key"@) == Some(key)
            &&& json::text_at(json::opened(params)->Ok_0, "value"@) == Some(value)
        },
{
}

/// A speaker is named as said, in the session and in place of the label that are
/// said.
pub proof fn a_speaker_is_named_as_said(
    params: Seq<char>,
    session: Seq<char>,
    label: Seq<char>,
    name: Seq<char>,
)
    ensures
        name_call(params) == Ok::<CallText, ErrorText>(
            CallText::SpeakersName { session, label, name },
        ) <==> {
            &&& json::opened(params) matches Ok(LayerText::Object(_))
            &&& json::text_at(json::opened(params)->Ok_0, "session"@) == Some(session)
            &&& json::text_at(json::opened(params)->Ok_0, "label"@) == Some(label)
            &&& json::text_at(json::opened(params)->Ok_0, "name"@) == Some(name)
        },
{
}

/// A session is refused exactly when one of the files read is no regular file, and
/// the first of them is named.
pub proof fn the_first_link_is_refused(
    dir: Seq<char>,
    meta: Standing,
    raw: Standing,
    edits: Standing,
)
    ensures
        refusal(dir, meta, raw, edits) is None <==> meta != Standing::Else && raw != Standing::Else
            && edits != Standing::Else,
        refusal(dir, meta, raw, edits) matches Some(e) ==> exists|name: Seq<char>|
            {
                &&& e == "refusing symlink "@ + #[trigger] text::beneath(dir, name)
                &&& (name == "session.json"@ && meta == Standing::Else) || (name == "raw.jsonl"@
                    && meta != Standing::Else && raw == Standing::Else) || (name
                    == "edits.jsonl"@ && meta != Standing::Else && raw != Standing::Else)
            },
{
    let a = text::beneath(dir, "session.json"@);
    let b = text::beneath(dir, "raw.jsonl"@);
    let c = text::beneath(dir, "edits.jsonl"@);
}

/// A line is answered with each of its fields under its own name.
#[verifier::spinoff_prover]
#[verifier::rlimit(80)]
pub proof fn a_line_says_each_field(l: LineText)
    ensures
        json::says(line_text(l), "{\"end_ms\":"@, text::decimal(l.end_ms as nat)),
        json::says(line_text(l), ",\"speaker\":"@, json::nullable(l.speaker)),
        json::says(line_text(l), ",\"start_ms\":"@, text::decimal(l.start_ms as nat)),
        json::says(line_text(l), ",\"text\":"@, json::quoted(l.text)),
        json::says(line_text(l), ",\"track\":"@, json::quoted(l.track.word())),
{
    reveal_strlit(",\"speaker\":");
    reveal_strlit(",\"start_ms\":");
    reveal_strlit(",\"text\":");
    reveal_strlit(",\"track\":");
    reveal_strlit("}");
    let a = "{\"end_ms\":"@;
    let b = ",\"speaker\":"@;
    let c = ",\"start_ms\":"@;
    let d = ",\"text\":"@;
    let e = ",\"track\":"@;
    let z = "}"@;
    let av = text::decimal(l.end_ms as nat);
    let bv = json::nullable(l.speaker);
    let cv = text::decimal(l.start_ms as nat);
    let dv = json::quoted(l.text);
    let ev = json::quoted(l.track.word());
    let s = line_text(l);
    let none = Seq::<char>::empty();
    assert(s == none + a + av + (b + bv + c + cv + d + dv + e + ev + z));
    json::lemma_says(s, none, a, av, b + bv + c + cv + d + dv + e + ev + z);
    assert(s == (a + av) + b + bv + (c + cv + d + dv + e + ev + z));
    json::lemma_says(s, a + av, b, bv, c + cv + d + dv + e + ev + z);
    assert(s == (a + av + b + bv) + c + cv + (d + dv + e + ev + z));
    json::lemma_says(s, a + av + b + bv, c, cv, d + dv + e + ev + z);
    assert(s == (a + av + b + bv + c + cv) + d + dv + (e + ev + z));
    json::lemma_says(s, a + av + b + bv + c + cv, d, dv, e + ev + z);
    json::lemma_says(s, a + av + b + bv + c + cv + d + dv, e, ev, z);
}

/// A transcript is answered with the lines not seen yet, and says to go on behind
/// all there are.
#[verifier::spinoff_prover]
#[verifier::rlimit(80)]
pub proof fn an_answer_says_where_to_go_on(
    id: Seq<char>,
    state: Seq<char>,
    lines: Seq<LineText>,
    since: nat,
)
    ensures
        ({
            let s = transcript_answer(id, state, lines, since);
            &&& json::says(s, ",\"next\":"@, text::decimal(lines.len()))
            &&& json::says(s, ",\"session\":"@, json::quoted(id))
            &&& json::says(s, ",\"state\":"@, json::quoted(state))
            &&& since >= lines.len() ==> json::says(s, "{\"lines\":"@, seq!['[', ']'])
            &&& since < lines.len() ==> json::says(
                s,
                "{\"lines\":"@,
                json::array(
                    Seq::new(
                        (lines.len() - since) as nat,
                        |i: int| line_text(lines[since + i]),
                    ),
                ),
            )
        }),
{
    reveal_strlit(",\"next\":");
    reveal_strlit(",\"session\":");
    reveal_strlit(",\"state\":");
    reveal_strlit("}");
    reveal_strlit("[");
    reveal_strlit("]");
    let f = |l: LineText| line_text(l);
    let a = "{\"lines\":"@;
    let b = ",\"next\":"@;
    let c = ",\"session\":"@;
    let d = ",\"state\":"@;
    let z = "}"@;
    let av = json::array(unseen(lines, since).map_values(f));
    let bv = text::decimal(lines.len());
    let cv = json::quoted(id);
    let dv = json::quoted(state);
    let s = transcript_answer(id, state, lines, since);
    let none = Seq::<char>::empty();
    assert(s == none + a + av + (b + bv + c + cv + d + dv + z));
    json::lemma_says(s, none, a, av, b + bv + c + cv + d + dv + z);
    assert(s == (a + av) + b + bv + (c + cv + d + dv + z));
    json::lemma_says(s, a + av, b, bv, c + cv + d + dv + z);
    assert(s == (a + av + b + bv) + c + cv + (d + dv + z));
    json::lemma_says(s, a + av + b + bv, c, cv, d + dv + z);
    json::lemma_says(s, a + av + b + bv + c + cv, d, dv, z);
    if since < lines.len() {
        assert(unseen(lines, since).map_values(f) == Seq::new(
            (lines.len() - since) as nat,
            |i: int| line_text(lines[since + i]),
        ));
    } else {
        assert(unseen(lines, since).map_values(f) == Seq::<Seq<char>>::empty());
        assert(av == seq!['[', ']']);
    }
}

/// The folders that count are the real ones with metadata or growing audio, and those
/// that await a transcript are counted among them.
pub proof fn folders_are_counted(folders: Seq<Folder>)
    ensures
        tally(folders).0 == folders.filter(
            |f: Folder| f.real && (f.facts.has_meta || f.facts.growing),
        ).len(),
        tally(folders).1 == folders.filter(
            |f: Folder|
                f.real && f.facts.has_meta && !f.facts.has_transcript && (f.facts.has_room
                    || f.facts.has_call) && !f.facts.growing && f.facts.transcriber is None,
        ).len(),
    decreases folders.len(),
{
    reveal(Seq::filter);
    if folders.len() > 0 {
        folders_are_counted(folders.drop_last());
    }
}

/// The status says how many sessions there are, how many await a transcript, and
/// which one is live.
pub proof fn the_status_says_each_count(folders: Seq<Folder>, live: Option<Seq<char>>)
    ensures
        ({
            let s = status_text(folders, live);
            &&& json::says(s, "{\"awaiting_transcript\":"@, text::decimal(tally(folders).1))
            &&& json::says(s, ",\"sessions\":"@, text::decimal(tally(folders).0))
            &&& live matches Some(id) ==> json::says(
                s,
                ",\"live\":"@,
                "{\"id\":"@ + json::quoted(id) + "}"@,
            )
            &&& live is None ==> json::says(s, ",\"live\":"@, "null"@)
        }),
{
    reveal_strlit(",\"live\":");
    reveal_strlit(",\"sessions\":");
    reveal_strlit("}");
    let a = "{\"awaiting_transcript\":"@;
    let b = ",\"live\":"@;
    let c = ",\"sessions\":"@;
    let z = "}"@;
    let av = text::decimal(tally(folders).1);
    let bv = match live {
        Some(id) => "{\"id\":"@ + json::quoted(id) + "}"@,
        None => "null"@,
    };
    let cv = text::decimal(tally(folders).0);
    let s = status_text(folders, live);
    let none = Seq::<char>::empty();
    assert(s == none + a + av + (b + bv + c + cv + z));
    json::lemma_says(s, none, a, av, b + bv + c + cv + z);
    assert(s == (a + av) + b + bv + (c + cv + z));
    json::lemma_says(s, a + av, b, bv, c + cv + z);
    json::lemma_says(s, a + av + b + bv, c, cv, z);
}

/// A voice is offered with its label and what it said, a check with its name, its
/// detail and whether it is fine, each under its own name.
pub proof fn voices_and_checks_say_each_field(l: (String, String), c: CheckText)
    ensures
        json::says(label_text(l), "{\"label\":"@, json::quoted(l.0@)),
        json::says(label_text(l), ",\"sample\":"@, json::quoted(l.1@)),
        json::says(check_text(c), "{\"detail\":"@, json::quoted(c.detail)),
        json::says(check_text(c), ",\"name\":"@, json::quoted(c.name)),
        json::says(check_text(c), ",\"ok\":"@, json::flag(c.ok)),
{
    reveal_strlit(",\"sample\":");
    reveal_strlit(",\"name\":");
    reveal_strlit(",\"ok\":");
    reveal_strlit("}");
    let none = Seq::<char>::empty();
    let a = "{\"label\":"@;
    let b = ",\"sample\":"@;
    let z = "}"@;
    let av = json::quoted(l.0@);
    let bv = json::quoted(l.1@);
    let s = label_text(l);
    assert(s == none + a + av + (b + bv + z));
    json::lemma_says(s, none, a, av, b + bv + z);
    json::lemma_says(s, a + av, b, bv, z);
    let d = "{\"detail\":"@;
    let e = ",\"name\":"@;
    let f = ",\"ok\":"@;
    let dv = json::quoted(c.detail);
    let ev = json::quoted(c.name);
    let fv = json::flag(c.ok);
    let t = check_text(c);
    assert(t == none + d + dv + (e + ev + f + fv + z));
    json::lemma_says(t, none, d, dv, e + ev + f + fv + z);
    assert(t == (d + dv) + e + ev + (f + fv + z));
    json::lemma_says(t, d + dv, e, ev, f + fv + z);
    json::lemma_says(t, d + dv + e + ev, f, fv, z);
}

/// What is listed of the folders in an order is what there is to say of each, in that
/// order.
pub proof fn each_folder_is_listed_by_itself(
    root: Seq<char>,
    folders: Seq<Folder>,
    standings: Seq<Standings>,
    summaries: Seq<Option<String>>,
    order: Seq<int>,
)
    ensures
        entries(root, folders, standings, summaries, order) == order.filter_map(
            |i: int| entry(root, folders[i], standings[i], text::opt(summaries[i])),
        ),
    decreases order.len(),
{
    reveal(Seq::filter_map);
    let f = |i: int| entry(root, folders[i], standings[i], text::opt(summaries[i]));
    if order.len() > 0 {
        each_folder_is_listed_by_itself(root, folders, standings, summaries, order.drop_last());
        order.lemma_filter_map_take_succ(f, order.len() - 1);
        assert(order.take(order.len() as int) == order);
        assert(order.take(order.len() - 1) == order.drop_last());
    }
}

/// A capture in flight is live whatever else there is; a transcriber at work comes
/// before a transcript that is there.
pub proof fn what_happens_now_comes_first(transcribing: bool, has_transcript: bool)
    ensures
        state_word(true, transcribing, has_transcript) == "live"@,
        state_word(false, true, has_transcript) == "transcribing"@,
        state_word(false, false, true) == "done"@,
        state_word(false, false, false) == "pending"@,
{
}

/// The settings are told each under its own name.
#[verifier::spinoff_prover]
#[verifier::rlimit(80)]
pub proof fn the_settings_are_told_by_name(
    c: config::ConfigText,
    threshold: Seq<char>,
    devices: Seq<Seq<char>>,
    home: Seq<char>,
    roster: Seq<Seq<char>>,
    latest: Option<Seq<char>>,
)
    ensures
        ({
            let s = config_answer(c, threshold, devices, home, roster, latest);
            &&& json::says(s, "{\"apps\":"@, json::strings(c.apps))
            &&& json::says(s, ",\"ask_before_recording\":"@, json::flag(c.ask_before_recording))
            &&& json::says(
                s,
                ",\"audio_retention\":"@,
                json::quoted(
                    match c.audio_retention_days {
                        Some(n) => text::decimal(n as nat),
                        None => "forever"@,
                    },
                ),
            )
            &&& json::says(s, ",\"devices\":"@, json::strings(devices))
            &&& json::says(s, ",\"diarize\":"@, json::flag(c.diarize))
            &&& json::says(s, ",\"input_device\":"@, json::nullable(c.input_device))
            &&& json::says(s, ",\"latest_session\":"@, json::nullable(latest))
            &&& json::says(s, ",\"roster\":"@, json::strings(roster))
            &&& json::says(s, ",\"sessions_dir\":"@, json::nullable(c.sessions_dir))
            &&& json::says(s, ",\"threshold\":"@, threshold)
        }),
{
    reveal_strlit(",\"ask_before_recording\":");
    reveal_strlit(",\"audio_retention\":");
    reveal_strlit(",\"default_dir\":");
    reveal_strlit(",\"devices\":");
    reveal_strlit(",\"diarize\":");
    reveal_strlit(",\"input_device\":");
    reveal_strlit(",\"latest_session\":");
    reveal_strlit(",\"roster\":");
    reveal_strlit(",\"sessions_dir\":");
    reveal_strlit(",\"threshold\":");
    reveal_strlit("}");
    let s = config_answer(c, threshold, devices, home, roster, latest);
    let p0 = Seq::<char>::empty();
    let l1 = "{\"apps\":"@;
    let v1 = json::strings(c.apps);
    let p1 = p0 + l1 + v1;
    let l2 = ",\"ask_before_recording\":"@;
    let v2 = json::flag(c.ask_before_recording);
    let p2 = p1 + l2 + v2;
    let l3 = ",\"audio_retention\":"@;
    let v3 = json::quoted(retention_text(c.audio_retention_days));
    let p3 = p2 + l3 + v3;
    let p4 = p3 + ",\"default_dir\":"@ + json::quoted(home + "/Documents/Ambient"@);
    let l5 = ",\"devices\":"@;
    let v5 = json::strings(devices);
    let p5 = p4 + l5 + v5;
    let l6 = ",\"diarize\":"@;
    let v6 = json::flag(c.diarize);
    let p6 = p5 + l6 + v6;
    let l7 = ",\"input_device\":"@;
    let v7 = json::nullable(c.input_device);
    let p7 = p6 + l7 + v7;
    let l8 = ",\"latest_session\":"@;
    let v8 = json::nullable(latest);
    let p8 = p7 + l8 + v8;
    let l9 = ",\"roster\":"@;
    let v9 = json::strings(roster);
    let p9 = p8 + l9 + v9;
    let l10 = ",\"sessions_dir\":"@;
    let v10 = json::nullable(c.sessions_dir);
    let p10 = p9 + l10 + v10;
    let l11 = ",\"threshold\":"@;
    let q11 = "}"@;
    let q10 = l11 + threshold + q11;
    let q9 = l10 + v10 + q10;
    let q8 = l9 + v9 + q9;
    let q7 = l8 + v8 + q8;
    let q6 = l7 + v7 + q7;
    let q5 = l6 + v6 + q6;
    let q4 = l5 + v5 + q5;
    let q3 = ",\"default_dir\":"@ + json::quoted(home + "/Documents/Ambient"@) + q4;
    let q2 = l3 + v3 + q3;
    let q1 = l2 + v2 + q2;
    assert(p0 + l1 == l1);
    assert(s == p10 + l11 + threshold + q11);
    json::lemma_says_last(s, p10, l11, threshold, q11);
    json::lemma_says_last(s, p9, l10, v10, q10);
    json::lemma_says_last(s, p8, l9, v9, q9);
    json::lemma_says_last(s, p7, l8, v8, q8);
    json::lemma_says_last(s, p6, l7, v7, q7);
    json::lemma_says_last(s, p5, l6, v6, q6);
    json::lemma_says_last(s, p4, l5, v5, q5);
    json::lemma_says_last(
        s,
        p3,
        ",\"default_dir\":"@,
        json::quoted(home + "/Documents/Ambient"@),
        q4,
    );
    json::lemma_says_last(s, p2, l3, v3, q3);
    json::lemma_says_last(s, p1, l2, v2, q2);
    json::lemma_says_last(s, p0, l1, v1, q1);
}

} // verus!
