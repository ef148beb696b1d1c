//! The bridge between the window's page and the app: what a message off the wire
//! asks for, what it is answered, and the events the page is told of.
//!
//! The bridge carries a JSON string in each direction.

use crate::api;
use crate::api::{session_id, ApiError, ErrorText};
use crate::attribution;
use crate::attribution::quote_debug;
use crate::json;
use crate::json::{flag_str, open, quote, quote_or_null, read_flag};
use crate::text;
use crate::text::{decimal_string, path_beneath, replace, same_str};
use vstd::prelude::*;

verus! {

/// A text without the two characters that are legal inside a JSON string and end
/// a line of JavaScript.
pub open spec fn one_line(js: Seq<char>) -> Seq<char> {
    text::replaced(
        text::replaced(js, seq!['\u{2028}'], "\\u2028"@),
        seq!['\u{2029}'],
        "\\u2029"@,
    )
}

fn just(c: char) -> (r: String)
    ensures
        r@ == seq![c],
{
    let mut s: String = String::new();
    s.push(c);
    proof {
        assert(s@ == seq![c]);
    }
    s
}

/// JSON is not quite a JavaScript expression: U+2028 and U+2029 are legal inside
/// a JSON string and end a line of JavaScript, and nothing that writes JSON
/// escapes them. A transcript line is text somebody else chose and goes this way,
/// so every piece of JavaScript is built through this function.
pub fn escape_line_terminators(js: &str) -> (r: String)
    ensures
        r@ == one_line(js@),
{
    let first: String = replace(js, just('\u{2028}').as_str(), "\\u2028");
    replace(first.as_str(), just('\u{2029}').as_str(), "\\u2029")
}

proof fn lemma_substituted_lacks(s: Seq<char>, c: char, to: Seq<char>, d: char)
    requires
        !to.contains(d),
        c == d || !s.contains(d),
    ensures
        !text::substituted(s, seq![c], to).contains(d),
    decreases s.len(),
{
    let from = seq![c];
    let out = text::substituted(s, from, to);
    if s.len() > 0 {
        let rest = s.drop_first();
        assert(s.skip(1) == rest);
        if rest.contains(d) {
            let i = choose|i: int| 0 <= i < rest.len() && rest[i] == d;
            assert(s[i + 1] == d);
        }
        lemma_substituted_lacks(rest, c, to, d);
        let tail = text::substituted(rest, from, to);
        assert(s.take(1) == seq![s[0]]);
        if s[0] == c {
            assert(s.take(1) == from);
            assert(text::starts_with(s, from));
            assert(out == to + tail);
        } else {
            assert(s.take(1)[0] != from[0]);
            assert(!text::starts_with(s, from));
            assert(out == seq![s[0]] + tail);
        }
        if out.contains(d) {
            let i = choose|i: int| 0 <= i < out.len() && out[i] == d;
            if s[0] == c {
                if i < to.len() {
                    assert(to[i] == d);
                } else {
                    assert(tail[i - to.len()] == d);
                }
            } else if i == 0 {
                assert(s[0] == d);
            } else {
                assert(tail[i - 1] == d);
            }
        }
    }
}

/// No JavaScript handed to the page is cut short by a line terminator in it.
pub proof fn no_line_terminator_is_left(js: Seq<char>)
    ensures
        !one_line(js).contains('\u{2028}'),
        !one_line(js).contains('\u{2029}'),
{
    reveal_strlit("\\u2028");
    reveal_strlit("\\u2029");
    let first = text::replaced(js, seq!['\u{2028}'], "\\u2028"@);
    lemma_substituted_lacks(js, '\u{2028}', "\\u2028"@, '\u{2028}');
    lemma_substituted_lacks(first, '\u{2029}', "\\u2029"@, '\u{2028}');
    lemma_substituted_lacks(first, '\u{2029}', "\\u2029"@, '\u{2029}');
}

/// What a call came to, as JSON.
pub open spec fn outcome_text(outcome: Result<Seq<char>, ErrorText>) -> Seq<char> {
    match outcome {
        Ok(v) => "{\"result\":"@ + v + "}"@,
        Err(ErrorText::InvalidParams(m)) => "{\"error\":{\"kind\":\"invalid_params\",\"message\":"@
            + json::quoted(m) + "}}"@,
        Err(ErrorText::Failed(m)) => "{\"error\":{\"kind\":\"failed\",\"message\":"@ + json::quoted(
            m,
        ) + "}}"@,
    }
}

pub open spec fn reply_text(id: nat, outcome: Result<Seq<char>, ErrorText>) -> Seq<char> {
    one_line(
        "window.ambient.reply("@ + text::decimal(id) + ", "@ + outcome_text(outcome) + ");"@,
    )
}

pub open spec fn outcome_of(outcome: Result<&str, &ApiError>) -> Result<Seq<char>, ErrorText> {
    match outcome {
        Ok(v) => Ok(v@),
        Err(e) => Err(e@),
    }
}

/// The JavaScript for one reply. A result is JSON text already.
pub fn reply_js(id: u64, outcome: Result<&str, &ApiError>) -> (r: String)
    ensures
        r@ == reply_text(id as nat, outcome_of(outcome)),
{
    let mut body: String = String::new();
    match outcome {
        Ok(v) => {
            body = "{\"result\":".to_owned();
            body.append(v);
            body.append("}");
        },
        Err(ApiError::InvalidParams(m)) => {
            body = "{\"error\":{\"kind\":\"invalid_params\",\"message\":".to_owned();
            body.append(quote(m.as_str()).as_str());
            body.append("}}");
        },
        Err(ApiError::Failed(m)) => {
            body = "{\"error\":{\"kind\":\"failed\",\"message\":".to_owned();
            body.append(quote(m.as_str()).as_str());
            body.append("}}");
        },
    }
    let mut js: String = "window.ambient.reply(".to_owned();
    js.append(decimal_string(id).as_str());
    js.append(", ");
    js.append(body.as_str());
    js.append(");");
    escape_line_terminators(js.as_str())
}

pub open spec fn event_text(name: Seq<char>, payload: Seq<char>) -> Seq<char> {
    one_line("window.ambient.event("@ + json::quoted(name) + ", "@ + payload + ");"@)
}

/// The JavaScript for one one-way event. The payload is JSON text already.
pub fn event_js(name: &str, payload: &str) -> (r: String)
    ensures
        r@ == event_text(name@, payload@),
{
    let mut js: String = "window.ambient.event(".to_owned();
    js.append(quote(name).as_str());
    js.append(", ");
    js.append(payload);
    js.append(");");
    escape_line_terminators(js.as_str())
}

/// One event that was not delivered yet.
#[derive(Debug)]
pub struct Held {
    pub name: String,
    pub payload: String,
}

pub open spec fn delivered(held: Seq<Held>) -> Seq<Seq<char>> {
    held.map_values(|h: Held| event_text(h.name@, h.payload@))
}

/// The page's held events, before it has said that it is there.
#[derive(Debug)]
pub struct Events {
    open: bool,
    held: Vec<Held>,
}

impl Default for Events {
    fn default() -> (e: Events)
        ensures
            !e.is_open(),
            e.waiting() == Seq::<Seq<char>>::empty(),
    {
        let held: Vec<Held> = Vec::new();
        proof {
            assert(delivered(held@) == Seq::<Seq<char>>::empty());
        }
        Events { open: false, held }
    }
}

impl Events {
    pub closed spec fn is_open(&self) -> bool {
        self.open
    }

    /// The JavaScript for everything held, in the order it was recorded.
    pub closed spec fn waiting(&self) -> Seq<Seq<char>> {
        delivered(self.held@)
    }

    /// Records one event. Returns the JavaScript to evaluate now if the queue is
    /// open, or nothing if it was held for [`Events::open`] to deliver later.
    pub fn record(&mut self, name: &str, payload: &str) -> (r: Option<String>)
        ensures
            final(self).is_open() == old(self).is_open(),
            if old(self).is_open() {
                text::opt(r) == Some(event_text(name@, payload@)) && final(self).waiting()
                    == old(self).waiting()
            } else {
                r is None && final(self).waiting() == old(self).waiting().push(
                    event_text(name@, payload@),
                )
            },
    {
        if self.open {
            Some(event_js(name, payload))
        } else {
            let h: Held = Held { name: name.to_owned(), payload: payload.to_owned() };
            proof {
                assert(delivered(self.held@.push(h)) == delivered(self.held@).push(
                    event_text(name@, payload@),
                ));
            }
            self.held.push(h);
            None
        }
    }

    /// Marks the queue open and returns the JavaScript for everything held, in
    /// the order it was recorded. Calling this again finds nothing left to
    /// deliver: a second call must not deliver anything twice.
    pub fn open(&mut self) -> (r: Vec<String>)
        ensures
            final(self).is_open(),
            final(self).waiting() == Seq::<Seq<char>>::empty(),
            text::views(r@) == old(self).waiting(),
    {
        self.open = true;
        let mut held: Vec<Held> = Vec::new();
        std::mem::swap(&mut held, &mut self.held);
        proof {
            assert(delivered(self.held@) == Seq::<Seq<char>>::empty());
        }
        let mut out: Vec<String> = Vec::new();
        let mut i: usize = 0;
        while i < held.len()
            invariant
                i <= held@.len(),
                out@.len() == i,
                forall|j: int| 0 <= j < i ==> (#[trigger] out@[j])@ == delivered(held@)[j],
            decreases held@.len() - i,
        {
            out.push(event_js(held[i].name.as_str(), held[i].payload.as_str()));
            i = i + 1;
        }
        proof {
            assert(text::views(out@) == delivered(held@));
        }
        out
    }
}

/// The apps and the stash after a switch.
pub open spec fn switched(
    apps: Seq<Seq<char>>,
    stash: Seq<Seq<char>>,
    everything: bool,
) -> (Seq<Seq<char>>, Seq<Seq<char>>) {
    if everything {
        (Seq::empty(), apps)
    } else {
        (stash, Seq::empty())
    }
}

/// Switches the capture scope between everything and selected apps, stashing or
/// restoring the app list so a round trip through everything does not silently
/// discard what was chosen.
pub fn switch_scope(apps: &mut Vec<String>, stash: &mut Vec<String>, everything: bool)
    ensures
        (text::views(final(apps)@), text::views(final(stash)@)) == switched(
            text::views(old(apps)@),
            text::views(old(stash)@),
            everything,
        ),
{
    let mut taken: Vec<String> = Vec::new();
    proof {
        assert(text::views(taken@) == Seq::<Seq<char>>::empty());
    }
    if everything {
        std::mem::swap(&mut taken, apps);
        *stash = taken;
    } else {
        std::mem::swap(&mut taken, stash);
        *apps = taken;
    }
}

/// Switching to everything and back restores the apps, in order.
pub proof fn the_chosen_apps_come_back(apps: Seq<Seq<char>>, stash: Seq<Seq<char>>)
    ensures
        ({
            let there = switched(apps, stash, true);
            switched(there.0, there.1, false) == (apps, Seq::<Seq<char>>::empty())
        }),
{
}

/// Something the app itself does, which a button of the page stands for.
#[derive(Debug, Clone, Copy, PartialEq, Eq, Structural)]
pub enum Button {
    StartRecording,
    RecordThisCall,
    NotThisOne,
    StopRecording,
    DismissFailure,
}

/// What a request from the page asks for.
#[derive(Debug)]
pub enum Action {
    /// Answer with the route, and deliver everything held.
    Init,
    Scope { everything: bool },
    PickApp,
    PickDir,
    /// Say no to another sessions folder while a recording is running, and
    /// answer that none was chosen.
    RefuseDir,
    Copy { text: String },
    Reveal { target: String },
    Press(Button),
    Separate { session: String, dir: String },
    /// Everything else is the dispatcher's.
    Api { params: String },
    Refuse(ApiError),
}

/// What a request asks for, as plain characters.
pub enum ActionText {
    Init,
    Scope { everything: bool },
    PickApp,
    PickDir,
    RefuseDir,
    Copy { text: Seq<char> },
    Reveal { target: Seq<char> },
    Press(Button),
    Separate { session: Seq<char>, dir: Seq<char> },
    Api { params: Seq<char> },
    Refuse(ErrorText),
}

impl View for Action {
    type V = ActionText;

    open spec fn view(&self) -> ActionText {
        match *self {
            Action::Init => ActionText::Init,
            Action::Scope { everything } => ActionText::Scope { everything },
            Action::PickApp => ActionText::PickApp,
            Action::PickDir => ActionText::PickDir,
            Action::RefuseDir => ActionText::RefuseDir,
            Action::Copy { text } => ActionText::Copy { text: text@ },
            Action::Reveal { target } => ActionText::Reveal { target: target@ },
            Action::Press(b) => ActionText::Press(b),
            Action::Separate { session, dir } => ActionText::Separate {
                session: session@,
                dir: dir@,
            },
            Action::Api { params } => ActionText::Api { params: params@ },
            Action::Refuse(e) => ActionText::Refuse(e@),
        }
    }
}

/// The value under a name in a request's parameters, as JSON text.
pub open spec fn parameter(params: Option<Seq<char>>, name: Seq<char>) -> Option<Seq<char>> {
    match params {
        Some(p) => match json::opened(p) {
            Ok(l) => json::member(l, name),
            Err(_) => None,
        },
        None => None,
    }
}

pub open spec fn string_parameter(params: Option<Seq<char>>, name: Seq<char>) -> Option<Seq<char>> {
    match parameter(params, name) {
        Some(v) => json::as_text(v),
        None => None,
    }
}

/// What is said of a text that is no session id.
pub open spec fn not_an_id(id: Seq<char>) -> ErrorText {
    ErrorText::InvalidParams(attribution::debug_quoted(id) + " is not a session id"@)
}

/// Where a request to show something in the Finder points: at a session, or at
/// the sessions folder.
pub open spec fn revealed(session: Option<Seq<char>>, root: Seq<char>) -> ActionText {
    match session {
        None => ActionText::Reveal { target: root },
        Some(id) => if api::is_session_id(id) {
            ActionText::Reveal { target: text::beneath(root, id) }
        } else {
            ActionText::Refuse(not_an_id(id))
        },
    }
}

/// Whether a session's voices can be separated now: one job at a time.
pub open spec fn separated(
    session: Option<Seq<char>>,
    root: Seq<char>,
    current: Option<Seq<char>>,
) -> ActionText {
    match session {
        None => ActionText::Refuse(ErrorText::InvalidParams("`session` must be a string"@)),
        Some(id) => if !api::is_session_id(id) {
            ActionText::Refuse(not_an_id(id))
        } else {
            match current {
                Some(c) => ActionText::Refuse(ErrorText::Failed("already separating "@ + c)),
                None => ActionText::Separate { session: id, dir: text::beneath(root, id) },
            }
        },
    }
}

/// What a request asks for: `recording` says whether the app is holding a live
/// recording, and `current` which session's voices are being separated.
pub open spec fn wanted(
    method: Seq<char>,
    params: Option<Seq<char>>,
    recording: bool,
    root: Seq<char>,
    current: Option<Seq<char>>,
) -> ActionText {
    if method == "init"@ {
        ActionText::Init
    } else if method == "capture.scope"@ {
        ActionText::Scope {
            everything: match parameter(params, "everything"@) {
                Some(v) => json::as_flag(v) == Some(true),
                None => false,
            },
        }
    } else if method == "pick_app"@ {
        ActionText::PickApp
    } else if method == "pick_dir"@ {
        if recording {
            ActionText::RefuseDir
        } else {
            ActionText::PickDir
        }
    } else if method == "clipboard.write"@ {
        match string_parameter(params, "text"@) {
            Some(text) => ActionText::Copy { text },
            None => ActionText::Refuse(ErrorText::InvalidParams("text must be a string"@)),
        }
    } else if method == "reveal"@ {
        revealed(string_parameter(params, "session"@), root)
    } else if method == "record.start"@ {
        ActionText::Press(Button::StartRecording)
    } else if method == "record.this_call"@ {
        ActionText::Press(Button::RecordThisCall)
    } else if method == "record.decline"@ {
        ActionText::Press(Button::NotThisOne)
    } else if method == "record.stop"@ {
        ActionText::Press(Button::StopRecording)
    } else if method == "dismiss"@ {
        ActionText::Press(Button::DismissFailure)
    } else if method == "diarize.start"@ {
        separated(string_parameter(params, "session"@), root, current)
    } else {
        ActionText::Api {
            params: match params {
                Some(p) => p,
                None => "{}"@,
            },
        }
    }
}

fn value_of(params: Option<&str>, name: &str) -> (r: Option<String>)
    ensures
        text::opt(r) == parameter(text::opt_str(params), name@),
{
    match params {
        Some(p) => match open(p) {
            Ok(l) => l.get(name),
            Err(_) => None,
        },
        None => None,
    }
}

fn string_in(params: Option<&str>, name: &str) -> (r: Option<String>)
    ensures
        text::opt(r) == string_parameter(text::opt_str(params), name@),
{
    match value_of(params, name) {
        Some(v) => json::read_text(v.as_str()),
        None => None,
    }
}

fn refuse_id(id: &str) -> (a: Action)
    ensures
        a@ == ActionText::Refuse(not_an_id(id@)),
{
    let mut m: String = quote_debug(id);
    m.append(" is not a session id");
    Action::Refuse(ApiError::InvalidParams(m))
}

fn reveal_session(session: Option<String>, root: &str) -> (a: Action)
    ensures
        a@ == revealed(text::opt(session), root@),
{
    match session {
        None => Action::Reveal { target: root.to_owned() },
        Some(id) => {
            if session_id(id.as_str()) {
                Action::Reveal { target: path_beneath(root, id.as_str()) }
            } else {
                refuse_id(id.as_str())
            }
        },
    }
}

fn diarize_start(session: Option<String>, root: &str, current: Option<&str>) -> (a: Action)
    ensures
        a@ == separated(text::opt(session), root@, text::opt_str(current)),
{
    match session {
        None => Action::Refuse(ApiError::InvalidParams("`session` must be a string".to_owned())),
        Some(id) => {
            if !session_id(id.as_str()) {
                return refuse_id(id.as_str());
            }
            match current {
                Some(c) => {
                    let mut m: String = "already separating ".to_owned();
                    m.append(c);
                    Action::Refuse(ApiError::Failed(m))
                },
                None => {
                    let dir: String = path_beneath(root, id.as_str());
                    Action::Separate { session: id, dir }
                },
            }
        },
    }
}

/// What a request from the page asks for. Every path out of here is answered: a
/// request that is never answered is a control that hangs for the rest of the
/// session.
pub fn answer(
    method: &str,
    params: Option<&str>,
    recording: bool,
    root: &str,
    current: Option<&str>,
) -> (a: Action)
    ensures
        a@ == wanted(method@, text::opt_str(params), recording, root@, text::opt_str(current)),
{
    if same_str(method, "init") {
        Action::Init
    } else if same_str(method, "capture.scope") {
        let everything: bool = match value_of(params, "everything") {
            Some(v) => match read_flag(v.as_str()) {
                Some(b) => b,
                None => false,
            },
            None => false,
        };
        Action::Scope { everything }
    } else if same_str(method, "pick_app") {
        Action::PickApp
    } else if same_str(method, "pick_dir") {
        if recording {
            Action::RefuseDir
        } else {
            Action::PickDir
        }
    } else if same_str(method, "clipboard.write") {
        match string_in(params, "text") {
            Some(text) => Action::Copy { text },
            None => Action::Refuse(ApiError::InvalidParams("text must be a string".to_owned())),
        }
    } else if same_str(method, "reveal") {
        reveal_session(string_in(params, "session"), root)
    } else if same_str(method, "record.start") {
        Action::Press(Button::StartRecording)
    } else if same_str(method, "record.this_call") {
        Action::Press(Button::RecordThisCall)
    } else if same_str(method, "record.decline") {
        Action::Press(Button::NotThisOne)
    } else if same_str(method, "record.stop") {
        Action::Press(Button::StopRecording)
    } else if same_str(method, "dismiss") {
        Action::Press(Button::DismissFailure)
    } else if same_str(method, "diarize.start") {
        diarize_start(string_in(params, "session"), root, current)
    } else {
        let params: String = match params {
            Some(p) => p.to_owned(),
            None => "{}".to_owned(),
        };
        Action::Api { params }
    }
}

/// The sessions folder is never moved under a recording.
pub proof fn the_folder_stays_while_recording(
    method: Seq<char>,
    params: Option<Seq<char>>,
    root: Seq<char>,
    current: Option<Seq<char>>,
)
    ensures
        !(wanted(method, params, true, root, current) is PickDir),
{
}

/// Two sessions' voices are never separated at once.
pub proof fn one_separation_at_a_time(
    method: Seq<char>,
    params: Option<Seq<char>>,
    recording: bool,
    root: Seq<char>,
    current: Seq<char>,
)
    ensures
        !(wanted(method, params, recording, root, Some(current)) is Separate),
{
}

/// What a page that says it is there is answered.
pub fn route_result(route: &str) -> (r: String)
    ensures
        r@ == "{\"route\":"@ + json::quoted(route@) + "}"@,
{
    let mut out: String = "{\"route\":".to_owned();
    out.append(quote(route).as_str());
    out.append("}");
    out
}

/// What was chosen in a panel, if anything.
pub fn chosen_result(chosen: Option<&str>) -> (r: String)
    ensures
        r@ == "{\"chosen\":"@ + json::nullable(text::opt_str(chosen)) + "}"@,
{
    let mut out: String = "{\"chosen\":".to_owned();
    out.append(quote_or_null(chosen).as_str());
    out.append("}");
    out
}

/// Whether a button's press reached anybody.
pub fn sent_result(sent: bool) -> (r: String)
    ensures
        r@ == "{\"sent\":"@ + json::flag(sent) + "}"@,
{
    let mut out: String = "{\"sent\":".to_owned();
    out.append(flag_str(sent));
    out.append("}");
    out
}

/// What a page whose text went to the clipboard is answered.
pub fn copied_result() -> (r: String)
    ensures
        r@ == "{\"done\":true}"@,
{
    "{\"done\":true}".to_owned()
}

/// What a page that had something shown in the Finder is answered.
pub fn revealed_result() -> (r: String)
    ensures
        r@ == "{}"@,
{
    "{}".to_owned()
}

/// What a page that switched what is captured is answered, once saving the settings
/// went as `saved` says.
pub fn scope_result(saved: Result<(), String>) -> (r: Result<String, ApiError>)
    ensures
        match saved {
            Ok(()) => r is Ok && r->Ok_0@ == "{}"@,
            Err(e) => r is Err && r->Err_0@ == ErrorText::Failed(e@),
        },
{
    match saved {
        Ok(()) => Ok("{}".to_owned()),
        Err(e) => Err(ApiError::Failed(e)),
    }
}

/// What a page that had a session's voices separated is answered: that it started,
/// for the end of it is an event.
pub fn started_result() -> (r: String)
    ensures
        r@ == "{\"started\":true}"@,
{
    "{\"started\":true}".to_owned()
}

/// What the worker that separates voices had to say, when it was asked.
#[derive(Debug)]
pub enum Worker {
    /// Nothing yet.
    Busy,
    Finished(Result<usize, String>),
    /// It is gone and never said.
    Gone,
}

/// The payload of the event that a separation is over.
pub open spec fn separation_text(session: Seq<char>, error: Option<Seq<char>>) -> Seq<char> {
    "{\"error\":"@ + json::nullable(error) + ",\"session\":"@ + json::quoted(session)
        + ",\"state\":"@ + json::quoted(
        if error is None {
            "done"@
        } else {
            "failed"@
        },
    ) + "}"@
}

/// What the page is told once a separation is over. No event says that one is
/// running: the page already knows it started.
pub fn poll_diarize(session: &str, worker: &Worker) -> (r: Option<String>)
    ensures
        text::opt(r) == (match *worker {
            Worker::Busy => None,
            Worker::Finished(Ok(_)) => Some(separation_text(session@, None)),
            Worker::Finished(Err(e)) => Some(separation_text(session@, Some(e@))),
            Worker::Gone => Some(
                separation_text(session@, Some("the diarize worker thread went away"@)),
            ),
        }),
{
    let error: Option<&str> = match worker {
        Worker::Busy => {
            return None;
        },
        Worker::Finished(Ok(_)) => None,
        Worker::Finished(Err(e)) => Some(e.as_str()),
        Worker::Gone => Some("the diarize worker thread went away"),
    };
    let mut out: String = "{\"error\":".to_owned();
    out.append(quote_or_null(error).as_str());
    out.append(",\"session\":");
    out.append(quote(session).as_str());
    out.append(",\"state\":");
    let state: &str = if error.is_none() {
        "done"
    } else {
        "failed"
    };
    out.append(quote(state).as_str());
    out.append("}");
    Some(out)
}

proof fn lemma_one_character_glued(a: Seq<char>, b: Seq<char>, c: char, to: Seq<char>)
    ensures
        text::replaced(a + b, seq![c], to) == text::replaced(a, seq![c], to) + text::replaced(
            b,
            seq![c],
            to,
        ),
    decreases a.len(),
{
    let s = a + b;
    let from = seq![c];
    if a.len() == 0 {
        assert(s == b);
        assert(text::substituted(a, from, to) + text::substituted(b, from, to)
            == text::substituted(b, from, to));
    } else {
        lemma_one_character_glued(a.drop_first(), b, c, to);
        assert(s.drop_first() == a.drop_first() + b);
        assert(s.skip(1) == s.drop_first());
        assert(a.skip(1) == a.drop_first());
        assert(s.take(1) == a.take(1));
        assert(text::starts_with(s, from) == text::starts_with(a, from));
        let x = text::substituted(a.drop_first(), from, to);
        let y = text::substituted(b, from, to);
        assert(to + (x + y) == (to + x) + y);
        assert(seq![a[0]] + (x + y) == (seq![a[0]] + x) + y);
    }
}

proof fn lemma_one_character_alone(d: char, c: char, to: Seq<char>)
    ensures
        d == c ==> text::replaced(seq![d], seq![c], to) == to,
        d != c ==> text::replaced(seq![d], seq![c], to) == seq![d],
{
    let s = seq![d];
    assert(s.take(1) == s);
    assert(s.skip(1) == Seq::<char>::empty());
    assert(s.drop_first() == Seq::<char>::empty());
    assert(to + Seq::<char>::empty() == to);
    assert(seq![d] + Seq::<char>::empty() == seq![d]);
    let from = seq![c];
    let none = Seq::<char>::empty();
    assert(text::substituted(none, from, to) == none);
    if d == c {
        assert(s == from);
        assert(text::starts_with(s, from));
        assert(text::substituted(s, from, to) == to + none);
    } else {
        if text::starts_with(s, from) {
            assert(s.take(1)[0] == c);
        }
        assert(text::substituted(s, from, to) == seq![d] + none);
    }
}

/// Only the two line terminators are written otherwise, character by character;
/// everything else stays as it is.
pub proof fn only_line_terminators_change(a: Seq<char>, c: char, b: Seq<char>)
    ensures
        one_line(a + b) == one_line(a) + one_line(b),
        c == '\u{2028}' ==> one_line(seq![c]) == seq!['\\', 'u', '2', '0', '2', '8'],
        c == '\u{2029}' ==> one_line(seq![c]) == seq!['\\', 'u', '2', '0', '2', '9'],
        c != '\u{2028}' && c != '\u{2029}' ==> one_line(seq![c]) == seq![c],
        one_line(Seq::<char>::empty()) == Seq::<char>::empty(),
{
    reveal_strlit("\\u2028");
    reveal_strlit("\\u2029");
    let x = "\\u2028"@;
    let y = "\\u2029"@;
    let f = seq!['\u{2028}'];
    let g = seq!['\u{2029}'];
    lemma_one_character_glued(a, b, '\u{2028}', x);
    lemma_one_character_glued(
        text::replaced(a, f, x),
        text::replaced(b, f, x),
        '\u{2029}',
        y,
    );
    lemma_one_character_alone(c, '\u{2028}', x);
    assert(x == seq!['\\', 'u', '2', '0', '2', '8']);
    assert(y == seq!['\\', 'u', '2', '0', '2', '9']);
    if c == '\u{2028}' {
        let b0 = Seq::<char>::empty();
        text::the_leftmost_is_replaced_first(b0, g, y, x);
        assert forall|i: int| !#[trigger] text::occurs_at(x, g, i) by {
            if text::occurs_at(x, g, i) {
                assert(x.subrange(i, i + 1)[0] == x[i]);
                assert(g[0] == '\u{2029}');
            }
        }
    } else {
        lemma_one_character_alone(c, '\u{2029}', y);
    }
}

/// What is shown is the sessions folder or a folder right inside it.
pub proof fn nothing_outside_the_folder_is_shown(session: Option<Seq<char>>, root: Seq<char>)
    ensures
        revealed(session, root) matches ActionText::Reveal { target } ==> match session {
            None => target == root,
            Some(id) => target == text::beneath(root, id) && text::file_name(target) == Some(id),
        },
        session is None ==> revealed(session, root) is Reveal,
        session matches Some(id) ==> (revealed(session, root) is Refuse <==> id.len() == 0 || id
            == seq!['.'] || id == seq!['.', '.'] || id.contains('/')),
{
    reveal_strlit(".");
    reveal_strlit("..");
    assert("."@ == seq!['.']);
    assert(".."@ == seq!['.', '.']);
    if let Some(id) = session {
        if api::is_session_id(id) {
            text::a_path_names_its_last_part(root, id);
        }
    }
}

/// What went wrong is said by kind: what the caller got wrong is told from what
/// failed.
pub proof fn errors_are_told_by_kind(m: Seq<char>, v: Seq<char>)
    ensures
        text::starts_with(
            outcome_text(Err(ErrorText::InvalidParams(m))),
            "{\"error\":{\"kind\":\"invalid_params\",\"message\":"@ + json::quoted(m),
        ),
        text::starts_with(
            outcome_text(Err(ErrorText::Failed(m))),
            "{\"error\":{\"kind\":\"failed\",\"message\":"@ + json::quoted(m),
        ),
        json::says(outcome_text(Ok(v)), "{\"result\":"@, v),
{
    reveal_strlit("}");
    let a = "{\"error\":{\"kind\":\"invalid_params\",\"message\":"@ + json::quoted(m);
    let b = "{\"error\":{\"kind\":\"failed\",\"message\":"@ + json::quoted(m);
    assert((a + "}}"@).take(a.len() as int) == a);
    assert((b + "}}"@).take(b.len() as int) == b);
    let none = Seq::<char>::empty();
    assert(none + "{\"result\":"@ + v + "}"@ == "{\"result\":"@ + v + "}"@);
    json::lemma_says(outcome_text(Ok(v)), none, "{\"result\":"@, v, "}"@);
}

/// A separation that is over is told with its session, done if nothing went wrong
/// and failed if something did.
pub proof fn a_separation_is_done_or_failed(session: Seq<char>, error: Option<Seq<char>>)
    ensures
        ({
            let s = separation_text(session, error);
            &&& json::says(s, "{\"error\":"@, json::nullable(error))
            &&& json::says(s, ",\"session\":"@, json::quoted(session))
            &&& error is None ==> json::says(s, ",\"state\":"@, json::quoted("done"@))
            &&& error is Some ==> json::says(s, ",\"state\":"@, json::quoted("failed"@))
        }),
{
    reveal_strlit(",\"session\":");
    reveal_strlit(",\"state\":");
    reveal_strlit("}");
    let s = separation_text(session, error);
    let none = Seq::<char>::empty();
    let a = "{\"error\":"@;
    let b = ",\"session\":"@;
    let c = ",\"state\":"@;
    let z = "}"@;
    let av = json::nullable(error);
    let bv = json::quoted(session);
    let cv = json::quoted(
        if error is None {
            "done"@
        } else {
            "failed"@
        },
    );
    assert(none + a == a);
    assert(s == (none + a + av + b + bv + c + cv) + z);
    json::lemma_says_last(s, none + a + av + b + bv, c, cv, z);
    json::lemma_says_last(s, none + a + av, b, bv, c + cv + z);
    json::lemma_says_last(s, none, a, av, b + bv + (c + cv + z));
}

} // verus!
