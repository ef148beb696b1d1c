//! What the window's page is told of the app, and what a session's row says.

use crate::attribution;
use crate::attribution::unnamed_labels;
use crate::json;
use crate::json::{flag_str, quote, quote_or_null};
use crate::markdown;
use crate::meter::{Meter, MeterPhase};
use crate::session;
use crate::session::{minutes, Line, LineText, SessionMeta};
use crate::state::{Live, Phase, PhaseKind};
use crate::text;
use crate::text::{decimal_string, join, path_name};
use vstd::prelude::*;

verus! {

/// The word for a kind of phase.
pub open spec fn kind_word(k: PhaseKind) -> Seq<char> {
    match k {
        PhaseKind::Idle => "idle"@,
        PhaseKind::Armed => "armed"@,
        PhaseKind::Recording => "recording"@,
        PhaseKind::Stopping => "stopping"@,
        PhaseKind::Failed => "failed"@,
    }
}

fn kind_str(k: PhaseKind) -> (r: &'static str)
    ensures
        r@ == kind_word(k),
{
    match k {
        PhaseKind::Idle => "idle",
        PhaseKind::Armed => "armed",
        PhaseKind::Recording => "recording",
        PhaseKind::Stopping => "stopping",
        PhaseKind::Failed => "failed",
    }
}

/// Thousandths as a JSON number between zero and one, with as few decimals as it
/// takes and at least one.
pub open spec fn level_number(milli: nat) -> Seq<char> {
    if milli >= 1000 {
        "1.0"@
    } else if milli % 100 == 0 {
        "0."@ + text::decimal(milli / 100)
    } else if milli % 10 == 0 {
        "0."@ + text::zero_padded(text::decimal(milli / 10), 2)
    } else {
        "0."@ + text::zero_padded(text::decimal(milli), 3)
    }
}

/// A level for the page's meter.
pub fn level(milli: u32) -> (r: String)
    ensures
        r@ == level_number(milli as nat),
{
    if milli >= 1000 {
        return "1.0".to_owned();
    }
    let mut out: String = "0.".to_owned();
    if milli % 100 == 0 {
        out.append(decimal_string((milli / 100) as u64).as_str());
    } else if milli % 10 == 0 {
        out.append(text::padded_string((milli / 10) as u64, 2).as_str());
    } else {
        out.append(text::padded_string(milli as u64, 3).as_str());
    }
    out
}

/// What the page is told of a live recording.
pub open spec fn live_text(dir: Seq<char>, m: Meter) -> Seq<char> {
    "{\"audio_arriving\":"@ + json::flag(m.audio_arriving) + ",\"call_level\":"@ + level_number(
        m.call_peak_milli as nat,
    ) + ",\"elapsed_s\":"@ + text::decimal((m.elapsed_ms / 1000) as nat) + ",\"id\":"@
        + json::quoted(text::name_or_empty(dir)) + ",\"room_level\":"@ + level_number(
        m.room_peak_milli as nat,
    ) + ",\"status_line\":"@ + json::quoted(m.line()) + "}"@
}

fn live_json(dir: &str, m: &Meter) -> (r: String)
    ensures
        r@ == live_text(dir@, *m),
{
    let mut out: String = "{\"audio_arriving\":".to_owned();
    out.append(flag_str(m.audio_arriving));
    out.append(",\"call_level\":");
    out.append(level(m.call_peak_milli).as_str());
    out.append(",\"elapsed_s\":");
    out.append(decimal_string(m.elapsed_ms / 1000).as_str());
    out.append(",\"id\":");
    let id: String = match path_name(dir) {
        Some(n) => n,
        None => String::new(),
    };
    out.append(quote(id.as_str()).as_str());
    out.append(",\"room_level\":");
    out.append(level(m.room_peak_milli).as_str());
    out.append(",\"status_line\":");
    out.append(quote(m.status_line().as_str()).as_str());
    out.append("}");
    out
}

/// What the page is told of a failure: what went wrong, and in which session.
pub open spec fn failure_text(error: Seq<char>, dir: Option<Seq<char>>) -> Seq<char> {
    "{\"error\":"@ + json::quoted(error) + ",\"session\":"@ + json::nullable(
        match dir {
            Some(d) => text::file_name(d),
            None => None,
        },
    ) + "}"@
}

fn failure_json(error: &str, dir: Option<&str>) -> (r: String)
    ensures
        r@ == failure_text(
            error@,
            match dir {
                Some(d) => Some(d@),
                None => None,
            },
        ),
{
    let name: Option<String> = match dir {
        Some(d) => path_name(d),
        None => None,
    };
    let mut out: String = "{\"error\":".to_owned();
    out.append(quote(error).as_str());
    out.append(",\"session\":");
    match name {
        Some(n) => out.append(quote(n.as_str()).as_str()),
        None => out.append("null"),
    }
    out.append("}");
    out
}

/// What the page is told of the app. A phase that holds no recording has nothing
/// live to tell of, whatever the meter last said.
pub open spec fn payload_text(p: Phase, m: Meter, queue: Option<Seq<char>>) -> Seq<char> {
    "{\"app\":"@ + json::nullable(p.about()) + ",\"failure\":"@ + (match p {
        Phase::Failed { dir, error, .. } => failure_text(error@, text::opt(dir)),
        _ => "null"@,
    }) + ",\"kind\":"@ + json::quoted(kind_word(p.kind_of())) + ",\"live\":"@ + (
    match p.worker() {
        Some(l) => live_text(l.dir.location(), m),
        None => "null"@,
    }) + ",\"queue\":"@ + json::nullable(queue) + "}"@
}

pub fn phase_payload(phase: &Phase, meter: &Meter, queue: Option<&str>) -> (r: String)
    ensures
        r@ == payload_text(
            *phase,
            *meter,
            match queue {
                Some(q) => Some(q@),
                None => None,
            },
        ),
{
    let mut out: String = "{\"app\":".to_owned();
    match phase.app() {
        Some(a) => out.append(quote(a.as_str()).as_str()),
        None => out.append("null"),
    }
    out.append(",\"failure\":");
    match phase.failure() {
        Some(e) => out.append(failure_json(e, phase.failed_dir()).as_str()),
        None => out.append("null"),
    }
    out.append(",\"kind\":");
    out.append(quote(kind_str(phase.kind())).as_str());
    out.append(",\"live\":");
    match phase.live() {
        Some(l) => out.append(live_json(l.dir.path(), meter).as_str()),
        None => out.append("null"),
    }
    out.append(",\"queue\":");
    out.append(quote_or_null(queue).as_str());
    out.append("}");
    out
}

/// A recording in flight, as its row shows it.
#[derive(Debug)]
pub struct LiveShot {
    pub id: String,
    pub dir: String,
    /// The call this recording belongs to, when the watcher started it.
    pub app: Option<String>,
    pub elapsed_s: u64,
    /// The loudest of the last second, in thousandths: a microphone that goes
    /// quiet falls back.
    pub room_milli: u32,
    pub call_milli: u32,
    pub audio_arriving: bool,
    /// What the worker is doing, which governs what the user is told.
    pub meter: MeterPhase,
    /// Whether Stop is a legal move, which is the phase's business.
    pub stoppable: bool,
}

/// What the worker is doing, in words.
pub open spec fn verb_word(m: MeterPhase) -> Seq<char> {
    match m {
        MeterPhase::Capturing => "Recording"@,
        MeterPhase::Transcribing => "Transcribing"@,
        MeterPhase::Diarizing => "Separating voices"@,
        MeterPhase::Done => "Finishing"@,
        MeterPhase::Failed => "Failed"@,
    }
}

impl LiveShot {
    /// What a recording's row shows, from the phase's recording and the shared
    /// meter and nothing else.
    pub fn of(live: &Live, meter: &Meter, kind: PhaseKind) -> (s: LiveShot)
        ensures
            s.id@ == text::name_or_empty(live.dir.location()),
            s.dir@ == live.dir.location(),
            text::opt(s.app) == text::opt(live.app),
            s.elapsed_s == meter.elapsed_ms / 1000,
            s.room_milli == meter.room_peak_milli,
            s.call_milli == meter.call_peak_milli,
            s.audio_arriving == meter.audio_arriving,
            s.meter == MeterPhase::numbered(meter.phase),
            s.stoppable == (kind == PhaseKind::Recording),
    {
        let id: String = match path_name(live.dir.path()) {
            Some(n) => n,
            None => String::new(),
        };
        let app: Option<String> = match &live.app {
            Some(a) => Some(a.clone()),
            None => None,
        };
        LiveShot {
            id,
            dir: live.dir.path().to_owned(),
            app,
            elapsed_s: meter.elapsed_ms / 1000,
            room_milli: meter.room_peak_milli,
            call_milli: meter.call_peak_milli,
            audio_arriving: meter.audio_arriving,
            meter: meter.phase(),
            stoppable: kind == PhaseKind::Recording,
        }
    }

    pub fn clock(&self) -> (r: String)
        ensures
            r@ == session::clock(self.elapsed_s as nat),
    {
        minutes(self.elapsed_s)
    }

    /// What the worker is doing, in the words the row and the Stop button both
    /// use.
    pub fn verb(&self) -> (r: &'static str)
        ensures
            r@ == verb_word(self.meter),
    {
        match self.meter {
            MeterPhase::Capturing => "Recording",
            MeterPhase::Transcribing => "Transcribing",
            MeterPhase::Diarizing => "Separating voices",
            MeterPhase::Done => "Finishing",
            MeterPhase::Failed => "Failed",
        }
    }

    pub open spec fn title(&self) -> Seq<char> {
        if self.meter == MeterPhase::Capturing {
            "\u{25cf} Recording \u{2014} "@ + session::clock(self.elapsed_s as nat)
        } else {
            "\u{25cf} "@ + verb_word(self.meter) + "\u{2026}"@
        }
    }

    /// What is being recorded and where it is going; in the past tense once the
    /// tap has stopped.
    pub open spec fn source(&self) -> Seq<char> {
        match self.app {
            Some(app) => (if self.meter == MeterPhase::Capturing {
                "Capturing"@
            } else {
                "Captured"@
            }) + " "@ + app@ + " \u{2192} "@ + self.id@,
            None => "Started by hand \u{2192} "@ + self.id@,
        }
    }

    pub open spec fn subtitle(&self) -> Seq<char> {
        if self.meter == MeterPhase::Capturing && !self.audio_arriving {
            self.source() + " \u{b7} "@ + "no audio arriving"@
        } else {
            self.source()
        }
    }

    pub fn capturing_line(&self) -> (r: String)
        ensures
            r@ == self.source(),
    {
        match &self.app {
            Some(app) => {
                let mut out: String = if self.meter == MeterPhase::Capturing {
                    "Capturing".to_owned()
                } else {
                    "Captured".to_owned()
                };
                out.append(" ");
                out.append(app.as_str());
                out.append(" \u{2192} ");
                out.append(self.id.as_str());
                out
            },
            None => {
                let mut out: String = "Started by hand \u{2192} ".to_owned();
                out.append(self.id.as_str());
                out
            },
        }
    }

    /// The row's two lines.
    pub fn row_lines(&self) -> (r: (String, String))
        ensures
            r.0@ == self.title(),
            r.1@ == self.subtitle(),
    {
        let mut title: String = String::new();
        if self.meter == MeterPhase::Capturing {
            title = "\u{25cf} Recording \u{2014} ".to_owned();
            title.append(self.clock().as_str());
        } else {
            title = "\u{25cf} ".to_owned();
            title.append(self.verb());
            title.append("\u{2026}");
        }
        let mut subtitle: String = self.capturing_line();
        if self.meter == MeterPhase::Capturing && !self.audio_arriving {
            subtitle.append(" \u{b7} ");
            subtitle.append("no audio arriving");
        }
        (title, subtitle)
    }
}

/// When a session started, as a reader sees it: how many days ago it was, and how
/// that moment reads as a time of day, a weekday with a time, and a date.
#[derive(Debug)]
pub struct Moment {
    pub days_ago: i64,
    pub clock: String,
    pub weekday: String,
    pub date: String,
}

pub open spec fn moment_text(m: Moment) -> Seq<char> {
    if m.days_ago == 0 {
        "Today "@ + m.clock@
    } else if m.days_ago == 1 {
        "Yesterday "@ + m.clock@
    } else if 2 <= m.days_ago <= 6 {
        m.weekday@
    } else {
        m.date@
    }
}

/// A moment as a reader would name it.
pub fn relative(m: &Moment) -> (r: String)
    ensures
        r@ == moment_text(*m),
{
    if m.days_ago == 0 {
        let mut out: String = "Today ".to_owned();
        out.append(m.clock.as_str());
        out
    } else if m.days_ago == 1 {
        let mut out: String = "Yesterday ".to_owned();
        out.append(m.clock.as_str());
        out
    } else if 2 <= m.days_ago && m.days_ago <= 6 {
        m.weekday.clone()
    } else {
        m.date.clone()
    }
}

/// What a session's directory holds, as far as its row needs it.
#[derive(Debug, Clone, Copy, PartialEq, Eq, Structural)]
pub struct Holds {
    /// `raw.jsonl` is there: a transcriber has claimed the session.
    pub raw: bool,
    /// `transcript.md` is there: the last thing a transcriber writes.
    pub document: bool,
    /// There is anything in its audio folder.
    pub audio: bool,
    /// Its scratch audio is growing.
    pub growing: bool,
}

/// One session, well enough to draw it.
#[derive(Debug)]
pub struct Detail {
    pub title: String,
    pub subtitle: String,
    /// Audio was captured and no transcript was ever written, nothing is writing
    /// to the scratch audio now, and the run never reached the end.
    pub interrupted: bool,
    /// The audio is written and the transcript is not.
    pub queued: bool,
    /// The run reached its end.
    pub completed: bool,
    pub warnings: Vec<String>,
    pub has_transcript: bool,
}

/// A process killed mid-recording: its audio is there, no transcriber has claimed
/// it, the capture never ran to its end, and nothing is writing any more.
pub open spec fn was_interrupted(h: Holds, captured: bool) -> bool {
    !h.raw && !captured && h.audio && !h.growing
}

/// Captured and not yet claimed by a transcriber.
pub open spec fn is_queued(h: Holds, captured: bool) -> bool {
    captured && !h.raw && !h.document
}

/// What is said of how far a session has come, if anything.
pub open spec fn progress(h: Holds, captured: bool, lines: nat) -> Option<Seq<char>> {
    if was_interrupted(h, captured) {
        Some("Interrupted"@)
    } else if is_queued(h, captured) {
        Some("waiting to transcribe"@)
    } else if lines == 0 && h.document {
        Some("no speech recognised"@)
    } else if lines == 0 {
        Some("no transcript yet"@)
    } else {
        None
    }
}

pub open spec fn speakers_text(n: nat) -> Seq<Seq<char>> {
    if n == 0 {
        Seq::empty()
    } else if n == 1 {
        seq!["1 speaker"@]
    } else {
        seq![text::decimal(n) + " speakers"@]
    }
}

pub open spec fn maybe(s: Option<Seq<char>>) -> Seq<Seq<char>> {
    match s {
        Some(t) => seq![t],
        None => Seq::empty(),
    }
}

/// The parts of a row's second line: when, how long, how far it has come, who,
/// and how many are still to name.
pub open spec fn parts(
    when: Option<Seq<char>>,
    seconds: Option<u64>,
    h: Holds,
    lines: Seq<LineText>,
) -> Seq<Seq<char>> {
    let unnamed = attribution::unnamed(lines, lines.len()).len();
    maybe(when) + maybe(
        match seconds {
            Some(s) => Some(session::clock(s as nat)),
            None => None,
        },
    ) + maybe(progress(h, seconds is Some, lines.len())) + speakers_text(markdown::cast(lines).len())
        + maybe(
        if unnamed > 0 {
            Some(text::decimal(unnamed) + " to name"@)
        } else {
            None
        },
    )
}

fn hear(lines: &[Line]) -> (r: Vec<String>)
    ensures
        text::views(r@) == markdown::cast(session::line_texts(lines@)),
{
    let ghost all = session::line_texts(lines@);
    let mut out: Vec<String> = Vec::new();
    let mut i: usize = 0;
    proof {
        assert(all.take(0) == Seq::<LineText>::empty());
        assert(text::views(out@) == Seq::<Seq<char>>::empty());
    }
    while i < lines.len()
        invariant
            i <= lines@.len(),
            all == session::line_texts(lines@),
            text::views(out@) == markdown::cast(all.take(i as int)),
        decreases lines@.len() - i,
    {
        proof {
            assert(all.take(i + 1).drop_last() == all.take(i as int));
            assert(all.take(i + 1).last() == lines@[i as int]@);
        }
        if let Some(s) = &lines[i].speaker {
            if !crate::state::listed(out.as_slice(), s.as_str()) {
                let name: String = s.clone();
                proof {
                    assert(text::views(out@.push(name)) == text::views(out@).push(name@));
                }
                out.push(name);
            }
        }
        i = i + 1;
    }
    proof {
        assert(all.take(lines@.len() as int) == all);
    }
    out
}

fn push_part(out: &mut Vec<String>, s: String)
    ensures
        text::views(final(out)@) == text::views(old(out)@) + seq![s@],
{
    let ghost was = text::views(out@);
    proof {
        assert(text::views(out@.push(s)) == was.push(s@));
        assert(was.push(s@) == was + seq![s@]);
    }
    out.push(s);
}

/// Read one session well enough to draw it: its name, what its directory holds,
/// its metadata with how many seconds it lasted to the nearest one, its lines,
/// and when it started.
pub fn describe(
    id: &str,
    holds: Holds,
    meta: Option<(&SessionMeta, u64)>,
    lines: &[Line],
    when: Option<&Moment>,
) -> (d: Detail)
    ensures
        ({
            let ls = session::line_texts(lines@);
            let captured = meta is Some;
            let seconds = match meta {
                Some(m) => Some(m.1),
                None => None,
            };
            let moment = match when {
                Some(m) => Some(moment_text(*m)),
                None => None,
            };
            &&& d.subtitle@ == text::joined(parts(moment, seconds, holds, ls), " \u{b7} "@)
            &&& d.interrupted == was_interrupted(holds, captured)
            &&& d.queued == is_queued(holds, captured)
            &&& d.completed == holds.document
            &&& d.has_transcript == (lines@.len() > 0)
            &&& match meta {
                Some(m) => {
                    &&& d.title@ == (match m.0.name {
                        Some(n) => n@,
                        None => id@,
                    })
                    &&& text::views(d.warnings@) == text::views(m.0.warnings@)
                },
                None => d.title@ == id@ && d.warnings@.len() == 0,
            }
        }),
{
    let ghost ls = session::line_texts(lines@);
    let captured: bool = meta.is_some();
    let interrupted: bool = !holds.raw && !captured && holds.audio && !holds.growing;
    let queued: bool = captured && !holds.raw && !holds.document;
    let heard: Vec<String> = hear(lines);
    let unnamed: Vec<(String, String)> = unnamed_labels(lines);
    proof {
        assert(markdown::cast(ls).len() == heard@.len());
        assert(attribution::unnamed(ls, ls.len()).len() == unnamed@.len());
        assert(ls.len() == lines@.len());
    }
    let mut out: Vec<String> = Vec::new();
    let ghost none = Seq::<Seq<char>>::empty();
    proof {
        assert(text::views(out@) == none);
    }
    if let Some(m) = when {
        push_part(&mut out, relative(m));
    }
    let ghost a = maybe(
        match when {
            Some(m) => Some(moment_text(*m)),
            None => None,
        },
    );
    proof {
        assert(text::views(out@) == a);
    }
    if let Some(m) = meta {
        push_part(&mut out, minutes(m.1));
    }
    let ghost b = a + maybe(
        match meta {
            Some(m) => Some(session::clock(m.1 as nat)),
            None => None,
        },
    );
    proof {
        assert(text::views(out@) == b);
    }
    if interrupted {
        push_part(&mut out, "Interrupted".to_owned());
    } else if queued {
        push_part(&mut out, "waiting to transcribe".to_owned());
    } else if lines.len() == 0 && holds.document {
        push_part(&mut out, "no speech recognised".to_owned());
    } else if lines.len() == 0 {
        push_part(&mut out, "no transcript yet".to_owned());
    }
    let ghost c = b + maybe(progress(holds, captured, ls.len()));
    proof {
        assert(text::views(out@) == c);
    }
    if heard.len() == 1 {
        push_part(&mut out, "1 speaker".to_owned());
    } else if heard.len() > 1 {
        let mut n: String = decimal_string(heard.len() as u64);
        n.append(" speakers");
        push_part(&mut out, n);
    }
    let ghost e = c + speakers_text(markdown::cast(ls).len());
    proof {
        assert(text::views(out@) == e);
    }
    if unnamed.len() > 0 {
        let mut n: String = decimal_string(unnamed.len() as u64);
        n.append(" to name");
        push_part(&mut out, n);
    }
    let mut title: String = id.to_owned();
    let mut warnings: Vec<String> = Vec::new();
    if let Some(m) = meta {
        if let Some(n) = &m.0.name {
            title = n.clone();
        }
        let mut i: usize = 0;
        while i < m.0.warnings.len()
            invariant
                i <= m.0.warnings@.len(),
                warnings@.len() == i,
                forall|j: int| 0 <= j < i ==> (#[trigger] warnings@[j])@ == m.0.warnings@[j]@,
            decreases m.0.warnings@.len() - i,
        {
            warnings.push(m.0.warnings[i].clone());
            i = i + 1;
        }
        proof {
            assert(text::views(warnings@) == text::views(m.0.warnings@));
        }
    }
    Detail {
        title,
        subtitle: join(out.as_slice(), " \u{b7} "),
        interrupted,
        queued,
        completed: holds.document,
        warnings,
        has_transcript: lines.len() > 0,
    }
}

/// A session that a transcriber has claimed, or whose capture ran to its end, or
/// that is still being written, never reads as interrupted; and no session is at
/// once interrupted and queued.
pub proof fn only_a_killed_capture_is_interrupted(h: Holds, captured: bool)
    ensures
        h.raw || captured || h.growing || !h.audio ==> !was_interrupted(h, captured),
        !(was_interrupted(h, captured) && is_queued(h, captured)),
{
}

/// The newest of several moments a file was last written, some of which may not
/// be known; zero where none is.
pub open spec fn newest_of(stamps: Seq<Option<u64>>) -> int
    decreases stamps.len(),
{
    if stamps.len() == 0 {
        0
    } else {
        let rest = newest_of(stamps.drop_last());
        match stamps.last() {
            Some(t) => if t > rest {
                t as int
            } else {
                rest
            },
            None => rest,
        }
    }
}

/// What a row's description is cached by: when its directory or any of the files
/// it is drawn from was last written.
pub fn stamp_of(stamps: &[Option<u64>]) -> (r: u64)
    ensures
        r == newest_of(stamps@),
{
    let mut newest: u64 = 0;
    let mut i: usize = 0;
    proof {
        assert(stamps@.take(0) == Seq::<Option<u64>>::empty());
    }
    while i < stamps.len()
        invariant
            i <= stamps@.len(),
            newest == newest_of(stamps@.take(i as int)),
        decreases stamps@.len() - i,
    {
        proof {
            assert(stamps@.take(i + 1).drop_last() == stamps@.take(i as int));
        }
        if let Some(t) = stamps[i] {
            if t > newest {
                newest = t;
            }
        }
        i = i + 1;
    }
    proof {
        assert(stamps@.take(stamps@.len() as int) == stamps@);
    }
    newest
}

/// What giving the Dock icon and the menu bar back comes to.
#[derive(Debug)]
pub enum Demotion {
    /// They are gone already.
    Already,
    /// Something on screen still needs them; what to say of it, if anything.
    Stay(Option<String>),
    Demote,
}

/// Whether the app steps back from the Dock. Two guards have to hold: no modal
/// panel is running, whose run loop a change would deadlock, and no other window
/// is up, which would lose its menu. A refusal is worth a line when it explains a
/// close that did not step back, and noise on a retry.
pub fn demote_to_accessory(
    regular: bool,
    modal: bool,
    other_window: Option<&str>,
    closing: bool,
) -> (d: Demotion)
    ensures
        if !regular {
            d is Already
        } else if modal {
            d matches Demotion::Stay(m) && text::opt(m) == (if closing {
                Some("window: staying Regular \u{2014} a modal panel is up"@)
            } else {
                None
            })
        } else {
            match other_window {
                Some(w) => d matches Demotion::Stay(m) && text::opt(m) == (if closing {
                    Some("window: staying Regular \u{2014} "@ + w@ + " is still visible"@)
                } else {
                    None
                }),
                None => d is Demote,
            }
        },
{
    if !regular {
        return Demotion::Already;
    }
    if modal {
        if closing {
            return Demotion::Stay(
                Some("window: staying Regular \u{2014} a modal panel is up".to_owned()),
            );
        }
        return Demotion::Stay(None);
    }
    match other_window {
        Some(w) => {
            if closing {
                let mut m: String = "window: staying Regular \u{2014} ".to_owned();
                m.append(w);
                m.append(" is still visible");
                Demotion::Stay(Some(m))
            } else {
                Demotion::Stay(None)
            }
        },
        None => Demotion::Demote,
    }
}

/// The newest of several moments is one of them, and none is later; where none is
/// known it is zero.
pub proof fn the_newest_moment_counts(stamps: Seq<Option<u64>>)
    ensures
        newest_of(stamps) >= 0,
        forall|i: int|
            0 <= i < stamps.len() ==> (#[trigger] stamps[i] matches Some(t) ==> t <= newest_of(
                stamps,
            )),
        newest_of(stamps) == 0 || exists|i: int|
            0 <= i < stamps.len() && (#[trigger] stamps[i] matches Some(t) && t == newest_of(
                stamps,
            )),
    decreases stamps.len(),
{
    if stamps.len() > 0 {
        let front = stamps.drop_last();
        the_newest_moment_counts(front);
        assert forall|i: int| 0 <= i < stamps.len() implies (#[trigger] stamps[i] matches Some(t)
            ==> t <= newest_of(stamps)) by {
            if i < front.len() {
                assert(front[i] == stamps[i]);
            }
        }
        if newest_of(stamps) != newest_of(front) {
            assert(stamps[stamps.len() - 1] matches Some(t) && t == newest_of(stamps));
        } else if newest_of(front) != 0 {
            let i = choose|i: int|
                0 <= i < front.len() && (#[trigger] front[i] matches Some(t) && t == newest_of(
                    front,
                ));
            assert(stamps[i] == front[i]);
        }
    }
}

/// A level is written with as many decimals as it takes, at least one, and never
/// more than one.
pub proof fn a_level_has_no_zeros_to_spare(d: nat)
    ensures
        d < 10 ==> level_number(100 * d) == "0."@ + text::decimal(d),
        d < 100 && d % 10 != 0 ==> level_number(10 * d) == "0."@ + text::zero_padded(
            text::decimal(d),
            2,
        ),
        d < 1000 && d % 10 != 0 ==> level_number(d) == "0."@ + text::zero_padded(
            text::decimal(d),
            3,
        ),
        d >= 1000 ==> level_number(d) == "1.0"@,
{
}

/// The page is told the level of each track under its own name, how long the
/// recording has run in whole seconds, and which it is.
pub proof fn the_page_is_told_each_level(dir: Seq<char>, m: Meter)
    ensures
        ({
            let s = live_text(dir, m);
            &&& json::says(s, "{\"audio_arriving\":"@, json::flag(m.audio_arriving))
            &&& json::says(s, ",\"call_level\":"@, level_number(m.call_peak_milli as nat))
            &&& json::says(
                s,
                ",\"elapsed_s\":"@,
                text::decimal((m.elapsed_ms / 1000) as nat),
            )
            &&& json::says(s, ",\"id\":"@, json::quoted(text::name_or_empty(dir)))
            &&& json::says(s, ",\"room_level\":"@, level_number(m.room_peak_milli as nat))
            &&& json::says(s, ",\"status_line\":"@, json::quoted(m.line()))
        }),
{
    reveal_strlit(",\"call_level\":");
    reveal_strlit(",\"elapsed_s\":");
    reveal_strlit(",\"id\":");
    reveal_strlit(",\"room_level\":");
    reveal_strlit(",\"status_line\":");
    reveal_strlit("}");
    let s = live_text(dir, m);
    let p0 = Seq::<char>::empty();
    let l1 = "{\"audio_arriving\":"@;
    let v1 = json::flag(m.audio_arriving);
    let p1 = p0 + l1 + v1;
    let l2 = ",\"call_level\":"@;
    let v2 = level_number(m.call_peak_milli as nat);
    let p2 = p1 + l2 + v2;
    let l3 = ",\"elapsed_s\":"@;
    let v3 = text::decimal((m.elapsed_ms / 1000) as nat);
    let p3 = p2 + l3 + v3;
    let l4 = ",\"id\":"@;
    let v4 = json::quoted(text::name_or_empty(dir));
    let p4 = p3 + l4 + v4;
    let l5 = ",\"room_level\":"@;
    let v5 = level_number(m.room_peak_milli as nat);
    let p5 = p4 + l5 + v5;
    let l6 = ",\"status_line\":"@;
    let v6 = json::quoted(m.line());
    let q6 = "}"@;
    let q5 = l6 + v6 + q6;
    let q4 = l5 + v5 + q5;
    let q3 = l4 + v4 + q4;
    let q2 = l3 + v3 + q3;
    let q1 = l2 + v2 + q2;
    assert(p0 + l1 == l1);
    assert(s == p5 + l6 + v6 + q6);
    json::lemma_says_last(s, p5, l6, v6, q6);
    json::lemma_says_last(s, p4, l5, v5, q5);
    json::lemma_says_last(s, p3, l4, v4, q4);
    json::lemma_says_last(s, p2, l3, v3, q3);
    json::lemma_says_last(s, p1, l2, v2, q2);
    json::lemma_says_last(s, p0, l1, v1, q1);
}

/// When something was is told by the day: today and yesterday with the time, the
/// week before by the weekday, anything else by the date.
pub proof fn days_are_told_by_how_long_ago(m: Moment)
    ensures
        m.days_ago == 0 ==> moment_text(m) == "Today "@ + m.clock@,
        m.days_ago == 1 ==> moment_text(m) == "Yesterday "@ + m.clock@,
        1 < m.days_ago < 7 ==> moment_text(m) == m.weekday@,
        m.days_ago < 0 || m.days_ago >= 7 ==> moment_text(m) == m.date@,
{
}

/// How far a session has come is told until it has lines: not at all once it has
/// some, unless it was interrupted or still waits.
pub proof fn a_session_with_lines_is_not_explained(h: Holds, captured: bool, lines: nat)
    ensures
        progress(h, captured, lines) is None <==> lines > 0 && !(captured && !h.raw && !h.document)
            && !(!h.raw && !captured && h.audio && !h.growing),
        captured && !h.raw && !h.document ==> progress(h, captured, lines) == Some(
            "waiting to transcribe"@,
        ),
        !h.raw && !captured && h.audio && !h.growing ==> progress(h, captured, lines) == Some(
            "Interrupted"@,
        ),
        h.raw && lines == 0 ==> progress(h, captured, lines) == Some(
            if h.document {
                "no speech recognised"@
            } else {
                "no transcript yet"@
            },
        ),
{
}

} // verus!
