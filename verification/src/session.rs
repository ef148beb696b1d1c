//! A session on disk: what its files hold, and the rules for claiming,
//! capturing, transcribing, listing and sweeping one.
//!
//! The format is deliberately append-only. `raw.jsonl` is what the recogniser
//! heard and is never rewritten; `edits.jsonl` carries everything applied on top
//! — repairs, speaker names, and the reverts of both. Folding the second over
//! the first gives the tidied view, and ignoring it gives the verbatim one.

use crate::text;
use vstd::prelude::*;

pub use crate::attribution::{diarize_session, name_speaker, unnamed_labels, DIARIZE_BY, USER_BY};
pub use crate::bleed::{containment, dedup_bleed};
pub use crate::claim::{
    claim_transcription, live_transcriber, signal_stop, slugify, Claim, SessionDir, StopSignalled, TranscribeLock,
    STATUS_FILE, STOP_FILE, TRANSCRIBING_LOCK,
};
pub use crate::markdown::markdown;
pub use crate::meter::{Meter, MeterPhase};
pub use crate::recording::{home, model_paths, models_root};
pub use crate::shelf::{
    captured_awaiting_transcript, is_growing, latest, list, live_session, stop_recording, sweep_audio,
};
pub use crate::transcript::transcript;

verus! {

/// Which of the two captured tracks a line of speech came from. This is the
/// only speaker attribution available before diarization: the room track is
/// you, the call track is them.
#[derive(Debug, Clone, Copy, PartialEq, Eq, Structural)]
pub enum Track {
    Room,
    Call,
}

impl Track {
    pub open spec fn word(self) -> Seq<char> {
        match self {
            Track::Room => "room"@,
            Track::Call => "call"@,
        }
    }

    pub fn as_str(self) -> (r: &'static str)
        ensures
            r@ == self.word(),
    {
        match self {
            Track::Room => "room",
            Track::Call => "call",
        }
    }
}

/// One VAD segment as the recogniser transcribed it. Immutable once written.
#[derive(Debug)]
pub struct RawRecord {
    pub track: Track,
    pub start_ms: u64,
    pub end_ms: u64,
    pub text: String,
    /// Mean probability of the tokens the decoder emitted for this line, as the
    /// bits of a single-precision number. Carried through for a cleanup pass;
    /// nothing here reads it.
    pub confidence: u32,
}

/// What an edit points at. VAD segments never overlap within a track, so the
/// pair is a stable identity without needing ids in `raw.jsonl`.
#[derive(Debug, Clone, Copy, PartialEq, Eq, Structural)]
pub struct Target {
    pub track: Track,
    pub start_ms: u64,
}

#[derive(Debug)]
pub enum Edit {
    /// Replace one substring within a segment's text.
    Repair { target: Target, from: String, to: String, by: String, at: String },
    /// Name the speaker of a segment.
    Speaker { target: Target, name: String, by: String, at: String },
    /// Undo an earlier edit, addressed by its zero-based line in `edits.jsonl`.
    /// Undoing appends; it never deletes.
    Revert { target_seq: usize, by: String, at: String },
}

/// A raw record with whatever the edit layer has said about it.
#[derive(Debug)]
pub struct Line {
    pub track: Track,
    pub start_ms: u64,
    pub end_ms: u64,
    pub speaker: Option<String>,
    pub text: String,
}

/// A raw record as plain characters.
pub struct RecordText {
    pub track: Track,
    pub start_ms: u64,
    pub end_ms: u64,
    pub text: Seq<char>,
}

/// An edit as plain characters.
pub enum EditText {
    Repair { target: Target, from: Seq<char>, to: Seq<char>, by: Seq<char>, at: Seq<char> },
    Speaker { target: Target, name: Seq<char>, by: Seq<char>, at: Seq<char> },
    Revert { target_seq: nat, by: Seq<char>, at: Seq<char> },
}

/// A line as plain characters.
pub struct LineText {
    pub track: Track,
    pub start_ms: u64,
    pub end_ms: u64,
    pub speaker: Option<Seq<char>>,
    pub text: Seq<char>,
}

impl View for RawRecord {
    type V = RecordText;

    open spec fn view(&self) -> RecordText {
        RecordText {
            track: self.track,
            start_ms: self.start_ms,
            end_ms: self.end_ms,
            text: self.text@,
        }
    }
}

impl View for Edit {
    type V = EditText;

    open spec fn view(&self) -> EditText {
        match self {
            Edit::Repair { target, from, to, by, at } => EditText::Repair {
                target: *target,
                from: from@,
                to: to@,
                by: by@,
                at: at@,
            },
            Edit::Speaker { target, name, by, at } => EditText::Speaker {
                target: *target,
                name: name@,
                by: by@,
                at: at@,
            },
            Edit::Revert { target_seq, by, at } => EditText::Revert {
                target_seq: *target_seq as nat,
                by: by@,
                at: at@,
            },
        }
    }
}

impl View for Line {
    type V = LineText;

    open spec fn view(&self) -> LineText {
        LineText {
            track: self.track,
            start_ms: self.start_ms,
            end_ms: self.end_ms,
            speaker: text::opt(self.speaker),
            text: self.text@,
        }
    }
}

impl Clone for Line {
    fn clone(&self) -> (r: Self)
        ensures
            r@ == self@,
    {
        let speaker: Option<String> = match &self.speaker {
            Some(s) => Some(s.clone()),
            None => None,
        };
        Line {
            track: self.track,
            start_ms: self.start_ms,
            end_ms: self.end_ms,
            speaker,
            text: self.text.clone(),
        }
    }
}

/// What `session.json` says of a session.
#[derive(Debug)]
pub struct SessionMeta {
    pub id: String,
    pub name: Option<String>,
    pub started_at: String,
    pub ended_at: String,
    /// The length of the recording in seconds, as text with one decimal.
    pub duration_s: String,
    pub device_hz: u32,
    /// The microphone has its own device and so its own rate.
    pub mic_hz: u32,
    pub channels: u32,
    pub mic_channels: u32,
    pub apps: Vec<String>,
    pub model: String,
    /// What the capture wanted to say and could only say to stderr: a silent
    /// room track, a tap that returned nothing. Stored so it is still there when
    /// the session is opened tomorrow.
    pub warnings: Vec<String>,
}

/// What `session.json` says, as plain characters.
pub struct MetaText {
    pub id: Seq<char>,
    pub name: Option<Seq<char>>,
    pub started_at: Seq<char>,
    pub ended_at: Seq<char>,
    pub duration_s: Seq<char>,
    pub device_hz: u32,
    pub mic_hz: u32,
    pub channels: u32,
    pub mic_channels: u32,
    pub apps: Seq<Seq<char>>,
    pub model: Seq<char>,
    pub warnings: Seq<Seq<char>>,
}

impl View for SessionMeta {
    type V = MetaText;

    open spec fn view(&self) -> MetaText {
        MetaText {
            id: self.id@,
            name: text::opt(self.name),
            started_at: self.started_at@,
            ended_at: self.ended_at@,
            duration_s: self.duration_s@,
            device_hz: self.device_hz,
            mic_hz: self.mic_hz,
            channels: self.channels,
            mic_channels: self.mic_channels,
            apps: text::views(self.apps@),
            model: self.model@,
            warnings: text::views(self.warnings@),
        }
    }
}

pub open spec fn record_texts(v: Seq<RawRecord>) -> Seq<RecordText> {
    v.map_values(|r: RawRecord| r@)
}

pub open spec fn edit_texts(v: Seq<Edit>) -> Seq<EditText> {
    v.map_values(|e: Edit| e@)
}

pub open spec fn line_texts(v: Seq<Line>) -> Seq<LineText> {
    v.map_values(|l: Line| l@)
}

/// Minutes and seconds, each with at least two digits.
pub open spec fn clock(seconds: nat) -> Seq<char> {
    text::zero_padded(text::decimal(seconds / 60), 2) + ":"@ + text::zero_padded(
        text::decimal(seconds % 60),
        2,
    )
}

/// A number of seconds as minutes and seconds.
pub fn minutes(seconds: u64) -> (r: String)
    ensures
        r@ == clock(seconds as nat),
{
    let mut out: String = text::padded_string(seconds / 60, 2);
    out.append(":");
    out.append(text::padded_string(seconds % 60, 2).as_str());
    out
}

/// A time in milliseconds as minutes and seconds.
pub fn mmss(ms: u64) -> (r: String)
    ensures
        r@ == clock((ms / 1000) as nat),
{
    minutes(ms / 1000)
}

/// A clock says minutes and seconds, the seconds below sixty.
pub proof fn a_clock_says_the_time(m: nat, s: nat)
    requires
        s < 60,
    ensures
        clock(m * 60 + s) == text::zero_padded(text::decimal(m), 2) + seq![':']
            + text::zero_padded(text::decimal(s), 2),
{
    reveal_strlit(":");
    assert(":"@ == seq![':']);
    assert((m * 60 + s) / 60 == m);
    assert((m * 60 + s) % 60 == s);
}

} // verus!
