//! Six ways to get a session's words out of it: the markdown document, plain
//! text, JSON, the two subtitle formats, and a copy shaped for pasting into an
//! assistant.
//!
//! Every format but the document and the assistant's copy of it shows the
//! transcript as it is, without the bleed taken out: that is right for a document
//! meant to be read once but wrong for a transcript meant to be exact.

use crate::attribution;
use crate::attribution::quote_debug;
use crate::bleed;
use crate::json;
use crate::json::{quote, quote_or_null};
use crate::markdown;
use crate::session;
use crate::session::{markdown, minutes, Line, LineText, MetaText, SessionMeta};
use crate::text;
use crate::text::{chars_of, decimal_string, has_prefix, join, padded_string, part, same_str, string_of};
use vstd::prelude::*;

verus! {

/// Named once so every refusal says the same six words.
pub const FORMAT_NAMES: &'static str = "markdown, text, json, srt, vtt, assistant";

/// One of the shapes [`render`] can produce.
#[derive(Debug, Clone, Copy, PartialEq, Eq, Structural)]
pub enum Format {
    Markdown,
    Text,
    Json,
    Srt,
    Vtt,
    Assistant,
}

/// The format a word names.
pub open spec fn format_of(s: Seq<char>) -> Option<Format> {
    if s == "markdown"@ {
        Some(Format::Markdown)
    } else if s == "text"@ {
        Some(Format::Text)
    } else if s == "json"@ {
        Some(Format::Json)
    } else if s == "srt"@ {
        Some(Format::Srt)
    } else if s == "vtt"@ {
        Some(Format::Vtt)
    } else if s == "assistant"@ {
        Some(Format::Assistant)
    } else {
        None
    }
}

/// What is said of a word that names no format: it names all six.
pub open spec fn unknown_format(s: Seq<char>) -> Seq<char> {
    "unknown export format "@ + attribution::debug_quoted(s) + ", expected one of: "@
        + FORMAT_NAMES@
}

impl Format {
    /// The format a word names, or a refusal that names all six.
    pub fn named(s: &str) -> (r: Result<Format, String>)
        ensures
            match r {
                Ok(f) => format_of(s@) == Some(f),
                Err(e) => format_of(s@) is None && e@ == unknown_format(s@),
            },
    {
        if same_str(s, "markdown") {
            Ok(Format::Markdown)
        } else if same_str(s, "text") {
            Ok(Format::Text)
        } else if same_str(s, "json") {
            Ok(Format::Json)
        } else if same_str(s, "srt") {
            Ok(Format::Srt)
        } else if same_str(s, "vtt") {
            Ok(Format::Vtt)
        } else if same_str(s, "assistant") {
            Ok(Format::Assistant)
        } else {
            let mut e: String = "unknown export format ".to_owned();
            e.append(quote_debug(s).as_str());
            e.append(", expected one of: ");
            e.append(FORMAT_NAMES);
            Err(e)
        }
    }

    /// The file an export goes to unless another is named.
    pub open spec fn default_name(self) -> Seq<char> {
        match self {
            Format::Markdown => "transcript.md"@,
            Format::Text => "transcript.txt"@,
            Format::Json => "transcript.json"@,
            Format::Srt => "transcript.srt"@,
            Format::Vtt => "transcript.vtt"@,
            Format::Assistant => "transcript.assistant.md"@,
        }
    }

    pub fn file_name(self) -> (r: &'static str)
        ensures
            r@ == self.default_name(),
    {
        match self {
            Format::Markdown => "transcript.md",
            Format::Text => "transcript.txt",
            Format::Json => "transcript.json",
            Format::Srt => "transcript.srt",
            Format::Vtt => "transcript.vtt",
            Format::Assistant => "transcript.assistant.md",
        }
    }
}

impl std::str::FromStr for Format {
    type Err = String;

    /// The format a word names, or a refusal that names all six.
    fn from_str(s: &str) -> (r: Result<Format, String>)
        ensures
            match r {
                Ok(f) => format_of(s@) == Some(f),
                Err(e) => format_of(s@) is None && e@ == unknown_format(s@),
            },
    {
        Format::named(s)
    }
}

/// A line with who said it, if that is known.
pub open spec fn cue(l: LineText) -> Seq<char> {
    match l.speaker {
        Some(name) => name + ": "@ + l.text,
        None => l.text,
    }
}

fn cue_text(speaker: &Option<String>, text: &str) -> (r: String)
    ensures
        r@ == (match *speaker {
            Some(name) => name@ + ": "@ + text@,
            None => text@,
        }),
{
    match speaker {
        Some(name) => {
            let mut out: String = name.clone();
            out.append(": ");
            out.append(text);
            out
        },
        None => text.to_owned(),
    }
}

/// One line after another, with a blank line wherever the track changes.
pub open spec fn plain(lines: Seq<LineText>) -> Seq<char>
    decreases lines.len(),
{
    if lines.len() == 0 {
        Seq::empty()
    } else {
        let n = lines.len() as int;
        let before = plain(lines.drop_last());
        if n > 1 && lines[n - 2].track != lines[n - 1].track {
            before + "\n"@ + cue(lines.last()) + "\n"@
        } else {
            before + cue(lines.last()) + "\n"@
        }
    }
}

fn text(lines: &[Line]) -> (r: String)
    ensures
        r@ == plain(session::line_texts(lines@)),
{
    let ghost all = session::line_texts(lines@);
    let mut out: String = String::new();
    let mut i: usize = 0;
    proof {
        assert(all.take(0) == Seq::<LineText>::empty());
    }
    while i < lines.len()
        invariant
            i <= lines@.len(),
            all == session::line_texts(lines@),
            out@ == plain(all.take(i as int)),
        decreases lines@.len() - i,
    {
        let l: &Line = &lines[i];
        proof {
            let next = all.take(i + 1);
            assert(next.drop_last() == all.take(i as int));
            assert(next.last() == l@);
            if i > 0 {
                assert(next[i - 1] == lines@[i - 1]@);
            }
        }
        if i > 0 && lines[i - 1].track != l.track {
            out.append("\n");
        }
        out.append(cue_text(&l.speaker, l.text.as_str()).as_str());
        out.append("\n");
        i = i + 1;
    }
    proof {
        assert(all.take(lines@.len() as int) == all);
    }
    out
}

/// One line as a JSON object inside an indented array.
pub open spec fn line_object(l: LineText) -> Seq<char> {
    "  {\n    \"track\": "@ + json::quoted(l.track.word()) + ",\n    \"start_ms\": "@
        + text::decimal(l.start_ms as nat) + ",\n    \"end_ms\": "@ + text::decimal(
        l.end_ms as nat,
    ) + ",\n    \"speaker\": "@ + json::nullable(l.speaker) + ",\n    \"text\": "@ + json::quoted(
        l.text,
    ) + "\n  }"@
}

/// The lines as JSON, indented by two.
pub open spec fn lines_json(lines: Seq<LineText>) -> Seq<char> {
    if lines.len() == 0 {
        "[]"@
    } else {
        "[\n"@ + text::joined(lines.map_values(|l: LineText| line_object(l)), ",\n"@) + "\n]"@
    }
}

fn object(l: &Line) -> (r: String)
    ensures
        r@ == line_object(l@),
{
    let mut out: String = "  {\n    \"track\": ".to_owned();
    out.append(quote(l.track.as_str()).as_str());
    out.append(",\n    \"start_ms\": ");
    out.append(decimal_string(l.start_ms).as_str());
    out.append(",\n    \"end_ms\": ");
    out.append(decimal_string(l.end_ms).as_str());
    out.append(",\n    \"speaker\": ");
    let who: Option<&str> = match &l.speaker {
        Some(s) => Some(s.as_str()),
        None => None,
    };
    out.append(quote_or_null(who).as_str());
    out.append(",\n    \"text\": ");
    out.append(quote(l.text.as_str()).as_str());
    out.append("\n  }");
    out
}

fn json(lines: &[Line]) -> (r: String)
    ensures
        r@ == lines_json(session::line_texts(lines@)),
{
    let ghost all = session::line_texts(lines@);
    if lines.len() == 0 {
        return "[]".to_owned();
    }
    let mut parts: Vec<String> = Vec::new();
    let mut i: usize = 0;
    while i < lines.len()
        invariant
            i <= lines@.len(),
            all == session::line_texts(lines@),
            parts@.len() == i,
            forall|j: int| 0 <= j < i ==> (#[trigger] parts@[j])@ == line_object(all[j]),
        decreases lines@.len() - i,
    {
        parts.push(object(&lines[i]));
        i = i + 1;
    }
    proof {
        assert(text::views(parts@) == all.map_values(|l: LineText| line_object(l)));
    }
    let mut out: String = "[\n".to_owned();
    out.append(join(parts.as_slice(), ",\n").as_str());
    out.append("\n]");
    out
}

/// Hours, minutes and seconds, then the milliseconds after `point`.
pub open spec fn timestamp(ms: nat, point: Seq<char>) -> Seq<char> {
    text::zero_padded(text::decimal(ms / 3_600_000), 2) + ":"@ + text::zero_padded(
        text::decimal((ms % 3_600_000) / 60_000),
        2,
    ) + ":"@ + text::zero_padded(text::decimal((ms % 60_000) / 1000), 2) + point
        + text::zero_padded(text::decimal(ms % 1000), 3)
}

fn timestamp_with(ms: u64, point: &str) -> (r: String)
    ensures
        r@ == timestamp(ms as nat, point@),
{
    let mut out: String = padded_string(ms / 3_600_000, 2);
    out.append(":");
    out.append(padded_string((ms % 3_600_000) / 60_000, 2).as_str());
    out.append(":");
    out.append(padded_string((ms % 60_000) / 1000, 2).as_str());
    out.append(point);
    out.append(padded_string(ms % 1000, 3).as_str());
    out
}

/// A time as SRT writes it.
pub fn timestamp_srt(ms: u64) -> (r: String)
    ensures
        r@ == timestamp(ms as nat, ","@),
{
    timestamp_with(ms, ",")
}

/// A time as VTT writes it: the same clock, with a point before the
/// milliseconds.
pub fn timestamp_vtt(ms: u64) -> (r: String)
    ensures
        r@ == timestamp(ms as nat, "."@),
{
    timestamp_with(ms, ".")
}

/// One VTT cue.
pub open spec fn vtt_cue(l: LineText) -> Seq<char> {
    timestamp(l.start_ms as nat, "."@) + " --> "@ + timestamp(l.end_ms as nat, "."@) + "\n"@ + cue(
        l,
    ) + "\n"@
}

/// One SRT cue: VTT's with a number in front and commas for points.
pub open spec fn srt_cue(l: LineText, number: nat) -> Seq<char> {
    text::decimal(number) + "\n"@ + timestamp(l.start_ms as nat, ","@) + " --> "@ + timestamp(
        l.end_ms as nat,
        ","@,
    ) + "\n"@ + cue(l) + "\n"@
}

pub open spec fn srt_document(lines: Seq<LineText>) -> Seq<char> {
    text::joined(lines.map(|i: int, l: LineText| srt_cue(l, (i + 1) as nat)), "\n"@)
}

pub open spec fn vtt_document(lines: Seq<LineText>) -> Seq<char> {
    "WEBVTT\n\n"@ + text::joined(lines.map_values(|l: LineText| vtt_cue(l)), "\n"@)
}

fn srt(lines: &[Line]) -> (r: String)
    ensures
        r@ == srt_document(session::line_texts(lines@)),
{
    let ghost all = session::line_texts(lines@);
    let mut cues: Vec<String> = Vec::new();
    let mut i: usize = 0;
    while i < lines.len()
        invariant
            i <= lines@.len(),
            all == session::line_texts(lines@),
            cues@.len() == i,
            forall|j: int|
                0 <= j < i ==> (#[trigger] cues@[j])@ == srt_cue(all[j], (j + 1) as nat),
        decreases lines@.len() - i,
    {
        let l: &Line = &lines[i];
        let mut c: String = decimal_string(i as u64 + 1);
        c.append("\n");
        c.append(timestamp_srt(l.start_ms).as_str());
        c.append(" --> ");
        c.append(timestamp_srt(l.end_ms).as_str());
        c.append("\n");
        c.append(cue_text(&l.speaker, l.text.as_str()).as_str());
        c.append("\n");
        proof {
            assert(all[i as int] == l@);
        }
        cues.push(c);
        i = i + 1;
    }
    proof {
        assert(text::views(cues@) == all.map(|i: int, l: LineText| srt_cue(l, (i + 1) as nat)));
    }
    join(cues.as_slice(), "\n")
}

fn vtt(lines: &[Line]) -> (r: String)
    ensures
        r@ == vtt_document(session::line_texts(lines@)),
{
    let ghost all = session::line_texts(lines@);
    let mut cues: Vec<String> = Vec::new();
    let mut i: usize = 0;
    while i < lines.len()
        invariant
            i <= lines@.len(),
            all == session::line_texts(lines@),
            cues@.len() == i,
            forall|j: int| 0 <= j < i ==> (#[trigger] cues@[j])@ == vtt_cue(all[j]),
        decreases lines@.len() - i,
    {
        let l: &Line = &lines[i];
        let mut c: String = timestamp_vtt(l.start_ms);
        c.append(" --> ");
        c.append(timestamp_vtt(l.end_ms).as_str());
        c.append("\n");
        c.append(cue_text(&l.speaker, l.text.as_str()).as_str());
        c.append("\n");
        proof {
            assert(all[i as int] == l@);
        }
        cues.push(c);
        i = i + 1;
    }
    proof {
        assert(text::views(cues@) == all.map_values(|l: LineText| vtt_cue(l)));
    }
    let mut out: String = "WEBVTT\n\n".to_owned();
    out.append(join(cues.as_slice(), "\n").as_str());
    out
}

/// What follows the first line that is a heading, if there is one.
pub open spec fn after_heading(s: Seq<char>) -> Option<Seq<char>>
    decreases s.len(),
{
    let k = text::run_len(s, '\n') as int;
    if s.len() == 0 {
        None
    } else if k >= s.len() {
        if text::starts_with(s, "# "@) {
            Some(Seq::empty())
        } else {
            None
        }
    } else if text::starts_with(s.take(k), "# "@) {
        Some(s.skip(k + 1))
    } else {
        after_heading(s.skip(k + 1))
    }
}

/// A document without everything up to and including its first heading.
pub open spec fn unheaded(s: Seq<char>) -> Seq<char> {
    match after_heading(s) {
        Some(rest) => rest,
        None => s,
    }
}

/// A document with everything up to and including its first line that is a
/// heading removed — the front matter and the title — so a new heading can be
/// prepended without the result carrying two.
pub fn strip_first_heading(md: &str) -> (r: String)
    ensures
        r@ == unheaded(md@),
{
    let c: Vec<char> = chars_of(md);
    let mark: Vec<char> = chars_of("# ");
    let n: usize = c.len();
    let mut from: usize = 0;
    proof {
        assert(c@.skip(0) == c@);
    }
    while from < n
        invariant
            n == c@.len(),
            c@ == md@,
            mark@ == "# "@,
            from <= n,
            after_heading(md@) == after_heading(c@.skip(from as int)),
        decreases n - from,
    {
        let ghost rest = c@.skip(from as int);
        let mut k: usize = from;
        while k < n && c[k] != '\n'
            invariant
                n == c@.len(),
                from <= k <= n,
                forall|j: int| from <= j < k ==> #[trigger] c@[j] != '\n',
            decreases n - k,
        {
            k = k + 1;
        }
        let line: Vec<char> = part(c.as_slice(), from, k);
        proof {
            assert forall|i: int| 0 <= i < k - from implies #[trigger] rest[i] != '\n' by {
                assert(rest[i] == c@[from + i]);
            }
            text::lemma_run_len_is(rest, '\n', (k - from) as nat);
            assert(line@ == rest.take(k - from));
            if k == n {
                assert(line@ == rest);
            } else {
                assert(rest.skip(k - from + 1) == c@.skip(k + 1));
            }
        }
        if has_prefix(line.as_slice(), mark.as_slice()) {
            let next: usize = if k < n {
                k + 1
            } else {
                n
            };
            let after: Vec<char> = part(c.as_slice(), next, n);
            proof {
                assert(after@ == c@.skip(next as int));
                if k == n {
                    assert(after@ == Seq::<char>::empty());
                }
            }
            return string_of(after.as_slice());
        }
        from = if k < n {
            k + 1
        } else {
            n
        };
        proof {
            if k == n {
                assert(c@.skip(n as int) == Seq::<char>::empty());
            }
        }
    }
    proof {
        assert(c@.skip(n as int) == Seq::<char>::empty());
    }
    md.to_owned()
}

/// A text without the newlines in front of it.
pub open spec fn flush(s: Seq<char>) -> Seq<char>
    decreases s.len(),
{
    if s.len() > 0 && s[0] == '\n' {
        flush(s.drop_first())
    } else {
        s
    }
}

fn flushed(s: &str) -> (r: String)
    ensures
        r@ == flush(s@),
{
    let c: Vec<char> = chars_of(s);
    let mut i: usize = 0;
    proof {
        assert(c@.skip(0) == c@);
    }
    while i < c.len() && c[i] == '\n'
        invariant
            i <= c@.len(),
            flush(s@) == flush(c@.skip(i as int)),
        decreases c@.len() - i,
    {
        proof {
            assert(c@.skip(i as int).drop_first() == c@.skip(i + 1));
        }
        i = i + 1;
    }
    let rest: Vec<char> = part(c.as_slice(), i, c.len());
    proof {
        assert(rest@ == c@.skip(i as int));
    }
    string_of(rest.as_slice())
}

/// What a pasted session is headed with.
pub open spec fn heading(meta: Option<MetaText>, seconds: nat, dir: Seq<char>) -> Seq<char> {
    match meta {
        Some(m) => (match m.name {
            Some(n) => n,
            None => m.id,
        }) + " ("@ + m.started_at + ", "@ + session::clock(seconds) + ")"@,
        None => dir,
    }
}

/// The shape for pasting a session into an assistant.
pub open spec fn pasted(
    lines: Seq<LineText>,
    meta: Option<MetaText>,
    seconds: nat,
    dir: Seq<char>,
) -> Seq<char> {
    let id = match meta {
        Some(m) => m.id,
        None => dir,
    };
    "# "@ + heading(meta, seconds, dir) + "\n\n"@ + flush(
        unheaded(markdown::rendered(lines, meta)),
    ) + "Read live with the ambient MCP server: session id "@ + id + "\n"@
}

/// A heading naming the session, then the document's body with its own title cut
/// out, then a line pointing at the live server. With no metadata the heading is
/// just the directory's name, which doubles as the id.
fn assistant(lines: &[Line], meta: Option<&SessionMeta>, seconds: u64, dir: &str) -> (r: String)
    requires
        bleed::comparable(session::line_texts(lines@)),
    ensures
        r@ == pasted(
            session::line_texts(lines@),
            markdown::meta_text(meta),
            seconds as nat,
            dir@,
        ),
{
    let md: String = markdown(lines, meta);
    let body: String = flushed(strip_first_heading(md.as_str()).as_str());
    let mut out: String = "# ".to_owned();
    let mut h: String = dir.to_owned();
    let mut id: &str = dir;
    if let Some(m) = meta {
        h = match &m.name {
            Some(n) => n.clone(),
            None => m.id.clone(),
        };
        h.append(" (");
        h.append(m.started_at.as_str());
        h.append(", ");
        h.append(minutes(seconds).as_str());
        h.append(")");
        id = m.id.as_str();
    }
    out.append(h.as_str());
    out.append("\n\n");
    out.append(body.as_str());
    out.append("Read live with the ambient MCP server: session id ");
    out.append(id);
    out.append("\n");
    out
}

/// What a session is in a format.
pub open spec fn exported(
    format: Format,
    lines: Seq<LineText>,
    meta: Option<MetaText>,
    seconds: nat,
    dir: Seq<char>,
) -> Seq<char> {
    match format {
        Format::Markdown => markdown::rendered(lines, meta),
        Format::Text => plain(lines),
        Format::Json => lines_json(lines),
        Format::Srt => srt_document(lines),
        Format::Vtt => vtt_document(lines),
        Format::Assistant => pasted(lines, meta, seconds, dir),
    }
}

/// A session as `format` wants it: its transcript, what its metadata says if it
/// can be read, how many whole seconds it lasts, and its directory's name.
pub fn render(
    format: Format,
    lines: &[Line],
    meta: Option<&SessionMeta>,
    seconds: u64,
    dir: &str,
) -> (r: String)
    requires
        format == Format::Markdown || format == Format::Assistant ==> bleed::comparable(
            session::line_texts(lines@),
        ),
    ensures
        r@ == exported(
            format,
            session::line_texts(lines@),
            markdown::meta_text(meta),
            seconds as nat,
            dir@,
        ),
{
    match format {
        Format::Markdown => markdown(lines, meta),
        Format::Text => text(lines),
        Format::Json => json(lines),
        Format::Srt => srt(lines),
        Format::Vtt => vtt(lines),
        Format::Assistant => assistant(lines, meta, seconds, dir),
    }
}

/// Each line of the plain text stands behind all that went before: a blank line if
/// the track has changed, then who said it, if that is known, a colon and a space,
/// then what was said, wherever the line stands.
#[verifier::spinoff_prover]
#[verifier::rlimit(80)]
pub proof fn every_line_says_who_spoke(lines: Seq<LineText>, l: LineText)
    ensures
        plain(Seq::<LineText>::empty()) == Seq::<char>::empty(),
        l.speaker matches Some(name) ==> plain(lines.push(l)) == plain(lines) + (if lines.len() > 0
            && lines.last().track != l.track {
            seq!['\n']
        } else {
            Seq::empty()
        }) + name + seq![':', ' '] + l.text + seq!['\n'],
        l.speaker is None ==> plain(lines.push(l)) == plain(lines) + (if lines.len() > 0
            && lines.last().track != l.track {
            seq!['\n']
        } else {
            Seq::empty()
        }) + l.text + seq!['\n'],
{
    reveal_strlit("\n");
    reveal_strlit(": ");
    let all = lines.push(l);
    assert(all.drop_last() == lines);
    assert("\n"@ == seq!['\n']);
    assert(": "@ == seq![':', ' ']);
    if lines.len() > 0 {
        assert(all[all.len() - 2] == lines.last());
    }
    let gap = if lines.len() > 0 && lines.last().track != l.track {
        seq!['\n']
    } else {
        Seq::<char>::empty()
    };
    assert(plain(all) == plain(lines) + gap + cue(l) + seq!['\n']);
    if let Some(name) = l.speaker {
        assert(plain(lines) + gap + (name + seq![':', ' '] + l.text) + seq!['\n'] == plain(lines)
            + gap + name + seq![':', ' '] + l.text + seq!['\n']);
    }
}

/// A cue is the name, a colon, a space and the words, or the words alone.
pub proof fn a_cue_starts_with_the_name(l: LineText)
    ensures
        l.speaker matches Some(name) ==> cue(l).len() == name.len() + 2 + l.text.len() && cue(
            l,
        ).take(name.len() as int) == name && cue(l).skip(name.len() as int).take(2) == seq![
            ':',
            ' ',
        ] && cue(l).skip(name.len() as int).skip(2) == l.text,
        l.speaker is None ==> cue(l) == l.text,
{
    reveal_strlit(": ");
    if let Some(name) = l.speaker {
        assert(cue(l).take(name.len() as int) == name);
        assert(cue(l).skip(name.len() as int).take(2) == seq![':', ' ']);
        assert(cue(l).skip(name.len() as int).skip(2) == l.text);
    }
}

/// A timestamp is read as it is written: hours, minutes, seconds and milliseconds,
/// the minutes and seconds below sixty.
pub proof fn a_timestamp_says_the_time(h: nat, m: nat, s: nat, f: nat, point: Seq<char>)
    requires
        m < 60,
        s < 60,
        f < 1000,
    ensures
        timestamp(((h * 60 + m) * 60 + s) * 1000 + f, point) == text::zero_padded(
            text::decimal(h),
            2,
        ) + seq![':'] + text::zero_padded(text::decimal(m), 2) + seq![':'] + text::zero_padded(
            text::decimal(s),
            2,
        ) + point + text::zero_padded(text::decimal(f), 3),
{
    reveal_strlit(":");
    assert(":"@ == seq![':']);
    let ms = ((h * 60 + m) * 60 + s) * 1000 + f;
    assert(ms / 3_600_000 == h);
    assert((ms % 3_600_000) / 60_000 == m);
    assert((ms % 60_000) / 1000 == s);
    assert(ms % 1000 == f);
}

/// Subtitles are numbered from one in the order of the lines, each behind the one
/// before it with a blank line between.
#[verifier::spinoff_prover]
#[verifier::rlimit(80)]
pub proof fn subtitles_are_numbered_in_order(lines: Seq<LineText>, l: LineText)
    ensures
        srt_document(Seq::<LineText>::empty()) == Seq::<char>::empty(),
        srt_document(lines.push(l)) == srt_document(lines) + (if lines.len() > 0 {
            seq!['\n']
        } else {
            Seq::empty()
        }) + text::decimal((lines.len() + 1) as nat) + seq!['\n'] + timestamp(
            l.start_ms as nat,
            seq![','],
        ) + seq![' ', '-', '-', '>', ' '] + timestamp(l.end_ms as nat, seq![',']) + seq!['\n']
            + cue(l) + seq!['\n'],
{
    reveal_strlit("\n");
    reveal_strlit(",");
    reveal_strlit(" --> ");
    assert("\n"@ == seq!['\n']);
    assert(","@ == seq![',']);
    assert(" --> "@ == seq![' ', '-', '-', '>', ' ']);
    let f = |i: int, l: LineText| srt_cue(l, (i + 1) as nat);
    let all = lines.push(l);
    let cues = lines.map(f);
    assert(Seq::<LineText>::empty().map(f) == Seq::<Seq<char>>::empty());
    assert(all.map(f) == cues.push(srt_cue(l, (lines.len() + 1) as nat)));
    assert(all.map(f).drop_last() == cues);
    let c = srt_cue(l, (lines.len() + 1) as nat);
    let gap = if lines.len() > 0 {
        seq!['\n']
    } else {
        Seq::<char>::empty()
    };
    if lines.len() == 0 {
        assert(all.map(f)[0] == c);
        assert(cues == Seq::<Seq<char>>::empty());
    }
    assert(srt_document(all) == srt_document(lines) + gap + c);
    assert(srt_document(lines) + gap + c == srt_document(lines) + gap + text::decimal(
        (lines.len() + 1) as nat,
    ) + seq!['\n'] + timestamp(l.start_ms as nat, seq![',']) + seq![' ', '-', '-', '>', ' ']
        + timestamp(l.end_ms as nat, seq![',']) + seq!['\n'] + cue(l) + seq!['\n']);
}

/// The web's subtitles have a header, then every line behind the one before it with
/// a blank line between.
#[verifier::spinoff_prover]
#[verifier::rlimit(80)]
pub proof fn web_subtitles_stand_in_order(lines: Seq<LineText>, l: LineText)
    ensures
        vtt_document(Seq::<LineText>::empty()) == "WEBVTT\n\n"@,
        vtt_document(lines.push(l)) == vtt_document(lines) + (if lines.len() > 0 {
            seq!['\n']
        } else {
            Seq::empty()
        }) + timestamp(l.start_ms as nat, seq!['.']) + seq![' ', '-', '-', '>', ' '] + timestamp(
            l.end_ms as nat,
            seq!['.'],
        ) + seq!['\n'] + cue(l) + seq!['\n'],
{
    reveal_strlit("\n");
    reveal_strlit(".");
    reveal_strlit(" --> ");
    assert("\n"@ == seq!['\n']);
    assert("."@ == seq!['.']);
    assert(" --> "@ == seq![' ', '-', '-', '>', ' ']);
    let f = |l: LineText| vtt_cue(l);
    let all = lines.push(l);
    let cues = lines.map_values(f);
    assert(Seq::<LineText>::empty().map_values(f) == Seq::<Seq<char>>::empty());
    assert("WEBVTT\n\n"@ + Seq::<char>::empty() == "WEBVTT\n\n"@);
    assert(all.map_values(f) == cues.push(vtt_cue(l)));
    assert(all.map_values(f).drop_last() == cues);
    let c = vtt_cue(l);
    let gap = if lines.len() > 0 {
        seq!['\n']
    } else {
        Seq::<char>::empty()
    };
    if lines.len() == 0 {
        assert(all.map_values(f)[0] == c);
        assert(cues == Seq::<Seq<char>>::empty());
    }
    assert(vtt_document(all) == vtt_document(lines) + gap + c);
    assert(vtt_document(lines) + gap + c == vtt_document(lines) + gap + timestamp(
        l.start_ms as nat,
        seq!['.'],
    ) + seq![' ', '-', '-', '>', ' '] + timestamp(l.end_ms as nat, seq!['.']) + seq!['\n'] + cue(l)
        + seq!['\n']);
}

/// What follows the first heading is everything behind its line; a line that is no
/// heading is passed over, and a document without one has nothing behind it.
pub proof fn everything_up_to_the_heading_goes(line: Seq<char>, rest: Seq<char>)
    requires
        !line.contains('\n'),
    ensures
        after_heading(Seq::<char>::empty()) is None,
        line.len() >= 2 && line[0] == '#' && line[1] == ' ' ==> after_heading(
            line + seq!['\n'] + rest,
        ) == Some(rest) && after_heading(line) == Some(Seq::<char>::empty()),
        !(line.len() >= 2 && line[0] == '#' && line[1] == ' ') ==> after_heading(
            line + seq!['\n'] + rest,
        ) == after_heading(rest) && after_heading(line) is None,
{
    reveal_strlit("# ");
    let s = line + seq!['\n'] + rest;
    assert forall|i: int| 0 <= i < line.len() implies #[trigger] s[i] != '\n' by {
        assert(line[i] == s[i]);
    }
    text::lemma_run_len_is(s, '\n', line.len());
    text::lemma_run_len_is(line, '\n', line.len());
    assert(s.take(line.len() as int) == line);
    assert(s.skip(line.len() as int + 1) == rest);
    if line.len() >= 2 {
        assert("# "@ == seq!['#', ' ']);
        if line[0] == '#' && line[1] == ' ' {
            assert(line.take(2) == "# "@);
        } else if line.take(2) == "# "@ {
            assert(line.take(2)[0] == line[0]);
            assert(line.take(2)[1] == line[1]);
        }
    }
}

/// Only newlines in front go, and all of them.
pub proof fn only_newlines_in_front_go(s: Seq<char>) -> (i: int)
    ensures
        0 <= i <= s.len(),
        flush(s) == s.skip(i),
        forall|j: int| 0 <= j < i ==> #[trigger] s[j] == '\n',
        i < s.len() ==> s[i] != '\n',
    decreases s.len(),
{
    if s.len() > 0 && s[0] == '\n' {
        let t = s.drop_first();
        let i = only_newlines_in_front_go(t);
        assert(t.skip(i) == s.skip(i + 1));
        assert forall|j: int| 0 <= j < i + 1 implies #[trigger] s[j] == '\n' by {
            if j > 0 {
                assert(t[j - 1] == s[j]);
            }
        }
        i + 1
    } else {
        assert(s.skip(0) == s);
        0
    }
}

/// A session pasted into an assistant is headed with its name, or its id if it has
/// none, when it started and how long it lasts; without metadata, with the name of
/// its directory. It ends with the id to read it live by.
#[verifier::spinoff_prover]
#[verifier::rlimit(80)]
pub proof fn a_paste_is_headed_and_points_back(
    lines: Seq<LineText>,
    meta: Option<MetaText>,
    seconds: nat,
    dir: Seq<char>,
)
    ensures
        ({
            let p = pasted(lines, meta, seconds, dir);
            let id = match meta {
                Some(m) => m.id,
                None => dir,
            };
            let tail = "Read live with the ambient MCP server: session id "@ + id + "\n"@;
            &&& text::starts_with(p, "# "@ + heading(meta, seconds, dir) + "\n\n"@)
            &&& p.len() >= tail.len()
            &&& p.skip(p.len() - tail.len()) == tail
            &&& meta is None ==> heading(meta, seconds, dir) == dir
            &&& meta matches Some(m) ==> {
                let name = match m.name {
                    Some(n) => n,
                    None => m.id,
                };
                &&& text::starts_with(heading(meta, seconds, dir), name + " ("@)
                &&& heading(meta, seconds, dir).skip(name.len() as int) == " ("@ + m.started_at
                    + ", "@ + session::clock(seconds) + ")"@
            }
        }),
{
    let p = pasted(lines, meta, seconds, dir);
    let id = match meta {
        Some(m) => m.id,
        None => dir,
    };
    let tail = "Read live with the ambient MCP server: session id "@ + id + "\n"@;
    let head = "# "@ + heading(meta, seconds, dir) + "\n\n"@;
    let body = flush(unheaded(markdown::rendered(lines, meta)));
    assert(p == head + body + tail);
    assert(p.take(head.len() as int) == head);
    assert(p.skip(p.len() - tail.len()) == tail);
    if let Some(m) = meta {
        let name = match m.name {
            Some(n) => n,
            None => m.id,
        };
        let h = heading(meta, seconds, dir);
        assert(h.take((name + " ("@).len() as int) == name + " ("@);
        assert(h.skip(name.len() as int) == " ("@ + m.started_at + ", "@ + session::clock(seconds)
            + ")"@);
    }
}

/// No two words name one format.
pub proof fn each_format_has_one_name(a: Seq<char>, b: Seq<char>)
    requires
        format_of(a) is Some,
        format_of(a) == format_of(b),
    ensures
        a == b,
{
}

/// The lines as JSON stand in the array in order, each behind the one before it.
#[verifier::spinoff_prover]
#[verifier::rlimit(80)]
pub proof fn lines_stand_in_the_array_in_order(lines: Seq<LineText>, l: LineText)
    requires
        lines.len() > 0,
    ensures
        lines_json(lines).drop_last().drop_last() + ",\n"@ + line_object(l) + "\n]"@ == lines_json(
            lines.push(l),
        ),
        lines_json(seq![l]) == "[\n"@ + line_object(l) + "\n]"@,
{
    reveal_strlit("\n]");
    let f = |l: LineText| line_object(l);
    let all = lines.push(l);
    let parts = lines.map_values(f);
    assert(all.map_values(f) == parts.push(line_object(l)));
    assert(all.map_values(f).drop_last() == parts);
    let body = "[\n"@ + text::joined(parts, ",\n"@);
    assert(lines_json(lines) == body + "\n]"@);
    assert(lines_json(lines).drop_last().drop_last() == body);
    assert(body + ",\n"@ + line_object(l) + "\n]"@ == "[\n"@ + (text::joined(parts, ",\n"@)
        + ",\n"@ + line_object(l)) + "\n]"@);
    assert(seq![l].map_values(f) == seq![line_object(l)]);
}

/// A line's JSON says each of its fields under its own name.
#[verifier::spinoff_prover]
#[verifier::rlimit(80)]
pub proof fn a_json_line_says_each_field(l: LineText)
    ensures
        text::starts_with(line_object(l), "  {\n    \"track\": "@ + json::quoted(l.track.word())),
        json::says(line_object(l), ",\n    \"start_ms\": "@, text::decimal(l.start_ms as nat)),
        json::says(line_object(l), ",\n    \"end_ms\": "@, text::decimal(l.end_ms as nat)),
        json::says(line_object(l), ",\n    \"speaker\": "@, json::nullable(l.speaker)),
        ({
            let tail = ",\n    \"text\": "@ + json::quoted(l.text) + "\n  }"@;
            line_object(l).len() >= tail.len() && line_object(l).skip(
                line_object(l).len() - tail.len(),
            ) == tail
        }),
{
    reveal_strlit(",\n    \"end_ms\": ");
    reveal_strlit(",\n    \"speaker\": ");
    reveal_strlit(",\n    \"text\": ");
    let a = "  {\n    \"track\": "@ + json::quoted(l.track.word());
    let b = ",\n    \"start_ms\": "@;
    let c = ",\n    \"end_ms\": "@;
    let d = ",\n    \"speaker\": "@;
    let bv = text::decimal(l.start_ms as nat);
    let cv = text::decimal(l.end_ms as nat);
    let dv = json::nullable(l.speaker);
    let tail = ",\n    \"text\": "@ + json::quoted(l.text) + "\n  }"@;
    let s = line_object(l);
    assert(s == a + (b + bv + c + cv + d + dv + tail));
    assert(s.take(a.len() as int) == a);
    assert(s == a + b + bv + (c + cv + d + dv + tail));
    json::lemma_says(s, a, b, bv, c + cv + d + dv + tail);
    assert(s == (a + b + bv) + c + cv + (d + dv + tail));
    json::lemma_says(s, a + b + bv, c, cv, d + dv + tail);
    assert(s == (a + b + bv + c + cv) + d + dv + tail);
    json::lemma_says(s, a + b + bv + c + cv, d, dv, tail);
    assert(s.skip(s.len() - tail.len()) == tail);
}

} // verus!
