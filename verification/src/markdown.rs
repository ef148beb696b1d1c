//! The session as a markdown document, for whatever files it onward.

use crate::bleed;
use crate::bleed::dedup_bleed;
use crate::json;
use crate::json::quote;
use crate::session;
use crate::session::{mmss, Line, LineText, MetaText, SessionMeta};
use crate::text;
use crate::text::{chars_of, decimal_string, join, same_str, string_of, trimmed};
use vstd::prelude::*;

verus! {

/// The names on the lines, each once, in order of first appearance.
pub open spec fn cast(lines: Seq<LineText>) -> Seq<Seq<char>>
    decreases lines.len(),
{
    if lines.len() == 0 {
        Seq::empty()
    } else {
        let front = cast(lines.drop_last());
        match lines.last().speaker {
            Some(s) => if front.contains(s) {
                front
            } else {
                front.push(s)
            },
            None => front,
        }
    }
}

/// Strings as a YAML list of quoted scalars.
pub open spec fn listed(items: Seq<Seq<char>>) -> Seq<char> {
    "["@ + text::joined(items.map_values(|s: Seq<char>| json::quoted(s)), ", "@) + "]"@
}

/// One key of the front matter.
pub open spec fn entry(name: Seq<char>, value: Seq<char>) -> Seq<char> {
    name + ": "@ + value + "\n"@
}

pub open spec fn meta_entries(m: MetaText) -> Seq<char> {
    entry("id"@, json::quoted(m.id)) + (match m.name {
        Some(n) => entry("name"@, json::quoted(n)),
        None => Seq::empty(),
    }) + entry("started_at"@, json::quoted(m.started_at)) + entry(
        "ended_at"@,
        json::quoted(m.ended_at),
    ) + entry("duration_s"@, m.duration_s) + (if m.apps.len() > 0 {
        entry("apps"@, listed(m.apps))
    } else {
        Seq::empty()
    }) + entry("model"@, json::quoted(m.model))
}

pub open spec fn title(meta: Option<MetaText>) -> Seq<char> {
    match meta {
        Some(m) => match m.name {
            Some(n) => n,
            None => m.id,
        },
        None => "Transcript"@,
    }
}

/// One line of speech: when, who, which track, and what was said.
pub open spec fn paragraph(l: LineText) -> Seq<char> {
    "**["@ + session::clock((l.start_ms / 1000) as nat) + "] "@ + (match l.speaker {
        Some(name) => name + "** ("@ + l.track.word() + ")\n"@,
        None => l.track.word() + "**\n"@,
    }) + text::trim(l.text) + "\n\n"@
}

pub open spec fn paragraphs(lines: Seq<LineText>) -> Seq<char>
    decreases lines.len(),
{
    if lines.len() == 0 {
        Seq::empty()
    } else {
        paragraphs(lines.drop_last()) + paragraph(lines.last())
    }
}

/// The document over the lines that are kept: front matter, a heading, then the
/// lines, or a note that there are none, and a note on how many were dropped.
pub open spec fn document(lines: Seq<LineText>, suppressed: nat, meta: Option<MetaText>) -> Seq<char> {
    "---\n"@ + (match meta {
        Some(m) => meta_entries(m),
        None => Seq::empty(),
    }) + entry("speakers"@, listed(cast(lines))) + "---\n\n"@ + "# "@ + title(meta) + "\n\n"@ + (
    if lines.len() == 0 {
        "_No speech was transcribed._\n"@
    } else {
        paragraphs(lines) + (if suppressed > 0 {
            "---\n_"@ + text::decimal(suppressed)
                + " room line(s) suppressed as call-track duplicates._\n"@
        } else {
            Seq::empty()
        })
    })
}

/// The markdown of a whole transcript: what the microphone overheard is left
/// out, and counted.
pub open spec fn rendered(lines: Seq<LineText>, meta: Option<MetaText>) -> Seq<char> {
    let shown = bleed::kept(lines, lines);
    document(shown, (lines.len() - shown.len()) as nat, meta)
}

fn speakers(lines: &Vec<Line>) -> (r: Vec<String>)
    ensures
        text::views(r@) == cast(session::line_texts(lines@)),
{
    let ghost ls = session::line_texts(lines@);
    let mut out: Vec<String> = Vec::new();
    let mut i: usize = 0;
    proof {
        assert(ls.take(0) == Seq::<LineText>::empty());
        assert(text::views(out@) == Seq::<Seq<char>>::empty());
    }
    while i < lines.len()
        invariant
            i <= lines@.len(),
            ls == session::line_texts(lines@),
            text::views(out@) == cast(ls.take(i as int)),
        decreases lines@.len() - i,
    {
        proof {
            assert(ls[i as int] == lines@[i as int]@);
            assert(ls.take(i + 1).drop_last() == ls.take(i as int));
            assert(ls.take(i + 1).last() == ls[i as int]);
        }
        if let Some(s) = &lines[i].speaker {
            let mut seen: bool = false;
            let mut j: usize = 0;
            while j < out.len()
                invariant
                    j <= out@.len(),
                    seen == exists|k: int| 0 <= k < j && (#[trigger] out@[k])@ == s@,
                decreases out@.len() - j,
            {
                if same_str(out[j].as_str(), s.as_str()) {
                    seen = true;
                }
                j = j + 1;
            }
            proof {
                let list = text::views(out@);
                if seen {
                    let k = choose|k: int| 0 <= k < out@.len() && (#[trigger] out@[k])@ == s@;
                    assert(list[k] == s@);
                }
                if list.contains(s@) {
                    let k = choose|k: int| 0 <= k < list.len() && list[k] == s@;
                    assert(out@[k]@ == s@);
                }
            }
            if !seen {
                let name: String = s.clone();
                proof {
                    assert(text::views(out@.push(name)) == text::views(out@).push(name@));
                }
                out.push(name);
            }
        }
        i = i + 1;
    }
    proof {
        assert(ls.take(lines@.len() as int) == ls);
    }
    out
}

fn list(items: &Vec<String>) -> (r: String)
    ensures
        r@ == listed(text::views(items@)),
{
    let ghost xs = text::views(items@);
    let mut quoted: Vec<String> = Vec::new();
    let mut i: usize = 0;
    while i < items.len()
        invariant
            i <= items@.len(),
            quoted@.len() == i,
            forall|k: int| 0 <= k < i ==> (#[trigger] quoted@[k])@ == json::quoted(items@[k]@),
        decreases items@.len() - i,
    {
        quoted.push(quote(items[i].as_str()));
        i = i + 1;
    }
    proof {
        assert(text::views(quoted@) == xs.map_values(|s: Seq<char>| json::quoted(s)));
    }
    let mut out: String = "[".to_owned();
    out.append(join(quoted.as_slice(), ", ").as_str());
    out.append("]");
    out
}

fn append_entry(out: &mut String, name: &str, value: &str)
    ensures
        final(out)@ == old(out)@ + entry(name@, value@),
{
    let ghost was = out@;
    out.append(name);
    out.append(": ");
    out.append(value);
    out.append("\n");
    proof {
        assert(out@ == was + entry(name@, value@));
    }
}

fn front_matter(m: &SessionMeta) -> (r: String)
    ensures
        r@ == meta_entries(m@),
{
    let mut out: String = String::new();
    append_entry(&mut out, "id", quote(m.id.as_str()).as_str());
    proof {
        assert(out@ == entry("id"@, json::quoted(m@.id)));
    }
    let ghost a = out@;
    if let Some(n) = &m.name {
        append_entry(&mut out, "name", quote(n.as_str()).as_str());
    }
    proof {
        assert(a + Seq::<char>::empty() == a);
    }
    append_entry(&mut out, "started_at", quote(m.started_at.as_str()).as_str());
    append_entry(&mut out, "ended_at", quote(m.ended_at.as_str()).as_str());
    append_entry(&mut out, "duration_s", m.duration_s.as_str());
    let ghost b = out@;
    proof {
        assert(text::views(m.apps@).len() == m.apps@.len());
    }
    if m.apps.len() > 0 {
        append_entry(&mut out, "apps", list(&m.apps).as_str());
    }
    proof {
        assert(b + Seq::<char>::empty() == b);
    }
    append_entry(&mut out, "model", quote(m.model.as_str()).as_str());
    out
}

fn append_paragraph(out: &mut String, l: &Line)
    ensures
        final(out)@ == old(out)@ + paragraph(l@),
{
    let mut p: String = "**[".to_owned();
    p.append(mmss(l.start_ms).as_str());
    p.append("] ");
    let ghost head = p@;
    match &l.speaker {
        Some(name) => {
            p.append(name.as_str());
            p.append("** (");
            p.append(l.track.as_str());
            p.append(")\n");
            proof {
                assert(p@ == head + (name@ + "** ("@ + l.track.word() + ")\n"@));
            }
        },
        None => {
            p.append(l.track.as_str());
            p.append("**\n");
            proof {
                assert(p@ == head + (l.track.word() + "**\n"@));
            }
        },
    }
    let c: Vec<char> = chars_of(l.text.as_str());
    p.append(string_of(trimmed(c.as_slice()).as_slice()).as_str());
    p.append("\n\n");
    out.append(p.as_str());
}

pub open spec fn meta_text(m: Option<&SessionMeta>) -> Option<MetaText> {
    match m {
        Some(x) => Some(x@),
        None => None,
    }
}

/// The session as a markdown document. Derived, never authoritative: the raw
/// transcript and the edits remain the source of truth, so regenerating this
/// loses nothing.
pub fn markdown(lines: &[Line], meta: Option<&SessionMeta>) -> (r: String)
    requires
        bleed::comparable(session::line_texts(lines@)),
    ensures
        r@ == rendered(session::line_texts(lines@), meta_text(meta)),
{
    let (shown, suppressed): (Vec<Line>, usize) = dedup_bleed(lines);
    let ghost ls = session::line_texts(shown@);
    let ghost mt = meta_text(meta);
    proof {
        assert(ls.len() == shown@.len());
        assert(session::line_texts(lines@).len() == lines@.len());
    }
    let mut out: String = "---\n".to_owned();
    let ghost start = out@;
    if let Some(m) = meta {
        out.append(front_matter(m).as_str());
    }
    proof {
        assert(start + Seq::<char>::empty() == start);
    }
    let names: Vec<String> = speakers(&shown);
    append_entry(&mut out, "speakers", list(&names).as_str());
    out.append("---\n\n");
    out.append("# ");
    match meta {
        Some(m) => match &m.name {
            Some(n) => out.append(n.as_str()),
            None => out.append(m.id.as_str()),
        },
        None => out.append("Transcript"),
    }
    out.append("\n\n");
    let ghost head = out@;
    if shown.len() == 0 {
        out.append("_No speech was transcribed._\n");
        return out;
    }
    let mut i: usize = 0;
    proof {
        assert(ls.take(0) == Seq::<LineText>::empty());
        assert(head + Seq::<char>::empty() == head);
    }
    while i < shown.len()
        invariant
            i <= shown@.len(),
            ls == session::line_texts(shown@),
            out@ == head + paragraphs(ls.take(i as int)),
        decreases shown@.len() - i,
    {
        proof {
            assert(ls.take(i + 1).drop_last() == ls.take(i as int));
            assert(ls.take(i + 1).last() == shown@[i as int]@);
            assert(head + (paragraphs(ls.take(i as int)) + paragraph(shown@[i as int]@)) == (head
                + paragraphs(ls.take(i as int))) + paragraph(shown@[i as int]@));
        }
        append_paragraph(&mut out, &shown[i]);
        i = i + 1;
    }
    proof {
        assert(ls.take(shown@.len() as int) == ls);
    }
    if suppressed > 0 {
        let mut note: String = "---\n_".to_owned();
        note.append(decimal_string(suppressed as u64).as_str());
        note.append(" room line(s) suppressed as call-track duplicates._\n");
        out.append(note.as_str());
        proof {
            assert(out@ == head + (paragraphs(ls) + note@));
        }
    } else {
        proof {
            assert(head + (paragraphs(ls) + Seq::<char>::empty()) == head + paragraphs(ls));
        }
    }
    out
}

/// The cast is everybody who speaks, each once, in the order in which they first
/// do.
pub proof fn the_cast_is_whoever_speaks(lines: Seq<LineText>) -> (at: Seq<int>)
    ensures
        at.len() == cast(lines).len(),
        forall|p: int|
            0 <= p < at.len() ==> 0 <= #[trigger] at[p] < lines.len() && lines[at[p]].speaker
                == Some(cast(lines)[p]) && forall|j: int|
                0 <= j < at[p] ==> (#[trigger] lines[j]).speaker != Some(cast(lines)[p]),
        forall|p: int, q: int| 0 <= p < q < at.len() ==> #[trigger] at[p] < #[trigger] at[q],
        forall|i: int|
            0 <= i < lines.len() && (#[trigger] lines[i]).speaker is Some ==> cast(lines).contains(
                lines[i].speaker->0,
            ),
    decreases lines.len(),
{
    let all = cast(lines);
    if lines.len() == 0 {
        Seq::empty()
    } else {
        let front = lines.drop_last();
        let was = the_cast_is_whoever_speaks(front);
        let old = cast(front);
        let at = if all.len() > old.len() {
            was.push(lines.len() - 1)
        } else {
            was
        };
        assert forall|p: int| 0 <= p < at.len() implies 0 <= #[trigger] at[p] < lines.len()
            && lines[at[p]].speaker == Some(all[p]) && forall|j: int|
            0 <= j < at[p] ==> (#[trigger] lines[j]).speaker != Some(all[p]) by {
            if p < old.len() {
                assert(front[was[p]].speaker == Some(old[p]));
                assert forall|j: int| 0 <= j < at[p] implies (#[trigger] lines[j]).speaker != Some(
                    all[p],
                ) by {
                    assert(front[j].speaker != Some(old[p]));
                }
            } else {
                assert forall|j: int| 0 <= j < at[p] implies (#[trigger] lines[j]).speaker != Some(
                    all[p],
                ) by {
                    assert(front[j] == lines[j]);
                    if front[j].speaker == Some(all[p]) {
                        assert(old.contains(all[p]));
                    }
                }
            }
        }
        assert forall|i: int|
            0 <= i < lines.len() && (#[trigger] lines[i]).speaker is Some implies all.contains(
            lines[i].speaker->0,
        ) by {
            let s = lines[i].speaker->0;
            if i < front.len() {
                assert(front[i] == lines[i]);
            }
            if old.contains(s) {
                let p = old.index_of(s);
                assert(all[p] == s);
            } else {
                assert(all[old.len() as int] == s);
            }
        }
        at
    }
}

/// Every line has its paragraph, in order: when it was said, who said it on which
/// track, or only the track where that is not known, and the words without the white
/// space around them.
#[verifier::spinoff_prover]
#[verifier::rlimit(80)]
pub proof fn every_line_has_its_paragraph(lines: Seq<LineText>, l: LineText)
    ensures
        paragraphs(Seq::<LineText>::empty()) == Seq::<char>::empty(),
        l.speaker matches Some(name) ==> paragraphs(lines.push(l)) == paragraphs(lines) + "**["@
            + session::clock((l.start_ms / 1000) as nat) + "] "@ + name + "** ("@ + l.track.word()
            + ")\n"@ + text::trim(l.text) + "\n\n"@,
        l.speaker is None ==> paragraphs(lines.push(l)) == paragraphs(lines) + "**["@
            + session::clock((l.start_ms / 1000) as nat) + "] "@ + l.track.word() + "**\n"@
            + text::trim(l.text) + "\n\n"@,
{
    assert(lines.push(l).drop_last() == lines);
    let t = session::clock((l.start_ms / 1000) as nat);
    match l.speaker {
        Some(name) => {
            assert(paragraphs(lines) + ("**["@ + t + "] "@ + (name + "** ("@ + l.track.word()
                + ")\n"@) + text::trim(l.text) + "\n\n"@) == paragraphs(lines) + "**["@ + t + "] "@
                + name + "** ("@ + l.track.word() + ")\n"@ + text::trim(l.text) + "\n\n"@);
        },
        None => {
            assert(paragraphs(lines) + ("**["@ + t + "] "@ + (l.track.word() + "**\n"@)
                + text::trim(l.text) + "\n\n"@) == paragraphs(lines) + "**["@ + t + "] "@
                + l.track.word() + "**\n"@ + text::trim(l.text) + "\n\n"@);
        },
    }
}

/// The document ends with the lines that are kept and how many were left out, if any
/// were; with nothing kept it says that nobody spoke.
#[verifier::spinoff_prover]
#[verifier::rlimit(80)]
pub proof fn the_document_counts_what_it_leaves_out(lines: Seq<LineText>, meta: Option<MetaText>)
    ensures
        ({
            let shown = bleed::kept(lines, lines);
            let left_out = lines.len() - shown.len();
            let tail = if shown.len() == 0 {
                "_No speech was transcribed._\n"@
            } else if left_out == 0 {
                paragraphs(shown)
            } else {
                paragraphs(shown) + "---\n_"@ + text::decimal(left_out as nat)
                    + " room line(s) suppressed as call-track duplicates._\n"@
            };
            let d = rendered(lines, meta);
            &&& shown.len() <= lines.len()
            &&& d.len() >= tail.len()
            &&& d.skip(d.len() - tail.len()) == tail
        }),
{
    let shown = bleed::kept(lines, lines);
    bleed::lemma_kept_len(lines, lines);
    let n = (lines.len() - shown.len()) as nat;
    let d = rendered(lines, meta);
    let last = if shown.len() == 0 {
        "_No speech was transcribed._\n"@
    } else {
        paragraphs(shown) + (if n > 0 {
            "---\n_"@ + text::decimal(n) + " room line(s) suppressed as call-track duplicates._\n"@
        } else {
            Seq::empty()
        })
    };
    let tail = if shown.len() == 0 {
        "_No speech was transcribed._\n"@
    } else if n == 0 {
        paragraphs(shown)
    } else {
        paragraphs(shown) + "---\n_"@ + text::decimal(n)
            + " room line(s) suppressed as call-track duplicates._\n"@
    };
    assert(last == tail);
    let head = "---\n"@ + (match meta {
        Some(m) => meta_entries(m),
        None => Seq::empty(),
    }) + entry("speakers"@, listed(cast(shown))) + "---\n\n"@ + "# "@ + title(meta) + "\n\n"@;
    assert(d == head + last);
    assert(d.skip(d.len() - tail.len()) == tail);
}

/// A text has a line in it somewhere.
pub open spec fn has(s: Seq<char>, part: Seq<char>) -> bool {
    exists|front: Seq<char>, back: Seq<char>| s == #[trigger] (front + part + back)
}

proof fn lemma_has(s: Seq<char>, front: Seq<char>, part: Seq<char>, back: Seq<char>)
    requires
        s == (front + part) + back,
    ensures
        has(s, part),
        s == front + (part + back),
{
    assert(s == front + part + back);
    assert(s == front + (part + back));
}

/// The front matter says each thing that is known of a session under its own name;
/// the name of one that has none, and the apps of one that was tapped for none, are
/// left out.
pub proof fn the_front_matter_says_each_thing(m: MetaText)
    ensures
        ({
            let s = meta_entries(m);
            &&& text::starts_with(s, "id"@ + ": "@ + json::quoted(m.id) + "\n"@)
            &&& m.name matches Some(n) ==> has(s, "name"@ + ": "@ + json::quoted(n) + "\n"@)
            &&& has(s, "started_at"@ + ": "@ + json::quoted(m.started_at) + "\n"@)
            &&& has(s, "ended_at"@ + ": "@ + json::quoted(m.ended_at) + "\n"@)
            &&& has(s, "duration_s"@ + ": "@ + m.duration_s + "\n"@)
            &&& m.apps.len() > 0 ==> has(s, "apps"@ + ": "@ + listed(m.apps) + "\n"@)
            &&& has(s, "model"@ + ": "@ + json::quoted(m.model) + "\n"@)
        }),
{
    let s = meta_entries(m);
    let e1 = entry("id"@, json::quoted(m.id));
    let e2 = match m.name {
        Some(n) => entry("name"@, json::quoted(n)),
        None => Seq::empty(),
    };
    let e3 = entry("started_at"@, json::quoted(m.started_at));
    let e4 = entry("ended_at"@, json::quoted(m.ended_at));
    let e5 = entry("duration_s"@, m.duration_s);
    let e6 = if m.apps.len() > 0 {
        entry("apps"@, listed(m.apps))
    } else {
        Seq::empty()
    };
    let e7 = entry("model"@, json::quoted(m.model));
    let z = Seq::<char>::empty();
    assert(s == (e1 + e2 + e3 + e4 + e5 + e6) + e7);
    assert((e1 + e2 + e3 + e4 + e5 + e6) + e7 + z == (e1 + e2 + e3 + e4 + e5 + e6) + e7);
    lemma_has(s, e1 + e2 + e3 + e4 + e5 + e6, e7, z);
    let q6 = e7 + z;
    lemma_has(s, e1 + e2 + e3 + e4 + e5, e6, q6);
    let q5 = e6 + q6;
    lemma_has(s, e1 + e2 + e3 + e4, e5, q5);
    let q4 = e5 + q5;
    lemma_has(s, e1 + e2 + e3, e4, q4);
    let q3 = e4 + q4;
    lemma_has(s, e1 + e2, e3, q3);
    let q2 = e3 + q3;
    lemma_has(s, e1, e2, q2);
    assert(s.take(e1.len() as int) == e1);
}

/// The document is headed with the session's name, or its id if it has none, after a
/// front matter that says who speaks in the lines that are kept.
pub proof fn the_document_is_headed_by_name(lines: Seq<LineText>, meta: Option<MetaText>)
    ensures
        ({
            let shown = bleed::kept(lines, lines);
            let d = rendered(lines, meta);
            &&& text::starts_with(d, "---\n"@)
            &&& has(d, "speakers"@ + ": "@ + listed(cast(shown)) + "\n"@)
            &&& has(
                d,
                "# "@ + (match meta {
                    Some(m) => match m.name {
                        Some(n) => n,
                        None => m.id,
                    },
                    None => "Transcript"@,
                }) + "\n\n"@,
            )
            &&& meta matches Some(m) ==> has(d, meta_entries(m))
        }),
{
    let shown = bleed::kept(lines, lines);
    let n = (lines.len() - shown.len()) as nat;
    let d = rendered(lines, meta);
    let a = "---\n"@;
    let b = match meta {
        Some(m) => meta_entries(m),
        None => Seq::empty(),
    };
    let c = entry("speakers"@, listed(cast(shown)));
    let r = "---\n\n"@;
    let t = "# "@ + title(meta) + "\n\n"@;
    let z = if shown.len() == 0 {
        "_No speech was transcribed._\n"@
    } else {
        paragraphs(shown) + (if n > 0 {
            "---\n_"@ + text::decimal(n) + " room line(s) suppressed as call-track duplicates._\n"@
        } else {
            Seq::empty()
        })
    };
    assert(d == (a + b + c + r) + t + z);
    lemma_has(d, a + b + c + r, t, z);
    lemma_has(d, a + b + c, r, t + z);
    lemma_has(d, a + b, c, r + (t + z));
    lemma_has(d, a, b, c + (r + (t + z)));
    assert(d.take(a.len() as int) == a);
}

} // verus!
