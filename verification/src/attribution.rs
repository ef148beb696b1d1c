//! Who said what: the edits that label a session's lines with speakers, and the
//! ones that put a person's name in place of a label.

use crate::diarize::Span;
use crate::session;
use crate::session::{Edit, EditText, Line, LineText, RawRecord, RecordText, Target, Track};
use crate::text;
use crate::text::{chars_of, decimal_string, has_prefix, insert_ordered, join, same_str, string_of, trimmed};
use crate::transcript;
use crate::transcript::is_reverted;
use vstd::prelude::*;

verus! {

/// Who an automatic speaker edit is attributed to. Re-running diarization finds
/// its own previous edits by this name and reverts them, and must not touch a
/// name a person typed.
pub const DIARIZE_BY: &'static str = "diarize";

/// Attribution for a name a person typed, as opposed to a cluster id.
pub const USER_BY: &'static str = "user";

/// An edit that names a speaker, and who wrote it.
pub open spec fn names(e: EditText, t: Target) -> bool {
    e matches EditText::Speaker { target, .. } && target == t
}

pub open spec fn by_machine(e: EditText) -> bool {
    e matches EditText::Speaker { by, .. } && by == "diarize"@
}

/// The reverts that undo every label a previous run left standing among the
/// first `k` edits.
pub open spec fn undoing(existing: Seq<EditText>, k: nat, now: Seq<char>) -> Seq<EditText>
    decreases k,
{
    if k == 0 {
        Seq::empty()
    } else {
        let front = undoing(existing, (k - 1) as nat, now);
        if !transcript::reverted(existing, k - 1) && by_machine(existing[k - 1]) {
            front.push(
                EditText::Revert { target_seq: (k - 1) as nat, by: "diarize"@, at: now },
            )
        } else {
            front
        }
    }
}

/// Somebody typed a name for this line, and it stands.
pub open spec fn protected(existing: Seq<EditText>, t: Target) -> bool {
    exists|k: int|
        0 <= k < existing.len() && !transcript::reverted(existing, k) && names(
            #[trigger] existing[k],
            t,
        ) && !by_machine(existing[k])
}

/// Samples of `[a, b)` that lie in `[s.start, s.end)`.
pub open spec fn shared_samples(s: Span, a: int, b: int) -> int {
    let lo = if a > s.start {
        a
    } else {
        s.start as int
    };
    let hi = if b < s.end {
        b
    } else {
        s.end as int
    };
    if hi > lo {
        hi - lo
    } else {
        0
    }
}

/// How much of `[a, b)` a speaker holds.
pub open spec fn held(spans: Seq<Span>, a: int, b: int, speaker: usize) -> int
    decreases spans.len(),
{
    if spans.len() == 0 {
        0
    } else {
        held(spans.drop_last(), a, b, speaker) + if spans.last().speaker == speaker {
            shared_samples(spans.last(), a, b)
        } else {
            0
        }
    }
}

/// The speaker holds some of `[a, b)`, nobody holds more, and nobody with a
/// lower index holds as much.
pub open spec fn holds_most(spans: Seq<Span>, a: int, b: int, speaker: usize) -> bool {
    &&& held(spans, a, b, speaker) > 0
    &&& forall|t: usize| #[trigger] held(spans, a, b, t) <= held(spans, a, b, speaker)
    &&& forall|t: usize|
        t < speaker ==> #[trigger] held(spans, a, b, t) < held(spans, a, b, speaker)
}

/// Whoever holds the most of `[a, b)`, if anybody holds any.
pub open spec fn owner(spans: Seq<Span>, a: int, b: int) -> Option<usize> {
    if exists|s: usize| #[trigger] holds_most(spans, a, b, s) {
        Some(choose|s: usize| #[trigger] holds_most(spans, a, b, s))
    } else {
        None
    }
}

/// A time in milliseconds as a sample index at 16 kHz.
pub open spec fn sample_at(ms: u64) -> int {
    ms * 16000 / 1000
}

/// Labels are track-prefixed because speaker 1 in the room and speaker 1 on the
/// call are different people.
pub open spec fn label(track: Track, speaker: usize) -> Seq<char> {
    track.word() + "-"@ + text::decimal((speaker + 1) as nat)
}

pub open spec fn target(r: RecordText) -> Target {
    Target { track: r.track, start_ms: r.start_ms }
}

/// The label a record gets on its track, if any: none when a person has named
/// it, and none when no speaker's audio falls in it.
pub open spec fn labelled(
    existing: Seq<EditText>,
    spans: Seq<Span>,
    r: RecordText,
    now: Seq<char>,
) -> Option<EditText> {
    if protected(existing, target(r)) {
        None
    } else {
        match owner(spans, sample_at(r.start_ms), sample_at(r.end_ms)) {
            Some(s) => Some(
                EditText::Speaker {
                    target: target(r),
                    name: label(r.track, s),
                    by: "diarize"@,
                    at: now,
                },
            ),
            None => None,
        }
    }
}

/// The labels for the first `k` records, of those on one track.
pub open spec fn labelling(
    existing: Seq<EditText>,
    records: Seq<RecordText>,
    track: Track,
    spans: Seq<Span>,
    k: nat,
    now: Seq<char>,
) -> Seq<EditText>
    decreases k,
{
    if k == 0 {
        Seq::empty()
    } else {
        let front = labelling(existing, records, track, spans, (k - 1) as nat, now);
        if records[k - 1].track == track {
            match labelled(existing, spans, records[k - 1], now) {
                Some(e) => front.push(e),
                None => front,
            }
        } else {
            front
        }
    }
}

/// Everything one run of diarization appends: the reverts of the last run's
/// labels, then the room's labels, then the call's.
pub open spec fn attribution(
    existing: Seq<EditText>,
    records: Seq<RecordText>,
    room: Seq<Span>,
    call: Seq<Span>,
    now: Seq<char>,
) -> Seq<EditText> {
    undoing(existing, existing.len(), now) + labelling(
        existing,
        records,
        Track::Room,
        room,
        records.len(),
        now,
    ) + labelling(existing, records, Track::Call, call, records.len(), now)
}

proof fn lemma_owner_is(spans: Seq<Span>, a: int, b: int, s: usize)
    requires
        holds_most(spans, a, b, s),
    ensures
        owner(spans, a, b) == Some(s),
{
    let c = choose|c: usize| #[trigger] holds_most(spans, a, b, c);
    assert(holds_most(spans, a, b, c));
    assert(held(spans, a, b, c) <= held(spans, a, b, s));
    assert(held(spans, a, b, s) <= held(spans, a, b, c));
    if c < s {
        assert(held(spans, a, b, c) < held(spans, a, b, s));
    }
    if s < c {
        assert(held(spans, a, b, s) < held(spans, a, b, c));
    }
}

proof fn lemma_held_bound(spans: Seq<Span>, a: int, b: int, s: usize)
    requires
        0 <= a,
        0 <= b,
    ensures
        0 <= held(spans, a, b, s) <= spans.len() * usize::MAX,
    decreases spans.len(),
{
    if spans.len() > 0 {
        lemma_held_bound(spans.drop_last(), a, b, s);
        assert((spans.len() - 1) * usize::MAX + usize::MAX == spans.len() * usize::MAX)
            by (nonlinear_arith);
    }
}

/// The samples two stretches have in common.
fn common(s: &Span, a: u128, b: u128) -> (r: u128)
    ensures
        r == shared_samples(*s, a as int, b as int),
        r <= usize::MAX,
{
    let start: u128 = s.start as u128;
    let end: u128 = s.end as u128;
    let lo: u128 = if a > start {
        a
    } else {
        start
    };
    let hi: u128 = if b < end {
        b
    } else {
        end
    };
    if hi > lo {
        hi - lo
    } else {
        0
    }
}

/// Whoever holds the most of `[a, b)`.
fn find_owner(spans: &[Span], a: u128, b: u128) -> (r: Option<usize>)
    ensures
        r == owner(spans@, a as int, b as int),
{
    let mut tally: Vec<(usize, u128)> = Vec::new();
    let mut i: usize = 0;
    proof {
        assert(spans@.take(0) == Seq::<Span>::empty());
    }
    while i < spans.len()
        invariant
            i <= spans@.len(),
            forall|x: int|
                0 <= x < tally@.len() ==> (#[trigger] tally@[x]).1 == held(
                    spans@.take(i as int),
                    a as int,
                    b as int,
                    tally@[x].0,
                ),
            forall|x: int, y: int|
                0 <= x < y < tally@.len() ==> (#[trigger] tally@[x]).0 != (#[trigger] tally@[y]).0,
            forall|s: usize|
                (forall|x: int| 0 <= x < tally@.len() ==> (#[trigger] tally@[x]).0 != s)
                    ==> #[trigger] held(spans@.take(i as int), a as int, b as int, s) == 0,
        decreases spans@.len() - i,
    {
        let ghost was = spans@.take(i as int);
        let ghost now = spans@.take(i + 1);
        let ghost before = tally@;
        let more: u128 = common(&spans[i], a, b);
        let who: usize = spans[i].speaker;
        proof {
            assert(now.drop_last() == was);
            assert(now.last() == spans@[i as int]);
        }
        let mut k: usize = 0;
        while k < tally.len() && tally[k].0 != who
            invariant
                k <= tally@.len(),
                tally@ == before,
                forall|x: int| 0 <= x < k ==> (#[trigger] tally@[x]).0 != who,
            decreases tally@.len() - k,
        {
            k = k + 1;
        }
        proof {
            assert forall|s: usize| #[trigger] held(now, a as int, b as int, s) == held(
                was,
                a as int,
                b as int,
                s,
            ) + (if s == who {
                more as int
            } else {
                0
            }) by {}
            lemma_held_bound(was, a as int, b as int, who);
            assert(was.len() * usize::MAX + usize::MAX <= u128::MAX) by (nonlinear_arith)
                requires
                    was.len() < usize::MAX,
                    usize::MAX <= 0xffff_ffff_ffff_ffff,
            ;
        }
        if k < tally.len() {
            let total: u128 = tally[k].1 + more;
            tally.set(k, (who, total));
            proof {
                assert forall|x: int| 0 <= x < tally@.len() implies (#[trigger] tally@[x]).1
                    == held(now, a as int, b as int, tally@[x].0) by {
                    assert(before[x].0 == tally@[x].0);
                    if x != k {
                        assert(before[x].0 != before[k as int].0);
                    }
                    assert(before[x].1 == held(was, a as int, b as int, before[x].0));
                }
                assert forall|x: int, y: int| 0 <= x < y < tally@.len() implies (
                #[trigger] tally@[x]).0 != (#[trigger] tally@[y]).0 by {
                    assert(before[x].0 == tally@[x].0 && before[y].0 == tally@[y].0);
                }
                assert forall|s: usize|
                    (forall|x: int|
                        0 <= x < tally@.len() ==> (#[trigger] tally@[x]).0 != s) implies #[trigger] held(
                    now,
                    a as int,
                    b as int,
                    s,
                ) == 0 by {
                    assert(tally@[k as int].0 != s);
                    assert forall|x: int| 0 <= x < before.len() implies (#[trigger] before[x]).0
                        != s by {
                        assert(tally@[x].0 == before[x].0);
                    }
                    assert(held(was, a as int, b as int, s) == 0);
                }
            }
        } else {
            tally.push((who, more));
            proof {
                assert(held(was, a as int, b as int, who) == 0);
                assert forall|x: int| 0 <= x < tally@.len() implies (#[trigger] tally@[x]).1
                    == held(now, a as int, b as int, tally@[x].0) by {
                    if x < before.len() {
                        assert(before[x] == tally@[x]);
                        assert(before[x].0 != who);
                    }
                }
                assert forall|s: usize|
                    (forall|x: int|
                        0 <= x < tally@.len() ==> (#[trigger] tally@[x]).0 != s) implies #[trigger] held(
                    now,
                    a as int,
                    b as int,
                    s,
                ) == 0 by {
                    assert(tally@[before.len() as int].0 != s);
                    assert forall|x: int| 0 <= x < before.len() implies (#[trigger] before[x]).0
                        != s by {
                        assert(tally@[x].0 == before[x].0);
                    }
                    assert(held(was, a as int, b as int, s) == 0);
                }
            }
        }
        i = i + 1;
    }
    proof {
        assert(spans@.take(spans@.len() as int) == spans@);
    }
    let mut best: Option<(usize, u128)> = None;
    let mut k: usize = 0;
    while k < tally.len()
        invariant
            k <= tally@.len(),
            best matches Some(p) ==> p.1 > 0 && exists|x: int|
                0 <= x < k && #[trigger] tally@[x] == p,
            best matches Some(p) ==> forall|x: int|
                0 <= x < k ==> (#[trigger] tally@[x]).1 < p.1 || (tally@[x].1 == p.1
                    && tally@[x].0 >= p.0),
            best is None ==> forall|x: int| 0 <= x < k ==> (#[trigger] tally@[x]).1 == 0,
        decreases tally@.len() - k,
    {
        let (s, n): (usize, u128) = tally[k];
        let better: bool = match best {
            Some((t, m)) => n > m || (n == m && s < t),
            None => n > 0,
        };
        let ghost old_best = best;
        if better {
            best = Some((s, n));
        }
        proof {
            assert(tally@[k as int] == (s, n));
            if !better && old_best is Some {
                let p = old_best->0;
                let x = choose|x: int| 0 <= x < k && #[trigger] tally@[x] == p;
                assert(tally@[x] == p);
            }
        }
        k = k + 1;
    }
    match best {
        Some((s, n)) => {
            proof {
                let x = choose|x: int| 0 <= x < tally@.len() && #[trigger] tally@[x] == (s, n);
                assert(held(spans@, a as int, b as int, s) == n);
                assert forall|t: usize| #[trigger]
                    held(spans@, a as int, b as int, t) <= n && (t < s ==> held(
                        spans@,
                        a as int,
                        b as int,
                        t,
                    ) < n) by {
                    if exists|y: int| 0 <= y < tally@.len() && (#[trigger] tally@[y]).0 == t {
                        let y = choose|y: int| 0 <= y < tally@.len() && (#[trigger] tally@[y]).0 == t;
                        assert(tally@[y].1 == held(spans@, a as int, b as int, t));
                    } else {
                        assert(held(spans@, a as int, b as int, t) == 0);
                    }
                }
                lemma_owner_is(spans@, a as int, b as int, s);
            }
            Some(s)
        },
        None => {
            proof {
                assert forall|t: usize| !(#[trigger] holds_most(
                    spans@,
                    a as int,
                    b as int,
                    t,
                )) by {
                    if exists|y: int| 0 <= y < tally@.len() && (#[trigger] tally@[y]).0 == t {
                        let y = choose|y: int| 0 <= y < tally@.len() && (#[trigger] tally@[y]).0 == t;
                        assert(tally@[y].1 == held(spans@, a as int, b as int, t));
                    } else {
                        assert(held(spans@, a as int, b as int, t) == 0);
                    }
                }
            }
            None
        },
    }
}

/// Why a session cannot be attributed, if it cannot: nothing was transcribed, or
/// the audio is gone.
pub open spec fn refusal(
    dir: Seq<char>,
    records: nat,
    has_room: bool,
    has_call: bool,
) -> Option<Seq<char>> {
    if records == 0 {
        Some(dir + " has no transcript to attribute"@)
    } else if !has_room && !has_call {
        Some(
            dir
                + " has no audio left to attribute — the retention setting removed it, and the labels it already carries are all there will be"@,
        )
    } else {
        None
    }
}

/// Checked before anything is reverted. Once retention has swept the audio, a
/// re-run would undo the labels it wrote last time and then find nothing to
/// replace them with.
pub fn attributable(dir: &str, records: usize, has_room: bool, has_call: bool) -> (r: Result<
    (),
    String,
>)
    ensures
        match r {
            Ok(()) => refusal(dir@, records as nat, has_room, has_call) is None,
            Err(e) => refusal(dir@, records as nat, has_room, has_call) == Some(e@),
        },
{
    if records == 0 {
        let mut e: String = dir.to_owned();
        e.append(" has no transcript to attribute");
        return Err(e);
    }
    if !has_room && !has_call {
        let mut e: String = dir.to_owned();
        e.append(
            " has no audio left to attribute — the retention setting removed it, and the labels it already carries are all there will be",
        );
        return Err(e);
    }
    Ok(())
}

/// Whether a person's name stands on the line a target points at.
fn is_protected(existing: &[Edit], t: Target) -> (r: bool)
    ensures
        r == protected(session::edit_texts(existing@), t),
{
    let ghost es = session::edit_texts(existing@);
    let mut k: usize = 0;
    while k < existing.len()
        invariant
            k <= existing@.len(),
            es == session::edit_texts(existing@),
            forall|i: int|
                0 <= i < k ==> !(!transcript::reverted(es, i) && names(#[trigger] es[i], t)
                    && !by_machine(es[i])),
        decreases existing@.len() - k,
    {
        proof {
            assert(es[k as int] == existing@[k as int]@);
        }
        if let Edit::Speaker { target, by, .. } = &existing[k] {
            if target.track == t.track && target.start_ms == t.start_ms && !same_str(
                by.as_str(),
                DIARIZE_BY,
            ) && !is_reverted(existing, k) {
                return true;
            }
        }
        k = k + 1;
    }
    false
}

/// The reverts of every label a previous run left standing.
fn undo(existing: &[Edit], now: &str) -> (r: Vec<Edit>)
    ensures
        session::edit_texts(r@) == undoing(
            session::edit_texts(existing@),
            existing@.len(),
            now@,
        ),
{
    let ghost es = session::edit_texts(existing@);
    let mut out: Vec<Edit> = Vec::new();
    let mut k: usize = 0;
    proof {
        assert(session::edit_texts(out@) == Seq::<EditText>::empty());
    }
    while k < existing.len()
        invariant
            k <= existing@.len(),
            es == session::edit_texts(existing@),
            session::edit_texts(out@) == undoing(es, k as nat, now@),
        decreases existing@.len() - k,
    {
        proof {
            assert(es[k as int] == existing@[k as int]@);
        }
        if let Edit::Speaker { by, .. } = &existing[k] {
            if same_str(by.as_str(), DIARIZE_BY) && !is_reverted(existing, k) {
                let e: Edit = Edit::Revert {
                    target_seq: k,
                    by: DIARIZE_BY.to_owned(),
                    at: now.to_owned(),
                };
                proof {
                    assert(session::edit_texts(out@.push(e)) == session::edit_texts(out@).push(e@));
                }
                out.push(e);
            }
        }
        k = k + 1;
    }
    out
}

/// Append the labels of one track.
fn label_track(
    out: &mut Vec<Edit>,
    existing: &[Edit],
    records: &[RawRecord],
    track: Track,
    spans: &[Span],
    now: &str,
)
    requires
        forall|i: int| 0 <= i < spans@.len() ==> (#[trigger] spans@[i]).speaker < usize::MAX,
    ensures
        session::edit_texts(final(out)@) == session::edit_texts(old(out)@) + labelling(
            session::edit_texts(existing@),
            session::record_texts(records@),
            track,
            spans@,
            records@.len(),
            now@,
        ),
{
    let ghost es = session::edit_texts(existing@);
    let ghost rs = session::record_texts(records@);
    let ghost before = session::edit_texts(out@);
    let mut k: usize = 0;
    proof {
        assert(before + Seq::<EditText>::empty() == before);
    }
    while k < records.len()
        invariant
            k <= records@.len(),
            es == session::edit_texts(existing@),
            rs == session::record_texts(records@),
            before == session::edit_texts(old(out)@),
            forall|i: int| 0 <= i < spans@.len() ==> (#[trigger] spans@[i]).speaker < usize::MAX,
            session::edit_texts(out@) == before + labelling(es, rs, track, spans@, k as nat, now@),
        decreases records@.len() - k,
    {
        let r: &RawRecord = &records[k];
        proof {
            assert(rs[k as int] == r@);
        }
        let t: Target = Target { track: r.track, start_ms: r.start_ms };
        if r.track == track && !is_protected(existing, t) {
            let a: u128 = r.start_ms as u128 * 16000 / 1000;
            let b: u128 = r.end_ms as u128 * 16000 / 1000;
            if let Some(s) = find_owner(spans, a, b) {
                proof {
                    lemma_owner_speaks(spans@, a as int, b as int, s);
                }
                let mut name: String = track.as_str().to_owned();
                name.append("-");
                name.append(decimal_string(s as u64 + 1).as_str());
                let e: Edit = Edit::Speaker {
                    target: t,
                    name,
                    by: DIARIZE_BY.to_owned(),
                    at: now.to_owned(),
                };
                proof {
                    assert(session::edit_texts(out@.push(e)) == session::edit_texts(out@).push(e@));
                    assert((before + labelling(es, rs, track, spans@, k as nat, now@)).push(e@)
                        == before + labelling(es, rs, track, spans@, k as nat, now@).push(e@));
                }
                out.push(e);
            }
        }
        k = k + 1;
    }
}

proof fn lemma_held_speaks(spans: Seq<Span>, a: int, b: int, s: usize)
    requires
        held(spans, a, b, s) > 0,
    ensures
        exists|i: int| 0 <= i < spans.len() && (#[trigger] spans[i]).speaker == s,
    decreases spans.len(),
{
    if spans.len() > 0 {
        if spans.last().speaker == s {
            assert(spans[spans.len() - 1].speaker == s);
        } else {
            lemma_held_speaks(spans.drop_last(), a, b, s);
            let i = choose|i: int|
                0 <= i < spans.drop_last().len() && (#[trigger] spans.drop_last()[i]).speaker == s;
            assert(spans[i].speaker == s);
        }
    }
}

proof fn lemma_owner_speaks(spans: Seq<Span>, a: int, b: int, s: usize)
    requires
        owner(spans, a, b) == Some(s),
        forall|i: int| 0 <= i < spans.len() ==> (#[trigger] spans[i]).speaker < usize::MAX,
    ensures
        s < usize::MAX,
{
    lemma_held_speaks(spans, a, b, s);
}

/// Assign speakers to an already-recorded session: the edits to append, given
/// the stretches the diarizer found in each track that still has audio.
///
/// Re-running is exactly what an append-only format is for: the labels of the
/// previous run are reverted rather than removed, and a line somebody has named
/// is left alone.
pub fn diarize_session(
    dir: &str,
    records: &[RawRecord],
    existing: &[Edit],
    has_room: bool,
    has_call: bool,
    room: &[Span],
    call: &[Span],
    now: &str,
) -> (r: Result<Vec<Edit>, String>)
    requires
        forall|i: int| 0 <= i < room@.len() ==> (#[trigger] room@[i]).speaker < usize::MAX,
        forall|i: int| 0 <= i < call@.len() ==> (#[trigger] call@[i]).speaker < usize::MAX,
    ensures
        match r {
            Ok(edits) => refusal(dir@, records@.len(), has_room, has_call) is None
                && session::edit_texts(edits@) == attribution(
                session::edit_texts(existing@),
                session::record_texts(records@),
                room@,
                call@,
                now@,
            ),
            Err(e) => refusal(dir@, records@.len(), has_room, has_call) == Some(e@),
        },
{
    if let Err(e) = attributable(dir, records.len(), has_room, has_call) {
        return Err(e);
    }
    let mut out: Vec<Edit> = undo(existing, now);
    label_track(&mut out, existing, records, Track::Room, room, now);
    label_track(&mut out, existing, records, Track::Call, call, now);
    Ok(out)
}

/// How many speakers the diarizer told apart in a track: one more than the
/// highest index it used.
pub open spec fn speaker_count(spans: Seq<Span>) -> int
    decreases spans.len(),
{
    if spans.len() == 0 {
        0
    } else {
        let front = speaker_count(spans.drop_last());
        if spans.last().speaker + 1 > front {
            spans.last().speaker + 1
        } else {
            front
        }
    }
}

pub fn speakers(spans: &[Span]) -> (n: usize)
    requires
        forall|i: int| 0 <= i < spans@.len() ==> (#[trigger] spans@[i]).speaker < usize::MAX,
    ensures
        n == speaker_count(spans@),
{
    let mut n: usize = 0;
    let mut i: usize = 0;
    proof {
        assert(spans@.take(0) == Seq::<Span>::empty());
    }
    while i < spans.len()
        invariant
            i <= spans@.len(),
            forall|k: int| 0 <= k < spans@.len() ==> (#[trigger] spans@[k]).speaker < usize::MAX,
            n == speaker_count(spans@.take(i as int)),
        decreases spans@.len() - i,
    {
        proof {
            assert(spans@.take(i + 1).drop_last() == spans@.take(i as int));
            assert(spans@[i as int].speaker < usize::MAX);
        }
        if spans[i].speaker + 1 > n {
            n = spans[i].speaker + 1;
        }
        i = i + 1;
    }
    proof {
        assert(spans@.take(spans@.len() as int) == spans@);
    }
    n
}

pub open spec fn all_digits(s: Seq<char>) -> bool {
    forall|i: int| 0 <= i < s.len() ==> '0' <= #[trigger] s[i] <= '9'
}

/// A label counts as unnamed while it still has diarization's shape: a track,
/// a dash and a number.
pub open spec fn generated(l: Seq<char>) -> bool {
    ||| text::starts_with(l, "room-"@) && l.len() > 5 && all_digits(l.skip(5))
    ||| text::starts_with(l, "call-"@) && l.len() > 5 && all_digits(l.skip(5))
}

/// Speaker labels nobody has named yet, each with the first thing that voice
/// said, in order of first appearance among the first `k` lines.
pub open spec fn unnamed(lines: Seq<LineText>, k: nat) -> Seq<(Seq<char>, Seq<char>)>
    decreases k,
{
    if k == 0 {
        Seq::empty()
    } else {
        let front = unnamed(lines, (k - 1) as nat);
        match lines[k - 1].speaker {
            Some(l) => if generated(l) && !offered(front, l) {
                front.push((l, text::trim(lines[k - 1].text)))
            } else {
                front
            },
            None => front,
        }
    }
}

/// The label is already in the list.
pub open spec fn offered(list: Seq<(Seq<char>, Seq<char>)>, l: Seq<char>) -> bool {
    exists|i: int| 0 <= i < list.len() && (#[trigger] list[i]).0 == l
}

pub open spec fn pair_texts(v: Seq<(String, String)>) -> Seq<(Seq<char>, Seq<char>)> {
    v.map_values(|p: (String, String)| (p.0@, p.1@))
}

fn digits_from(c: &Vec<char>, from: usize) -> (r: bool)
    requires
        from <= c@.len(),
    ensures
        r == all_digits(c@.skip(from as int)),
{
    let mut i: usize = from;
    let ghost rest = c@.skip(from as int);
    while i < c.len()
        invariant
            from <= i <= c@.len(),
            rest == c@.skip(from as int),
            forall|j: int| 0 <= j < i - from ==> '0' <= #[trigger] rest[j] <= '9',
        decreases c@.len() - i,
    {
        let x: char = c[i];
        proof {
            assert(rest[i - from] == x);
        }
        if !('0' <= x && x <= '9') {
            return false;
        }
        i = i + 1;
    }
    true
}

fn looks_generated(l: &str) -> (r: bool)
    ensures
        r == generated(l@),
{
    let c: Vec<char> = chars_of(l);
    let room: Vec<char> = chars_of("room-");
    let call: Vec<char> = chars_of("call-");
    proof {
        reveal_strlit("room-");
        reveal_strlit("call-");
    }
    c.len() > 5 && (has_prefix(c.as_slice(), room.as_slice()) || has_prefix(
        c.as_slice(),
        call.as_slice(),
    )) && digits_from(&c, 5)
}

/// Speaker labels nobody has named yet, each with the first thing that voice
/// said. The sample line is what makes a picker usable: `call-2` means nothing,
/// but `call-2` next to what it said is recognisable.
pub fn unnamed_labels(lines: &[Line]) -> (r: Vec<(String, String)>)
    ensures
        pair_texts(r@) == unnamed(session::line_texts(lines@), lines@.len()),
{
    let ghost ls = session::line_texts(lines@);
    let mut out: Vec<(String, String)> = Vec::new();
    let mut k: usize = 0;
    proof {
        assert(pair_texts(out@) == Seq::<(Seq<char>, Seq<char>)>::empty());
    }
    while k < lines.len()
        invariant
            k <= lines@.len(),
            ls == session::line_texts(lines@),
            pair_texts(out@) == unnamed(ls, k as nat),
        decreases lines@.len() - k,
    {
        proof {
            assert(ls[k as int] == lines@[k as int]@);
        }
        if let Some(l) = &lines[k].speaker {
            if looks_generated(l.as_str()) {
                let mut seen: bool = false;
                let mut i: usize = 0;
                while i < out.len()
                    invariant
                        i <= out@.len(),
                        seen == exists|j: int| 0 <= j < i && (#[trigger] out@[j]).0@ == l@,
                    decreases out@.len() - i,
                {
                    if same_str(out[i].0.as_str(), l.as_str()) {
                        seen = true;
                    }
                    i = i + 1;
                }
                proof {
                    let list = pair_texts(out@);
                    if seen {
                        let j = choose|j: int| 0 <= j < out@.len() && (#[trigger] out@[j]).0@ == l@;
                        assert(list[j].0 == l@);
                    }
                    if offered(list, l@) {
                        let j = choose|j: int| 0 <= j < list.len() && (#[trigger] list[j]).0 == l@;
                        assert(out@[j].0@ == l@);
                    }
                }
                if !seen {
                    let c: Vec<char> = chars_of(lines[k].text.as_str());
                    let sample: String = string_of(trimmed(c.as_slice()).as_slice());
                    let pair: (String, String) = (l.clone(), sample);
                    proof {
                        assert(pair_texts(out@.push(pair)) == pair_texts(out@).push(
                            (pair.0@, pair.1@),
                        ));
                    }
                    out.push(pair);
                }
            }
        }
        k = k + 1;
    }
    out
}

/// What `{:?}` prints for a string.
pub uninterp spec fn debug_quoted(s: Seq<char>) -> Seq<char>;

/// `<str as Debug>::fmt`, through `{:?}`: the string in double quotes with its
/// special characters escaped. The result is named [`debug_quoted`].
#[verifier::external_body]
pub(crate) fn quote_debug(s: &str) -> (r: String)
    ensures
        r@ == debug_quoted(s@),
{
    format!("{:?}", s)
}

/// The names that stand on the lines, in order.
pub open spec fn spoken(lines: Seq<LineText>) -> Seq<Seq<char>>
    decreases lines.len(),
{
    if lines.len() == 0 {
        Seq::empty()
    } else {
        match lines.last().speaker {
            Some(s) => spoken(lines.drop_last()).push(s),
            None => spoken(lines.drop_last()),
        }
    }
}

/// One edit for every line labelled `label`, among the first `k` lines.
pub open spec fn naming(
    lines: Seq<LineText>,
    k: nat,
    label: Seq<char>,
    name: Seq<char>,
    now: Seq<char>,
) -> Seq<EditText>
    decreases k,
{
    if k == 0 {
        Seq::empty()
    } else {
        let front = naming(lines, (k - 1) as nat, label, name, now);
        let l = lines[k - 1];
        if l.speaker == Some(label) {
            front.push(
                EditText::Speaker {
                    target: Target { track: l.track, start_ms: l.start_ms },
                    name,
                    by: "user"@,
                    at: now,
                },
            )
        } else {
            front
        }
    }
}

/// What is said when no line carries the label.
pub open spec fn no_such_label(lines: Seq<LineText>, label: Seq<char>) -> Seq<char> {
    let known = text::ordered_set(spoken(lines));
    "no lines labelled "@ + debug_quoted(label) + " (available: "@ + (if known.len() == 0 {
        "none — run `ambient diarize` first"@
    } else {
        text::joined(known, ", "@)
    }) + ")"@
}

/// Give every line currently labelled `label` a human name: one edit per line,
/// so it is undoable like anything else.
pub fn name_speaker(lines: &[Line], label: &str, name: &str, now: &str) -> (r: Result<
    Vec<Edit>,
    String,
>)
    ensures
        ({
            let ls = session::line_texts(lines@);
            let plan = naming(ls, ls.len(), label@, name@, now@);
            match r {
                Ok(edits) => plan.len() > 0 && session::edit_texts(edits@) == plan,
                Err(e) => plan.len() == 0 && e@ == no_such_label(ls, label@),
            }
        }),
{
    let ghost ls = session::line_texts(lines@);
    let mut out: Vec<Edit> = Vec::new();
    let mut known: Vec<String> = Vec::new();
    let mut k: usize = 0;
    proof {
        assert(session::edit_texts(out@) == Seq::<EditText>::empty());
        assert(text::views(known@) == Seq::<Seq<char>>::empty());
        assert(ls.take(0) == Seq::<LineText>::empty());
    }
    while k < lines.len()
        invariant
            k <= lines@.len(),
            ls == session::line_texts(lines@),
            session::edit_texts(out@) == naming(ls, k as nat, label@, name@, now@),
            text::views(known@) == text::ordered_set(spoken(ls.take(k as int))),
        decreases lines@.len() - k,
    {
        proof {
            assert(ls[k as int] == lines@[k as int]@);
            assert(ls.take(k + 1).drop_last() == ls.take(k as int));
            assert(ls.take(k + 1).last() == ls[k as int]);
        }
        if let Some(s) = &lines[k].speaker {
            proof {
                let front = spoken(ls.take(k as int));
                assert(front.push(s@).drop_last() == front);
            }
            insert_ordered(&mut known, s.as_str());
            if same_str(s.as_str(), label) {
                let e: Edit = Edit::Speaker {
                    target: Target { track: lines[k].track, start_ms: lines[k].start_ms },
                    name: name.to_owned(),
                    by: USER_BY.to_owned(),
                    at: now.to_owned(),
                };
                proof {
                    assert(session::edit_texts(out@.push(e)) == session::edit_texts(out@).push(e@));
                }
                out.push(e);
            }
        }
        k = k + 1;
    }
    proof {
        assert(ls.take(lines@.len() as int) == ls);
        assert(session::edit_texts(out@).len() == out@.len());
        assert(text::views(known@).len() == known@.len());
    }
    if out.len() == 0 {
        let mut e: String = "no lines labelled ".to_owned();
        e.append(quote_debug(label).as_str());
        e.append(" (available: ");
        if known.len() == 0 {
            e.append("none — run `ambient diarize` first");
        } else {
            e.append(join(known.as_slice(), ", ").as_str());
        }
        e.append(")");
        return Err(e);
    }
    Ok(out)
}

/// No earlier record starts at the same moment of the same track: an edit aimed
/// there lands on this one.
pub open spec fn comes_first(records: Seq<RecordText>, i: int) -> bool {
    forall|j: int| 0 <= j < i ==> target(#[trigger] records[j]) != target(records[i])
}

/// No other record starts at the same moment of the same track.
pub open spec fn stands_alone(records: Seq<RecordText>, i: int) -> bool {
    forall|j: int|
        0 <= j < records.len() && j != i ==> target(#[trigger] records[j]) != target(records[i])
}

/// No revert points past the end of the log.
pub open spec fn settled(edits: Seq<EditText>) -> bool {
    forall|k: int|
        0 <= k < edits.len() ==> (#[trigger] edits[k] matches EditText::Revert { target_seq, .. }
            ==> target_seq < edits.len())
}

spec fn key(l: LineText) -> Target {
    Target { track: l.track, start_ms: l.start_ms }
}

spec fn first_key(lines: Seq<LineText>, i: int) -> bool {
    forall|j: int| 0 <= j < i ==> key(#[trigger] lines[j]) != key(lines[i])
}

spec fn name_in(e: EditText) -> Seq<char> {
    match e {
        EditText::Speaker { name, .. } => name,
        _ => Seq::empty(),
    }
}

/// The name the first `k` edits leave standing on a target.
spec fn last_name(edits: Seq<EditText>, t: Target, k: nat) -> Option<Seq<char>>
    decreases k,
{
    if k == 0 {
        None
    } else if !transcript::reverted(edits, k - 1) && names(edits[k - 1], t) {
        Some(name_in(edits[k - 1]))
    } else {
        last_name(edits, t, (k - 1) as nat)
    }
}

proof fn lemma_speaker_is_last_name(
    lines: Seq<LineText>,
    edits: Seq<EditText>,
    k: nat,
    i: int,
)
    requires
        0 <= i < lines.len(),
        first_key(lines, i),
        lines[i].speaker is None,
    ensures
        transcript::folded(lines, edits, k).len() == lines.len(),
        transcript::folded(lines, edits, k)[i].speaker == last_name(edits, key(lines[i]), k),
    decreases k,
{
    transcript::edits_keep_times(lines, edits, k);
    if k > 0 {
        lemma_speaker_is_last_name(lines, edits, (k - 1) as nat, i);
        transcript::edits_keep_times(lines, edits, (k - 1) as nat);
        let so_far = transcript::folded(lines, edits, (k - 1) as nat);
        let e = edits[k - 1];
        if !transcript::reverted(edits, k - 1) {
            if let Some(t) = transcript::target_of(e) {
                if t == key(lines[i]) {
                    assert(transcript::is_first(so_far, t, i)) by {
                        assert(so_far[i].track == lines[i].track);
                        assert forall|j: int| 0 <= j < i implies !transcript::aims(
                            t,
                            #[trigger] so_far[j],
                        ) by {
                            assert(key(lines[j]) != key(lines[i]));
                        }
                    }
                } else {
                    assert(so_far[i].track == lines[i].track);
                    assert(!transcript::aims(t, so_far[i]));
                }
            }
        }
    }
}

proof fn lemma_last_name(edits: Seq<EditText>, t: Target, k: nat, name: Option<Seq<char>>)
    requires
        k <= edits.len(),
        forall|j: int|
            0 <= j < k && !transcript::reverted(edits, j) && names(#[trigger] edits[j], t)
                ==> name == Some(name_in(edits[j])),
        name is Some ==> exists|j: int|
            0 <= j < k && !transcript::reverted(edits, j) && names(#[trigger] edits[j], t),
    ensures
        last_name(edits, t, k) == name,
    decreases k,
{
    if k > 0 {
        if !transcript::reverted(edits, k - 1) && names(edits[k - 1], t) {
        } else {
            if name is Some {
                let j = choose|j: int|
                    0 <= j < k && !transcript::reverted(edits, j) && names(#[trigger] edits[j], t);
                assert(j != k - 1);
            }
            lemma_last_name(edits, t, (k - 1) as nat, name);
        }
    }
}

proof fn lemma_undoing(existing: Seq<EditText>, k: nat, now: Seq<char>)
    requires
        k <= existing.len(),
    ensures
        forall|p: int|
            0 <= p < undoing(existing, k, now).len() ==> (#[trigger] undoing(
                existing,
                k,
                now,
            )[p] matches EditText::Revert { target_seq, .. } && target_seq < k && by_machine(
                existing[target_seq as int],
            )),
        forall|j: int|
            0 <= j < k && !transcript::reverted(existing, j) && by_machine(#[trigger] existing[j])
                ==> exists|p: int|
                0 <= p < undoing(existing, k, now).len() && (#[trigger] undoing(
                    existing,
                    k,
                    now,
                )[p] matches EditText::Revert { target_seq, .. } && target_seq == j),
    decreases k,
{
    if k > 0 {
        lemma_undoing(existing, (k - 1) as nat, now);
        let front = undoing(existing, (k - 1) as nat, now);
        let all = undoing(existing, k, now);
        assert forall|p: int| 0 <= p < all.len() implies (
        #[trigger] all[p] matches EditText::Revert { target_seq, .. } && target_seq < k && by_machine(
            existing[target_seq as int],
        )) by {
            if p < front.len() {
                assert(all[p] == front[p]);
            }
        }
        assert forall|j: int|
            0 <= j < k && !transcript::reverted(existing, j) && by_machine(
                #[trigger] existing[j],
            ) implies exists|p: int|
            0 <= p < all.len() && (#[trigger] all[p] matches EditText::Revert { target_seq, .. }
                && target_seq == j) by {
            if j < k - 1 {
                let p = choose|p: int|
                    0 <= p < front.len() && (#[trigger] front[p] matches EditText::Revert {
                        target_seq,
                        ..
                    } && target_seq == j);
                assert(all[p] == front[p]);
            } else {
                assert(all[front.len() as int] matches EditText::Revert { target_seq, .. }
                    && target_seq == j);
            }
        }
    }
}

proof fn lemma_labelling(
    existing: Seq<EditText>,
    records: Seq<RecordText>,
    track: Track,
    spans: Seq<Span>,
    k: nat,
    now: Seq<char>,
)
    requires
        k <= records.len(),
    ensures
        forall|p: int|
            0 <= p < labelling(existing, records, track, spans, k, now).len() ==> exists|r: int|
                0 <= r < k && (#[trigger] records[r]).track == track && labelled(
                    existing,
                    spans,
                    records[r],
                    now,
                ) == Some(#[trigger] labelling(existing, records, track, spans, k, now)[p]),
        forall|r: int|
            0 <= r < k && (#[trigger] records[r]).track == track && labelled(
                existing,
                spans,
                records[r],
                now,
            ) is Some ==> labelling(existing, records, track, spans, k, now).contains(
                labelled(existing, spans, records[r], now)->0,
            ),
    decreases k,
{
    if k > 0 {
        lemma_labelling(existing, records, track, spans, (k - 1) as nat, now);
        let front = labelling(existing, records, track, spans, (k - 1) as nat, now);
        let all = labelling(existing, records, track, spans, k, now);
        assert forall|p: int| 0 <= p < all.len() implies exists|r: int|
            0 <= r < k && (#[trigger] records[r]).track == track && labelled(
                existing,
                spans,
                records[r],
                now,
            ) == Some(#[trigger] all[p]) by {
            if p < front.len() {
                assert(all[p] == front[p]);
                let r = choose|r: int|
                    0 <= r < k - 1 && (#[trigger] records[r]).track == track && labelled(
                        existing,
                        spans,
                        records[r],
                        now,
                    ) == Some(front[p]);
                assert(records[r].track == track);
            } else {
                assert(records[k - 1].track == track);
            }
        }
        assert forall|r: int|
            0 <= r < k && (#[trigger] records[r]).track == track && labelled(
                existing,
                spans,
                records[r],
                now,
            ) is Some implies all.contains(labelled(existing, spans, records[r], now)->0) by {
            let e = labelled(existing, spans, records[r], now)->0;
            if r < k - 1 {
                let p = choose|p: int| 0 <= p < front.len() && front[p] == e;
                assert(all[p] == e);
            } else {
                assert(all[front.len() as int] == e);
            }
        }
    }
}

/// The spans of a record's own track.
pub open spec fn spans_for(track: Track, room: Seq<Span>, call: Seq<Span>) -> Seq<Span> {
    match track {
        Track::Room => room,
        Track::Call => call,
    }
}

/// Which of the earlier edits still stand after a run: the ones that stood and
/// were not a machine's labels.
proof fn lemma_attribution(
    existing: Seq<EditText>,
    records: Seq<RecordText>,
    room: Seq<Span>,
    call: Seq<Span>,
    now: Seq<char>,
)
    ensures
        ({
            let plan = attribution(existing, records, room, call, now);
            let all = existing + plan;
            let n = existing.len() as int;
            &&& forall|j: int|
                0 <= j < n ==> (#[trigger] transcript::reverted(all, j) <==> (transcript::reverted(
                    existing,
                    j,
                ) || by_machine(existing[j])))
            &&& forall|j: int|
                n <= j < all.len() ==> ((#[trigger] all[j]) is Revert || exists|r: int|
                    0 <= r < records.len() && labelled(
                        existing,
                        spans_for((#[trigger] records[r]).track, room, call),
                        records[r],
                        now,
                    ) == Some(all[j]))
            &&& settled(existing) ==> forall|j: int|
                n <= j < all.len() ==> !(#[trigger] transcript::reverted(all, j))
            &&& forall|r: int|
                0 <= r < records.len() && labelled(
                    existing,
                    spans_for((#[trigger] records[r]).track, room, call),
                    records[r],
                    now,
                ) is Some ==> exists|j: int|
                    n <= j < all.len() && #[trigger] all[j] == labelled(
                        existing,
                        spans_for(records[r].track, room, call),
                        records[r],
                        now,
                    )->0
        }),
{
    let n = existing.len() as int;
    let u = undoing(existing, existing.len(), now);
    let a = labelling(existing, records, Track::Room, room, records.len(), now);
    let b = labelling(existing, records, Track::Call, call, records.len(), now);
    let plan = attribution(existing, records, room, call, now);
    let all = existing + plan;
    lemma_undoing(existing, existing.len(), now);
    lemma_labelling(existing, records, Track::Room, room, records.len(), now);
    lemma_labelling(existing, records, Track::Call, call, records.len(), now);
    assert forall|j: int| n <= j < all.len() implies ((#[trigger] all[j]) is Revert || exists|r: int|
        0 <= r < records.len() && labelled(
            existing,
            spans_for((#[trigger] records[r]).track, room, call),
            records[r],
            now,
        ) == Some(all[j])) by {
        let p = j - n;
        if p < u.len() {
            assert(all[j] == u[p]);
        } else if p < u.len() + a.len() {
            let q = p - u.len();
            assert(all[j] == a[q]);
            let r = choose|r: int|
                0 <= r < records.len() && (#[trigger] records[r]).track == Track::Room && labelled(
                    existing,
                    room,
                    records[r],
                    now,
                ) == Some(a[q]);
            assert(spans_for(records[r].track, room, call) == room);
        } else {
            let q = p - u.len() - a.len();
            assert(all[j] == b[q]);
            let r = choose|r: int|
                0 <= r < records.len() && (#[trigger] records[r]).track == Track::Call && labelled(
                    existing,
                    call,
                    records[r],
                    now,
                ) == Some(b[q]);
            assert(spans_for(records[r].track, room, call) == call);
        }
    }
    assert forall|j: int| n <= j < all.len() && (#[trigger] all[j]) is Revert implies {
        &&& all[j]->Revert_target_seq < n
        &&& by_machine(existing[all[j]->Revert_target_seq as int])
    } by {
        let p = j - n;
        if p < u.len() {
            assert(all[j] == u[p]);
        } else {
            let r = choose|r: int|
                0 <= r < records.len() && labelled(
                    existing,
                    spans_for((#[trigger] records[r]).track, room, call),
                    records[r],
                    now,
                ) == Some(all[j]);
            if p < u.len() + a.len() {
                assert(all[j] == a[p - u.len()]);
            } else {
                assert(all[j] == b[p - u.len() - a.len()]);
            }
        }
    }
    assert forall|j: int| 0 <= j < n implies (#[trigger] transcript::reverted(all, j) <==> (
    transcript::reverted(existing, j) || by_machine(existing[j]))) by {
        if transcript::reverted(existing, j) {
            let k = choose|k: int|
                0 <= k < existing.len() && (#[trigger] existing[k] matches EditText::Revert {
                    target_seq,
                    ..
                } && target_seq == j);
            assert(all[k] == existing[k]);
        } else if by_machine(existing[j]) {
            let p = choose|p: int|
                0 <= p < u.len() && (#[trigger] u[p] matches EditText::Revert { target_seq, .. }
                    && target_seq == j);
            assert(all[n + p] == u[p]);
        }
        if transcript::reverted(all, j) {
            let k = choose|k: int|
                0 <= k < all.len() && (#[trigger] all[k] matches EditText::Revert {
                    target_seq,
                    ..
                } && target_seq == j);
            if k < n {
                assert(existing[k] == all[k]);
            }
        }
    }
    if settled(existing) {
        assert forall|j: int| n <= j < all.len() implies !(#[trigger] transcript::reverted(
            all,
            j,
        )) by {
            if transcript::reverted(all, j) {
                let k = choose|k: int|
                    0 <= k < all.len() && (#[trigger] all[k] matches EditText::Revert {
                        target_seq,
                        ..
                    } && target_seq == j);
                if k < n {
                    assert(existing[k] == all[k]);
                }
            }
        }
    }
    assert forall|r: int|
        0 <= r < records.len() && labelled(
            existing,
            spans_for((#[trigger] records[r]).track, room, call),
            records[r],
            now,
        ) is Some implies exists|j: int|
        n <= j < all.len() && #[trigger] all[j] == labelled(
            existing,
            spans_for(records[r].track, room, call),
            records[r],
            now,
        )->0 by {
        let e = labelled(
            existing,
            spans_for(records[r].track, room, call),
            records[r],
            now,
        )->0;
        if records[r].track == Track::Room {
            let p = choose|p: int| 0 <= p < a.len() && a[p] == e;
            assert(all[n + u.len() + p] == e);
        } else {
            let p = choose|p: int| 0 <= p < b.len() && b[p] == e;
            assert(all[n + u.len() + a.len() + p] == e);
        }
    }
}

proof fn lemma_heard_keys(records: Seq<RecordText>)
    ensures
        forall|i: int|
            0 <= i < records.len() ==> key(#[trigger] transcript::all_heard(records)[i]) == target(
                records[i],
            ),
        forall|i: int|
            0 <= i < records.len() && #[trigger] comes_first(records, i) ==> first_key(
                transcript::all_heard(records),
                i,
            ),
{
    let lines = transcript::all_heard(records);
    assert forall|i: int| 0 <= i < records.len() && #[trigger] comes_first(
        records,
        i,
    ) implies first_key(lines, i) by {
        assert forall|j: int| 0 <= j < i implies key(#[trigger] lines[j]) != key(lines[i]) by {
            assert(target(records[j]) != target(records[i]));
        }
    }
}

/// Re-running diarization never touches a name a person typed: where edit `k`
/// is the last one standing on a line and a person wrote it, the line carries
/// that name before the run and after it.
pub proof fn human_names_survive(
    records: Seq<RecordText>,
    existing: Seq<EditText>,
    room: Seq<Span>,
    call: Seq<Span>,
    now: Seq<char>,
    i: int,
    k: int,
)
    requires
        0 <= i < records.len(),
        comes_first(records, i),
        0 <= k < existing.len(),
        !transcript::reverted(existing, k),
        names(existing[k], target(records[i])),
        !by_machine(existing[k]),
        forall|j: int|
            k < j < existing.len() && names(#[trigger] existing[j], target(records[i]))
                ==> transcript::reverted(existing, j),
    ensures
        ({
            let after = existing + attribution(existing, records, room, call, now);
            let lines = transcript::all_heard(records);
            &&& transcript::folded(lines, existing, existing.len())[i].speaker == Some(
                existing[k]->Speaker_name,
            )
            &&& transcript::folded(lines, after, after.len())[i].speaker == Some(
                existing[k]->Speaker_name,
            )
        }),
{
    let t = target(records[i]);
    let lines = transcript::all_heard(records);
    let plan = attribution(existing, records, room, call, now);
    let all = existing + plan;
    let n = existing.len();
    lemma_heard_keys(records);
    lemma_attribution(existing, records, room, call, now);
    lemma_speaker_is_last_name(lines, existing, n, i);
    lemma_speaker_is_last_name(lines, all, all.len(), i);
    lemma_last_from(existing, t, n, k);
    assert(protected(existing, t)) by {
        assert(names(existing[k], t));
    }
    assert(all[k] == existing[k]);
    assert(!transcript::reverted(all, k));
    assert forall|j: int| k < j < all.len() && names(#[trigger] all[j], t) implies transcript::reverted(
        all,
        j,
    ) by {
        if j < n {
            assert(all[j] == existing[j]);
            assert(names(existing[j], t));
            assert(transcript::reverted(all, j));
        } else {
            if exists|r: int|
                0 <= r < records.len() && labelled(
                    existing,
                    spans_for((#[trigger] records[r]).track, room, call),
                    records[r],
                    now,
                ) == Some(all[j]) {
                let r = choose|r: int|
                    0 <= r < records.len() && labelled(
                        existing,
                        spans_for((#[trigger] records[r]).track, room, call),
                        records[r],
                        now,
                    ) == Some(all[j]);
                assert(target(records[r]) == t);
                assert(false);
            }
        }
    }
    lemma_last_from(all, t, all.len(), k);
}

proof fn lemma_last_from(edits: Seq<EditText>, t: Target, m: nat, k: int)
    requires
        0 <= k < m <= edits.len(),
        !transcript::reverted(edits, k),
        names(edits[k], t),
        forall|j: int|
            k < j < m && names(#[trigger] edits[j], t) ==> transcript::reverted(edits, j),
    ensures
        last_name(edits, t, m) == Some(name_in(edits[k])),
    decreases m,
{
    if m - 1 > k {
        if names(edits[m - 1], t) {
            assert(transcript::reverted(edits, m - 1));
        }
        lemma_last_from(edits, t, (m - 1) as nat, k);
    }
}

/// A run replaces what earlier runs said: a line nobody has named carries
/// exactly the label this run gives it, and none if this run gives it none.
pub proof fn rerun_replaces_labels(
    records: Seq<RecordText>,
    existing: Seq<EditText>,
    room: Seq<Span>,
    call: Seq<Span>,
    now: Seq<char>,
    i: int,
)
    requires
        settled(existing),
        0 <= i < records.len(),
        stands_alone(records, i),
        !protected(existing, target(records[i])),
    ensures
        ({
            let r = records[i];
            let after = existing + attribution(existing, records, room, call, now);
            let lines = transcript::all_heard(records);
            transcript::folded(lines, after, after.len())[i].speaker == (match owner(
                spans_for(r.track, room, call),
                sample_at(r.start_ms),
                sample_at(r.end_ms),
            ) {
                Some(s) => Some(label(r.track, s)),
                None => None,
            })
        }),
{
    let r = records[i];
    let t = target(r);
    let lines = transcript::all_heard(records);
    let plan = attribution(existing, records, room, call, now);
    let all = existing + plan;
    let n = existing.len() as int;
    lemma_heard_keys(records);
    lemma_attribution(existing, records, room, call, now);
    assert(comes_first(records, i));
    lemma_speaker_is_last_name(lines, all, all.len(), i);
    let mine = labelled(existing, spans_for(r.track, room, call), r, now);
    let name = match mine {
        Some(e) => Some(name_in(e)),
        None => None,
    };
    assert forall|j: int|
        0 <= j < all.len() && !transcript::reverted(all, j) && names(
            #[trigger] all[j],
            t,
        ) implies name == Some(name_in(all[j])) by {
        if j < n {
            assert(all[j] == existing[j]);
            assert(!transcript::reverted(existing, j) && !by_machine(existing[j]));
            assert(names(existing[j], t));
            assert(protected(existing, t));
        } else {
            let q = choose|q: int|
                0 <= q < records.len() && labelled(
                    existing,
                    spans_for((#[trigger] records[q]).track, room, call),
                    records[q],
                    now,
                ) == Some(all[j]);
            assert(target(records[q]) == t);
        }
    }
    if mine is Some {
        let j = choose|j: int| n <= j < all.len() && #[trigger] all[j] == mine->0;
        assert(names(all[j], t));
        assert(!transcript::reverted(all, j));
    }
    lemma_last_name(all, t, all.len(), name);
}

/// A line after `label` has been given the name `name`.
pub open spec fn renamed(l: LineText, label: Seq<char>, name: Seq<char>) -> LineText {
    if l.speaker == Some(label) {
        LineText { speaker: Some(name), ..l }
    } else {
        l
    }
}

proof fn lemma_naming(
    lines: Seq<LineText>,
    k: nat,
    label: Seq<char>,
    name: Seq<char>,
    now: Seq<char>,
)
    requires
        k <= lines.len(),
    ensures
        forall|p: int|
            0 <= p < naming(lines, k, label, name, now).len() ==> exists|i: int|
                0 <= i < k && (#[trigger] lines[i]).speaker == Some(label) && #[trigger] naming(
                    lines,
                    k,
                    label,
                    name,
                    now,
                )[p] == (EditText::Speaker { target: key(lines[i]), name, by: "user"@, at: now }),
        forall|i: int|
            0 <= i < k && (#[trigger] lines[i]).speaker == Some(label) ==> naming(
                lines,
                k,
                label,
                name,
                now,
            ).contains(EditText::Speaker { target: key(lines[i]), name, by: "user"@, at: now }),
    decreases k,
{
    if k > 0 {
        lemma_naming(lines, (k - 1) as nat, label, name, now);
        let front = naming(lines, (k - 1) as nat, label, name, now);
        let all = naming(lines, k, label, name, now);
        assert forall|p: int| 0 <= p < all.len() implies exists|i: int|
            0 <= i < k && (#[trigger] lines[i]).speaker == Some(label) && #[trigger] all[p] == (
            EditText::Speaker { target: key(lines[i]), name, by: "user"@, at: now }) by {
            if p < front.len() {
                assert(all[p] == front[p]);
                let i = choose|i: int|
                    0 <= i < k - 1 && (#[trigger] lines[i]).speaker == Some(label) && front[p] == (
                    EditText::Speaker { target: key(lines[i]), name, by: "user"@, at: now });
                assert(lines[i].speaker == Some(label));
            } else {
                assert(lines[k - 1].speaker == Some(label));
            }
        }
        assert forall|i: int|
            0 <= i < k && (#[trigger] lines[i]).speaker == Some(label) implies all.contains(
            EditText::Speaker { target: key(lines[i]), name, by: "user"@, at: now },
        ) by {
            let e = EditText::Speaker { target: key(lines[i]), name, by: "user"@, at: now };
            if i < k - 1 {
                let p = choose|p: int| 0 <= p < front.len() && front[p] == e;
                assert(all[p] == e);
            } else {
                assert(all[front.len() as int] == e);
            }
        }
    }
}

spec fn hit(plan: Seq<EditText>, j: nat, t: Target) -> bool {
    exists|p: int| 0 <= p < j && names(#[trigger] plan[p], t)
}

proof fn lemma_names_applied(
    lines: Seq<LineText>,
    edits: Seq<EditText>,
    plan: Seq<EditText>,
    name: Seq<char>,
    j: nat,
    i: int,
)
    requires
        first_key(lines, i),
        settled(edits),
        j <= plan.len(),
        forall|p: int|
            0 <= p < plan.len() ==> (#[trigger] plan[p]) is Speaker && name_in(plan[p]) == name,
        0 <= i < lines.len(),
    ensures
        ({
            let f = transcript::folded(lines, edits, edits.len());
            let g = transcript::folded(lines, edits + plan, edits.len() + j);
            g.len() == lines.len() && g[i] == (if hit(plan, j, key(lines[i])) {
                LineText { speaker: Some(name), ..f[i] }
            } else {
                f[i]
            })
        }),
    decreases j,
{
    let n = edits.len();
    let all = edits + plan;
    let f = transcript::folded(lines, edits, n);
    transcript::edits_keep_times(lines, all, (n + j) as nat);
    transcript::edits_keep_times(lines, edits, n);
    assert forall|q: int| 0 <= q implies transcript::reverted(edits, q) == #[trigger] transcript::reverted(
        all,
        q,
    ) by {
        if transcript::reverted(edits, q) {
            let k = choose|k: int|
                0 <= k < edits.len() && (#[trigger] edits[k] matches EditText::Revert {
                    target_seq,
                    ..
                } && target_seq == q);
            assert(all[k] == edits[k]);
        }
        if transcript::reverted(all, q) {
            let k = choose|k: int|
                0 <= k < all.len() && (#[trigger] all[k] matches EditText::Revert {
                    target_seq,
                    ..
                } && target_seq == q);
            if k < n {
                assert(edits[k] == all[k]);
            } else {
                assert(all[k] == plan[k - n]);
            }
        }
    }
    if j == 0 {
        transcript::lemma_fold_same(lines, edits, all, n);
    } else {
        lemma_names_applied(lines, edits, plan, name, (j - 1) as nat, i);
        let so_far = transcript::folded(lines, all, (n + j - 1) as nat);
        transcript::edits_keep_times(lines, all, (n + j - 1) as nat);
        let e = all[n + j - 1];
        assert(e == plan[j - 1]);
        assert(!transcript::reverted(all, n + j - 1)) by {
            assert(transcript::reverted(edits, n + j - 1) == transcript::reverted(all, n + j - 1));
        }
        let t = key(lines[i]);
        assert(so_far[i].track == lines[i].track && so_far[i].start_ms == lines[i].start_ms);
        if names(e, t) {
            assert(transcript::is_first(so_far, t, i)) by {
                assert forall|q: int| 0 <= q < i implies !transcript::aims(
                    t,
                    #[trigger] so_far[q],
                ) by {
                    assert(key(lines[q]) != key(lines[i]));
                }
            }
            assert(hit(plan, j, t)) by {
                assert(names(plan[j - 1], t));
            }
        } else {
            assert(hit(plan, j, t) == hit(plan, (j - 1) as nat, t)) by {
                if hit(plan, j, t) {
                    let p = choose|p: int| 0 <= p < j && names(#[trigger] plan[p], t);
                    assert(p != j - 1);
                }
            }
        }
    }
}

/// A line that shares its target with an earlier one is never edited.
proof fn lemma_later_untouched(
    lines: Seq<LineText>,
    edits: Seq<EditText>,
    k: nat,
    i: int,
    first: int,
)
    requires
        0 <= first < i < lines.len(),
        key(lines[first]) == key(lines[i]),
    ensures
        transcript::folded(lines, edits, k).len() == lines.len(),
        transcript::folded(lines, edits, k)[i] == lines[i],
    decreases k,
{
    transcript::edits_keep_times(lines, edits, k);
    if k > 0 {
        lemma_later_untouched(lines, edits, (k - 1) as nat, i, first);
        transcript::edits_keep_times(lines, edits, (k - 1) as nat);
        let so_far = transcript::folded(lines, edits, (k - 1) as nat);
        if let Some(t) = transcript::target_of(edits[k - 1]) {
            assert(so_far[first].track == lines[first].track);
            assert(transcript::aims(t, so_far[i]) ==> transcript::aims(t, so_far[first]));
            assert(!transcript::is_first(so_far, t, i));
        }
    }
}

proof fn lemma_start_kept(list: Seq<LineText>, l: LineText, h: spec_fn(LineText) -> LineText)
    requires
        forall|x: LineText| (#[trigger] h(x)).start_ms == x.start_ms,
    ensures
        transcript::in_order(list.map_values(h), h(l)) == transcript::in_order(list, l).map_values(
            h,
        ),
    decreases list.len(),
{
    let m = list.map_values(h);
    if list.len() > 0 && list.last().start_ms > l.start_ms {
        lemma_start_kept(list.drop_last(), l, h);
        assert(m.drop_last() == list.drop_last().map_values(h));
        assert(m.last() == h(list.last()));
        assert(transcript::in_order(list, l).map_values(h) == transcript::in_order(
            list.drop_last(),
            l,
        ).map_values(h).push(h(list.last())));
    } else {
        if list.len() > 0 {
            assert(m.last() == h(list.last()));
        }
        assert(list.push(l).map_values(h) == m.push(h(l)));
    }
}

proof fn lemma_by_start_map(lines: Seq<LineText>, h: spec_fn(LineText) -> LineText)
    requires
        forall|x: LineText| (#[trigger] h(x)).start_ms == x.start_ms,
    ensures
        transcript::by_start(lines.map_values(h)) == transcript::by_start(lines).map_values(h),
    decreases lines.len(),
{
    let m = lines.map_values(h);
    if lines.len() > 0 {
        lemma_by_start_map(lines.drop_last(), h);
        assert(m.drop_last() == lines.drop_last().map_values(h));
        assert(m.last() == h(lines.last()));
        lemma_start_kept(transcript::by_start(lines.drop_last()), lines.last(), h);
    } else {
        assert(m == lines);
        assert(lines.map_values(h) == lines);
    }
}

/// Naming a speaker takes effect on every line that carried the label, and on
/// no other.
pub proof fn naming_takes_effect(
    records: Seq<RecordText>,
    edits: Seq<EditText>,
    label: Seq<char>,
    name: Seq<char>,
    now: Seq<char>,
)
    requires
        settled(edits),
    ensures
        ({
            let lines = transcript::told(records, edits, false);
            let plan = naming(lines, lines.len(), label, name, now);
            transcript::told(records, edits + plan, false) == lines.map_values(
                |l: LineText| renamed(l, label, name),
            )
        }),
{
    broadcast use vstd::seq_lib::group_to_multiset_ensures;

    let heard = transcript::all_heard(records);
    let f = transcript::folded(heard, edits, edits.len());
    let lines = transcript::told(records, edits, false);
    let plan = naming(lines, lines.len(), label, name, now);
    let h = |l: LineText| renamed(l, label, name);
    let all = edits + plan;
    lemma_heard_keys(records);
    lemma_naming(lines, lines.len(), label, name, now);
    transcript::edits_keep_times(heard, edits, edits.len());
    transcript::transcript_runs_forward(records, edits, false);
    assert forall|p: int| 0 <= p < plan.len() implies (#[trigger] plan[p]) is Speaker && name_in(
        plan[p],
    ) == name by {}
    let g = transcript::folded(heard, all, all.len());
    assert forall|z: int| 0 <= z < f.len() && !first_key(heard, z) implies (
    #[trigger] f[z]).speaker is None by {
        let first = choose|first: int| 0 <= first < z && key(heard[first]) == key(heard[z]);
        lemma_later_untouched(heard, edits, edits.len(), z, first);
    }
    assert forall|i: int| 0 <= i < f.len() implies g.len() == f.len() && #[trigger] g[i] == h(f[i]) by {
        if !first_key(heard, i) {
            let first = choose|first: int| 0 <= first < i && key(heard[first]) == key(heard[i]);
            lemma_later_untouched(heard, edits, edits.len(), i, first);
            lemma_later_untouched(heard, all, all.len(), i, first);
            assert(f[i].speaker is None);
        } else {
            lemma_names_applied(heard, edits, plan, name, plan.len(), i);
            let t = key(heard[i]);
            assert(key(f[i]) == t);
            assert(hit(plan, plan.len(), t) <==> f[i].speaker == Some(label)) by {
                if hit(plan, plan.len(), t) {
                    let p = choose|p: int| 0 <= p < plan.len() && names(#[trigger] plan[p], t);
                    let q = choose|q: int|
                        0 <= q < lines.len() && (#[trigger] lines[q]).speaker == Some(label)
                            && plan[p] == (EditText::Speaker {
                            target: key(lines[q]),
                            name,
                            by: "user"@,
                            at: now,
                        });
                    assert(lines.contains(lines[q]));
                    assert(lines.to_multiset().count(lines[q]) > 0);
                    assert(f.contains(lines[q]));
                    let z = choose|z: int| 0 <= z < f.len() && f[z] == lines[q];
                    assert(key(f[z]) == key(heard[z]));
                    assert(first_key(heard, z));
                    if z < i {
                        assert(key(heard[z]) != key(heard[i]));
                    }
                    if i < z {
                        assert(key(heard[i]) != key(heard[z]));
                    }
                }
                if f[i].speaker == Some(label) {
                    assert(f.contains(f[i]));
                    assert(f.to_multiset().count(f[i]) > 0);
                    assert(lines.contains(f[i]));
                    let q = choose|q: int| 0 <= q < lines.len() && lines[q] == f[i];
                    assert(lines[q].speaker == Some(label));
                    let e = EditText::Speaker { target: key(lines[q]), name, by: "user"@, at: now };
                    assert(plan.contains(e));
                    let p = choose|p: int| 0 <= p < plan.len() && plan[p] == e;
                    assert(names(plan[p], t));
                }
            }
        }
    }
    if f.len() > 0 {
        assert(g[0] == h(f[0]));
    } else {
        transcript::edits_keep_times(heard, all, all.len());
    }
    assert(g == f.map_values(h));
    lemma_by_start_map(f, h);
}

/// The samples that a span has in common with `[a, b)`.
pub open spec fn both(s: Span, a: int, b: int) -> Set<int> {
    Set::new(|x: int| a <= x < b && s.start <= x < s.end)
}

/// What a span shares with a stretch is counted sample by sample: every sample that
/// is in both, and no other. It is never more than the stretch is long, nor than the
/// span is.
pub proof fn only_samples_in_both_count(s: Span, a: int, b: int)
    requires
        a <= b,
        s.start <= s.end,
    ensures
        both(s, a, b).finite(),
        shared_samples(s, a, b) == both(s, a, b).len(),
        shared_samples(s, a, b) <= b - a,
        shared_samples(s, a, b) <= s.end - s.start,
{
    let lo = if a > s.start {
        a
    } else {
        s.start as int
    };
    let hi = if b < s.end {
        b
    } else {
        s.end as int
    };
    if hi > lo {
        vstd::set_lib::lemma_int_range(lo, hi);
        assert(both(s, a, b) == vstd::set_lib::set_int_range(lo, hi));
    } else {
        assert(both(s, a, b) == Set::<int>::empty());
    }
}

/// What a speaker holds of a stretch is what its spans share with it, added up: one
/// more span adds the samples that are in both to what its own speaker holds, and
/// nothing to what anybody else does.
pub proof fn a_span_counts_for_its_speaker(
    spans: Seq<Span>,
    s: Span,
    a: int,
    b: int,
    speaker: usize,
)
    requires
        a <= b,
        s.start <= s.end,
    ensures
        held(Seq::<Span>::empty(), a, b, speaker) == 0,
        held(spans.push(s), a, b, speaker) == held(spans, a, b, speaker) + (if s.speaker
            == speaker {
            both(s, a, b).len() as int
        } else {
            0
        }),
{
    only_samples_in_both_count(s, a, b);
    assert(spans.push(s).drop_last() == spans);
}

/// A line goes to whoever holds most of it: nobody holds more, nobody with a lower
/// index as much, and if anybody holds any of it at all it goes to somebody.
pub proof fn the_line_goes_to_who_holds_most(spans: Seq<Span>, a: int, b: int, t: usize)
    requires
        0 <= a,
        0 <= b,
    ensures
        match owner(spans, a, b) {
            Some(s) => {
                &&& held(spans, a, b, s) > 0
                &&& held(spans, a, b, t) <= held(spans, a, b, s)
                &&& t < s ==> held(spans, a, b, t) < held(spans, a, b, s)
            },
            None => held(spans, a, b, t) == 0,
        },
{
    lemma_held_bound(spans, a, b, t);
    match owner(spans, a, b) {
        Some(s) => {
            assert(holds_most(spans, a, b, s));
        },
        None => {
            if held(spans, a, b, t) > 0 {
                lemma_somebody_leads(spans, a, b, usize::MAX as int, t);
                let s = choose|s: usize|
                    held(spans, a, b, s) > 0 && #[trigger] leads(spans, a, b, s, usize::MAX as int);
                assert forall|u: usize| #[trigger] held(spans, a, b, u) <= held(
                    spans,
                    a,
                    b,
                    s,
                ) by {}
                assert(holds_most(spans, a, b, s));
            }
        },
    }
}

/// Nobody up to index `n` holds more, nobody with a lower index as much.
spec fn leads(spans: Seq<Span>, a: int, b: int, s: usize, n: int) -> bool {
    &&& s <= n
    &&& forall|u: usize| u <= n ==> #[trigger] held(spans, a, b, u) <= held(spans, a, b, s)
    &&& forall|u: usize| u < s ==> #[trigger] held(spans, a, b, u) < held(spans, a, b, s)
}

proof fn lemma_somebody_leads(spans: Seq<Span>, a: int, b: int, n: int, t: usize)
    requires
        0 <= a,
        0 <= b,
        t <= n <= usize::MAX,
        held(spans, a, b, t) > 0,
    ensures
        exists|s: usize| held(spans, a, b, s) > 0 && #[trigger] leads(spans, a, b, s, n),
    decreases n,
{
    let last = n as usize;
    if t == n && forall|u: usize| u < n ==> #[trigger] held(spans, a, b, u) < held(spans, a, b, t) {
        assert(leads(spans, a, b, t, n));
    } else {
        let w = if t < n {
            t
        } else {
            choose|u: usize| u < n && #[trigger] held(spans, a, b, u) >= held(spans, a, b, t)
        };
        assert(w < n && held(spans, a, b, w) > 0);
        lemma_somebody_leads(spans, a, b, n - 1, w);
        let s = choose|s: usize|
            held(spans, a, b, s) > 0 && #[trigger] leads(spans, a, b, s, n - 1);
        if held(spans, a, b, last) > held(spans, a, b, s) {
            assert forall|u: usize| u < last implies #[trigger] held(spans, a, b, u) < held(
                spans,
                a,
                b,
                last,
            ) by {}
            assert(leads(spans, a, b, last, n));
        } else {
            assert forall|u: usize| u <= n implies #[trigger] held(spans, a, b, u) <= held(
                spans,
                a,
                b,
                s,
            ) by {}
            assert(leads(spans, a, b, s, n));
        }
    }
}

/// A millisecond is sixteen samples.
pub proof fn a_millisecond_is_sixteen_samples(ms: u64)
    ensures
        sample_at(ms) == 16 * ms,
{
}

/// A run undoes each label a machine left standing, once, and nothing else.
pub proof fn only_standing_machine_labels_are_undone(
    existing: Seq<EditText>,
    k: nat,
    now: Seq<char>,
    seq: nat,
)
    requires
        k <= existing.len(),
    ensures
        ({
            let plan = undoing(existing, k, now);
            let mine = EditText::Revert { target_seq: seq, by: "diarize"@, at: now };
            &&& plan.contains(mine) <==> seq < k && !transcript::reverted(existing, seq as int) && (
            existing[seq as int] matches EditText::Speaker { by, .. } && by == "diarize"@)
            &&& forall|p: int|
                0 <= p < plan.len() ==> (#[trigger] plan[p] matches EditText::Revert {
                    target_seq,
                    by,
                    at,
                } && target_seq < k && by == "diarize"@ && at == now)
            &&& forall|p: int, q: int|
                0 <= p < q < plan.len() ==> (#[trigger] plan[p])->Revert_target_seq < (
                #[trigger] plan[q])->Revert_target_seq
        }),
    decreases k,
{
    let plan = undoing(existing, k, now);
    let mine = EditText::Revert { target_seq: seq, by: "diarize"@, at: now };
    if k > 0 {
        let front = undoing(existing, (k - 1) as nat, now);
        only_standing_machine_labels_are_undone(existing, (k - 1) as nat, now, seq);
        if plan.len() > front.len() {
            if seq == k - 1 {
                assert(plan[front.len() as int] == mine);
            } else if front.contains(mine) {
                let p = front.index_of(mine);
                assert(plan[p] == mine);
            } else if plan.contains(mine) {
                let p = plan.index_of(mine);
                assert(p < front.len());
                assert(front[p] == mine);
            }
        }
    }
}

/// The lines of a track are labelled one by one, in order, each with what its own
/// time says.
pub proof fn records_are_labelled_one_by_one(
    existing: Seq<EditText>,
    records: Seq<RecordText>,
    track: Track,
    spans: Seq<Span>,
    now: Seq<char>,
)
    ensures
        labelling(existing, records, track, spans, records.len(), now) == records.filter(
            |r: RecordText| r.track == track,
        ).filter_map(|r: RecordText| labelled(existing, spans, r, now)),
{
    lemma_labelling_front(existing, records, track, spans, records.len(), now);
    assert(records.take(records.len() as int) == records);
}

proof fn lemma_labelling_front(
    existing: Seq<EditText>,
    records: Seq<RecordText>,
    track: Track,
    spans: Seq<Span>,
    k: nat,
    now: Seq<char>,
)
    requires
        k <= records.len(),
    ensures
        labelling(existing, records, track, spans, k, now) == records.take(k as int).filter(
            |r: RecordText| r.track == track,
        ).filter_map(|r: RecordText| labelled(existing, spans, r, now)),
    decreases k,
{
    reveal(Seq::filter);
    reveal(Seq::filter_map);
    let on = |r: RecordText| r.track == track;
    let f = |r: RecordText| labelled(existing, spans, r, now);
    let part = records.take(k as int);
    if k > 0 {
        lemma_labelling_front(existing, records, track, spans, (k - 1) as nat, now);
        assert(part.drop_last() == records.take(k - 1));
        assert(part.last() == records[k - 1]);
        let front = part.drop_last().filter(on);
        if records[k - 1].track == track {
            let all = front.push(part.last());
            assert(part.filter(on) == all);
            assert(all.take(all.len() as int) == all);
            assert(all.take(all.len() - 1) == front);
            all.lemma_filter_map_take_succ(f, all.len() - 1);
        } else {
            assert(part.filter(on) == front);
        }
    }
}

/// There are as many speakers as the highest index used has room for, and no more.
pub proof fn speakers_are_counted(spans: Seq<Span>)
    ensures
        forall|i: int| 0 <= i < spans.len() ==> (#[trigger] spans[i]).speaker < speaker_count(spans),
        spans.len() == 0 ==> speaker_count(spans) == 0,
        spans.len() > 0 ==> exists|i: int|
            0 <= i < spans.len() && (#[trigger] spans[i]).speaker + 1 == speaker_count(spans),
    decreases spans.len(),
{
    if spans.len() > 0 {
        let front = spans.drop_last();
        speakers_are_counted(front);
        assert forall|i: int| 0 <= i < spans.len() implies (#[trigger] spans[i]).speaker
            < speaker_count(spans) by {
            if i < front.len() {
                assert(front[i] == spans[i]);
            }
        }
        if spans.last().speaker + 1 > speaker_count(front) {
            assert(spans[spans.len() - 1].speaker + 1 == speaker_count(spans));
        } else {
            let i = choose|i: int|
                0 <= i < front.len() && (#[trigger] front[i]).speaker + 1 == speaker_count(front);
            assert(spans[i].speaker + 1 == speaker_count(spans));
        }
    }
}

/// The first line of the first `k` that carries a label.
pub open spec fn first_with(lines: Seq<LineText>, k: int, l: Seq<char>, i: int) -> bool {
    &&& 0 <= i < k
    &&& lines[i].speaker == Some(l)
    &&& forall|j: int| 0 <= j < i ==> (#[trigger] lines[j]).speaker != Some(l)
}

/// Every label that nobody has named is offered once, with the first thing that
/// voice said, in the order in which the voices first speak.
pub proof fn each_unnamed_voice_is_offered_once(lines: Seq<LineText>, k: nat) -> (at: Seq<int>)
    requires
        k <= lines.len(),
    ensures
        ({
            let list = unnamed(lines, k);
            &&& at.len() == list.len()
            &&& forall|p: int|
                0 <= p < list.len() ==> {
                    &&& first_with(lines, k as int, list[p].0, #[trigger] at[p])
                    &&& generated(list[p].0)
                    &&& list[p].1 == text::trim(lines[at[p]].text)
                }
            &&& forall|p: int, q: int| 0 <= p < q < at.len() ==> #[trigger] at[p] < #[trigger] at[q]
            &&& forall|i: int|
                0 <= i < k && ((#[trigger] lines[i]).speaker matches Some(l) && generated(l))
                    ==> offered(list, lines[i].speaker->0)
        }),
    decreases k,
{
    let list = unnamed(lines, k);
    if k == 0 {
        Seq::empty()
    } else {
        let front = unnamed(lines, (k - 1) as nat);
        let was = each_unnamed_voice_is_offered_once(lines, (k - 1) as nat);
        let at = if list.len() > front.len() {
            was.push(k - 1)
        } else {
            was
        };
        assert forall|p: int| 0 <= p < list.len() implies {
            &&& first_with(lines, k as int, list[p].0, #[trigger] at[p])
            &&& generated(list[p].0)
            &&& list[p].1 == text::trim(lines[at[p]].text)
        } by {
            if p < front.len() {
                assert(first_with(lines, k - 1, front[p].0, was[p]));
            } else {
                let l = list[p].0;
                assert forall|j: int| 0 <= j < k - 1 implies (#[trigger] lines[j]).speaker != Some(
                    l,
                ) by {
                    if lines[j].speaker == Some(l) {
                        assert(offered(front, l));
                    }
                }
            }
        }
        assert forall|p: int, q: int| 0 <= p < q < at.len() implies #[trigger] at[p]
            < #[trigger] at[q] by {
            if q == was.len() {
                assert(first_with(lines, k - 1, front[p].0, was[p]));
            }
        }
        assert forall|i: int|
            0 <= i < k && ((#[trigger] lines[i]).speaker matches Some(l) && generated(
                l,
            )) implies offered(list, lines[i].speaker->0) by {
            let l = lines[i].speaker->0;
            if offered(front, l) {
                let p = choose|p: int| 0 <= p < front.len() && (#[trigger] front[p]).0 == l;
                assert(list[p].0 == l);
            } else {
                assert(i == k - 1);
                assert(list[front.len() as int].0 == l);
            }
        }
        at
    }
}

/// The names that stand on the lines are all of them, in order.
pub proof fn every_speaker_is_spoken_of(lines: Seq<LineText>)
    ensures
        spoken(lines) == lines.filter_map(|l: LineText| l.speaker),
    decreases lines.len(),
{
    reveal(Seq::filter_map);
    let f = |l: LineText| l.speaker;
    if lines.len() > 0 {
        every_speaker_is_spoken_of(lines.drop_last());
        lines.lemma_filter_map_take_succ(f, lines.len() - 1);
        assert(lines.take(lines.len() as int) == lines);
        assert(lines.take(lines.len() - 1) == lines.drop_last());
    }
}

/// Speakers have different labels, on one track and across the two.
pub proof fn labels_tell_speakers_apart(t: Track, s: usize, u: Track, v: usize)
    requires
        label(t, s) == label(u, v),
    ensures
        t == u,
        s == v,
{
    reveal_strlit("room");
    reveal_strlit("call");
    reveal_strlit("-");
    assert(label(t, s)[0] == t.word()[0]);
    assert(label(u, v)[0] == u.word()[0]);
    let m = text::decimal((s + 1) as nat);
    let n = text::decimal((v + 1) as nat);
    assert(label(t, s).skip(5) == m);
    assert(label(u, v).skip(5) == n);
    text::decimals_read_back((s + 1) as nat);
    text::decimals_read_back((v + 1) as nat);
}

/// A label the diarizer gives looks generated, so nobody has to be told that it is
/// no name.
pub proof fn labels_look_generated(t: Track, s: usize)
    ensures
        generated(label(t, s)),
{
    reveal_strlit("room");
    reveal_strlit("call");
    reveal_strlit("-");
    reveal_strlit("room-");
    reveal_strlit("call-");
    let n = text::decimal((s + 1) as nat);
    let l = label(t, s);
    text::decimals_read_back((s + 1) as nat);
    assert(l.skip(5) == n);
    if t == Track::Room {
        assert(l.take(5) == "room-"@);
    } else {
        assert(l.take(5) == "call-"@);
    }
}

/// A label counts from one: the first speaker of a track is its speaker one.
pub proof fn labels_count_from_one(t: Track, s: usize)
    ensures
        text::starts_with(label(t, s), t.word() + seq!['-']),
        label(t, s).skip(t.word().len() as int + 1) == text::decimal((s + 1) as nat),
        text::digits_value(label(t, s).skip(t.word().len() as int + 1)) == Some((s + 1) as nat),
{
    reveal_strlit("-");
    assert("-"@ == seq!['-']);
    let l = label(t, s);
    assert(l.take(t.word().len() as int + 1) == t.word() + seq!['-']);
    assert(l.skip(t.word().len() as int + 1) == text::decimal((s + 1) as nat));
    text::decimals_read_back((s + 1) as nat);
}

/// A label looks generated exactly if it is a track, a dash and digits.
pub proof fn a_generated_label_is_a_track_and_a_number(t: Track, d: Seq<char>, l: Seq<char>)
    ensures
        d.len() > 0 && (forall|i: int| 0 <= i < d.len() ==> '0' <= #[trigger] d[i] <= '9')
            ==> generated(t.word() + seq!['-'] + d),
        generated(l) ==> l.len() > 5 && (l.take(5) == Track::Room.word() + seq!['-'] || l.take(5)
            == Track::Call.word() + seq!['-']) && forall|i: int|
            5 <= i < l.len() ==> '0' <= #[trigger] l[i] <= '9',
{
    reveal_strlit("room");
    reveal_strlit("call");
    reveal_strlit("room-");
    reveal_strlit("call-");
    let s = t.word() + seq!['-'] + d;
    assert(s.skip(5) == d);
    assert("room"@ + seq!['-'] == "room-"@);
    assert("call"@ + seq!['-'] == "call-"@);
    assert(s.take(5) == t.word() + seq!['-']);
    if generated(l) {
        assert forall|i: int| 5 <= i < l.len() implies '0' <= #[trigger] l[i] <= '9' by {
            assert(l.skip(5)[i - 5] == l[i]);
        }
    }
}

/// A line is protected exactly if somebody but the diarizer named it and that still
/// stands.
pub proof fn a_standing_human_name_protects(existing: Seq<EditText>, t: Target)
    ensures
        protected(existing, t) <==> exists|k: int|
            0 <= k < existing.len() && !transcript::reverted(existing, k) && (
            #[trigger] existing[k] matches EditText::Speaker { target, by, .. } && target == t && by
                != "diarize"@),
{
    if protected(existing, t) {
        let k = choose|k: int|
            0 <= k < existing.len() && !transcript::reverted(existing, k) && names(
                #[trigger] existing[k],
                t,
            ) && !by_machine(existing[k]);
        assert(existing[k] matches EditText::Speaker { target, by, .. } && target == t && by
            != "diarize"@);
    }
}

/// Naming a label writes one edit for every line that carries it, in order, each in
/// a person's name.
pub proof fn one_edit_names_one_line(
    lines: Seq<LineText>,
    label: Seq<char>,
    name: Seq<char>,
    now: Seq<char>,
)
    ensures
        naming(lines, lines.len(), label, name, now) == lines.filter(
            |l: LineText| l.speaker == Some(label),
        ).map_values(
            |l: LineText|
                EditText::Speaker {
                    target: Target { track: l.track, start_ms: l.start_ms },
                    name,
                    by: "user"@,
                    at: now,
                },
        ),
{
    lemma_naming_front(lines, lines.len(), label, name, now);
    assert(lines.take(lines.len() as int) == lines);
}

proof fn lemma_naming_front(
    lines: Seq<LineText>,
    k: nat,
    label: Seq<char>,
    name: Seq<char>,
    now: Seq<char>,
)
    requires
        k <= lines.len(),
    ensures
        naming(lines, k, label, name, now) == lines.take(k as int).filter(
            |l: LineText| l.speaker == Some(label),
        ).map_values(
            |l: LineText|
                EditText::Speaker {
                    target: Target { track: l.track, start_ms: l.start_ms },
                    name,
                    by: "user"@,
                    at: now,
                },
        ),
    decreases k,
{
    reveal(Seq::filter);
    let p = |l: LineText| l.speaker == Some(label);
    let f = |l: LineText|
        EditText::Speaker {
            target: Target { track: l.track, start_ms: l.start_ms },
            name,
            by: "user"@,
            at: now,
        };
    let part = lines.take(k as int);
    if k > 0 {
        lemma_naming_front(lines, (k - 1) as nat, label, name, now);
        assert(part.drop_last() == lines.take(k - 1));
        assert(part.last() == lines[k - 1]);
        let front = part.drop_last().filter(p);
        assert(front.push(part.last()).map_values(f) == front.map_values(f).push(f(part.last())));
    } else {
        assert(part.map_values(f) == Seq::<EditText>::empty());
    }
}

/// A session is refused if nothing was transcribed, or if no track of it is left.
pub proof fn words_and_audio_are_needed(
    dir: Seq<char>,
    records: nat,
    has_room: bool,
    has_call: bool,
)
    ensures
        refusal(dir, records, has_room, has_call) is None <==> records > 0 && (has_room
            || has_call),
{
}

/// A line gets a label exactly if nobody has named it and somebody holds some of it.
/// The label is of whoever holds most, points at the line, and is the diarizer's.
pub proof fn a_label_is_of_who_holds_most(
    existing: Seq<EditText>,
    spans: Seq<Span>,
    r: RecordText,
    now: Seq<char>,
)
    ensures
        labelled(existing, spans, r, now) is Some <==> !protected(
            existing,
            Target { track: r.track, start_ms: r.start_ms },
        ) && owner(spans, 16 * r.start_ms, 16 * r.end_ms) is Some,
        labelled(existing, spans, r, now) matches Some(e) ==> e == (EditText::Speaker {
            target: Target { track: r.track, start_ms: r.start_ms },
            name: label(r.track, owner(spans, 16 * r.start_ms, 16 * r.end_ms)->0),
            by: "diarize"@,
            at: now,
        }),
{
    a_millisecond_is_sixteen_samples(r.start_ms);
    a_millisecond_is_sixteen_samples(r.end_ms);
}

} // verus!
