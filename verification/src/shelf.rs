//! The sessions folder: listing it, finding what a crash left behind, and
//! ageing audio out of it.

use crate::text;
use crate::text::{insert_sorted, jsonl_records, string_before};
use vstd::prelude::*;

verus! {

/// One thing in the sessions folder.
#[derive(Debug)]
pub struct Entry {
    pub name: String,
    pub is_dir: bool,
}

/// The names of the directories, in the order they are found.
pub open spec fn dirs(entries: Seq<Entry>) -> Seq<Seq<char>>
    decreases entries.len(),
{
    if entries.len() == 0 {
        Seq::empty()
    } else if entries.last().is_dir {
        dirs(entries.drop_last()).push(entries.last().name@)
    } else {
        dirs(entries.drop_last())
    }
}

/// Every session directory, oldest first. Session ids are timestamps, so sorting
/// by name sorts by time — and a loose file in the folder is left out.
pub fn list(entries: &[Entry]) -> (r: Vec<String>)
    ensures
        text::views(r@) == text::sorted(dirs(entries@)),
{
    let mut out: Vec<String> = Vec::new();
    let mut i: usize = 0;
    proof {
        assert(entries@.take(0) == Seq::<Entry>::empty());
        assert(text::views(out@) == Seq::<Seq<char>>::empty());
    }
    while i < entries.len()
        invariant
            i <= entries@.len(),
            text::views(out@) == text::sorted(dirs(entries@.take(i as int))),
        decreases entries@.len() - i,
    {
        proof {
            assert(entries@.take(i + 1).drop_last() == entries@.take(i as int));
            assert(entries@.take(i + 1).last() == entries@[i as int]);
            let front = dirs(entries@.take(i as int));
            assert(front.push(entries@[i as int].name@).drop_last() == front);
        }
        if entries[i].is_dir {
            insert_sorted(&mut out, entries[i].name.as_str());
        }
        i = i + 1;
    }
    proof {
        assert(entries@.take(entries@.len() as int) == entries@);
    }
    out
}

/// The most recently written session: the last of the list.
pub fn latest(entries: &[Entry]) -> (r: Option<String>)
    ensures
        ({
            let all = text::sorted(dirs(entries@));
            match r {
                Some(s) => all.len() > 0 && s@ == all.last(),
                None => all.len() == 0,
            }
        }),
{
    let mut all: Vec<String> = list(entries);
    let ghost v = text::views(all@);
    proof {
        assert(v.len() == all@.len());
        if v.len() > 0 {
            assert(v.last() == all@[all@.len() - 1]@);
        }
    }
    all.pop()
}

/// No session sorts after the latest one.
pub proof fn latest_is_last(entries: Seq<Entry>, i: int)
    requires
        0 <= i < entries.len(),
        entries[i].is_dir,
    ensures
        text::sorted(dirs(entries)).len() > 0,
        !text::before(text::sorted(dirs(entries)).last(), entries[i].name@),
{
    broadcast use vstd::seq_lib::group_to_multiset_ensures;

    let all = text::sorted(dirs(entries));
    text::sorting_orders(dirs(entries));
    lemma_dirs_contains(entries, i);
    let x = entries[i].name@;
    assert(dirs(entries).to_multiset().count(x) > 0);
    assert(all.contains(x));
    let k = choose|k: int| 0 <= k < all.len() && all[k] == x;
    text::lemma_before_total(x, x);
    if k < all.len() - 1 {
        assert(!text::before(all[all.len() - 1], all[k]));
    }
}

proof fn lemma_dirs_contains(entries: Seq<Entry>, i: int)
    requires
        0 <= i < entries.len(),
        entries[i].is_dir,
    ensures
        dirs(entries).contains(entries[i].name@),
    decreases entries.len(),
{
    let front = entries.drop_last();
    if i == entries.len() - 1 {
        assert(dirs(entries)[dirs(front).len() as int] == entries[i].name@);
    } else {
        lemma_dirs_contains(front, i);
        let k = choose|k: int| 0 <= k < dirs(front).len() && dirs(front)[k] == entries[i].name@;
        assert(dirs(entries)[k] == entries[i].name@);
    }
}

/// What is known of a session directory without opening its files.
#[derive(Debug)]
pub struct SessionFacts {
    pub name: String,
    /// `session.json` is there.
    pub has_meta: bool,
    /// `transcript.md` is there.
    pub has_transcript: bool,
    /// `audio/room.wav` is there.
    pub has_room: bool,
    /// `audio/call.wav` is there.
    pub has_call: bool,
    /// A capture is still writing its scratch audio.
    pub growing: bool,
    /// The live process that holds the transcription lock.
    pub transcriber: Option<u32>,
}

/// The audio was written, the transcript never was, and nobody is at work on
/// either.
pub open spec fn awaits(f: SessionFacts) -> bool {
    &&& f.has_meta
    &&& !f.has_transcript
    &&& f.has_room || f.has_call
    &&& !f.growing
    &&& f.transcriber is None
}

pub open spec fn awaiting(facts: Seq<SessionFacts>) -> Seq<Seq<char>>
    decreases facts.len(),
{
    if facts.len() == 0 {
        Seq::empty()
    } else if awaits(facts.last()) {
        awaiting(facts.drop_last()).push(facts.last().name@)
    } else {
        awaiting(facts.drop_last())
    }
}

/// Sessions whose audio was written and whose transcript never was, in the order
/// given — what a crash mid-queue leaves behind, and what is queued again at
/// launch. The raw transcript is deliberately not consulted: a crash after the
/// transcriber created it would otherwise exclude the session for ever.
pub fn captured_awaiting_transcript(facts: &[SessionFacts]) -> (r: Vec<String>)
    ensures
        text::views(r@) == awaiting(facts@),
{
    let mut out: Vec<String> = Vec::new();
    let mut i: usize = 0;
    proof {
        assert(facts@.take(0) == Seq::<SessionFacts>::empty());
        assert(text::views(out@) == Seq::<Seq<char>>::empty());
    }
    while i < facts.len()
        invariant
            i <= facts@.len(),
            text::views(out@) == awaiting(facts@.take(i as int)),
        decreases facts@.len() - i,
    {
        let f: &SessionFacts = &facts[i];
        proof {
            assert(facts@.take(i + 1).drop_last() == facts@.take(i as int));
            assert(facts@.take(i + 1).last() == *f);
        }
        if f.has_meta && !f.has_transcript && (f.has_room || f.has_call) && !f.growing
            && f.transcriber.is_none() {
            let name: String = f.name.clone();
            proof {
                assert(text::views(out@.push(name)) == text::views(out@).push(name@));
            }
            out.push(name);
        }
        i = i + 1;
    }
    proof {
        assert(facts@.take(facts@.len() as int) == facts@);
    }
    out
}

/// A raw transcript holds at least one line that is not blank.
pub open spec fn has_words(raw: Option<Seq<char>>) -> bool {
    raw is Some && text::records_of(text::lines(raw->0)).len() > 0
}

/// Whether a session's raw transcript holds at least one transcribed line.
/// Anything without one is not a session at all, and is left alone.
pub fn has_transcribed_words(raw: Option<&str>) -> (r: bool)
    ensures
        r == has_words(
            match raw {
                Some(s) => Some(s@),
                None => None,
            },
        ),
{
    match raw {
        Some(s) => {
            let records: Vec<String> = jsonl_records(s);
            proof {
                assert(text::views(records@).len() == records@.len());
            }
            records.len() > 0
        },
        None => false,
    }
}

/// What a sweep looks at in one entry of the sessions folder.
#[derive(Debug)]
pub struct Shelved {
    pub is_symlink: bool,
    /// `transcript.md` is there.
    pub has_transcript: bool,
    /// The raw transcript holds at least one line.
    pub has_words: bool,
    /// How old each file under `audio/` is, in whole seconds; `None` where that
    /// cannot be told, zero for one from the future.
    pub track_ages: Vec<Option<u64>>,
}

/// The audio of this entry may be aged out at all. Never through a symlink;
/// never before the transcript is finished; and never on the word of a
/// transcript with no words behind it, which is exactly when the audio is still
/// the only record.
pub open spec fn sweepable(s: Shelved) -> bool {
    !s.is_symlink && s.has_transcript && s.has_words
}

impl Shelved {
    /// Whether a sweep with this retention goes through the entry's audio, and tidies
    /// the folder away where that leaves it empty.
    pub fn may_age_out(&self, keep_days: Option<u32>) -> (r: bool)
        ensures
            r == (keep_days is Some && sweepable(*self)),
    {
        keep_days.is_some() && !self.is_symlink && self.has_transcript && self.has_words
    }
}

/// Seconds in the retention window.
pub open spec fn window(days: u32) -> nat {
    (days * 24 * 60 * 60) as nat
}

/// Track `t` of entry `e` is to be deleted.
pub open spec fn swept(shelf: Seq<Shelved>, keep_days: Option<u32>, e: int, t: int) -> bool {
    &&& keep_days is Some
    &&& 0 <= e < shelf.len()
    &&& 0 <= t < shelf[e].track_ages@.len()
    &&& sweepable(shelf[e])
    &&& (shelf[e].track_ages@[t] matches Some(age) && age >= window(keep_days->0))
}

/// The tracks of entry `e` to be deleted, among its first `t`.
pub open spec fn sweep_of(shelf: Seq<Shelved>, keep_days: Option<u32>, e: int, t: nat) -> Seq<
    (int, int),
>
    decreases t,
{
    if t == 0 {
        Seq::empty()
    } else {
        let front = sweep_of(shelf, keep_days, e, (t - 1) as nat);
        if swept(shelf, keep_days, e, t - 1) {
            front.push((e, t - 1))
        } else {
            front
        }
    }
}

/// Everything to be deleted from the first `e` entries.
pub open spec fn sweep(shelf: Seq<Shelved>, keep_days: Option<u32>, e: nat) -> Seq<(int, int)>
    decreases e,
{
    if e == 0 {
        Seq::empty()
    } else {
        sweep(shelf, keep_days, (e - 1) as nat) + sweep_of(
            shelf,
            keep_days,
            e - 1,
            shelf[e - 1].track_ages@.len(),
        )
    }
}

pub open spec fn places(v: Seq<(usize, usize)>) -> Seq<(int, int)> {
    v.map_values(|p: (usize, usize)| (p.0 as int, p.1 as int))
}

/// Which tracks are older than the retention window, as positions in the folder
/// and in the entry's audio. `None` keeps audio forever; `Some(0)` deletes it as
/// soon as the transcript exists. No transcript is ever touched.
///
/// Age is taken from the audio file itself rather than its session directory, so
/// renaming a speaker months later does not resurrect the recording.
pub fn sweep_audio(shelf: &[Shelved], keep_days: Option<u32>) -> (r: Vec<(usize, usize)>)
    ensures
        places(r@) == sweep(shelf@, keep_days, shelf@.len()),
{
    let mut out: Vec<(usize, usize)> = Vec::new();
    let days: u32 = match keep_days {
        Some(d) => d,
        None => {
            proof {
                lemma_sweep_none(shelf@, shelf@.len());
                assert(places(out@) == Seq::<(int, int)>::empty());
            }
            return out;
        },
    };
    let limit: u64 = days as u64 * 24 * 60 * 60;
    let mut e: usize = 0;
    proof {
        assert(places(out@) == Seq::<(int, int)>::empty());
    }
    while e < shelf.len()
        invariant
            e <= shelf@.len(),
            keep_days == Some(days),
            limit == window(days),
            places(out@) == sweep(shelf@, keep_days, e as nat),
        decreases shelf@.len() - e,
    {
        let s: &Shelved = &shelf[e];
        let open: bool = s.may_age_out(keep_days);
        let ghost before = places(out@);
        let mut t: usize = 0;
        proof {
            assert(before + Seq::<(int, int)>::empty() == before);
        }
        while t < s.track_ages.len()
            invariant
                e < shelf@.len(),
                *s == shelf@[e as int],
                open == sweepable(*s),
                t <= s.track_ages@.len(),
                keep_days == Some(days),
                limit == window(days),
                places(out@) == before + sweep_of(shelf@, keep_days, e as int, t as nat),
            decreases s.track_ages@.len() - t,
        {
            let old: bool = match s.track_ages[t] {
                Some(age) => age >= limit,
                None => false,
            };
            if open && old {
                proof {
                    assert(places(out@.push((e, t))) == places(out@).push((e as int, t as int)));
                    assert((before + sweep_of(shelf@, keep_days, e as int, t as nat)).push(
                        (e as int, t as int),
                    ) == before + sweep_of(shelf@, keep_days, e as int, t as nat).push(
                        (e as int, t as int),
                    ));
                }
                out.push((e, t));
            }
            t = t + 1;
        }
        e = e + 1;
    }
    out
}

proof fn lemma_sweep_none(shelf: Seq<Shelved>, e: nat)
    ensures
        sweep(shelf, None, e) == Seq::<(int, int)>::empty(),
    decreases e,
{
    if e > 0 {
        lemma_sweep_none(shelf, (e - 1) as nat);
        lemma_sweep_of_none(shelf, e - 1, shelf[e - 1].track_ages@.len());
    }
}

proof fn lemma_sweep_of_none(shelf: Seq<Shelved>, e: int, t: nat)
    ensures
        sweep_of(shelf, None, e, t) == Seq::<(int, int)>::empty(),
    decreases t,
{
    if t > 0 {
        lemma_sweep_of_none(shelf, e, (t - 1) as nat);
    }
}

/// A sweep deletes exactly the tracks that are old enough in entries whose
/// transcript is finished and has words: it never takes the only copy of a
/// conversation.
pub proof fn sweep_takes_only_what_is_safe(
    shelf: Seq<Shelved>,
    keep_days: Option<u32>,
    n: nat,
    e: int,
    t: int,
)
    requires
        n <= shelf.len(),
    ensures
        sweep(shelf, keep_days, n).contains((e, t)) <==> swept(shelf, keep_days, e, t) && e < n,
    decreases n,
{
    if n > 0 {
        sweep_takes_only_what_is_safe(shelf, keep_days, (n - 1) as nat, e, t);
        let last = n - 1;
        let k = shelf[last].track_ages@.len();
        lemma_sweep_of(shelf, keep_days, last, k, e, t);
        let front = sweep(shelf, keep_days, last as nat);
        let tail = sweep_of(shelf, keep_days, last, k);
        let all = front + tail;
        if all.contains((e, t)) {
            let i = choose|i: int| 0 <= i < all.len() && all[i] == (e, t);
            if i < front.len() {
                assert(front[i] == (e, t));
            } else {
                assert(tail[i - front.len()] == (e, t));
            }
        }
        if front.contains((e, t)) {
            let i = choose|i: int| 0 <= i < front.len() && front[i] == (e, t);
            assert(all[i] == (e, t));
        }
        if tail.contains((e, t)) {
            let i = choose|i: int| 0 <= i < tail.len() && tail[i] == (e, t);
            assert(all[front.len() + i] == (e, t));
        }
    }
}

proof fn lemma_sweep_of(
    shelf: Seq<Shelved>,
    keep_days: Option<u32>,
    last: int,
    k: nat,
    e: int,
    t: int,
)
    requires
        0 <= last < shelf.len(),
        k <= shelf[last].track_ages@.len(),
    ensures
        sweep_of(shelf, keep_days, last, k).contains((e, t)) <==> e == last && t < k && swept(
            shelf,
            keep_days,
            e,
            t,
        ),
    decreases k,
{
    if k > 0 {
        lemma_sweep_of(shelf, keep_days, last, (k - 1) as nat, e, t);
        let front = sweep_of(shelf, keep_days, last, (k - 1) as nat);
        let all = sweep_of(shelf, keep_days, last, k);
        if all.contains((e, t)) {
            let i = choose|i: int| 0 <= i < all.len() && all[i] == (e, t);
            if i < front.len() {
                assert(front[i] == (e, t));
            }
        }
        if front.contains((e, t)) {
            let i = choose|i: int| 0 <= i < front.len() && front[i] == (e, t);
            assert(all[i] == (e, t));
        }
        if e == last && t == k - 1 && swept(shelf, keep_days, e, t) {
            assert(all[front.len() as int] == (e, t));
        }
    }
}

/// With audio kept forever, nothing is deleted.
pub proof fn keeping_forever_deletes_nothing(shelf: Seq<Shelved>)
    ensures
        sweep(shelf, None, shelf.len()).len() == 0,
{
    lemma_sweep_none(shelf, shelf.len());
}

/// Written to within the last few seconds. A process killed mid-recording leaves
/// its scratch audio behind for ever, and without this check that corpse answers
/// to a request to stop.
pub fn is_growing(age_s: Option<u64>) -> (r: bool)
    ensures
        r == (age_s is Some && age_s->0 < 10),
{
    match age_s {
        Some(age) => age < 10,
        None => false,
    }
}

/// One session and whether its scratch audio is growing.
#[derive(Debug)]
pub struct Scratch {
    pub name: String,
    pub growing: bool,
}

/// Entry `i` is growing, and no growing entry sorts after it.
pub open spec fn is_live(entries: Seq<Scratch>, i: int) -> bool {
    &&& 0 <= i < entries.len()
    &&& entries[i].growing
    &&& forall|j: int|
        0 <= j < entries.len() && (#[trigger] entries[j]).growing ==> !text::before(
            entries[i].name@,
            entries[j].name@,
        )
}

/// The session currently being captured, if any: the last by name of those whose
/// scratch audio is growing.
pub fn live_session(entries: &[Scratch]) -> (r: Option<usize>)
    ensures
        match r {
            Some(i) => is_live(entries@, i as int),
            None => forall|j: int| 0 <= j < entries@.len() ==> !(#[trigger] entries@[j]).growing,
        },
{
    let mut best: Option<usize> = None;
    let mut i: usize = 0;
    while i < entries.len()
        invariant
            i <= entries@.len(),
            match best {
                Some(b) => b < i && entries@[b as int].growing && forall|j: int|
                    0 <= j < i && (#[trigger] entries@[j]).growing ==> !text::before(
                        entries@[b as int].name@,
                        entries@[j].name@,
                    ),
                None => forall|j: int| 0 <= j < i ==> !(#[trigger] entries@[j]).growing,
            },
        decreases entries@.len() - i,
    {
        if entries[i].growing {
            let later: bool = match best {
                Some(b) => string_before(entries[b].name.as_str(), entries[i].name.as_str()),
                None => true,
            };
            proof {
                let x = entries@[i as int].name@;
                text::lemma_before_total(x, x);
                if best is Some {
                    let b = entries@[best->0 as int].name@;
                    text::lemma_before_total(b, x);
                    assert forall|j: int|
                        0 <= j < i && (#[trigger] entries@[j]).growing && later implies !text::before(
                        x,
                        entries@[j].name@,
                    ) by {
                        let y = entries@[j].name@;
                        if text::before(x, y) {
                            text::lemma_before_trans(b, x, y);
                        }
                    }
                }
            }
            if later {
                best = Some(i);
            }
        }
        i = i + 1;
    }
    best
}

/// Which directory a request to stop is for, or why there is none.
pub fn stop_recording(asked: Option<&str>, live: Option<&str>, home: &str, is_dir: bool) -> (r: Result<
    String,
    String,
>)
    ensures
        match (asked, live) {
            (None, None) => r matches Err(e) && e@ == "no recording in progress under "@ + home@,
            (Some(d), _) => if is_dir {
                r matches Ok(x) && x@ == d@
            } else {
                r matches Err(e) && e@ == d@ + " is not a session directory"@
            },
            (None, Some(d)) => if is_dir {
                r matches Ok(x) && x@ == d@
            } else {
                r matches Err(e) && e@ == d@ + " is not a session directory"@
            },
        },
{
    let dir: &str = match asked {
        Some(d) => d,
        None => match live {
            Some(d) => d,
            None => {
                let mut e: String = "no recording in progress under ".to_owned();
                e.append(home);
                return Err(e);
            },
        },
    };
    if !is_dir {
        let mut e: String = dir.to_owned();
        e.append(" is not a session directory");
        return Err(e);
    }
    Ok(dir.to_owned())
}

/// Only directories are sessions, and all of them are.
pub proof fn directories_are_sessions(entries: Seq<Entry>)
    ensures
        dirs(entries) == entries.filter(|e: Entry| e.is_dir).map_values(|e: Entry| e.name@),
    decreases entries.len(),
{
    reveal(Seq::filter);
    let p = |e: Entry| e.is_dir;
    let f = |e: Entry| e.name@;
    if entries.len() > 0 {
        directories_are_sessions(entries.drop_last());
        let front = entries.drop_last().filter(p);
        assert(front.push(entries.last()).map_values(f) == front.map_values(f).push(
            entries.last().name@,
        ));
    } else {
        assert(entries.map_values(f) == Seq::<Seq<char>>::empty());
    }
}

/// The sessions that await a transcript are those whose capture was finished, with
/// audio on either track and no transcript, that nobody is writing or transcribing;
/// all of them, in order.
pub proof fn every_finished_capture_awaits_its_transcript(facts: Seq<SessionFacts>)
    ensures
        awaiting(facts) == facts.filter(
            |f: SessionFacts|
                f.has_meta && !f.has_transcript && !(!f.has_room && !f.has_call) && !f.growing
                    && f.transcriber is None,
        ).map_values(|f: SessionFacts| f.name@),
    decreases facts.len(),
{
    reveal(Seq::filter);
    let p = |f: SessionFacts|
        f.has_meta && !f.has_transcript && !(!f.has_room && !f.has_call) && !f.growing
            && f.transcriber is None;
    let g = |f: SessionFacts| f.name@;
    if facts.len() > 0 {
        every_finished_capture_awaits_its_transcript(facts.drop_last());
        let front = facts.drop_last().filter(p);
        assert(front.push(facts.last()).map_values(g) == front.map_values(g).push(
            facts.last().name@,
        ));
    } else {
        assert(facts.map_values(g) == Seq::<Seq<char>>::empty());
    }
}

/// A track goes if and only if audio is kept for some days, the entry is no link,
/// its transcript is finished and holds words, and the track is at least that many
/// days of 86,400 seconds old.
pub proof fn a_track_goes_when_its_days_are_up(
    shelf: Seq<Shelved>,
    keep_days: Option<u32>,
    e: int,
    t: int,
)
    requires
        0 <= e < shelf.len(),
        0 <= t < shelf[e].track_ages@.len(),
    ensures
        sweep(shelf, keep_days, shelf.len()).contains((e, t)) <==> (keep_days matches Some(days)
            && !shelf[e].is_symlink && shelf[e].has_transcript && shelf[e].has_words && (
        shelf[e].track_ages@[t] matches Some(age) && days * 86400 <= age)),
{
    sweep_takes_only_what_is_safe(shelf, keep_days, shelf.len(), e, t);
}

proof fn lemma_sweep_of_order(shelf: Seq<Shelved>, keep_days: Option<u32>, e: int, t: nat)
    ensures
        forall|i: int|
            0 <= i < sweep_of(shelf, keep_days, e, t).len() ==> (#[trigger] sweep_of(
                shelf,
                keep_days,
                e,
                t,
            )[i]).0 == e && 0 <= sweep_of(shelf, keep_days, e, t)[i].1 < t,
        forall|i: int, j: int|
            0 <= i < j < sweep_of(shelf, keep_days, e, t).len() ==> (#[trigger] sweep_of(
                shelf,
                keep_days,
                e,
                t,
            )[i]).1 < (#[trigger] sweep_of(shelf, keep_days, e, t)[j]).1,
    decreases t,
{
    if t > 0 {
        lemma_sweep_of_order(shelf, keep_days, e, (t - 1) as nat);
        let front = sweep_of(shelf, keep_days, e, (t - 1) as nat);
        let all = sweep_of(shelf, keep_days, e, t);
        assert forall|i: int| 0 <= i < all.len() implies (#[trigger] all[i]).0 == e && 0 <= all[i].1
            < t by {
            if i < front.len() {
                assert(all[i] == front[i]);
            }
        }
        assert forall|i: int, j: int| 0 <= i < j < all.len() implies (#[trigger] all[i]).1 < (
        #[trigger] all[j]).1 by {
            assert(all[i] == front[i]);
            if j < front.len() {
                assert(all[j] == front[j]);
            }
        }
    }
}

/// Nothing is deleted twice: what goes is listed entry by entry, track by track.
pub proof fn nothing_goes_twice(shelf: Seq<Shelved>, keep_days: Option<u32>, n: nat)
    requires
        n <= shelf.len(),
    ensures
        forall|i: int|
            0 <= i < sweep(shelf, keep_days, n).len() ==> 0 <= (#[trigger] sweep(
                shelf,
                keep_days,
                n,
            )[i]).0 < n,
        forall|i: int, j: int|
            0 <= i < j < sweep(shelf, keep_days, n).len() ==> {
                let a = #[trigger] sweep(shelf, keep_days, n)[i];
                let b = #[trigger] sweep(shelf, keep_days, n)[j];
                a.0 < b.0 || (a.0 == b.0 && a.1 < b.1)
            },
    decreases n,
{
    if n > 0 {
        nothing_goes_twice(shelf, keep_days, (n - 1) as nat);
        let front = sweep(shelf, keep_days, (n - 1) as nat);
        let back = sweep_of(shelf, keep_days, n - 1, shelf[n - 1].track_ages@.len());
        lemma_sweep_of_order(shelf, keep_days, n - 1, shelf[n - 1].track_ages@.len());
        let all = sweep(shelf, keep_days, n);
        assert forall|i: int| 0 <= i < all.len() implies 0 <= (#[trigger] all[i]).0 < n by {
            if i < front.len() {
                assert(all[i] == front[i]);
            } else {
                assert(all[i] == back[i - front.len()]);
            }
        }
        assert forall|i: int, j: int| 0 <= i < j < all.len() implies {
            let a = #[trigger] all[i];
            let b = #[trigger] all[j];
            a.0 < b.0 || (a.0 == b.0 && a.1 < b.1)
        } by {
            if i < front.len() {
                assert(all[i] == front[i]);
            } else {
                assert(all[i] == back[i - front.len()]);
            }
            if j < front.len() {
                assert(all[j] == front[j]);
            } else {
                assert(all[j] == back[j - front.len()]);
            }
        }
    }
}

proof fn lemma_lines_with_words(s: Seq<char>)
    ensures
        (exists|i: int| 0 <= i < s.len() && !text::white_space(#[trigger] s[i])) <==> exists|k: int|
            0 <= k < text::lines(s).len() && wordy(#[trigger] text::lines(s)[k]),
    decreases s.len(),
{
    let all = text::lines(s);
    let k = text::run_len(s, '\n');
    text::lemma_run_len(s, '\n');
    if s.len() > 0 && k < s.len() {
        let head = s.take(k as int);
        let rest = s.skip(k as int + 1);
        lemma_lines_with_words(rest);
        assert(all == seq![text::chomp(head)] + text::lines(rest));
        if exists|i: int| 0 <= i < s.len() && !text::white_space(#[trigger] s[i]) {
            let i = choose|i: int| 0 <= i < s.len() && !text::white_space(#[trigger] s[i]);
            if i < k {
                assert(head[i] == s[i]);
                assert(text::chomp(head)[i] == s[i]);
                assert(wordy(all[0]));
            } else {
                assert(i != k);
                assert(rest[i - k - 1] == s[i]);
                let j = choose|j: int|
                    0 <= j < text::lines(rest).len() && wordy(#[trigger] text::lines(rest)[j]);
                assert(all[j + 1] == text::lines(rest)[j]);
            }
        }
        if exists|j: int| 0 <= j < all.len() && wordy(#[trigger] all[j]) {
            let j = choose|j: int| 0 <= j < all.len() && wordy(#[trigger] all[j]);
            if j == 0 {
                let l = text::chomp(head);
                let i = choose|i: int| 0 <= i < l.len() && !text::white_space(#[trigger] l[i]);
                assert(s[i] == l[i]);
            } else {
                assert(text::lines(rest)[j - 1] == all[j]);
                let i = choose|i: int| 0 <= i < rest.len() && !text::white_space(#[trigger] rest[i]);
                assert(s[i + k + 1] == rest[i]);
            }
        }
    } else if s.len() > 0 {
        assert(all == seq![s]);
        assert(all[0] == s);
        assert(wordy(s) <==> exists|j: int| 0 <= j < all.len() && wordy(#[trigger] all[j])) by {
            if wordy(s) {
                assert(wordy(all[0]));
            }
        }
    }
}

/// A line with something on it.
spec fn wordy(l: Seq<char>) -> bool {
    exists|i: int| 0 <= i < l.len() && !text::white_space(#[trigger] l[i])
}

/// A raw transcript has words exactly if there is anything in it but white space.
pub proof fn anything_but_white_space_is_words(s: Seq<char>)
    ensures
        has_words(Some(s)) <==> exists|i: int|
            0 <= i < s.len() && !text::white_space(#[trigger] s[i]),
        !has_words(None),
{
    let ls = text::lines(s);
    lemma_lines_with_words(s);
    text::only_blank_lines_are_left_out(ls);
    let p = |l: Seq<char>|
        exists|i: int| 0 <= i < l.len() && !text::white_space(#[trigger] l[i]);
    assert(text::records_of(ls) == ls.filter(p));
    if ls.filter(p).len() > 0 {
        ls.lemma_filter_pred(p, 0);
        let x = ls.filter(p)[0];
        ls.lemma_filter_contains_rev(p, x);
        let k = ls.index_of(x);
        assert(wordy(ls[k]));
    }
    if exists|k: int| 0 <= k < ls.len() && wordy(#[trigger] ls[k]) {
        let k = choose|k: int| 0 <= k < ls.len() && wordy(#[trigger] ls[k]);
        assert(p(ls[k]));
        ls.lemma_filter_contains(p, k);
        assert(ls.filter(p).contains(ls[k]));
    }
}

/// The live session is one that is growing, and no growing one sorts after it.
pub proof fn the_last_growing_session_is_live(entries: Seq<Scratch>, i: int, j: int)
    requires
        is_live(entries, i),
        0 <= j < entries.len(),
        entries[j].growing,
    ensures
        0 <= i < entries.len(),
        entries[i].growing,
        entries[i].name@ == entries[j].name@ || text::before(
            entries[j].name@,
            entries[i].name@,
        ),
{
    text::lemma_before_total(entries[i].name@, entries[j].name@);
}

} // verus!
