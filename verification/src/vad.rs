//! Turning frame-by-frame voice activity into stretches of speech.
//!
//! It skips silence so a two-hour recording only costs what its speech costs,
//! and it gives the transcriber somewhere honest to cut: a boundary chosen
//! inside real silence does not slice through a word.

use vstd::prelude::*;

verus! {

/// The detector consumes exactly this many samples per step.
pub const FRAME: usize = 512;

pub const SR: usize = 16000;

/// The least speech worth keeping: 250 ms.
pub const MIN_SPEECH: usize = 4000;

/// The least silence that ends a turn: 400 ms.
pub const MIN_SILENCE: usize = 6400;

/// Audio kept either side of a turn, 200 ms: consonants at a boundary are quiet.
pub const PAD: usize = 3200;

/// A stretch of audio in samples, `end` not included.
#[derive(Debug, Clone, Copy, PartialEq, Eq, Structural)]
pub struct Segment {
    pub start: usize,
    pub end: usize,
}

impl Segment {
    /// The length of the stretch, in samples out of a second's worth.
    pub fn seconds(&self) -> (r: (usize, usize))
        requires
            self.start <= self.end,
        ensures
            r.0 == self.end - self.start,
            r.1 == SR,
    {
        (self.end - self.start, SR)
    }
}

/// How voiced a frame is. It takes a confident frame to open a segment and a
/// clearly unvoiced one to close it, so a brief dip mid-word does not split a
/// turn. A probability that is no number reads as unvoiced.
#[derive(Debug, Clone, Copy, PartialEq, Eq, Structural)]
pub enum Voicing {
    /// At or above the level that opens a turn.
    On,
    /// Too low to open a turn, too high to close one.
    Between,
    /// Below the level that keeps a turn open.
    Off,
}

/// What reading frames has found so far: the turns that have ended, and the one
/// that is open.
pub struct Scan {
    pub found: Seq<Segment>,
    /// Where the open turn started, if one is open.
    pub open: Option<int>,
    /// How many samples of silence the open turn ends in.
    pub silence: int,
}

/// A turn is kept if it is long enough.
pub open spec fn keep(found: Seq<Segment>, start: int, end: int) -> Seq<Segment> {
    if end > start && end - start >= MIN_SPEECH {
        found.push(Segment { start: start as usize, end: end as usize })
    } else {
        found
    }
}

/// The scan after the first `k` frames.
pub open spec fn scanned(voicing: Seq<Voicing>, k: nat) -> Scan
    decreases k,
{
    if k == 0 {
        Scan { found: Seq::empty(), open: None, silence: 0 }
    } else {
        let s = scanned(voicing, (k - 1) as nat);
        let at = (k - 1) * FRAME;
        match s.open {
            None => if voicing[k - 1] == Voicing::On {
                Scan { found: s.found, open: Some(at), silence: 0 }
            } else {
                s
            },
            Some(start) => if voicing[k - 1] == Voicing::Off {
                let silence = s.silence + FRAME;
                if silence >= MIN_SILENCE {
                    Scan { found: keep(s.found, start, at + FRAME - silence), open: None, silence }
                } else {
                    Scan { silence, ..s }
                }
            } else {
                Scan { silence: 0, ..s }
            },
        }
    }
}

/// Every turn in the recording, before padding. One that is still open at the
/// end runs to the last sample.
pub open spec fn raw_turns(voicing: Seq<Voicing>, n: int) -> Seq<Segment> {
    let s = scanned(voicing, voicing.len());
    match s.open {
        Some(start) => keep(s.found, start, n),
        None => s.found,
    }
}

/// A turn with a little audio kept either side, within the recording.
pub open spec fn padded(s: Segment, n: int) -> Segment {
    Segment {
        start: if s.start >= PAD {
            (s.start - PAD) as usize
        } else {
            0
        },
        end: if s.end + PAD <= n {
            (s.end + PAD) as usize
        } else {
            n as usize
        },
    }
}

/// The first `k` turns padded, with any that now touch made one.
pub open spec fn merged(turns: Seq<Segment>, n: int, k: nat) -> Seq<Segment>
    decreases k,
{
    if k == 0 {
        Seq::empty()
    } else {
        let out = merged(turns, n, (k - 1) as nat);
        let s = padded(turns[k - 1], n);
        if out.len() > 0 && s.start <= out.last().end {
            out.update(
                out.len() - 1,
                Segment {
                    start: out.last().start,
                    end: if s.end > out.last().end {
                        s.end
                    } else {
                        out.last().end
                    },
                },
            )
        } else {
            out.push(s)
        }
    }
}

/// Hysteresis over the frames of a recording of `n` samples.
pub open spec fn speech(voicing: Seq<Voicing>, n: int) -> Seq<Segment> {
    let turns = raw_turns(voicing, n);
    merged(turns, n, turns.len())
}

/// What holds of any scan: turns found are in order, apart by at least the
/// silence that ends one, long enough, and before the frame that is next.
proof fn lemma_scanned(voicing: Seq<Voicing>, k: nat)
    requires
        k <= voicing.len(),
        voicing.len() * FRAME <= usize::MAX,
    ensures
        ({
            let s = scanned(voicing, k);
            &&& 0 <= s.silence <= k * FRAME
            &&& s.open matches Some(a) ==> 0 <= a && a + s.silence + FRAME <= k * FRAME
                && s.silence < MIN_SILENCE
            &&& forall|i: int|
                0 <= i < s.found.len() ==> (#[trigger] s.found[i]).start + MIN_SPEECH
                    <= s.found[i].end && s.found[i].end + MIN_SILENCE <= k * FRAME
            &&& forall|i: int, j: int|
                0 <= i < j < s.found.len() ==> (#[trigger] s.found[i]).end + MIN_SILENCE <= (
                #[trigger] s.found[j]).start
            &&& s.open matches Some(a) ==> forall|i: int|
                0 <= i < s.found.len() ==> (#[trigger] s.found[i]).end + MIN_SILENCE <= a
        }),
    decreases k,
{
    if k > 0 {
        lemma_scanned(voicing, (k - 1) as nat);
        let s = scanned(voicing, (k - 1) as nat);
        let t = scanned(voicing, k);
        let at = (k - 1) * FRAME;
        assert(k * FRAME <= voicing.len() * FRAME) by (nonlinear_arith)
            requires
                k <= voicing.len(),
        ;
        assert(k * FRAME == at + FRAME) by (nonlinear_arith)
            requires
                at == (k - 1) * FRAME,
        ;
        if s.open is Some && voicing[k - 1] == Voicing::Off && s.silence + FRAME >= MIN_SILENCE {
            let a = s.open->0;
            let end = at + FRAME - (s.silence + FRAME);
            assert(t.found == keep(s.found, a, end));
            assert forall|i: int, j: int| 0 <= i < j < t.found.len() implies (
            #[trigger] t.found[i]).end + MIN_SILENCE <= (#[trigger] t.found[j]).start by {
                if j == s.found.len() {
                    assert(t.found[i] == s.found[i]);
                } else {
                    assert(t.found[i] == s.found[i] && t.found[j] == s.found[j]);
                }
            }
            assert forall|i: int| 0 <= i < t.found.len() implies (#[trigger] t.found[i]).start
                + MIN_SPEECH <= t.found[i].end && t.found[i].end + MIN_SILENCE <= k * FRAME by {
                if i < s.found.len() {
                    assert(t.found[i] == s.found[i]);
                }
            }
        }
    }
}

/// Frame `k` starts before the recording ends: there is no frame without audio.
pub open spec fn frames_fit(frames: int, n: int) -> bool {
    frames > 0 ==> (frames - 1) * FRAME < n
}

/// Reads the frames of a recording into stretches of speech.
pub fn segments_from(voicing: &[Voicing], n_samples: usize) -> (r: Vec<Segment>)
    requires
        voicing@.len() * FRAME <= usize::MAX,
        n_samples + PAD <= usize::MAX,
        voicing@.len() * FRAME + PAD <= usize::MAX,
    ensures
        r@ == speech(voicing@, n_samples as int),
{
    let mut out: Vec<Segment> = Vec::new();
    let mut in_speech: bool = false;
    let mut start: usize = 0;
    let mut silence_run: usize = 0;
    let mut i: usize = 0;
    while i < voicing.len()
        invariant
            i <= voicing@.len(),
            voicing@.len() * FRAME <= usize::MAX,
            out@ == scanned(voicing@, i as nat).found,
            in_speech == (scanned(voicing@, i as nat).open is Some),
            in_speech ==> scanned(voicing@, i as nat).open == Some(start as int),
            silence_run == scanned(voicing@, i as nat).silence,
        decreases voicing@.len() - i,
    {
        proof {
            lemma_scanned(voicing@, i as nat);
            lemma_scanned(voicing@, (i + 1) as nat);
            assert((i + 1) * FRAME <= voicing@.len() * FRAME) by (nonlinear_arith)
                requires
                    i + 1 <= voicing@.len(),
            ;
            assert((i + 1) * FRAME == i * FRAME + FRAME) by (nonlinear_arith);
        }
        let at: usize = i * FRAME;
        if !in_speech {
            if voicing[i] == Voicing::On {
                in_speech = true;
                start = at;
                silence_run = 0;
            }
        } else if voicing[i] == Voicing::Off {
            silence_run = silence_run + FRAME;
            if silence_run >= MIN_SILENCE {
                let end: usize = at + FRAME - silence_run;
                if end > start && end - start >= MIN_SPEECH {
                    out.push(Segment { start, end });
                }
                in_speech = false;
            }
        } else {
            silence_run = 0;
        }
        i = i + 1;
    }
    if in_speech {
        if n_samples > start && n_samples - start >= MIN_SPEECH {
            out.push(Segment { start, end: n_samples });
        }
    }
    proof {
        lemma_scanned(voicing@, voicing@.len());
        assert(out@ == raw_turns(voicing@, n_samples as int));
        lemma_raw_bound(voicing@, n_samples as int);
    }
    merge(&out, n_samples, voicing.len() * FRAME)
}

proof fn lemma_raw_bound(voicing: Seq<Voicing>, n: int)
    requires
        voicing.len() * FRAME <= usize::MAX,
        0 <= n <= usize::MAX,
    ensures
        forall|i: int|
            0 <= i < raw_turns(voicing, n).len() ==> (#[trigger] raw_turns(voicing, n)[i]).end
                <= voicing.len() * FRAME || raw_turns(voicing, n)[i].end <= n,
{
    lemma_scanned(voicing, voicing.len());
}

/// Pad every turn, then make one of any that now touch.
fn merge(turns: &Vec<Segment>, n: usize, top: usize) -> (r: Vec<Segment>)
    requires
        n + PAD <= usize::MAX,
        top + PAD <= usize::MAX,
        forall|i: int|
            0 <= i < turns@.len() ==> (#[trigger] turns@[i]).end <= top || turns@[i].end <= n,
    ensures
        r@ == merged(turns@, n as int, turns@.len()),
{
    let mut out: Vec<Segment> = Vec::new();
    let mut k: usize = 0;
    while k < turns.len()
        invariant
            n + PAD <= usize::MAX,
            top + PAD <= usize::MAX,
            forall|i: int|
                0 <= i < turns@.len() ==> (#[trigger] turns@[i]).end <= top || turns@[i].end <= n,
            k <= turns@.len(),
            out@ == merged(turns@, n as int, k as nat),
        decreases turns@.len() - k,
    {
        let t: Segment = turns[k];
        let from: usize = if t.start >= PAD {
            t.start - PAD
        } else {
            0
        };
        let to: usize = if t.end + PAD <= n {
            t.end + PAD
        } else {
            n
        };
        let m: usize = out.len();
        if m > 0 && from <= out[m - 1].end {
            let last: Segment = out[m - 1];
            let end: usize = if to > last.end {
                to
            } else {
                last.end
            };
            out.set(m - 1, Segment { start: last.start, end });
        } else {
            out.push(Segment { start: from, end: to });
        }
        k = k + 1;
    }
    out
}

/// In order, apart from one another, not empty, and within the recording.
pub open spec fn laid_out(segs: Seq<Segment>, n: int) -> bool {
    &&& forall|i: int|
        0 <= i < segs.len() ==> (#[trigger] segs[i]).start < segs[i].end && segs[i].end <= n
    &&& forall|i: int, j: int|
        0 <= i < j < segs.len() ==> (#[trigger] segs[i]).end < (#[trigger] segs[j]).start
}

proof fn lemma_merged(turns: Seq<Segment>, n: int, k: nat)
    requires
        k <= turns.len(),
        0 <= n <= usize::MAX,
        forall|i: int|
            0 <= i < turns.len() ==> (#[trigger] turns[i]).start < turns[i].end && turns[i].end <= n
                && turns[i].end + PAD <= usize::MAX,
        forall|i: int, j: int|
            0 <= i < j < turns.len() ==> (#[trigger] turns[i]).end <= (#[trigger] turns[j]).start,
    ensures
        laid_out(merged(turns, n, k), n),
        k > 0 ==> merged(turns, n, k).len() > 0 && merged(turns, n, k).last().end >= padded(
            turns[k - 1],
            n,
        ).end && merged(turns, n, k).last().start <= padded(turns[k - 1], n).start,
    decreases k,
{
    if k > 0 {
        lemma_merged(turns, n, (k - 1) as nat);
        let out = merged(turns, n, (k - 1) as nat);
        let now = merged(turns, n, k);
        let s = padded(turns[k - 1], n);
        assert(turns[k - 1].start < turns[k - 1].end);
        if out.len() > 0 && s.start <= out.last().end {
            if k > 1 {
                assert(turns[k - 2].end <= turns[k - 1].start);
                assert(turns[k - 2].start < turns[k - 2].end);
            }
            assert forall|i: int, j: int| 0 <= i < j < now.len() implies (#[trigger] now[i]).end < (
            #[trigger] now[j]).start by {
                assert(out[i].end < out[j].start);
            }
            assert forall|i: int| 0 <= i < now.len() implies (#[trigger] now[i]).start < now[i].end
                && now[i].end <= n by {
                assert(out[i].start < out[i].end);
            }
        } else {
            assert forall|i: int, j: int| 0 <= i < j < now.len() implies (#[trigger] now[i]).end < (
            #[trigger] now[j]).start by {
                if j == out.len() {
                    if i < out.len() - 1 {
                        assert(out[i].end < out[out.len() - 1].start);
                        assert(out[out.len() - 1].start < out[out.len() - 1].end);
                    }
                } else {
                    assert(out[i].end < out[j].start);
                }
            }
        }
    }
}

proof fn lemma_covered(turns: Seq<Segment>, n: int, k: nat, t: int, x: int)
    requires
        0 <= t < k <= turns.len(),
        padded(turns[t], n).start <= x < padded(turns[t], n).end,
        0 <= n <= usize::MAX,
        forall|i: int|
            0 <= i < turns.len() ==> (#[trigger] turns[i]).start < turns[i].end && turns[i].end <= n
                && turns[i].end + PAD <= usize::MAX,
        forall|i: int, j: int|
            0 <= i < j < turns.len() ==> (#[trigger] turns[i]).end <= (#[trigger] turns[j]).start,
    ensures
        inside(merged(turns, n, k), x),
    decreases k,
{
    let out = merged(turns, n, (k - 1) as nat);
    let now = merged(turns, n, k);
    lemma_merged(turns, n, k);
    if t == k - 1 {
        assert(now[now.len() - 1].start <= x < now[now.len() - 1].end);
    } else {
        lemma_covered(turns, n, (k - 1) as nat, t, x);
        let i = choose|i: int|
            0 <= i < out.len() && (#[trigger] out[i]).start <= x < out[i].end;
        assert(now[i].start <= x < now[i].end);
    }
}

/// The sample is in one of the stretches.
pub open spec fn inside(segs: Seq<Segment>, x: int) -> bool {
    exists|i: int| 0 <= i < segs.len() && (#[trigger] segs[i]).start <= x < segs[i].end
}

proof fn lemma_raw_turns(voicing: Seq<Voicing>, n: int)
    requires
        frames_fit(voicing.len() as int, n),
        0 <= n,
        n + PAD <= usize::MAX,
        voicing.len() * FRAME + PAD <= usize::MAX,
    ensures
        forall|i: int|
            0 <= i < raw_turns(voicing, n).len() ==> (#[trigger] raw_turns(voicing, n)[i]).start
                + MIN_SPEECH <= raw_turns(voicing, n)[i].end && raw_turns(voicing, n)[i].end <= n,
        forall|i: int, j: int|
            0 <= i < j < raw_turns(voicing, n).len() ==> (#[trigger] raw_turns(voicing, n)[i]).end
                <= (#[trigger] raw_turns(voicing, n)[j]).start,
{
    lemma_scanned(voicing, voicing.len());
    let s = scanned(voicing, voicing.len());
    let all = raw_turns(voicing, n);
    if voicing.len() > 0 {
        assert((voicing.len() - 1) * FRAME + FRAME == voicing.len() * FRAME) by (nonlinear_arith);
    }
    assert forall|i: int| 0 <= i < all.len() implies (#[trigger] all[i]).start + MIN_SPEECH
        <= all[i].end && all[i].end <= n by {
        if i < s.found.len() {
            assert(all[i] == s.found[i]);
        }
    }
    assert forall|i: int, j: int| 0 <= i < j < all.len() implies (#[trigger] all[i]).end <= (
    #[trigger] all[j]).start by {
        if j < s.found.len() {
            assert(all[i] == s.found[i] && all[j] == s.found[j]);
        } else {
            assert(all[i] == s.found[i]);
        }
    }
}

/// Stretches of speech come in order, apart from one another, not empty, and
/// within the recording.
pub proof fn speech_is_laid_out(voicing: Seq<Voicing>, n: int)
    requires
        frames_fit(voicing.len() as int, n),
        0 <= n,
        n + PAD <= usize::MAX,
        voicing.len() * FRAME + PAD <= usize::MAX,
    ensures
        laid_out(speech(voicing, n), n),
{
    lemma_raw_turns(voicing, n);
    let turns = raw_turns(voicing, n);
    lemma_merged(turns, n, turns.len());
}

/// Padding and merging lose nothing: every sample of a turn, and of the margin
/// either side of it, is in some stretch.
pub proof fn no_turn_is_lost(voicing: Seq<Voicing>, n: int, t: int, x: int)
    requires
        frames_fit(voicing.len() as int, n),
        0 <= n,
        n + PAD <= usize::MAX,
        voicing.len() * FRAME + PAD <= usize::MAX,
        0 <= t < raw_turns(voicing, n).len(),
        padded(raw_turns(voicing, n)[t], n).start <= x < padded(raw_turns(voicing, n)[t], n).end,
    ensures
        inside(speech(voicing, n), x),
{
    lemma_raw_turns(voicing, n);
    let turns = raw_turns(voicing, n);
    lemma_covered(turns, n, turns.len(), t, x);
}

/// With no frame that opens a turn there is no speech.
pub proof fn silence_yields_nothing(voicing: Seq<Voicing>, n: int)
    requires
        forall|i: int| 0 <= i < voicing.len() ==> #[trigger] voicing[i] != Voicing::On,
    ensures
        speech(voicing, n).len() == 0,
{
    lemma_never_opens(voicing, voicing.len());
}

proof fn lemma_never_opens(voicing: Seq<Voicing>, k: nat)
    requires
        k <= voicing.len(),
        forall|i: int| 0 <= i < voicing.len() ==> #[trigger] voicing[i] != Voicing::On,
    ensures
        scanned(voicing, k).found.len() == 0,
        scanned(voicing, k).open is None,
    decreases k,
{
    if k > 0 {
        lemma_never_opens(voicing, (k - 1) as nat);
        assert(voicing[k - 1] != Voicing::On);
    }
}

/// The first frame of `[lo, hi)` that is loud enough to be speech.
pub open spec fn first_loud(loud: Seq<bool>, lo: int, hi: int) -> Option<int>
    decreases hi - lo,
{
    if lo >= hi {
        None
    } else if lo < loud.len() && loud[lo] {
        Some(lo)
    } else {
        first_loud(loud, lo + 1, hi)
    }
}

/// The last frame of `[lo, hi)` that is loud enough to be speech.
pub open spec fn last_loud(loud: Seq<bool>, lo: int, hi: int) -> Option<int>
    decreases hi - lo,
{
    if lo >= hi {
        None
    } else if hi - 1 < loud.len() && loud[hi - 1] {
        Some(hi - 1)
    } else {
        last_loud(loud, lo, hi - 1)
    }
}

/// A turn with its quiet edges pulled in, or nothing if too little is left. The
/// margin is applied again so consonants survive, but never back out beyond
/// where the turn already stood.
pub open spec fn trimmed(s: Segment, loud: Seq<bool>) -> Option<Segment> {
    let f0 = s.start as int / FRAME as int;
    let f1 = (s.end + FRAME - 1) / FRAME as int;
    match (first_loud(loud, f0, f1), last_loud(loud, f0, f1)) {
        (Some(first), Some(last)) => {
            let from = first * FRAME - PAD;
            let to = (last + 1) * FRAME + PAD;
            let start = if from > s.start {
                from
            } else {
                s.start as int
            };
            let end = if to < s.end {
                to
            } else {
                s.end as int
            };
            if end - start >= MIN_SPEECH {
                Some(Segment { start: start as usize, end: end as usize })
            } else {
                None
            }
        },
        _ => None,
    }
}

/// The first `k` turns with their quiet edges pulled in, those with too little
/// left dropped.
pub open spec fn all_trimmed(segs: Seq<Segment>, loud: Seq<bool>, k: nat) -> Seq<Segment>
    decreases k,
{
    if k == 0 {
        Seq::empty()
    } else {
        let front = all_trimmed(segs, loud, (k - 1) as nat);
        match trimmed(segs[k - 1], loud) {
            Some(s) => front.push(s),
            None => front,
        }
    }
}

fn find_first(loud: &[bool], lo: usize, hi: usize) -> (r: Option<usize>)
    ensures
        match r {
            Some(i) => first_loud(loud@, lo as int, hi as int) == Some(i as int) && lo <= i < hi,
            None => first_loud(loud@, lo as int, hi as int) is None,
        },
{
    let mut i: usize = lo;
    while i < hi
        invariant
            lo <= i,
            lo <= hi ==> i <= hi,
            first_loud(loud@, lo as int, hi as int) == first_loud(loud@, i as int, hi as int),
        decreases hi - i,
    {
        if i < loud.len() && loud[i] {
            return Some(i);
        }
        i = i + 1;
    }
    None
}

fn find_last(loud: &[bool], lo: usize, hi: usize) -> (r: Option<usize>)
    ensures
        match r {
            Some(i) => last_loud(loud@, lo as int, hi as int) == Some(i as int) && lo <= i < hi,
            None => last_loud(loud@, lo as int, hi as int) is None,
        },
{
    let mut j: usize = hi;
    while j > lo
        invariant
            j <= hi,
            last_loud(loud@, lo as int, hi as int) == last_loud(loud@, lo as int, j as int),
        decreases j,
    {
        if j - 1 < loud.len() && loud[j - 1] {
            return Some(j - 1);
        }
        j = j - 1;
    }
    None
}

/// Pull each turn's start and end in to the first and last frame that is loud
/// enough, and drop a turn with nothing left. A noise prefix does not merely add
/// junk, it derails the whole decode.
pub fn trim_quiet(segs: &[Segment], loud: &[bool]) -> (r: Vec<Segment>)
    requires
        forall|i: int|
            0 <= i < segs@.len() ==> (#[trigger] segs@[i]).end + 2 * FRAME + PAD <= usize::MAX,
    ensures
        r@ == all_trimmed(segs@, loud@, segs@.len()),
{
    let mut out: Vec<Segment> = Vec::new();
    let mut k: usize = 0;
    while k < segs.len()
        invariant
            forall|i: int|
                0 <= i < segs@.len() ==> (#[trigger] segs@[i]).end + 2 * FRAME + PAD <= usize::MAX,
            k <= segs@.len(),
            out@ == all_trimmed(segs@, loud@, k as nat),
        decreases segs@.len() - k,
    {
        let s: Segment = segs[k];
        proof {
            assert(segs@[k as int].end + 2 * FRAME + PAD <= usize::MAX);
        }
        let f0: usize = s.start / FRAME;
        let f1: usize = (s.end + FRAME - 1) / FRAME;
        if let Some(first) = find_first(loud, f0, f1) {
            if let Some(last) = find_last(loud, f0, f1) {
                proof {
                    assert((last + 1) * FRAME <= f1 * FRAME) by (nonlinear_arith)
                        requires
                            last + 1 <= f1,
                    ;
                    assert(first * FRAME <= f1 * FRAME) by (nonlinear_arith)
                        requires
                            first <= f1,
                    ;
                    assert(f1 * FRAME <= s.end + FRAME - 1) by (nonlinear_arith)
                        requires
                            f1 == (s.end + FRAME - 1) / FRAME as int,
                            FRAME == 512,
                    ;
                }
                let lead: usize = first * FRAME;
                let from: usize = if lead >= PAD {
                    lead - PAD
                } else {
                    0
                };
                let to: usize = (last + 1) * FRAME + PAD;
                let start: usize = if from > s.start {
                    from
                } else {
                    s.start
                };
                let end: usize = if to < s.end {
                    to
                } else {
                    s.end
                };
                if end >= start && end - start >= MIN_SPEECH {
                    out.push(Segment { start, end });
                }
            }
        }
        k = k + 1;
    }
    out
}

/// Trimming only ever takes away: what is left of a turn lies within it.
pub proof fn trimming_only_takes_away(s: Segment, loud: Seq<bool>)
    ensures
        trimmed(s, loud) matches Some(t) ==> s.start <= t.start && t.end <= s.end && t.start
            + MIN_SPEECH <= t.end,
{
    let f0 = s.start as int / FRAME as int;
    let f1 = (s.end + FRAME - 1) / FRAME as int;
    if trimmed(s, loud) is Some {
        let first = first_loud(loud, f0, f1)->0;
        lemma_first_loud(loud, f0, f1);
        let from = first * FRAME - PAD;
        let start = if from > s.start {
            from
        } else {
            s.start as int
        };
        assert(start <= s.end);
    }
}

proof fn lemma_first_loud(loud: Seq<bool>, lo: int, hi: int)
    ensures
        first_loud(loud, lo, hi) matches Some(i) ==> lo <= i < hi,
    decreases hi - lo,
{
    if lo < hi && !(lo < loud.len() && loud[lo]) {
        lemma_first_loud(loud, lo + 1, hi);
    }
}

/// The first of the least of `keys[lo..hi]`.
pub open spec fn least(keys: Seq<u32>, lo: int, hi: int) -> int
    decreases hi - lo,
{
    if hi <= lo + 1 {
        lo
    } else {
        let b = least(keys, lo, hi - 1);
        if keys[hi - 1] < keys[b] {
            hi - 1
        } else {
            b
        }
    }
}

/// Where a stretch that starts at `start` and is longer than `max` is cut: at the
/// least-voiced frame in the last quarter of the window, the best available
/// approximation of a pause, or at the end of the window if there is none.
pub open spec fn cut(start: int, keys: Seq<u32>, max: int) -> int {
    let target = start + max;
    let late = target - max / 4;
    let lo = if late > start + SR {
        late
    } else {
        start + SR
    };
    let lo_f = lo / FRAME as int;
    let hi_f = if target / FRAME as int <= keys.len() {
        target / FRAME as int
    } else {
        keys.len() as int
    };
    if lo_f < hi_f {
        least(keys, lo_f, hi_f) * FRAME
    } else {
        target
    }
}

pub proof fn lemma_least(keys: Seq<u32>, lo: int, hi: int)
    requires
        lo < hi,
    ensures
        lo <= least(keys, lo, hi) < hi,
        forall|i: int| lo <= i < hi ==> keys[least(keys, lo, hi)] <= #[trigger] keys[i],
        forall|i: int|
            lo <= i < least(keys, lo, hi) ==> keys[least(keys, lo, hi)] < #[trigger] keys[i],
    decreases hi - lo,
{
    if hi > lo + 1 {
        lemma_least(keys, lo, hi - 1);
    }
}

/// A cut falls inside the window, and always moves on.
pub proof fn cut_moves_on(start: int, keys: Seq<u32>, max: int)
    requires
        0 <= start,
        SR <= max,
    ensures
        start < cut(start, keys, max) <= start + max,
{
    let target = start + max;
    let late = target - max / 4;
    let lo = if late > start + SR {
        late
    } else {
        start + SR
    };
    let lo_f = lo / FRAME as int;
    let hi_f = if target / FRAME as int <= keys.len() {
        target / FRAME as int
    } else {
        keys.len() as int
    };
    if lo_f < hi_f {
        lemma_least(keys, lo_f, hi_f);
        let f = least(keys, lo_f, hi_f);
        assert(f * FRAME >= lo_f * FRAME) by (nonlinear_arith)
            requires
                f >= lo_f,
        ;
        assert(f * FRAME <= hi_f * FRAME) by (nonlinear_arith)
            requires
                f <= hi_f,
        ;
        assert(lo_f * FRAME > lo - FRAME) by (nonlinear_arith)
            requires
                lo_f == lo / FRAME as int,
                FRAME == 512,
        ;
        assert(hi_f * FRAME <= target) by (nonlinear_arith)
            requires
                hi_f <= target / FRAME as int,
                FRAME == 512,
                target >= 0,
        ;
    }
}

/// One stretch in pieces of at most `max` samples.
pub open spec fn pieces(start: int, end: int, keys: Seq<u32>, max: int) -> Seq<Segment>
    decreases end - start,
{
    if end - start > max && start < cut(start, keys, max) < end {
        let c = cut(start, keys, max);
        seq![Segment { start: start as usize, end: c as usize }] + pieces(c, end, keys, max)
    } else if end > start {
        seq![Segment { start: start as usize, end: end as usize }]
    } else {
        Seq::empty()
    }
}

/// Every one of the first `k` stretches in pieces.
pub open spec fn all_pieces(segs: Seq<Segment>, keys: Seq<u32>, max: int, k: nat) -> Seq<Segment>
    decreases k,
{
    if k == 0 {
        Seq::empty()
    } else {
        all_pieces(segs, keys, max, (k - 1) as nat) + pieces(
            segs[k - 1].start as int,
            segs[k - 1].end as int,
            keys,
            max,
        )
    }
}

fn find_least(keys: &[u32], lo: usize, hi: usize) -> (r: usize)
    requires
        lo < hi <= keys@.len(),
    ensures
        r == least(keys@, lo as int, hi as int),
        lo <= r < hi,
{
    let mut best: usize = lo;
    let mut i: usize = lo + 1;
    while i < hi
        invariant
            lo < i <= hi <= keys@.len(),
            lo <= best < i,
            best == least(keys@, lo as int, i as int),
        decreases hi - i,
    {
        if keys[i] < keys[best] {
            best = i;
        }
        i = i + 1;
    }
    best
}

fn find_cut(start: usize, keys: &[u32], max: usize) -> (r: usize)
    requires
        SR <= max,
        start + max <= usize::MAX,
    ensures
        r == cut(start as int, keys@, max as int),
        start < r <= start + max,
{
    proof {
        cut_moves_on(start as int, keys@, max as int);
    }
    let target: usize = start + max;
    let late: usize = target - max / 4;
    let lo: usize = if late > start + SR {
        late
    } else {
        start + SR
    };
    let lo_f: usize = lo / FRAME;
    let hi_f: usize = if target / FRAME <= keys.len() {
        target / FRAME
    } else {
        keys.len()
    };
    if lo_f < hi_f {
        find_least(keys, lo_f, hi_f) * FRAME
    } else {
        target
    }
}

/// One segment per turn, with anything longer than `max_seconds` split at the
/// least-voiced frame near the boundary. `keys` orders the frames by how voiced
/// they are. Nothing is merged, so a silence between two people stays a boundary
/// and each record can carry its own speaker.
pub fn turns(segs: &[Segment], keys: &[u32], max_seconds: usize) -> (r: Vec<Segment>)
    requires
        1 <= max_seconds,
        max_seconds * SR <= usize::MAX,
        forall|i: int|
            0 <= i < segs@.len() ==> (#[trigger] segs@[i]).start <= segs@[i].end,
    ensures
        r@ == all_pieces(segs@, keys@, max_seconds * SR, segs@.len()),
{
    let max: usize = max_seconds * SR;
    proof {
        assert(max_seconds * SR >= SR) by (nonlinear_arith)
            requires
                max_seconds >= 1,
                SR >= 0,
        ;
    }
    let mut out: Vec<Segment> = Vec::new();
    let mut k: usize = 0;
    while k < segs.len()
        invariant
            SR <= max,
            max == max_seconds * SR,
            forall|i: int| 0 <= i < segs@.len() ==> (#[trigger] segs@[i]).start <= segs@[i].end,
            k <= segs@.len(),
            out@ == all_pieces(segs@, keys@, max as int, k as nat),
        decreases segs@.len() - k,
    {
        let s: Segment = segs[k];
        let mut start: usize = s.start;
        let ghost front = out@;
        proof {
            assert(segs@[k as int].start <= segs@[k as int].end);
            assert(front + pieces(start as int, s.end as int, keys@, max as int) == out@ + pieces(
                start as int,
                s.end as int,
                keys@,
                max as int,
            ));
        }
        while s.end - start > max
            invariant
                SR <= max,
                s.start <= start <= s.end,
                front + pieces(s.start as int, s.end as int, keys@, max as int) == out@ + pieces(
                    start as int,
                    s.end as int,
                    keys@,
                    max as int,
                ),
            decreases s.end - start,
        {
            let c: usize = find_cut(start, keys, max);
            let piece: Segment = Segment { start, end: c };
            proof {
                assert(out@ + (seq![piece] + pieces(c as int, s.end as int, keys@, max as int))
                    == out@.push(piece) + pieces(c as int, s.end as int, keys@, max as int));
            }
            out.push(piece);
            start = c;
        }
        if s.end > start {
            let piece: Segment = Segment { start, end: s.end };
            proof {
                assert(out@ + seq![piece] == out@.push(piece));
            }
            out.push(piece);
        } else {
            proof {
                assert(out@ + Seq::<Segment>::empty() == out@);
            }
        }
        k = k + 1;
    }
    out
}

/// The pieces of a stretch follow one another without a gap from its start to
/// its end, and none is longer than `max` or empty.
pub proof fn pieces_cover_exactly(start: int, end: int, keys: Seq<u32>, max: int)
    requires
        0 <= start < end <= usize::MAX,
        SR <= max,
    ensures
        ({
            let p = pieces(start, end, keys, max);
            &&& p.len() > 0
            &&& p[0].start == start
            &&& p.last().end == end
            &&& forall|i: int| 0 <= i < p.len() ==> (#[trigger] p[i]).start < p[i].end && p[i].end
                - p[i].start <= max
            &&& forall|i: int| 0 < i < p.len() ==> p[i - 1].end == (#[trigger] p[i]).start
        }),
    decreases end - start,
{
    cut_moves_on(start, keys, max);
    let p = pieces(start, end, keys, max);
    if end - start > max {
        let c = cut(start, keys, max);
        pieces_cover_exactly(c, end, keys, max);
        let rest = pieces(c, end, keys, max);
        let head = Segment { start: start as usize, end: c as usize };
        assert(p == seq![head] + rest);
        assert forall|i: int| 0 <= i < p.len() implies (#[trigger] p[i]).start < p[i].end && p[i].end
            - p[i].start <= max by {
            if i > 0 {
                assert(p[i] == rest[i - 1]);
            }
        }
        assert forall|i: int| 0 < i < p.len() implies p[i - 1].end == (#[trigger] p[i]).start by {
            assert(p[i] == rest[i - 1]);
            if i > 1 {
                assert(p[i - 1] == rest[i - 2]);
            }
        }
    }
}

/// The first `k` turns, with neighbours merged wherever they fit in `max`.
pub open spec fn chunked(turns: Seq<Segment>, max: int, k: nat) -> Seq<Segment>
    decreases k,
{
    if k == 0 {
        Seq::empty()
    } else {
        let out = chunked(turns, max, (k - 1) as nat);
        let s = turns[k - 1];
        if out.len() > 0 && s.end - out.last().start <= max {
            out.update(out.len() - 1, Segment { start: out.last().start, end: s.end })
        } else {
            out.push(s)
        }
    }
}

/// Turns with neighbours merged back together wherever they still fit inside
/// `max_seconds`. Fewer, larger recogniser calls — right when the output is one
/// block of text, wrong when each record needs its own speaker.
pub fn chunks(turns: &[Segment], max_seconds: usize) -> (r: Vec<Segment>)
    requires
        max_seconds * SR <= usize::MAX,
        forall|i: int| 0 <= i < turns@.len() ==> (#[trigger] turns@[i]).start <= turns@[i].end,
        forall|i: int, j: int|
            0 <= i < j < turns@.len() ==> (#[trigger] turns@[i]).start <= (
            #[trigger] turns@[j]).start,
    ensures
        r@ == chunked(turns@, max_seconds * SR, turns@.len()),
{
    let max: usize = max_seconds * SR;
    let mut out: Vec<Segment> = Vec::new();
    let mut k: usize = 0;
    while k < turns.len()
        invariant
            max == max_seconds * SR,
            forall|i: int| 0 <= i < turns@.len() ==> (#[trigger] turns@[i]).start <= turns@[i].end,
            forall|i: int, j: int|
                0 <= i < j < turns@.len() ==> (#[trigger] turns@[i]).start <= (
                #[trigger] turns@[j]).start,
            k <= turns@.len(),
            out@ == chunked(turns@, max as int, k as nat),
            out@.len() > 0 ==> exists|t: int|
                0 <= t < k && out@.last().start == (#[trigger] turns@[t]).start,
        decreases turns@.len() - k,
    {
        let s: Segment = turns[k];
        let m: usize = out.len();
        proof {
            if m > 0 {
                let t = choose|t: int|
                    0 <= t < k && out@.last().start == (#[trigger] turns@[t]).start;
                assert(turns@[t].start <= turns@[k as int].start);
            }
        }
        if m > 0 && s.end - out[m - 1].start <= max {
            let from: usize = out[m - 1].start;
            out.set(m - 1, Segment { start: from, end: s.end });
        } else {
            out.push(s);
            proof {
                assert(out@.last().start == turns@[k as int].start);
            }
        }
        k = k + 1;
    }
    out
}

/// A merged chunk is never longer than `max`, unless a single turn already was.
pub proof fn chunks_stay_short(turns: Seq<Segment>, max: int, k: nat)
    requires
        k <= turns.len(),
        forall|i: int| 0 <= i < turns.len() ==> (#[trigger] turns[i]).end - turns[i].start <= max,
    ensures
        forall|i: int|
            0 <= i < chunked(turns, max, k).len() ==> (#[trigger] chunked(turns, max, k)[i]).end
                - chunked(turns, max, k)[i].start <= max,
    decreases k,
{
    if k > 0 {
        chunks_stay_short(turns, max, (k - 1) as nat);
        let out = chunked(turns, max, (k - 1) as nat);
        let now = chunked(turns, max, k);
        assert forall|i: int| 0 <= i < now.len() implies (#[trigger] now[i]).end - now[i].start
            <= max by {
            if i < out.len() {
                assert(out[i].end - out[i].start <= max);
            }
            assert(turns[k - 1].end - turns[k - 1].start <= max);
        }
    }
}

/// The frames that make up the least silence that ends a turn.
pub const QUIET_FRAMES: usize = 13;

/// From frame `f` on it is quiet for as long as it takes to end a turn.
pub open spec fn quiet_from(voicing: Seq<Voicing>, f: int) -> bool {
    &&& 0 <= f
    &&& f + QUIET_FRAMES <= voicing.len()
    &&& forall|g: int| f <= g < f + QUIET_FRAMES ==> #[trigger] voicing[g] == Voicing::Off
}

/// Frames `[a, b)` are one turn as far as it goes: it opens at a frame that is
/// clearly voiced, not in the middle of voiced ones, and nowhere in it is it quiet
/// for long enough to end it.
pub open spec fn unbroken(voicing: Seq<Voicing>, a: int, b: int) -> bool {
    &&& 0 <= a < b <= voicing.len()
    &&& voicing[a] == Voicing::On
    &&& a > 0 ==> voicing[a - 1] != Voicing::On
    &&& forall|f: int| a <= f && f + QUIET_FRAMES <= b ==> !#[trigger] quiet_from(voicing, f)
}

/// Frames `[a, b)` are one turn: it ends directly before the silence that ends it.
pub open spec fn ended(voicing: Seq<Voicing>, a: int, b: int) -> bool {
    &&& unbroken(voicing, a, b)
    &&& voicing[b - 1] != Voicing::Off
    &&& quiet_from(voicing, b)
}

/// Frame `f` is in a turn too short to keep, one that ended.
pub open spec fn blip(voicing: Seq<Voicing>, f: int) -> bool {
    exists|a: int, b: int|
        a <= f < b && (b - a) * FRAME < MIN_SPEECH && #[trigger] ended(voicing, a, b)
}

/// Frames `[a, b)` are a turn that was kept.
pub open spec fn kept_turn(s: Segment, voicing: Seq<Voicing>, a: int, b: int) -> bool {
    s.start == a * FRAME && s.end == b * FRAME && ended(voicing, a, b)
}

/// The silence at the end of an open turn.
spec fn trailing(voicing: Seq<Voicing>, k: int, m: int) -> bool {
    &&& 0 <= m < QUIET_FRAMES
    &&& m < k
    &&& voicing[k - m - 1] != Voicing::Off
    &&& forall|g: int| k - m <= g < k ==> #[trigger] voicing[g] == Voicing::Off
}

/// Everything a scan says of the frames it has read.
#[verifier::opaque]
spec fn reads(voicing: Seq<Voicing>, k: int, s: Scan) -> bool {
    &&& match s.open {
        Some(at) => {
            &&& at % FRAME as int == 0
            &&& s.silence % FRAME as int == 0
            &&& 0 <= s.silence
            &&& unbroken(voicing, at / FRAME as int, k)
            &&& trailing(voicing, k, s.silence / FRAME as int)
            &&& at / (FRAME as int) < k - s.silence / FRAME as int
        },
        None => k > 0 ==> voicing[k - 1] != Voicing::On,
    }
    &&& forall|i: int|
        0 <= i < s.found.len() ==> kept_turn(
            #[trigger] s.found[i],
            voicing,
            s.found[i].start as int / FRAME as int,
            s.found[i].end as int / FRAME as int,
        ) && s.found[i].start + MIN_SPEECH <= s.found[i].end
    &&& forall|f: int|
        0 <= f < k && #[trigger] voicing[f] == Voicing::On ==> inside(s.found, f * FRAME) || blip(
            voicing,
            f,
        ) || (s.open matches Some(at) && at <= f * FRAME)
}

#[verifier::spinoff_prover]
#[verifier::rlimit(80)]
proof fn lemma_reads(voicing: Seq<Voicing>, k: nat)
    requires
        k <= voicing.len(),
        voicing.len() * FRAME <= usize::MAX,
    ensures
        reads(voicing, k as int, scanned(voicing, k)),
    decreases k,
{
    if k == 0 {
        reveal(reads);
    }
    if k > 0 {
        lemma_reads(voicing, (k - 1) as nat);
        lemma_scanned(voicing, (k - 1) as nat);
        let s = scanned(voicing, (k - 1) as nat);
        let at = (k - 1) * FRAME;
        assert(k * FRAME <= voicing.len() * FRAME) by (nonlinear_arith)
            requires
                k <= voicing.len(),
        ;
        if s.open is None {
            lemma_reads_before(voicing, k as int, s);
        } else if voicing[k - 1] != Voicing::Off {
            lemma_reads_more(voicing, k as int, s, 0);
        } else if s.silence + FRAME < MIN_SILENCE {
            lemma_reads_more(voicing, k as int, s, s.silence + FRAME);
        } else {
            lemma_reads_end(voicing, k as int, s);
        }
    }
}

proof fn lemma_reads_before(voicing: Seq<Voicing>, k: int, s: Scan)
    requires
        0 < k <= voicing.len(),
        reads(voicing, k - 1, s),
        s.open is None,
    ensures
        voicing[k - 1] != Voicing::On ==> reads(voicing, k, s),
        voicing[k - 1] == Voicing::On ==> reads(
            voicing,
            k,
            (Scan { found: s.found, open: Some((k - 1) * FRAME), silence: 0 }),
        ),
{
    reveal(reads);
    if voicing[k - 1] == Voicing::On {
        let at = (k - 1) * FRAME;
        assert(at % FRAME as int == 0);
        assert(at / FRAME as int == k - 1);
        assert(unbroken(voicing, k - 1, k));
        assert(trailing(voicing, k, 0));
    }
}

#[verifier::spinoff_prover]
#[verifier::rlimit(80)]
proof fn lemma_reads_more(voicing: Seq<Voicing>, k: int, s: Scan, silence: int)
    requires
        0 < k <= voicing.len(),
        reads(voicing, k - 1, s),
        s.open is Some,
        voicing[k - 1] != Voicing::Off ==> silence == 0,
        voicing[k - 1] == Voicing::Off ==> silence == s.silence + FRAME && silence < MIN_SILENCE,
    ensures
        reads(voicing, k, (Scan { silence, ..s })),
{
    reveal(reads);
    let a = s.open->0 / FRAME as int;
    let m = s.silence / FRAME as int;
    let now = silence / FRAME as int;
    assert(silence % FRAME as int == 0);
    if voicing[k - 1] == Voicing::Off {
        assert(now == m + 1);
    }
    assert(trailing(voicing, k, now)) by {
        assert forall|g: int| k - now <= g < k implies #[trigger] voicing[g] == Voicing::Off by {}
    }
    lemma_goes_on(voicing, a, k, now);
    assert forall|f: int| 0 <= f < k && #[trigger] voicing[f] == Voicing::On implies inside(
        s.found,
        f * FRAME,
    ) || blip(voicing, f) || s.open->0 <= f * FRAME by {
        if f == k - 1 {
            assert(s.open->0 == a * FRAME);
            assert(a * FRAME <= f * FRAME) by (nonlinear_arith)
                requires
                    a <= f,
            ;
        }
    }
}

#[verifier::spinoff_prover]
#[verifier::rlimit(80)]
proof fn lemma_reads_end(voicing: Seq<Voicing>, k: int, s: Scan)
    requires
        0 < k <= voicing.len(),
        k * FRAME <= usize::MAX,
        reads(voicing, k - 1, s),
        s.open matches Some(at) ==> 0 <= at,
        s.open is Some,
        voicing[k - 1] == Voicing::Off,
        s.silence + FRAME >= MIN_SILENCE,
    ensures
        reads(
            voicing,
            k,
            (Scan {
                found: keep(s.found, s.open->0, (k - 1) * FRAME - s.silence),
                open: None,
                silence: s.silence + FRAME,
            }),
        ),
{
    reveal(reads);
    let open = s.open->0;
    let a = open / FRAME as int;
    let m = s.silence / FRAME as int;
    assert(m + 1 == QUIET_FRAMES);
    let b = k - QUIET_FRAMES;
    let end = (k - 1) * FRAME - s.silence;
    assert(end == b * FRAME);
    assert(open == a * FRAME);
    assert(quiet_from(voicing, b)) by {
        assert forall|g: int| b <= g < b + QUIET_FRAMES implies #[trigger] voicing[g]
            == Voicing::Off by {}
    }
    assert(ended(voicing, a, b)) by {
        assert forall|f: int| a <= f && f + QUIET_FRAMES <= b implies !(#[trigger] quiet_from(
            voicing,
            f,
        )) by {}
    }
    let found = keep(s.found, open, end);
    if end - open >= MIN_SPEECH {
        let last = found[s.found.len() as int];
        assert(last.start == a * FRAME && last.end == b * FRAME);
        assert(last.start as int / FRAME as int == a);
        assert(last.end as int / FRAME as int == b);
    }
    assert forall|i: int| 0 <= i < found.len() implies kept_turn(
        #[trigger] found[i],
        voicing,
        found[i].start as int / FRAME as int,
        found[i].end as int / FRAME as int,
    ) && found[i].start + MIN_SPEECH <= found[i].end by {
        if i < s.found.len() {
            assert(found[i] == s.found[i]);
        }
    }
    assert forall|f: int| 0 <= f < k && #[trigger] voicing[f] == Voicing::On implies inside(
        found,
        f * FRAME,
    ) || blip(voicing, f) by {
        if inside(s.found, f * FRAME) {
            let i = choose|i: int|
                0 <= i < s.found.len() && (#[trigger] s.found[i]).start <= f * FRAME
                    < s.found[i].end;
            assert(found[i].start <= f * FRAME < found[i].end);
        } else if !blip(voicing, f) {
            assert(open <= f * FRAME);
            assert(a <= f < b);
            if end - open >= MIN_SPEECH {
                let last = found[s.found.len() as int];
                assert(last.start <= f * FRAME < last.end);
            } else {
                assert((b - a) * FRAME < MIN_SPEECH);
            }
        }
    }
}

proof fn lemma_goes_on(voicing: Seq<Voicing>, a: int, k: int, m: int)
    requires
        k <= voicing.len(),
        unbroken(voicing, a, k - 1),
        trailing(voicing, k, m),
    ensures
        unbroken(voicing, a, k),
{
    assert forall|f: int| a <= f && f + QUIET_FRAMES <= k implies !#[trigger] quiet_from(
        voicing,
        f,
    ) by {
        if f + QUIET_FRAMES == k && quiet_from(voicing, f) {
            assert(voicing[k - m - 1] == Voicing::Off);
        }
    }
}

/// A turn ends only where it is quiet: it opens at a clearly voiced frame, no
/// silence inside it is long enough to end it, and from its very end on every frame
/// is quiet for as long as it takes, or the recording is over.
#[verifier::spinoff_prover]
#[verifier::rlimit(80)]
pub proof fn only_silence_ends_a_turn(voicing: Seq<Voicing>, n: int, i: int)
    requires
        frames_fit(voicing.len() as int, n),
        0 <= n,
        n + PAD <= usize::MAX,
        voicing.len() * FRAME + PAD <= usize::MAX,
        0 <= i < raw_turns(voicing, n).len(),
    ensures
        (QUIET_FRAMES - 1) * FRAME < MIN_SILENCE <= QUIET_FRAMES * FRAME,
        ({
            let s = raw_turns(voicing, n)[i];
            let a = s.start as int / FRAME as int;
            let b = s.end as int / FRAME as int;
            &&& s.start + MIN_SPEECH <= s.end
            &&& s.start % FRAME == 0
            &&& {
                ||| s.end % FRAME == 0 && ended(voicing, a, b)
                ||| s.end == n && i == raw_turns(voicing, n).len() - 1 && unbroken(
                    voicing,
                    a,
                    voicing.len() as int,
                )
            }
        }),
{
    reveal(reads);
    let k = voicing.len();
    lemma_reads(voicing, k);
    lemma_scanned(voicing, k);
    let s = scanned(voicing, k);
    let t = raw_turns(voicing, n)[i];
    if i < s.found.len() {
        assert(t == s.found[i]);
        assert(kept_turn(t, voicing, t.start as int / FRAME as int, t.end as int / FRAME as int));
        assert(t.start % FRAME == 0) by (nonlinear_arith)
            requires
                t.start == (t.start as int / FRAME as int) * FRAME,
                FRAME == 512,
        ;
        assert(t.end % FRAME == 0) by (nonlinear_arith)
            requires
                t.end == (t.end as int / FRAME as int) * FRAME,
                FRAME == 512,
        ;
    }
}

/// A clearly voiced frame is in a turn, unless what was said there is too short to
/// keep.
#[verifier::spinoff_prover]
#[verifier::rlimit(80)]
pub proof fn voiced_frames_are_in_turns(voicing: Seq<Voicing>, n: int, f: int)
    requires
        frames_fit(voicing.len() as int, n),
        0 <= n,
        n + PAD <= usize::MAX,
        voicing.len() * FRAME + PAD <= usize::MAX,
        0 <= f < voicing.len(),
        voicing[f] == Voicing::On,
    ensures
        inside(raw_turns(voicing, n), f * FRAME) || blip(voicing, f) || n - f * FRAME < MIN_SPEECH,
{
    reveal(reads);
    let k = voicing.len();
    lemma_reads(voicing, k);
    lemma_scanned(voicing, k);
    let s = scanned(voicing, k);
    let all = raw_turns(voicing, n);
    assert(f * FRAME <= (k - 1) * FRAME) by (nonlinear_arith)
        requires
            f <= k - 1,
    ;
    if inside(s.found, f * FRAME) {
        let i = choose|i: int|
            0 <= i < s.found.len() && (#[trigger] s.found[i]).start <= f * FRAME < s.found[i].end;
        assert(all[i] == s.found[i]);
    } else if !blip(voicing, f) {
        let at = s.open->0;
        if n - at >= MIN_SPEECH {
            let last = all[s.found.len() as int];
            assert(last.start <= f * FRAME < last.end);
        }
    }
}

proof fn lemma_nothing_added(turns: Seq<Segment>, n: int, k: nat, x: int)
    requires
        k <= turns.len(),
        0 <= n <= usize::MAX,
        forall|i: int|
            0 <= i < turns.len() ==> (#[trigger] turns[i]).start < turns[i].end && turns[i].end <= n
                && turns[i].end + PAD <= usize::MAX,
        forall|i: int, j: int|
            0 <= i < j < turns.len() ==> (#[trigger] turns[i]).end <= (#[trigger] turns[j]).start,
        inside(merged(turns, n, k), x),
    ensures
        exists|t: int|
            0 <= t < k && (#[trigger] turns[t]).start - PAD <= x < turns[t].end + PAD,
        0 <= x < n,
    decreases k,
{
    lemma_merged(turns, n, k);
    if k > 0 {
        let out = merged(turns, n, (k - 1) as nat);
        let now = merged(turns, n, k);
        let s = padded(turns[k - 1], n);
        let i = choose|i: int| 0 <= i < now.len() && (#[trigger] now[i]).start <= x < now[i].end;
        if s.start <= x < s.end {
            assert(turns[k - 1].start - PAD <= x < turns[k - 1].end + PAD);
        } else {
            if i < out.len() {
                assert(out[i].start <= x < out[i].end);
            }
            lemma_nothing_added(turns, n, (k - 1) as nat, x);
            let t = choose|t: int|
                0 <= t < k - 1 && (#[trigger] turns[t]).start - PAD <= x < turns[t].end + PAD;
            assert(turns[t].start - PAD <= x < turns[t].end + PAD);
        }
    }
}

/// Speech is exactly the turns and the margin either side of each: a sample of the
/// recording is in a stretch if and only if a turn holds it or comes that near.
pub proof fn speech_is_turns_with_margins(voicing: Seq<Voicing>, n: int, x: int)
    requires
        frames_fit(voicing.len() as int, n),
        0 <= n,
        n + PAD <= usize::MAX,
        voicing.len() * FRAME + PAD <= usize::MAX,
    ensures
        inside(speech(voicing, n), x) <==> 0 <= x < n && exists|t: int|
            0 <= t < raw_turns(voicing, n).len() && (#[trigger] raw_turns(voicing, n)[t]).start
                - PAD <= x < raw_turns(voicing, n)[t].end + PAD,
{
    lemma_raw_turns(voicing, n);
    let turns = raw_turns(voicing, n);
    if inside(speech(voicing, n), x) {
        lemma_nothing_added(turns, n, turns.len(), x);
    }
    if 0 <= x < n && exists|t: int|
        0 <= t < turns.len() && (#[trigger] turns[t]).start - PAD <= x < turns[t].end + PAD {
        let t = choose|t: int|
            0 <= t < turns.len() && (#[trigger] turns[t]).start - PAD <= x < turns[t].end + PAD;
        lemma_covered(turns, n, turns.len(), t, x);
    }
}

/// Frame `f` is loud, and some of it is in the turn.
pub open spec fn loud_in(s: Segment, loud: Seq<bool>, f: int) -> bool {
    &&& 0 <= f < loud.len()
    &&& loud[f]
    &&& s.start < (f + 1) * FRAME
    &&& f * FRAME < s.end
}

proof fn lemma_loud_ends(loud: Seq<bool>, lo: int, hi: int)
    requires
        0 <= lo,
    ensures
        match first_loud(loud, lo, hi) {
            Some(i) => lo <= i < hi && i < loud.len() && loud[i] && forall|j: int|
                lo <= j < i && j < loud.len() ==> !#[trigger] loud[j],
            None => forall|j: int| lo <= j < hi && j < loud.len() ==> !#[trigger] loud[j],
        },
        match last_loud(loud, lo, hi) {
            Some(i) => lo <= i < hi && i < loud.len() && loud[i] && forall|j: int|
                i < j < hi && j < loud.len() ==> !#[trigger] loud[j],
            None => forall|j: int| lo <= j < hi && j < loud.len() ==> !#[trigger] loud[j],
        },
    decreases hi - lo,
{
    if lo < hi {
        lemma_loud_ends(loud, lo + 1, hi);
        lemma_loud_ends(loud, lo, hi - 1);
    }
}

/// A sample of a turn survives the trim if and only if it lies between two loud
/// frames of the turn, give or take the margin; a turn with too little left is
/// dropped, and so is one with nothing loud in it.
pub proof fn trimming_keeps_what_is_loud(s: Segment, loud: Seq<bool>, x: int)
    requires
        s.start <= x < s.end,
    ensures
        trimmed(s, loud) matches Some(t) ==> (t.start <= x < t.end <==> exists|p: int, q: int|
            #[trigger] loud_in(s, loud, p) && #[trigger] loud_in(s, loud, q) && p * FRAME - PAD <= x
                < (q + 1) * FRAME + PAD),
        (forall|p: int| !#[trigger] loud_in(s, loud, p)) ==> trimmed(s, loud) is None,
        trimmed(s, loud) is None ==> forall|p: int, q: int| #[trigger]
            loud_in(s, loud, p) && #[trigger] loud_in(s, loud, q) ==> (if (q + 1) * FRAME + PAD
                < s.end {
                (q + 1) * FRAME + PAD
            } else {
                s.end as int
            }) - (if p * FRAME - PAD > s.start {
                p * FRAME - PAD
            } else {
                s.start as int
            }) < MIN_SPEECH,
{
    let f0 = s.start as int / FRAME as int;
    let f1 = (s.end + FRAME - 1) / FRAME as int;
    lemma_loud_ends(loud, f0, f1);
    assert forall|f: int| #[trigger] loud_in(s, loud, f) <==> f0 <= f < f1 && f < loud.len()
        && loud[f] by {}
    if first_loud(loud, f0, f1) is Some {
        let first = first_loud(loud, f0, f1)->0;
        assert(loud_in(s, loud, first));
        let last = last_loud(loud, f0, f1)->0;
        assert(loud_in(s, loud, last));
        assert forall|f: int| #[trigger] loud_in(s, loud, f) implies first <= f <= last by {
            if f < first {
                assert(!loud[f]);
            }
            if f > last {
                assert(!loud[f]);
            }
        }
    } else {
        assert forall|p: int| !#[trigger] loud_in(s, loud, p) by {}
    }
}

/// Each turn is trimmed by itself, and those that are left keep their order.
pub proof fn turns_are_trimmed_one_by_one(segs: Seq<Segment>, loud: Seq<bool>)
    ensures
        all_trimmed(segs, loud, segs.len()) == segs.filter_map(|s: Segment| trimmed(s, loud)),
{
    lemma_trimmed_front(segs, loud, segs.len());
    assert(segs.take(segs.len() as int) == segs);
}

proof fn lemma_trimmed_front(segs: Seq<Segment>, loud: Seq<bool>, k: nat)
    requires
        k <= segs.len(),
    ensures
        all_trimmed(segs, loud, k) == segs.take(k as int).filter_map(
            |s: Segment| trimmed(s, loud),
        ),
    decreases k,
{
    let f = |s: Segment| trimmed(s, loud);
    reveal(Seq::filter_map);
    if k > 0 {
        lemma_trimmed_front(segs, loud, (k - 1) as nat);
        segs.lemma_filter_map_take_succ(f, k - 1);
        assert(segs[k - 1] == segs.take(k as int)[k - 1]);
    }
}

/// A cut is at the least-voiced frame there is between where looking for a pause
/// begins and the longest a piece may be, the first of them if several are as quiet;
/// with no frame to look at it is at the longest.
pub proof fn cuts_are_at_the_quietest_frame(start: int, keys: Seq<u32>, max: int, g: int)
    requires
        0 <= start,
        SR <= max,
        start + max - max / 4 < (g + 1) * FRAME,
        start + SR < (g + 1) * FRAME,
        (g + 1) * FRAME <= start + max,
        0 <= g < keys.len(),
    ensures
        ({
            let f = cut(start, keys, max) / FRAME as int;
            &&& cut(start, keys, max) % FRAME as int == 0
            &&& 0 <= f < keys.len()
            &&& start + max - max / 4 < (f + 1) * FRAME
            &&& start + SR < (f + 1) * FRAME
            &&& (f + 1) * FRAME <= start + max
            &&& keys[f] <= keys[g]
            &&& g < f ==> keys[f] < keys[g]
        }),
{
    let target = start + max;
    let late = target - max / 4;
    let lo = if late > start + SR {
        late
    } else {
        start + SR
    };
    let lo_f = lo / FRAME as int;
    let hi_f = if target / FRAME as int <= keys.len() {
        target / FRAME as int
    } else {
        keys.len() as int
    };
    assert(lo_f <= g < hi_f);
    lemma_least(keys, lo_f, hi_f);
    let f = least(keys, lo_f, hi_f);
    assert(cut(start, keys, max) == f * FRAME);
    assert(f * FRAME / FRAME as int == f);
}

/// With no frame to look at, a piece is as long as it may be.
pub proof fn no_frame_no_pause(start: int, keys: Seq<u32>, max: int)
    requires
        0 <= start,
        SR <= max,
        forall|g: int|
            0 <= g < keys.len() && start + max - max / 4 < (g + 1) * FRAME && start + SR < (g + 1)
                * FRAME ==> (#[trigger] keys[g], start + max).1 < (g + 1) * FRAME,
    ensures
        cut(start, keys, max) == start + max,
{
    let target = start + max;
    let late = target - max / 4;
    let lo = if late > start + SR {
        late
    } else {
        start + SR
    };
    let lo_f = lo / FRAME as int;
    if lo_f < keys.len() {
        let k = keys[lo_f];
        assert(start + max < (lo_f + 1) * FRAME);
    }
}

/// A stretch is cut only while what is left of it is too long, and there where a
/// cut belongs.
pub proof fn only_long_stretches_are_cut(start: int, end: int, keys: Seq<u32>, max: int, i: int)
    requires
        0 <= start < end <= usize::MAX,
        SR <= max,
        0 <= i < pieces(start, end, keys, max).len() - 1,
    ensures
        end - pieces(start, end, keys, max)[i].start > max,
        pieces(start, end, keys, max)[i].end == cut(
            pieces(start, end, keys, max)[i].start as int,
            keys,
            max,
        ),
    decreases end - start,
{
    cut_moves_on(start, keys, max);
    if end - start > max {
        let c = cut(start, keys, max);
        let rest = pieces(c, end, keys, max);
        if i > 0 {
            only_long_stretches_are_cut(c, end, keys, max, i - 1);
            assert(pieces(start, end, keys, max)[i] == rest[i - 1]);
        }
    }
}

/// The pieces of every stretch follow those of the one before it, and nothing else
/// stands among them.
pub proof fn stretches_are_cut_one_by_one(segs: Seq<Segment>, keys: Seq<u32>, max: int)
    ensures
        all_pieces(segs, keys, max, segs.len()) == Seq::new(
            segs.len(),
            |i: int| pieces(segs[i].start as int, segs[i].end as int, keys, max),
        ).flatten(),
{
    lemma_pieces_front(segs, keys, max, segs.len());
}

proof fn lemma_pieces_front(segs: Seq<Segment>, keys: Seq<u32>, max: int, k: nat)
    requires
        k <= segs.len(),
    ensures
        all_pieces(segs, keys, max, k) == Seq::new(
            k,
            |i: int| pieces(segs[i].start as int, segs[i].end as int, keys, max),
        ).flatten(),
    decreases k,
{
    let f = |i: int| pieces(segs[i].start as int, segs[i].end as int, keys, max);
    let all = Seq::new(k, f);
    if k > 0 {
        let front = Seq::new((k - 1) as nat, f);
        lemma_pieces_front(segs, keys, max, (k - 1) as nat);
        front.lemma_flatten_push(all.last());
        assert(front.push(all.last()) == all);
    } else {
        assert(all.flatten() == Seq::<Segment>::empty());
    }
}

/// A chunk takes turns `a` to `b`: they fit, and the next one would not.
pub open spec fn fits(turns: Seq<Segment>, max: int, k: int, a: int, b: int) -> bool {
    &&& 0 <= a < b <= k
    &&& forall|m: int| a < m < b ==> (#[trigger] turns[m]).end - turns[a].start <= max
    &&& b < k ==> turns[b].end - turns[a].start > max
}

/// Chunks take the turns in order, every one of them and each once; a turn starts a
/// new chunk only if it does not fit in the one before.
#[verifier::spinoff_prover]
#[verifier::rlimit(80)]
pub proof fn chunks_take_every_turn(turns: Seq<Segment>, max: int, k: nat) -> (at: Seq<int>)
    requires
        k <= turns.len(),
    ensures
        at.len() == chunked(turns, max, k).len() + 1,
        at[0] == 0,
        at.last() == k,
        forall|i: int|
            0 <= i < at.len() - 1 ==> {
                &&& fits(turns, max, k as int, #[trigger] at[i], at[i + 1])
                &&& chunked(turns, max, k)[i].start == turns[at[i]].start
                &&& chunked(turns, max, k)[i].end == turns[at[i + 1] - 1].end
            },
    decreases k,
{
    if k == 0 {
        seq![0int]
    } else {
        let was = chunks_take_every_turn(turns, max, (k - 1) as nat);
        let out = chunked(turns, max, (k - 1) as nat);
        let s = turns[k - 1];
        let n = was.len();
        if out.len() > 0 {
            let a = was[n - 2];
            assert(fits(turns, max, k - 1, a, was[n - 2 + 1]));
        }
        if out.len() > 0 && s.end - out.last().start <= max {
            let at = was.update(n - 1, k as int);
            assert forall|i: int| 0 <= i < at.len() - 1 implies {
                &&& fits(turns, max, k as int, #[trigger] at[i], at[i + 1])
                &&& chunked(turns, max, k)[i].start == turns[at[i]].start
                &&& chunked(turns, max, k)[i].end == turns[at[i + 1] - 1].end
            } by {
                assert(fits(turns, max, k - 1, was[i], was[i + 1]));
                if i < n - 2 {
                    assert(was[i + 1] < k - 1) by {
                        assert(fits(turns, max, k - 1, was[i + 1], was[i + 1 + 1]));
                    }
                }
            }
            at
        } else {
            let at = was.push(k as int);
            assert forall|i: int| 0 <= i < at.len() - 1 implies {
                &&& fits(turns, max, k as int, #[trigger] at[i], at[i + 1])
                &&& chunked(turns, max, k)[i].start == turns[at[i]].start
                &&& chunked(turns, max, k)[i].end == turns[at[i + 1] - 1].end
            } by {
                if i < n - 1 {
                    assert(fits(turns, max, k - 1, was[i], was[i + 1]));
                    if i < n - 2 {
                        assert(was[i + 1] < k - 1) by {
                            assert(fits(turns, max, k - 1, was[i + 1], was[i + 1 + 1]));
                        }
                    }
                }
            }
            at
        }
    }
}

} // verus!
