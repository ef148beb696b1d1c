//! Diarization error rate: how far a speaker segmentation is from the truth.
//!
//! The three components are kept apart because they do not mean the same thing
//! to fix: missed speech is the segmenter throwing audio away, false alarm is
//! it hearing speech in noise, and confusion is the clustering putting the
//! right speech under the wrong speaker.
//!
//! Speaker labels are arbitrary strings on both sides, so the two label sets
//! are matched by maximum-weight assignment before anything is counted. Time is
//! counted in frames of ten milliseconds, the md-eval convention: a frame
//! belongs to a turn when its midpoint does.

use crate::assignment;
use crate::assignment::best_mapping;
use crate::text;
use crate::text::{
    chars_of, decimal_string, has_prefix, insert_ordered, same, split_lines, split_words, string_of, trimmed,
};
use vstd::prelude::*;

verus! {

/// One speaker speaking over one stretch of frames, `end` not included.
#[derive(Debug)]
pub struct Turn {
    pub first: usize,
    pub end: usize,
    pub speaker: String,
}

/// The error frames behind one score, and the reference speech they are
/// measured against.
#[derive(Debug, Clone, Copy, PartialEq, Eq, Structural)]
pub struct Der {
    pub missed: usize,
    pub false_alarm: usize,
    pub confusion: usize,
    pub reference: usize,
}

impl Der {
    pub open spec fn errors(&self) -> int {
        self.missed + self.false_alarm + self.confusion
    }

    /// `(missed + false alarm + confusion) / reference`, the conventional
    /// diarization error rate, as a numerator and a denominator. Not capped at
    /// one: a system that invents speakers over silence can legitimately score
    /// above it.
    pub fn rate(&self) -> (r: (usize, usize))
        requires
            self.errors() <= usize::MAX,
        ensures
            self.reference == 0 ==> r == (0usize, 1usize),
            self.reference != 0 ==> r.0 == self.errors() && r.1 == self.reference,
    {
        if self.reference == 0 {
            return (0, 1);
        }
        (self.missed + self.false_alarm + self.confusion, self.reference)
    }
}

/// One `SPEAKER` line of an RTTM file. The two times are still text.
#[derive(Debug)]
pub struct RttmTurn {
    /// The line's number in its file, from one.
    pub line: usize,
    pub onset: String,
    pub duration: String,
    pub speaker: String,
}

/// What an RTTM file holds up to its first malformed line, and what is wrong
/// with that line.
#[derive(Debug)]
pub struct Rttm {
    pub turns: Vec<RttmTurn>,
    pub error: Option<String>,
}

/// An RTTM turn as plain characters.
pub struct RttmText {
    pub line: nat,
    pub onset: Seq<char>,
    pub duration: Seq<char>,
    pub speaker: Seq<char>,
}

impl View for RttmTurn {
    type V = RttmText;

    open spec fn view(&self) -> RttmText {
        RttmText {
            line: self.line as nat,
            onset: self.onset@,
            duration: self.duration@,
            speaker: self.speaker@,
        }
    }
}

/// What one line of an RTTM file is.
pub enum Reading {
    /// Blank, or a comment.
    Skip,
    Bad(Seq<char>),
    Speaker(RttmText),
}

pub open spec fn read_line(number: nat, raw: Seq<char>) -> Reading {
    let line = text::trim(raw);
    let fields = text::words(line);
    if line.len() == 0 || text::starts_with(line, ";;"@) {
        Reading::Skip
    } else if fields[0] != "SPEAKER"@ {
        Reading::Bad("line "@ + text::decimal(number) + ": not a SPEAKER line: "@ + line)
    } else if fields.len() < 8 {
        Reading::Bad(
            "line "@ + text::decimal(number) + ": expected at least 8 fields, found "@
                + text::decimal(fields.len()),
        )
    } else {
        Reading::Speaker(
            RttmText { line: number, onset: fields[3], duration: fields[4], speaker: fields[7] },
        )
    }
}

/// The turns of the first `k` lines.
pub open spec fn turns_of(lines: Seq<Seq<char>>, k: nat) -> Seq<RttmText>
    decreases k,
{
    if k == 0 {
        Seq::empty()
    } else {
        let front = turns_of(lines, (k - 1) as nat);
        match read_line(k, lines[k - 1]) {
            Reading::Speaker(t) => front.push(t),
            _ => front,
        }
    }
}

/// The first `k` lines hold nothing malformed.
pub open spec fn sound_lines(lines: Seq<Seq<char>>, k: int) -> bool {
    forall|i: int| 0 <= i < k ==> !(#[trigger] read_line((i + 1) as nat, lines[i]) is Bad)
}

pub open spec fn rttm_texts(turns: Seq<RttmTurn>) -> Seq<RttmText> {
    turns.map_values(|t: RttmTurn| t@)
}

proof fn lemma_trimmed_has_a_word(s: Seq<char>)
    requires
        text::trim(s).len() > 0,
    ensures
        text::words(text::trim(s)).len() > 0,
{
    let t = text::trim_start(s);
    text::lemma_trim_start_len(s);
    lemma_trim_end_front(t);
    let u = text::trim(s);
    assert(u[0] == t[0]);
    assert(text::trim_start(u) == u);
    assert(text::word_len(u) > 0);
}

proof fn lemma_trim_end_front(s: Seq<char>)
    ensures
        text::trim_end(s).len() <= s.len(),
        text::trim_end(s) == s.take(text::trim_end(s).len() as int),
    decreases s.len(),
{
    if s.len() > 0 && text::white_space(s.last()) {
        lemma_trim_end_front(s.drop_last());
        assert(s.drop_last().take(text::trim_end(s).len() as int) == s.take(
            text::trim_end(s).len() as int,
        ));
    } else {
        assert(s.take(s.len() as int) == s);
    }
}

/// Parse NIST RTTM, the format every diarization corpus ships its truth in.
///
/// Only `SPEAKER` lines carry turns; the fields that matter are the onset and
/// the duration and the eighth field, the speaker label. Blank lines and `;;`
/// comments are skipped. Anything else is an error naming the line: a download
/// that failed to an error page is still a file on disk, and silently parsing
/// it to zero turns would score a run against nothing.
pub fn parse_rttm(text: &str) -> (r: Rttm)
    requires
        text@.len() < usize::MAX,
    ensures
        r.error is None ==> sound_lines(text::lines(text@), text::lines(text@).len() as int)
            && rttm_texts(r.turns@) == turns_of(text::lines(text@), text::lines(text@).len()),
        r.error matches Some(e) ==> exists|k: int|
            {
                &&& 0 <= k < text::lines(text@).len()
                &&& #[trigger] sound_lines(text::lines(text@), k)
                &&& read_line((k + 1) as nat, text::lines(text@)[k]) == Reading::Bad(e@)
                &&& rttm_texts(r.turns@) == turns_of(text::lines(text@), k as nat)
            },
{
    let chars: Vec<char> = chars_of(text);
    let ls: Vec<Vec<char>> = split_lines(chars.as_slice());
    let ghost lines = text::lines(text@);
    let comment: Vec<char> = chars_of(";;");
    let keyword: Vec<char> = chars_of("SPEAKER");
    let mut turns: Vec<RttmTurn> = Vec::new();
    let mut i: usize = 0;
    proof {
        assert(rttm_texts(turns@) == Seq::<RttmText>::empty());
        lemma_line_count(text@);
    }
    while i < ls.len()
        invariant
            i <= ls@.len() < usize::MAX,
            lines == text::lines(text@),
            text::seqs(ls@) == lines,
            comment@ == ";;"@,
            keyword@ == "SPEAKER"@,
            sound_lines(lines, i as int),
            rttm_texts(turns@) == turns_of(lines, i as nat),
        decreases ls@.len() - i,
    {
        let number: usize = i + 1;
        proof {
            assert(lines[i as int] == ls@[i as int]@);
        }
        let line: Vec<char> = trimmed(ls[i].as_slice());
        if line.len() == 0 || has_prefix(line.as_slice(), comment.as_slice()) {
            i = i + 1;
            continue ;
        }
        let fields: Vec<Vec<char>> = split_words(line.as_slice());
        proof {
            lemma_trimmed_has_a_word(lines[i as int]);
            assert(text::seqs(fields@).len() == fields@.len());
            assert forall|j: int| 0 <= j < fields@.len() implies #[trigger] fields@[j]@
                == text::words(line@)[j] by {
                assert(text::seqs(fields@)[j] == fields@[j]@);
            }
        }
        if !same(fields[0].as_slice(), keyword.as_slice()) {
            let mut e: String = "line ".to_owned();
            e.append(decimal_string(number as u64).as_str());
            e.append(": not a SPEAKER line: ");
            e.append(string_of(line.as_slice()).as_str());
            return Rttm { turns, error: Some(e) };
        }
        if fields.len() < 8 {
            let mut e: String = "line ".to_owned();
            e.append(decimal_string(number as u64).as_str());
            e.append(": expected at least 8 fields, found ");
            e.append(decimal_string(fields.len() as u64).as_str());
            return Rttm { turns, error: Some(e) };
        }
        let turn: RttmTurn = RttmTurn {
            line: number,
            onset: string_of(fields[3].as_slice()),
            duration: string_of(fields[4].as_slice()),
            speaker: string_of(fields[7].as_slice()),
        };
        proof {
            assert(rttm_texts(turns@.push(turn)) == rttm_texts(turns@).push(turn@));
        }
        turns.push(turn);
        i = i + 1;
    }
    Rttm { turns, error: None }
}

proof fn lemma_line_count(s: Seq<char>)
    ensures
        text::lines(s).len() <= s.len(),
    decreases s.len(),
{
    let k = text::run_len(s, '\n');
    if s.len() > 0 && k < s.len() {
        lemma_line_count(s.skip(k as int + 1));
    }
}

/// The distinct speaker labels of a turn list, in dictionary order.
pub open spec fn label_list(turns: Seq<Turn>) -> Seq<Seq<char>>
    decreases turns.len(),
{
    if turns.len() == 0 {
        Seq::empty()
    } else {
        text::ordered_insert(label_list(turns.drop_last()), turns.last().speaker@)
    }
}

/// The labels are distinct, in dictionary order, and exactly the speakers of
/// the turns.
pub proof fn labels_are_the_speakers(turns: Seq<Turn>)
    ensures
        text::strictly_ordered(label_list(turns)),
        forall|x: Seq<char>| #[trigger]
            label_list(turns).contains(x) <==> exists|t: int|
                0 <= t < turns.len() && (#[trigger] turns[t]).speaker@ == x,
        label_list(turns).len() <= turns.len(),
    decreases turns.len(),
{
    if turns.len() > 0 {
        let front = turns.drop_last();
        labels_are_the_speakers(front);
        text::lemma_ordered_insert(label_list(front), turns.last().speaker@);
        assert forall|x: Seq<char>| #[trigger]
            label_list(turns).contains(x) <==> exists|t: int|
                0 <= t < turns.len() && (#[trigger] turns[t]).speaker@ == x by {
            if label_list(turns).contains(x) {
                if label_list(front).contains(x) {
                    let t = choose|t: int| 0 <= t < front.len() && (#[trigger] front[t]).speaker@ == x;
                    assert(turns[t].speaker@ == x);
                } else {
                    assert(turns[turns.len() - 1].speaker@ == x);
                }
            }
            if exists|t: int| 0 <= t < turns.len() && (#[trigger] turns[t]).speaker@ == x {
                let t = choose|t: int| 0 <= t < turns.len() && (#[trigger] turns[t]).speaker@ == x;
                if t < front.len() {
                    assert(front[t].speaker@ == x);
                    assert(label_list(front).contains(x));
                }
            }
        }
    }
}

/// The distinct speaker labels of a turn list, in a fixed order so that two
/// runs over the same input map the same way.
pub fn labels(turns: &[Turn]) -> (r: Vec<String>)
    ensures
        text::views(r@) == label_list(turns@),
{
    let mut out: Vec<String> = Vec::new();
    let mut i: usize = 0;
    proof {
        assert(turns@.take(0) == Seq::<Turn>::empty());
        assert(text::views(out@) == Seq::<Seq<char>>::empty());
    }
    while i < turns.len()
        invariant
            i <= turns@.len(),
            text::views(out@) == label_list(turns@.take(i as int)),
        decreases turns@.len() - i,
    {
        proof {
            assert(turns@.take(i + 1).drop_last() == turns@.take(i as int));
            assert(turns@.take(i + 1).last() == turns@[i as int]);
        }
        insert_ordered(&mut out, turns[i].speaker.as_str());
        i = i + 1;
    }
    proof {
        assert(turns@.take(turns@.len() as int) == turns@);
    }
    out
}

/// `label` is speaking in `frame`.
pub open spec fn speaks(turns: Seq<Turn>, label: Seq<char>, frame: int) -> bool {
    exists|t: int|
        0 <= t < turns.len() && (#[trigger] turns[t]).speaker@ == label && turns[t].first <= frame
            < turns[t].end
}

/// `table[label][frame]` is whether that label is speaking in that frame.
pub open spec fn is_occupancy(
    table: Seq<Vec<bool>>,
    turns: Seq<Turn>,
    labels: Seq<Seq<char>>,
    frames: int,
) -> bool {
    &&& table.len() == labels.len()
    &&& forall|l: int| 0 <= l < labels.len() ==> (#[trigger] table[l])@.len() == frames
    &&& forall|l: int, f: int|
        0 <= l < labels.len() && 0 <= f < frames ==> #[trigger] table[l]@[f] == speaks(
            turns,
            labels[l],
            f,
        )
}

/// Whether each label is speaking in each frame.
pub fn occupancy(turns: &[Turn], labels: &[String], frames: usize) -> (r: Vec<Vec<bool>>)
    ensures
        is_occupancy(r@, turns@, text::views(labels@), frames as int),
{
    let mut table: Vec<Vec<bool>> = Vec::new();
    let mut l: usize = 0;
    while l < labels.len()
        invariant
            l <= labels@.len(),
            table@.len() == l,
            forall|x: int| 0 <= x < l ==> (#[trigger] table@[x])@.len() == frames,
            forall|x: int, f: int|
                0 <= x < l && 0 <= f < frames ==> #[trigger] table@[x]@[f] == speaks(
                    turns@,
                    text::views(labels@)[x],
                    f,
                ),
        decreases labels@.len() - l,
    {
        let ghost label = text::views(labels@)[l as int];
        let mut row: Vec<bool> = vec![false; frames];
        let mut t: usize = 0;
        proof {
            assert(forall|f: int| !speaks(turns@.take(0), label, f));
        }
        while t < turns.len()
            invariant
                l < labels@.len(),
                label == labels@[l as int]@,
                t <= turns@.len(),
                row@.len() == frames,
                forall|f: int|
                    0 <= f < frames ==> #[trigger] row@[f] == speaks(
                        turns@.take(t as int),
                        label,
                        f,
                    ),
            decreases turns@.len() - t,
        {
            let mine: bool = turns[t].speaker == labels[l];
            let mut f: usize = turns[t].first;
            let ghost before = row@;
            if mine {
                while f < frames && f < turns[t].end
                    invariant
                        t < turns@.len(),
                        before.len() == frames,
                        row@.len() == frames,
                        turns@[t as int].first <= f,
                        forall|g: int|
                            0 <= g < frames ==> #[trigger] row@[g] == (before[g]
                                || turns@[t as int].first <= g < f && g < turns@[t as int].end),
                    decreases frames - f,
                {
                    row.set(f, true);
                    f = f + 1;
                }
            }
            proof {
                assert forall|g: int| 0 <= g < frames implies #[trigger] row@[g] == speaks(
                    turns@.take(t + 1),
                    label,
                    g,
                ) by {
                    let was = turns@.take(t as int);
                    let now = turns@.take(t + 1);
                    assert(before[g] == speaks(was, label, g));
                    if speaks(was, label, g) {
                        let k = choose|k: int|
                            0 <= k < was.len() && (#[trigger] was[k]).speaker@ == label
                                && was[k].first <= g < was[k].end;
                        assert(now[k] == was[k]);
                    }
                    if speaks(now, label, g) {
                        let k = choose|k: int|
                            0 <= k < now.len() && (#[trigger] now[k]).speaker@ == label
                                && now[k].first <= g < now[k].end;
                        if k < t {
                            assert(was[k] == now[k]);
                        }
                    }
                    assert(now[t as int] == turns@[t as int]);
                }
            }
            t = t + 1;
        }
        proof {
            assert(turns@.take(turns@.len() as int) == turns@);
        }
        table.push(row);
        l = l + 1;
    }
    table
}

/// One past the last frame any of the turns reaches.
pub open spec fn frame_count(turns: Seq<Turn>) -> nat
    decreases turns.len(),
{
    if turns.len() == 0 {
        0
    } else {
        let front = frame_count(turns.drop_last());
        if turns.last().end > front {
            turns.last().end as nat
        } else {
            front
        }
    }
}

/// How many of the first `k` labels are speaking in `frame`.
pub open spec fn crowd(turns: Seq<Turn>, labels: Seq<Seq<char>>, k: nat, frame: int) -> nat
    decreases k,
{
    if k == 0 {
        0
    } else {
        crowd(turns, labels, (k - 1) as nat, frame) + if speaks(turns, labels[k - 1], frame) {
            1nat
        } else {
            0nat
        }
    }
}

/// The sum of `g` over the first `n` frames.
pub open spec fn over_frames(g: spec_fn(int) -> int, n: nat) -> int
    decreases n,
{
    if n == 0 {
        0
    } else {
        over_frames(g, (n - 1) as nat) + g(n - 1)
    }
}

/// What is being scored: two segmentations, and the stretches of frames around
/// the reference's turn boundaries that are left out because annotators
/// disagree about where a turn starts by more than a system does.
pub struct Trial {
    pub reference: Seq<Turn>,
    pub hypothesis: Seq<Turn>,
    pub collar: Seq<(usize, usize)>,
}

impl Trial {
    pub open spec fn reference_labels(self) -> Seq<Seq<char>> {
        label_list(self.reference)
    }

    pub open spec fn hypothesis_labels(self) -> Seq<Seq<char>> {
        label_list(self.hypothesis)
    }

    /// The frames of the longer of the two.
    pub open spec fn frames(self) -> nat {
        if frame_count(self.reference) >= frame_count(self.hypothesis) {
            frame_count(self.reference)
        } else {
            frame_count(self.hypothesis)
        }
    }

    pub open spec fn scored(self, frame: int) -> bool {
        forall|i: int|
            0 <= i < self.collar.len() ==> !((#[trigger] self.collar[i]).0 <= frame
                < self.collar[i].1)
    }

    /// Reference speakers in a frame.
    pub open spec fn n_ref(self, frame: int) -> nat {
        crowd(self.reference, self.reference_labels(), self.reference_labels().len(), frame)
    }

    /// Hypothesis speakers in a frame.
    pub open spec fn n_hyp(self, frame: int) -> nat {
        crowd(self.hypothesis, self.hypothesis_labels(), self.hypothesis_labels().len(), frame)
    }

    /// Reference speakers the hypothesis has no room for.
    pub open spec fn missed(self) -> spec_fn(int) -> int {
        |f: int|
            if self.scored(f) && self.n_ref(f) > self.n_hyp(f) {
                self.n_ref(f) - self.n_hyp(f)
            } else {
                0
            }
    }

    /// Hypothesis speakers the reference has no room for.
    pub open spec fn false_alarm(self) -> spec_fn(int) -> int {
        |f: int|
            if self.scored(f) && self.n_hyp(f) > self.n_ref(f) {
                self.n_hyp(f) - self.n_ref(f)
            } else {
                0
            }
    }

    /// Speakers on both sides: each is right or confused.
    pub open spec fn paired(self) -> spec_fn(int) -> int {
        |f: int|
            if !self.scored(f) {
                0
            } else if self.n_ref(f) <= self.n_hyp(f) {
                self.n_ref(f) as int
            } else {
                self.n_hyp(f) as int
            }
    }

    pub open spec fn speech(self) -> spec_fn(int) -> int {
        |f: int|
            if self.scored(f) {
                self.n_ref(f) as int
            } else {
                0
            }
    }

    /// Both labels speak in a frame that is scored.
    pub open spec fn shared(self, r: int, h: int) -> spec_fn(int) -> int {
        |f: int|
            if self.scored(f) && speaks(self.reference, self.reference_labels()[r], f) && speaks(
                self.hypothesis,
                self.hypothesis_labels()[h],
                f,
            ) {
                1
            } else {
                0
            }
    }

    /// The speech a label mapping puts on the right speaker, over the first `n`
    /// frames.
    pub open spec fn agreed(self, m: Seq<Option<usize>>, n: nat) -> int
        decreases m.len(),
    {
        if m.len() == 0 {
            0
        } else {
            self.agreed(m.drop_last(), n) + match m.last() {
                Some(h) => over_frames(self.shared(m.len() - 1, h as int), n),
                None => 0,
            }
        }
    }

    /// `m` maps reference labels to hypothesis labels one to one, and no such
    /// mapping puts more speech on the right speaker.
    pub open spec fn best(self, m: Seq<Option<usize>>) -> bool {
        let n_ref = self.reference_labels().len() as int;
        let n_hyp = self.hypothesis_labels().len() as int;
        &&& assignment::maps(m, n_ref, n_hyp)
        &&& forall|other: Seq<Option<usize>>|
            assignment::maps(other, n_ref, n_hyp) ==> #[trigger] self.agreed(other, self.frames())
                <= self.agreed(m, self.frames())
    }
}

/// `d` is the score of a trial: frames are counted with the md-eval cardinality
/// formula, and what a best label mapping gets right is neither missed, nor a
/// false alarm, nor confused.
pub open spec fn is_der(c: Trial, d: Der) -> bool {
    &&& d.missed == over_frames(c.missed(), c.frames())
    &&& d.false_alarm == over_frames(c.false_alarm(), c.frames())
    &&& d.reference == over_frames(c.speech(), c.frames())
    &&& exists|m: Seq<Option<usize>>| #[trigger]
        c.best(m) && d.confusion == over_frames(c.paired(), c.frames()) - c.agreed(m, c.frames())
}

/// Of the first `k` reference labels, how many speak in a frame together with
/// the label they are mapped to.
spec fn hits(c: Trial, m: Seq<Option<usize>>, k: nat, f: int) -> nat
    decreases k,
{
    if k == 0 {
        0
    } else {
        hits(c, m, (k - 1) as nat, f) + if m[k - 1] is Some && speaks(
            c.reference,
            c.reference_labels()[k - 1],
            f,
        ) && speaks(c.hypothesis, c.hypothesis_labels()[m[k - 1]->0 as int], f) {
            1nat
        } else {
            0nat
        }
    }
}

proof fn lemma_agreed_step(c: Trial, m: Seq<Option<usize>>, n: nat)
    requires
        m.len() <= c.reference_labels().len(),
    ensures
        c.agreed(m, n + 1) == c.agreed(m, n) + (if c.scored(n as int) {
            hits(c, m, m.len(), n as int) as int
        } else {
            0
        }),
        c.agreed(m, 0) == 0,
    decreases m.len(),
{
    if m.len() > 0 {
        let front = m.drop_last();
        lemma_agreed_step(c, front, n);
        lemma_hits_local(c, m, front, front.len(), n as int);
        assert(m.last() == m[m.len() - 1]);
    }
}

proof fn lemma_hits_local(
    c: Trial,
    m: Seq<Option<usize>>,
    l: Seq<Option<usize>>,
    k: nat,
    f: int,
)
    requires
        k <= m.len(),
        k <= l.len(),
        forall|i: int| 0 <= i < k ==> #[trigger] m[i] == l[i],
    ensures
        hits(c, m, k, f) == hits(c, l, k, f),
    decreases k,
{
    if k > 0 {
        lemma_hits_local(c, m, l, (k - 1) as nat, f);
        assert(m[k - 1] == l[k - 1]);
    }
}

proof fn lemma_hits_below_ref(c: Trial, m: Seq<Option<usize>>, k: nat, f: int)
    ensures
        hits(c, m, k, f) <= crowd(c.reference, c.reference_labels(), k, f),
    decreases k,
{
    if k > 0 {
        lemma_hits_below_ref(c, m, (k - 1) as nat, f);
    }
}

/// How many of the first `h` marks are set.
spec fn marks(o: Seq<bool>, h: nat) -> nat
    decreases h,
{
    if h == 0 {
        0
    } else {
        marks(o, (h - 1) as nat) + if o[h - 1] {
            1nat
        } else {
            0nat
        }
    }
}

proof fn lemma_marks_clear(o: Seq<bool>, h: nat, x: int)
    requires
        h <= o.len(),
        0 <= x < h,
        o[x],
    ensures
        marks(o.update(x, false), h) + 1 == marks(o, h),
    decreases h,
{
    if x < h - 1 {
        lemma_marks_clear(o, (h - 1) as nat, x);
    } else {
        lemma_marks_same(o, o.update(x, false), (h - 1) as nat);
    }
}

proof fn lemma_marks_same(o: Seq<bool>, q: Seq<bool>, h: nat)
    requires
        h <= o.len(),
        h <= q.len(),
        forall|i: int| 0 <= i < h ==> #[trigger] o[i] == q[i],
    ensures
        marks(o, h) == marks(q, h),
    decreases h,
{
    if h > 0 {
        lemma_marks_same(o, q, (h - 1) as nat);
        assert(o[h - 1] == q[h - 1]);
    }
}

/// No more labels are right than are speaking: two reference labels never share
/// one.
proof fn lemma_hits_below_marks(c: Trial, m: Seq<Option<usize>>, k: nat, f: int, o: Seq<bool>)
    requires
        k <= m.len(),
        o.len() == c.hypothesis_labels().len(),
        forall|r: int| 0 <= r < k && (#[trigger] m[r]) is Some ==> m[r]->0 < o.len(),
        forall|r: int, s: int|
            0 <= r < s < k && (#[trigger] m[r]) is Some && (#[trigger] m[s]) is Some ==> m[r]->0
                != m[s]->0,
        forall|r: int|
            0 <= r < k && (#[trigger] m[r]) is Some && speaks(
                c.hypothesis,
                c.hypothesis_labels()[m[r]->0 as int],
                f,
            ) ==> o[m[r]->0 as int],
    ensures
        hits(c, m, k, f) <= marks(o, o.len()),
    decreases k,
{
    if k > 0 {
        let last = m[k - 1];
        if last is Some && speaks(c.reference, c.reference_labels()[k - 1], f) && speaks(
            c.hypothesis,
            c.hypothesis_labels()[last->0 as int],
            f,
        ) {
            let x = last->0 as int;
            let q = o.update(x, false);
            assert forall|r: int|
                0 <= r < k - 1 && (#[trigger] m[r]) is Some && speaks(
                    c.hypothesis,
                    c.hypothesis_labels()[m[r]->0 as int],
                    f,
                ) implies q[m[r]->0 as int] by {
                assert(m[r]->0 != m[k - 1]->0);
            }
            lemma_hits_below_marks(c, m, (k - 1) as nat, f, q);
            lemma_marks_clear(o, o.len(), x);
        } else {
            lemma_hits_below_marks(c, m, (k - 1) as nat, f, o);
        }
    }
}

proof fn lemma_crowd_is_marks(
    turns: Seq<Turn>,
    labels: Seq<Seq<char>>,
    k: nat,
    f: int,
    o: Seq<bool>,
)
    requires
        k <= o.len(),
        forall|l: int| 0 <= l < k ==> #[trigger] o[l] == speaks(turns, labels[l], f),
    ensures
        crowd(turns, labels, k, f) == marks(o, k),
    decreases k,
{
    if k > 0 {
        lemma_crowd_is_marks(turns, labels, (k - 1) as nat, f, o);
        assert(o[k - 1] == speaks(turns, labels[k - 1], f));
    }
}

proof fn lemma_hits_below_hyp(c: Trial, m: Seq<Option<usize>>, f: int)
    requires
        assignment::maps(
            m,
            c.reference_labels().len() as int,
            c.hypothesis_labels().len() as int,
        ),
    ensures
        hits(c, m, m.len(), f) <= c.n_ref(f),
        hits(c, m, m.len(), f) <= c.n_hyp(f),
{
    let o = Seq::new(
        c.hypothesis_labels().len(),
        |h: int| speaks(c.hypothesis, c.hypothesis_labels()[h], f),
    );
    lemma_hits_below_ref(c, m, m.len(), f);
    lemma_hits_below_marks(c, m, m.len(), f, o);
    lemma_crowd_is_marks(c.hypothesis, c.hypothesis_labels(), o.len(), f, o);
}

proof fn lemma_crowd_bound(turns: Seq<Turn>, labels: Seq<Seq<char>>, k: nat, f: int)
    ensures
        crowd(turns, labels, k, f) <= k,
    decreases k,
{
    if k > 0 {
        lemma_crowd_bound(turns, labels, (k - 1) as nat, f);
    }
}

proof fn lemma_weight_is_agreed(
    c: Trial,
    overlap: Seq<Vec<i64>>,
    m: Seq<Option<usize>>,
    n: nat,
)
    requires
        m.len() <= c.reference_labels().len(),
        overlap.len() == c.reference_labels().len(),
        forall|r: int| 0 <= r < m.len() && (#[trigger] m[r]) is Some ==> m[r]->0
            < c.hypothesis_labels().len(),
        forall|r: int, h: int|
            0 <= r < overlap.len() && 0 <= h < c.hypothesis_labels().len()
                ==> #[trigger] overlap[r]@[h] == over_frames(c.shared(r, h), n),
    ensures
        assignment::weight(overlap, m) == c.agreed(m, n),
    decreases m.len(),
{
    if m.len() > 0 {
        let front = m.drop_last();
        assert forall|r: int| 0 <= r < front.len() && (#[trigger] front[r]) is Some implies front[r]->0
            < c.hypothesis_labels().len() by {
            assert(front[r] == m[r]);
        }
        lemma_weight_is_agreed(c, overlap, front, n);
        assert(m.last() == m[m.len() - 1]);
    }
}

fn longest(turns: &[Turn]) -> (n: usize)
    ensures
        n == frame_count(turns@),
{
    let mut n: usize = 0;
    let mut i: usize = 0;
    proof {
        assert(turns@.take(0) == Seq::<Turn>::empty());
    }
    while i < turns.len()
        invariant
            i <= turns@.len(),
            n == frame_count(turns@.take(i as int)),
        decreases turns@.len() - i,
    {
        proof {
            assert(turns@.take(i + 1).drop_last() == turns@.take(i as int));
        }
        if turns[i].end > n {
            n = turns[i].end;
        }
        i = i + 1;
    }
    proof {
        assert(turns@.take(turns@.len() as int) == turns@);
    }
    n
}

/// Which frames are scored: those outside every stretch of the collar.
fn inclusion(collar: &[(usize, usize)], frames: usize, Ghost(c): Ghost<Trial>) -> (r: Vec<bool>)
    requires
        c.collar == collar@,
    ensures
        r@.len() == frames,
        forall|f: int| 0 <= f < frames ==> #[trigger] r@[f] == c.scored(f),
{
    let mut out: Vec<bool> = Vec::new();
    let mut f: usize = 0;
    while f < frames
        invariant
            c.collar == collar@,
            f <= frames,
            out@.len() == f,
            forall|g: int| 0 <= g < f ==> #[trigger] out@[g] == c.scored(g),
        decreases frames - f,
    {
        let mut keep: bool = true;
        let mut i: usize = 0;
        while i < collar.len()
            invariant
                c.collar == collar@,
                i <= collar@.len(),
                keep == (forall|k: int|
                    0 <= k < i ==> !((#[trigger] collar@[k]).0 <= f < collar@[k].1)),
            decreases collar@.len() - i,
        {
            if collar[i].0 <= f && f < collar[i].1 {
                keep = false;
            }
            i = i + 1;
        }
        out.push(keep);
        f = f + 1;
    }
    out
}

/// How many included frames each reference label shares with each hypothesis
/// label. Frame counts, not seconds, so the assignment is exact.
fn overlaps(
    reference: &Vec<Vec<bool>>,
    hypothesis: &Vec<Vec<bool>>,
    included: &Vec<bool>,
    Ghost(c): Ghost<Trial>,
) -> (r: Vec<Vec<i64>>)
    requires
        c.frames() == included@.len(),
        included@.len() <= assignment::COST_LIMIT,
        is_occupancy(
            reference@,
            c.reference,
            c.reference_labels(),
            included@.len() as int,
        ),
        is_occupancy(
            hypothesis@,
            c.hypothesis,
            c.hypothesis_labels(),
            included@.len() as int,
        ),
        forall|f: int| 0 <= f < included@.len() ==> #[trigger] included@[f] == c.scored(f),
    ensures
        assignment::overlap_table(
            r@,
            c.reference_labels().len() as int,
            c.hypothesis_labels().len() as int,
        ),
        forall|x: int, h: int|
            0 <= x < r@.len() && 0 <= h < c.hypothesis_labels().len() ==> #[trigger] r@[x]@[h]
                == over_frames(c.shared(x, h), c.frames()),
{
    let n: usize = included.len();
    let mut table: Vec<Vec<i64>> = Vec::new();
    let mut x: usize = 0;
    while x < reference.len()
        invariant
            n == included@.len(),
            c.frames() == n,
            n <= assignment::COST_LIMIT,
            is_occupancy(reference@, c.reference, c.reference_labels(), n as int),
            is_occupancy(hypothesis@, c.hypothesis, c.hypothesis_labels(), n as int),
            forall|f: int| 0 <= f < n ==> #[trigger] included@[f] == c.scored(f),
            x <= reference@.len(),
            table@.len() == x,
            forall|r: int| 0 <= r < x ==> (#[trigger] table@[r])@.len() == hypothesis@.len(),
            forall|r: int, h: int|
                0 <= r < x && 0 <= h < hypothesis@.len() ==> 0 <= #[trigger] table@[r]@[h] <= n
                    && table@[r]@[h] == over_frames(c.shared(r, h), n as nat),
        decreases reference@.len() - x,
    {
        let mut row: Vec<i64> = Vec::new();
        let mut h: usize = 0;
        while h < hypothesis.len()
            invariant
                n == included@.len(),
                n <= assignment::COST_LIMIT,
                is_occupancy(reference@, c.reference, c.reference_labels(), n as int),
                is_occupancy(hypothesis@, c.hypothesis, c.hypothesis_labels(), n as int),
                forall|f: int| 0 <= f < n ==> #[trigger] included@[f] == c.scored(f),
                x < reference@.len(),
                h <= hypothesis@.len(),
                row@.len() == h,
                forall|k: int|
                    0 <= k < h ==> 0 <= #[trigger] row@[k] <= n && row@[k] == over_frames(
                        c.shared(x as int, k),
                        n as nat,
                    ),
            decreases hypothesis@.len() - h,
        {
            let mut count: i64 = 0;
            let mut f: usize = 0;
            while f < n
                invariant
                    n == included@.len(),
                    n <= assignment::COST_LIMIT,
                    is_occupancy(reference@, c.reference, c.reference_labels(), n as int),
                    is_occupancy(hypothesis@, c.hypothesis, c.hypothesis_labels(), n as int),
                    forall|g: int| 0 <= g < n ==> #[trigger] included@[g] == c.scored(g),
                    x < reference@.len(),
                    h < hypothesis@.len(),
                    f <= n,
                    0 <= count <= f,
                    count == over_frames(c.shared(x as int, h as int), f as nat),
                decreases n - f,
            {
                if included[f] && reference[x][f] && hypothesis[h][f] {
                    count = count + 1;
                }
                f = f + 1;
            }
            row.push(count);
            h = h + 1;
        }
        table.push(row);
        x = x + 1;
    }
    table
}

fn count_speaking(
    table: &Vec<Vec<bool>>,
    f: usize,
    Ghost(turns): Ghost<Seq<Turn>>,
    Ghost(labels): Ghost<Seq<Seq<char>>>,
    Ghost(frames): Ghost<int>,
) -> (n: usize)
    requires
        is_occupancy(table@, turns, labels, frames),
        f < frames,
    ensures
        n == crowd(turns, labels, labels.len(), f as int),
        n <= labels.len(),
{
    let mut n: usize = 0;
    let mut l: usize = 0;
    while l < table.len()
        invariant
            is_occupancy(table@, turns, labels, frames),
            f < frames,
            l <= table@.len(),
            n <= l,
            n == crowd(turns, labels, l as nat, f as int),
        decreases table@.len() - l,
    {
        if table[l][f] {
            n = n + 1;
        }
        l = l + 1;
    }
    n
}

fn count_hits(
    reference: &Vec<Vec<bool>>,
    hypothesis: &Vec<Vec<bool>>,
    mapping: &Vec<Option<usize>>,
    f: usize,
    Ghost(c): Ghost<Trial>,
) -> (n: usize)
    requires
        is_occupancy(reference@, c.reference, c.reference_labels(), c.frames() as int),
        is_occupancy(hypothesis@, c.hypothesis, c.hypothesis_labels(), c.frames() as int),
        assignment::maps(
            mapping@,
            c.reference_labels().len() as int,
            c.hypothesis_labels().len() as int,
        ),
        f < c.frames(),
    ensures
        n == hits(c, mapping@, mapping@.len(), f as int),
{
    let mut n: usize = 0;
    let mut r: usize = 0;
    while r < reference.len()
        invariant
            is_occupancy(reference@, c.reference, c.reference_labels(), c.frames() as int),
            is_occupancy(hypothesis@, c.hypothesis, c.hypothesis_labels(), c.frames() as int),
            assignment::maps(
                mapping@,
                c.reference_labels().len() as int,
                c.hypothesis_labels().len() as int,
            ),
            f < c.frames(),
            r <= reference@.len(),
            n <= r,
            n == hits(c, mapping@, r as nat, f as int),
        decreases reference@.len() - r,
    {
        if reference[r][f] {
            if let Some(h) = mapping[r] {
                proof {
                    assert(mapping@[r as int] is Some);
                }
                if hypothesis[h][f] {
                    n = n + 1;
                }
            }
        }
        r = r + 1;
    }
    n
}

/// Score a hypothesis segmentation against a reference one.
///
/// A frame in one of the collar's stretches is left out, and the remaining
/// frames are counted with the md-eval cardinality formula. Counting
/// cardinalities rather than pairs is what makes an unmapped label speaking
/// over a reference speaker one error (confusion) rather than two.
///
/// Errors only when the reference is empty: there is nothing to be a proportion
/// of, and returning zero would report a perfect score for a run with no truth
/// behind it.
pub fn score(reference: &[Turn], hypothesis: &[Turn], collar: &[(usize, usize)]) -> (r: Result<
    Der,
    String,
>)
    requires
        ({
            let c = Trial { reference: reference@, hypothesis: hypothesis@, collar: collar@ };
            &&& c.frames() <= assignment::COST_LIMIT
            &&& c.reference_labels().len() < usize::MAX
            &&& c.hypothesis_labels().len() < usize::MAX
            &&& c.frames() * c.reference_labels().len() <= usize::MAX
            &&& c.frames() * c.hypothesis_labels().len() <= usize::MAX
        }),
    ensures
        r is Err <==> reference@.len() == 0,
        r matches Err(e) ==> e@ == "empty reference: nothing to score against"@,
        r matches Ok(d) ==> is_der(
            (Trial { reference: reference@, hypothesis: hypothesis@, collar: collar@ }),
            d,
        ),
{
    if reference.len() == 0 {
        return Err("empty reference: nothing to score against".to_owned());
    }
    let ghost c = Trial { reference: reference@, hypothesis: hypothesis@, collar: collar@ };
    let ref_frames: usize = longest(reference);
    let hyp_frames: usize = longest(hypothesis);
    let frames: usize = if ref_frames >= hyp_frames {
        ref_frames
    } else {
        hyp_frames
    };

    let reference_labels: Vec<String> = labels(reference);
    let hypothesis_labels: Vec<String> = labels(hypothesis);
    proof {
        assert(text::views(reference_labels@).len() == reference_labels@.len());
        assert(text::views(hypothesis_labels@).len() == hypothesis_labels@.len());
    }
    let reference_frames: Vec<Vec<bool>> = occupancy(
        reference,
        reference_labels.as_slice(),
        frames,
    );
    let hypothesis_frames: Vec<Vec<bool>> = occupancy(
        hypothesis,
        hypothesis_labels.as_slice(),
        frames,
    );
    let included: Vec<bool> = inclusion(collar, frames, Ghost(c));
    let overlap: Vec<Vec<i64>> = overlaps(
        &reference_frames,
        &hypothesis_frames,
        &included,
        Ghost(c),
    );
    let mapping: Vec<Option<usize>> = best_mapping(
        overlap.as_slice(),
        reference_labels.len(),
        hypothesis_labels.len(),
    );
    proof {
        let n_ref = c.reference_labels().len() as int;
        let n_hyp = c.hypothesis_labels().len() as int;
        assert forall|other: Seq<Option<usize>>|
            assignment::maps(other, n_ref, n_hyp) implies #[trigger] c.agreed(other, c.frames())
            <= c.agreed(mapping@, c.frames()) by {
            lemma_weight_is_agreed(c, overlap@, other, c.frames());
            lemma_weight_is_agreed(c, overlap@, mapping@, c.frames());
        }
        assert(c.best(mapping@));
        lemma_agreed_step(c, mapping@, 0);
    }

    let mut der: Der = Der { missed: 0, false_alarm: 0, confusion: 0, reference: 0 };
    let mut f: usize = 0;
    while f < frames
        invariant
            c.frames() == frames,
            c.reference == reference@,
            c.hypothesis == hypothesis@,
            frames * c.reference_labels().len() <= usize::MAX,
            frames * c.hypothesis_labels().len() <= usize::MAX,
            included@.len() == frames,
            forall|g: int| 0 <= g < frames ==> #[trigger] included@[g] == c.scored(g),
            is_occupancy(reference_frames@, c.reference, c.reference_labels(), frames as int),
            is_occupancy(hypothesis_frames@, c.hypothesis, c.hypothesis_labels(), frames as int),
            assignment::maps(
                mapping@,
                c.reference_labels().len() as int,
                c.hypothesis_labels().len() as int,
            ),
            f <= frames,
            der.missed == over_frames(c.missed(), f as nat),
            der.false_alarm == over_frames(c.false_alarm(), f as nat),
            der.reference == over_frames(c.speech(), f as nat),
            der.confusion == over_frames(c.paired(), f as nat) - c.agreed(mapping@, f as nat),
            der.missed <= f * c.reference_labels().len(),
            der.reference <= f * c.reference_labels().len(),
            der.confusion <= f * c.reference_labels().len(),
            der.false_alarm <= f * c.hypothesis_labels().len(),
        decreases frames - f,
    {
        proof {
            let a = c.reference_labels().len() as int;
            let b = c.hypothesis_labels().len() as int;
            lemma_agreed_step(c, mapping@, f as nat);
            lemma_hits_below_hyp(c, mapping@, f as int);
            assert((f + 1) * a == f * a + a) by (nonlinear_arith);
            assert((f + 1) * b == f * b + b) by (nonlinear_arith);
            assert((f + 1) * a <= frames * a) by (nonlinear_arith)
                requires
                    f + 1 <= frames,
                    0 <= a,
            ;
            assert((f + 1) * b <= frames * b) by (nonlinear_arith)
                requires
                    f + 1 <= frames,
                    0 <= b,
            ;
        }
        if included[f] {
            let n_ref: usize = count_speaking(
                &reference_frames,
                f,
                Ghost(c.reference),
                Ghost(c.reference_labels()),
                Ghost(frames as int),
            );
            let n_hyp: usize = count_speaking(
                &hypothesis_frames,
                f,
                Ghost(c.hypothesis),
                Ghost(c.hypothesis_labels()),
                Ghost(frames as int),
            );
            let n_correct: usize = count_hits(
                &reference_frames,
                &hypothesis_frames,
                &mapping,
                f,
                Ghost(c),
            );
            proof {
                lemma_crowd_bound(
                    c.reference,
                    c.reference_labels(),
                    c.reference_labels().len(),
                    f as int,
                );
                lemma_crowd_bound(
                    c.hypothesis,
                    c.hypothesis_labels(),
                    c.hypothesis_labels().len(),
                    f as int,
                );
            }
            if n_ref > n_hyp {
                der.missed = der.missed + (n_ref - n_hyp);
                der.confusion = der.confusion + (n_hyp - n_correct);
            } else {
                der.false_alarm = der.false_alarm + (n_hyp - n_ref);
                der.confusion = der.confusion + (n_ref - n_correct);
            }
            der.reference = der.reference + n_ref;
        }
        f = f + 1;
    }
    proof {
        assert(c.best(mapping@) && der.confusion == over_frames(c.paired(), c.frames()) - c.agreed(
            mapping@,
            c.frames(),
        ));
    }
    Ok(der)
}

proof fn lemma_over_frames_same(g: spec_fn(int) -> int, h: spec_fn(int) -> int, n: nat)
    requires
        forall|f: int| 0 <= f < n ==> #[trigger] g(f) == h(f),
    ensures
        over_frames(g, n) == over_frames(h, n),
    decreases n,
{
    if n > 0 {
        lemma_over_frames_same(g, h, (n - 1) as nat);
        assert(g(n - 1) == h(n - 1));
    }
}

proof fn lemma_over_frames_zero(g: spec_fn(int) -> int, n: nat)
    requires
        forall|f: int| 0 <= f < n ==> #[trigger] g(f) == 0,
    ensures
        over_frames(g, n) == 0,
    decreases n,
{
    if n > 0 {
        lemma_over_frames_zero(g, (n - 1) as nat);
        assert(g(n - 1) == 0);
    }
}

proof fn lemma_agreed_bounds(c: Trial, m: Seq<Option<usize>>, n: nat)
    requires
        assignment::maps(
            m,
            c.reference_labels().len() as int,
            c.hypothesis_labels().len() as int,
        ),
    ensures
        0 <= c.agreed(m, n) <= over_frames(c.paired(), n),
        over_frames(c.paired(), n) + over_frames(c.missed(), n) == over_frames(c.speech(), n),
    decreases n,
{
    lemma_agreed_step(c, m, 0);
    if n > 0 {
        lemma_agreed_bounds(c, m, (n - 1) as nat);
        lemma_agreed_step(c, m, (n - 1) as nat);
        lemma_hits_below_hyp(c, m, n - 1);
    }
}

/// Speech is missed, confused or right, and nothing twice: the missed and the
/// confused never exceed the reference.
pub proof fn missed_and_confused_fit_the_reference(c: Trial, d: Der)
    requires
        is_der(c, d),
    ensures
        d.missed + d.confusion <= d.reference,
{
    let m = choose|m: Seq<Option<usize>>| #[trigger]
        c.best(m) && d.confusion == over_frames(c.paired(), c.frames()) - c.agreed(m, c.frames());
    lemma_agreed_bounds(c, m, c.frames());
}

/// With nothing in the hypothesis, all of the reference is missed and nothing
/// is wrong in any other way.
pub proof fn empty_hypothesis_is_all_missed(c: Trial, d: Der)
    requires
        is_der(c, d),
        c.hypothesis.len() == 0,
    ensures
        d.missed == d.reference,
        d.false_alarm == 0,
        d.confusion == 0,
{
    let m = choose|m: Seq<Option<usize>>| #[trigger]
        c.best(m) && d.confusion == over_frames(c.paired(), c.frames()) - c.agreed(m, c.frames());
    lemma_agreed_bounds(c, m, c.frames());
    assert(c.hypothesis_labels().len() == 0);
    lemma_over_frames_zero(c.false_alarm(), c.frames());
    lemma_over_frames_zero(c.paired(), c.frames());
}

proof fn lemma_identity_hits(c: Trial, m: Seq<Option<usize>>, k: nat, f: int)
    requires
        c.reference == c.hypothesis,
        k <= m.len(),
        forall|r: int| 0 <= r < k ==> (#[trigger] m[r]) is Some && m[r]->0 == r,
    ensures
        hits(c, m, k, f) == crowd(c.reference, c.reference_labels(), k, f),
    decreases k,
{
    if k > 0 {
        lemma_identity_hits(c, m, (k - 1) as nat, f);
        assert(m[k - 1] is Some && m[k - 1]->0 == k - 1);
    }
}

proof fn lemma_identity_agreed(c: Trial, m: Seq<Option<usize>>, n: nat)
    requires
        c.reference == c.hypothesis,
        m.len() == c.reference_labels().len(),
        forall|r: int| 0 <= r < m.len() ==> (#[trigger] m[r]) is Some && m[r]->0 == r,
    ensures
        c.agreed(m, n) == over_frames(c.paired(), n),
    decreases n,
{
    lemma_agreed_step(c, m, 0);
    if n > 0 {
        lemma_identity_agreed(c, m, (n - 1) as nat);
        lemma_agreed_step(c, m, (n - 1) as nat);
        lemma_identity_hits(c, m, m.len(), n - 1);
    }
}

/// A segmentation scored against itself has no errors.
pub proof fn identical_segmentations_score_zero(c: Trial, d: Der)
    requires
        is_der(c, d),
        c.reference == c.hypothesis,
        c.reference_labels().len() <= usize::MAX,
    ensures
        d.errors() == 0,
{
    let n = c.frames();
    let m = choose|m: Seq<Option<usize>>| #[trigger]
        c.best(m) && d.confusion == over_frames(c.paired(), n) - c.agreed(m, n);
    lemma_agreed_bounds(c, m, n);
    lemma_over_frames_zero(c.missed(), n);
    lemma_over_frames_zero(c.false_alarm(), n);
    let own = Seq::new(c.reference_labels().len(), |r: int| Some(r as usize));
    assert(assignment::maps(own, own.len() as int, own.len() as int)) by {
        assert forall|r: int, s: int|
            0 <= r < s < own.len() && (#[trigger] own[r]) is Some && (#[trigger] own[s]) is Some implies own[r]->0
            != own[s]->0 by {}
    }
    lemma_identity_agreed(c, own, n);
}

/// The same turns under other names: two turns have the same speaker in one
/// list exactly when they have in the other.
pub open spec fn renamed(a: Seq<Turn>, b: Seq<Turn>) -> bool {
    &&& a.len() == b.len()
    &&& forall|t: int|
        0 <= t < a.len() ==> (#[trigger] a[t]).first == b[t].first && a[t].end == b[t].end
    &&& forall|s: int, t: int|
        0 <= s < a.len() && 0 <= t < a.len() ==> ((#[trigger] a[s]).speaker@ == (
        #[trigger] a[t]).speaker@ <==> b[s].speaker@ == b[t].speaker@)
}

proof fn lemma_renamed_frames(a: Seq<Turn>, b: Seq<Turn>)
    requires
        a.len() == b.len(),
        forall|t: int| 0 <= t < a.len() ==> (#[trigger] a[t]).end == b[t].end,
    ensures
        frame_count(a) == frame_count(b),
    decreases a.len(),
{
    if a.len() > 0 {
        assert forall|t: int| 0 <= t < a.drop_last().len() implies (
        #[trigger] a.drop_last()[t]).end == b.drop_last()[t].end by {
            assert(a.drop_last()[t] == a[t]);
            assert(b.drop_last()[t] == b[t]);
        }
        lemma_renamed_frames(a.drop_last(), b.drop_last());
        assert(a[a.len() - 1].end == b[a.len() - 1].end);
    }
}

proof fn lemma_marks_into(o: Seq<bool>, h: nat, q: Seq<bool>, sigma: Seq<int>)
    requires
        h <= o.len(),
        h <= sigma.len(),
        forall|i: int| 0 <= i < h && #[trigger] o[i] ==> 0 <= sigma[i] < q.len() && q[sigma[i]],
        forall|i: int, j: int|
            0 <= i < j < h && o[i] && o[j] ==> #[trigger] sigma[i] != #[trigger] sigma[j],
    ensures
        marks(o, h) <= marks(q, q.len()),
    decreases h,
{
    if h > 0 {
        if o[h - 1] {
            let x = sigma[h - 1];
            let z = q.update(x, false);
            assert forall|i: int| 0 <= i < h - 1 && #[trigger] o[i] implies 0 <= sigma[i] < z.len()
                && z[sigma[i]] by {
                assert(sigma[i] != sigma[h - 1]);
            }
            lemma_marks_into(o, (h - 1) as nat, z, sigma);
            lemma_marks_clear(q, q.len(), x);
        } else {
            lemma_marks_into(o, (h - 1) as nat, q, sigma);
        }
    }
}

/// Where each label of one list stands in the other.
spec fn carries(c: Trial, e: Trial, sigma: Seq<int>) -> bool {
    let n = c.hypothesis_labels().len() as int;
    &&& sigma.len() == n
    &&& forall|h: int| 0 <= h < n ==> 0 <= #[trigger] sigma[h] < e.hypothesis_labels().len()
    &&& forall|h: int, k: int| 0 <= h < k < n ==> #[trigger] sigma[h] != #[trigger] sigma[k]
    &&& forall|h: int, f: int|
        0 <= h < n ==> (#[trigger] speaks(c.hypothesis, c.hypothesis_labels()[h], f) <==> speaks(
            e.hypothesis,
            e.hypothesis_labels()[sigma[h]],
            f,
        ))
}

proof fn lemma_carried(c: Trial, e: Trial) -> (sigma: Seq<int>)
    requires
        renamed(c.hypothesis, e.hypothesis),
    ensures
        carries(c, e, sigma),
{
    let a = c.hypothesis;
    let b = e.hypothesis;
    let la = c.hypothesis_labels();
    let lb = e.hypothesis_labels();
    labels_are_the_speakers(a);
    labels_are_the_speakers(b);
    let turn_of = |h: int| choose|t: int| 0 <= t < a.len() && (#[trigger] a[t]).speaker@ == la[h];
    let place = |h: int| choose|k: int| 0 <= k < lb.len() && #[trigger] lb[k] == b[turn_of(h)].speaker@;
    let sigma = Seq::new(la.len(), |h: int| place(h));
    assert forall|h: int| 0 <= h < la.len() implies {
        let t = #[trigger] turn_of(h);
        &&& 0 <= t < a.len()
        &&& a[t].speaker@ == la[h]
        &&& 0 <= sigma[h] < lb.len()
        &&& lb[sigma[h]] == b[t].speaker@
    } by {
        assert(la.contains(la[h]));
        let t = turn_of(h);
        assert(b[t].speaker@ == b[t].speaker@);
        assert(lb.contains(b[t].speaker@));
    }
    assert forall|h: int, k: int| 0 <= h < k < la.len() implies #[trigger] sigma[h]
        != #[trigger] sigma[k] by {
        let s = turn_of(h);
        let t = turn_of(k);
        assert(a[s].speaker@ == la[h] && a[t].speaker@ == la[k]);
        text::lemma_before_total(la[h], la[k]);
        text::lemma_before_total(la[h], la[h]);
    }
    assert forall|h: int, f: int| 0 <= h < la.len() implies (#[trigger] speaks(a, la[h], f) <==> speaks(
        b,
        lb[sigma[h]],
        f,
    )) by {
        let t = turn_of(h);
        assert(a[t].speaker@ == la[h]);
        if speaks(a, la[h], f) {
            let k = choose|k: int|
                0 <= k < a.len() && (#[trigger] a[k]).speaker@ == la[h] && a[k].first <= f
                    < a[k].end;
            assert(b[k].speaker@ == b[t].speaker@);
        }
        if speaks(b, lb[sigma[h]], f) {
            let k = choose|k: int|
                0 <= k < b.len() && (#[trigger] b[k]).speaker@ == lb[sigma[h]] && b[k].first <= f
                    < b[k].end;
            assert(a[k].speaker@ == a[t].speaker@);
        }
    }
    sigma
}

proof fn lemma_carried_crowd(c: Trial, e: Trial, sigma: Seq<int>, f: int)
    requires
        carries(c, e, sigma),
    ensures
        c.n_hyp(f) <= e.n_hyp(f),
{
    let la = c.hypothesis_labels();
    let lb = e.hypothesis_labels();
    let o = Seq::new(la.len(), |h: int| speaks(c.hypothesis, la[h], f));
    let q = Seq::new(lb.len(), |h: int| speaks(e.hypothesis, lb[h], f));
    lemma_crowd_is_marks(c.hypothesis, la, la.len(), f, o);
    lemma_crowd_is_marks(e.hypothesis, lb, lb.len(), f, q);
    assert forall|i: int| 0 <= i < la.len() && #[trigger] o[i] implies 0 <= sigma[i] < q.len()
        && q[sigma[i]] by {
        assert(speaks(c.hypothesis, la[i], f));
    }
    lemma_marks_into(o, la.len(), q, sigma);
}

spec fn carry(m: Seq<Option<usize>>, sigma: Seq<int>) -> Seq<Option<usize>> {
    m.map_values(
        |h: Option<usize>|
            match h {
                Some(x) => Some(sigma[x as int] as usize),
                None => None,
            },
    )
}

proof fn lemma_carried_agreed(
    c: Trial,
    e: Trial,
    sigma: Seq<int>,
    m: Seq<Option<usize>>,
    n: nat,
)
    requires
        c.reference == e.reference,
        c.collar == e.collar,
        carries(c, e, sigma),
        e.hypothesis_labels().len() <= usize::MAX,
        m.len() <= c.reference_labels().len(),
        forall|r: int|
            0 <= r < m.len() && (#[trigger] m[r]) is Some ==> m[r]->0 < c.hypothesis_labels().len(),
    ensures
        c.agreed(m, n) == e.agreed(carry(m, sigma), n),
    decreases m.len(),
{
    let k = carry(m, sigma);
    if m.len() > 0 {
        let front = m.drop_last();
        assert forall|r: int| 0 <= r < front.len() && (#[trigger] front[r]) is Some implies front[r]->0
            < c.hypothesis_labels().len() by {
            assert(front[r] == m[r]);
        }
        lemma_carried_agreed(c, e, sigma, front, n);
        assert(carry(front, sigma) == k.drop_last());
        let r = m.len() - 1;
        assert(m.last() == m[r]);
        if let Some(h) = m[r] {
            assert(0 <= sigma[h as int] < e.hypothesis_labels().len());
            assert(k.last() == Some(sigma[h as int] as usize));
            let g1 = c.shared(r, h as int);
            let g2 = e.shared(r, sigma[h as int]);
            assert forall|f: int| 0 <= f < n implies #[trigger] g1(f) == g2(f) by {
                assert(speaks(c.hypothesis, c.hypothesis_labels()[h as int], f) <==> speaks(
                    e.hypothesis,
                    e.hypothesis_labels()[sigma[h as int]],
                    f,
                ));
                assert(c.scored(f) == e.scored(f));
            }
            lemma_over_frames_same(g1, g2, n);
        }
    }
}

proof fn lemma_carried_best(c: Trial, e: Trial, p: Seq<Option<usize>>, q: Seq<Option<usize>>)
    requires
        c.reference == e.reference,
        c.collar == e.collar,
        renamed(c.hypothesis, e.hypothesis),
        c.frames() == e.frames(),
        e.hypothesis_labels().len() <= usize::MAX,
        c.best(p),
        e.best(q),
    ensures
        c.agreed(p, c.frames()) <= e.agreed(q, e.frames()),
{
    let sigma = lemma_carried(c, e);
    lemma_carried_agreed(c, e, sigma, p, c.frames());
    let k = carry(p, sigma);
    assert(assignment::maps(
        k,
        e.reference_labels().len() as int,
        e.hypothesis_labels().len() as int,
    )) by {
        assert forall|r: int| 0 <= r < k.len() && (#[trigger] k[r]) is Some implies k[r]->0
            < e.hypothesis_labels().len() by {
            assert(p[r] is Some);
            assert(0 <= sigma[p[r]->0 as int] < e.hypothesis_labels().len());
        }
        assert forall|r: int, s: int|
            0 <= r < s < k.len() && (#[trigger] k[r]) is Some && (#[trigger] k[s]) is Some implies k[r]->0
            != k[s]->0 by {
            assert(p[r] is Some && p[s] is Some);
            let x = p[r]->0 as int;
            let y = p[s]->0 as int;
            assert(x != y);
            assert(sigma[x] != sigma[y]);
        }
    }
}

/// Labels are mapped, not compared: giving the hypothesis other names leaves
/// the score as it is.
pub proof fn names_do_not_matter(c: Trial, e: Trial, d: Der, x: Der)
    requires
        is_der(c, d),
        is_der(e, x),
        c.reference == e.reference,
        c.collar == e.collar,
        renamed(c.hypothesis, e.hypothesis),
        c.hypothesis_labels().len() <= usize::MAX,
        e.hypothesis_labels().len() <= usize::MAX,
    ensures
        d == x,
{
    let n = c.frames();
    assert(renamed(e.hypothesis, c.hypothesis));
    lemma_renamed_frames(c.hypothesis, e.hypothesis);
    let there = lemma_carried(c, e);
    let back = lemma_carried(e, c);
    assert forall|f: int| c.n_hyp(f) == #[trigger] e.n_hyp(f) by {
        lemma_carried_crowd(c, e, there, f);
        lemma_carried_crowd(e, c, back, f);
    }
    assert forall|f: int| c.scored(f) == #[trigger] e.scored(f) by {}
    assert forall|f: int| c.n_ref(f) == #[trigger] e.n_ref(f) by {}
    lemma_over_frames_same(c.missed(), e.missed(), n);
    lemma_over_frames_same(c.false_alarm(), e.false_alarm(), n);
    lemma_over_frames_same(c.paired(), e.paired(), n);
    lemma_over_frames_same(c.speech(), e.speech(), n);
    let p = choose|m: Seq<Option<usize>>| #[trigger]
        c.best(m) && d.confusion == over_frames(c.paired(), n) - c.agreed(m, n);
    let q = choose|m: Seq<Option<usize>>| #[trigger]
        e.best(m) && x.confusion == over_frames(e.paired(), n) - e.agreed(m, n);
    lemma_carried_best(c, e, p, q);
    lemma_carried_best(e, c, q, p);
}

/// The same two segmentations with their parts exchanged.
pub open spec fn exchanged(c: Trial) -> Trial {
    Trial { reference: c.hypothesis, hypothesis: c.reference, collar: c.collar }
}

/// A mapping read backwards, from `n` labels.
spec fn inverse(m: Seq<Option<usize>>, n: nat) -> Seq<Option<usize>> {
    Seq::new(
        n,
        |h: int|
            if exists|r: int| 0 <= r < m.len() && #[trigger] m[r] == Some(h as usize) {
                Some(
                    (choose|r: int| 0 <= r < m.len() && #[trigger] m[r] == Some(h as usize)) as usize,
                )
            } else {
                None
            },
    )
}

proof fn lemma_inverse(m: Seq<Option<usize>>, n_ref: int, n_hyp: int)
    requires
        assignment::maps(m, n_ref, n_hyp),
        0 <= n_ref <= usize::MAX,
        0 <= n_hyp <= usize::MAX,
    ensures
        assignment::maps(inverse(m, n_hyp as nat), n_hyp, n_ref),
        forall|r: int|
            0 <= r < m.len() && (#[trigger] m[r]) is Some ==> inverse(
                m,
                n_hyp as nat,
            )[m[r]->0 as int] == Some(r as usize),
{
    let w = inverse(m, n_hyp as nat);
    assert forall|h: int| 0 <= h < w.len() && (#[trigger] w[h]) is Some implies w[h]->0 < m.len()
        && m[w[h]->0 as int] == Some(h as usize) by {
        let r = choose|r: int| 0 <= r < m.len() && #[trigger] m[r] == Some(h as usize);
        assert(w[h] == Some(r as usize));
    }
    assert forall|g: int, h: int|
        0 <= g < h < w.len() && (#[trigger] w[g]) is Some && (#[trigger] w[h]) is Some implies w[g]->0
        != w[h]->0 by {
        assert(m[w[g]->0 as int] == Some(g as usize));
        assert(m[w[h]->0 as int] == Some(h as usize));
    }
    assert forall|r: int| 0 <= r < m.len() && (#[trigger] m[r]) is Some implies w[m[r]->0 as int]
        == Some(r as usize) by {
        let h = m[r]->0 as int;
        assert(m[r] == Some(h as usize));
        assert(w[h] is Some);
        let s = w[h]->0 as int;
        assert(m[s] == Some(h as usize));
        if s < r {
            assert(m[s]->0 != m[r]->0);
        } else if r < s {
            assert(m[r]->0 != m[s]->0);
        }
    }
}

proof fn lemma_hits_are_marks(c: Trial, m: Seq<Option<usize>>, k: nat, f: int, o: Seq<bool>)
    requires
        k <= o.len(),
        forall|r: int|
            0 <= r < k ==> #[trigger] o[r] == (m[r] is Some && speaks(
                c.reference,
                c.reference_labels()[r],
                f,
            ) && speaks(c.hypothesis, c.hypothesis_labels()[m[r]->0 as int], f)),
    ensures
        hits(c, m, k, f) == marks(o, k),
    decreases k,
{
    if k > 0 {
        lemma_hits_are_marks(c, m, (k - 1) as nat, f, o);
        assert(o[k - 1] == o[k - 1]);
    }
}

proof fn lemma_inverse_hits(c: Trial, m: Seq<Option<usize>>, f: int)
    requires
        assignment::maps(
            m,
            c.reference_labels().len() as int,
            c.hypothesis_labels().len() as int,
        ),
        c.reference_labels().len() <= usize::MAX,
        c.hypothesis_labels().len() <= usize::MAX,
    ensures
        ({
            let w = inverse(m, c.hypothesis_labels().len());
            hits(c, m, m.len(), f) <= hits(exchanged(c), w, w.len(), f)
        }),
{
    let e = exchanged(c);
    let lr = c.reference_labels();
    let lh = c.hypothesis_labels();
    let w = inverse(m, lh.len());
    lemma_inverse(m, lr.len() as int, lh.len() as int);
    let o = Seq::new(
        m.len(),
        |r: int|
            m[r] is Some && speaks(c.reference, lr[r], f) && speaks(
                c.hypothesis,
                lh[m[r]->0 as int],
                f,
            ),
    );
    let q = Seq::new(
        w.len(),
        |h: int|
            w[h] is Some && speaks(e.reference, lh[h], f) && speaks(
                e.hypothesis,
                lr[w[h]->0 as int],
                f,
            ),
    );
    let sigma = Seq::new(m.len(), |r: int| m[r]->0 as int);
    lemma_hits_are_marks(c, m, m.len(), f, o);
    lemma_hits_are_marks(e, w, w.len(), f, q);
    assert forall|r: int| 0 <= r < m.len() && #[trigger] o[r] implies 0 <= sigma[r] < q.len()
        && q[sigma[r]] by {
        assert(m[r] is Some);
        assert(w[m[r]->0 as int] == Some(r as usize));
    }
    assert forall|r: int, s: int| 0 <= r < s < m.len() && o[r] && o[s] implies #[trigger] sigma[r]
        != #[trigger] sigma[s] by {
        assert(m[r] is Some && m[s] is Some);
    }
    lemma_marks_into(o, m.len(), q, sigma);
}

proof fn lemma_inverse_agreed(c: Trial, m: Seq<Option<usize>>, n: nat)
    requires
        assignment::maps(
            m,
            c.reference_labels().len() as int,
            c.hypothesis_labels().len() as int,
        ),
        c.reference_labels().len() <= usize::MAX,
        c.hypothesis_labels().len() <= usize::MAX,
    ensures
        c.agreed(m, n) <= exchanged(c).agreed(inverse(m, c.hypothesis_labels().len()), n),
    decreases n,
{
    let e = exchanged(c);
    let w = inverse(m, c.hypothesis_labels().len());
    lemma_agreed_step(c, m, 0);
    lemma_agreed_step(e, w, 0);
    if n > 0 {
        let f = (n - 1) as nat;
        lemma_inverse_agreed(c, m, f);
        lemma_agreed_step(c, m, f);
        lemma_agreed_step(e, w, f);
        lemma_inverse_hits(c, m, f as int);
        assert(c.scored(f as int) == e.scored(f as int));
    }
}

proof fn lemma_exchanged_best(c: Trial, p: Seq<Option<usize>>, q: Seq<Option<usize>>)
    requires
        c.best(p),
        exchanged(c).best(q),
        c.reference_labels().len() <= usize::MAX,
        c.hypothesis_labels().len() <= usize::MAX,
    ensures
        c.agreed(p, c.frames()) <= exchanged(c).agreed(q, c.frames()),
{
    let w = inverse(p, c.hypothesis_labels().len());
    lemma_inverse(p, c.reference_labels().len() as int, c.hypothesis_labels().len() as int);
    lemma_inverse_agreed(c, p, c.frames());
    assert(exchanged(c).frames() == c.frames());
}

/// Which segmentation is called the truth decides only which kind an error is:
/// exchanging the two, with the same frames left out, turns what was missed into
/// false alarms and false alarms into what was missed, and leaves the confusion as
/// it is.
pub proof fn exchanging_swaps_missed_and_false_alarm(c: Trial, d: Der, x: Der)
    requires
        is_der(c, d),
        is_der(exchanged(c), x),
        c.reference_labels().len() <= usize::MAX,
        c.hypothesis_labels().len() <= usize::MAX,
    ensures
        x.missed == d.false_alarm,
        x.false_alarm == d.missed,
        x.confusion == d.confusion,
{
    let e = exchanged(c);
    let n = c.frames();
    assert(e.frames() == n);
    assert forall|f: int| c.scored(f) == #[trigger] e.scored(f) by {}
    lemma_over_frames_same(c.missed(), e.false_alarm(), n);
    lemma_over_frames_same(c.false_alarm(), e.missed(), n);
    lemma_over_frames_same(c.paired(), e.paired(), n);
    let p = choose|m: Seq<Option<usize>>| #[trigger]
        c.best(m) && d.confusion == over_frames(c.paired(), n) - c.agreed(m, n);
    let q = choose|m: Seq<Option<usize>>| #[trigger]
        e.best(m) && x.confusion == over_frames(e.paired(), n) - e.agreed(m, n);
    assert(exchanged(e) == c);
    lemma_exchanged_best(c, p, q);
    lemma_exchanged_best(e, q, p);
}

/// The frames of several scores together, each kind on its own.
pub open spec fn summed(rows: Seq<Der>) -> (int, int, int, int)
    decreases rows.len(),
{
    if rows.len() == 0 {
        (0, 0, 0, 0)
    } else {
        let rest = summed(rows.drop_last());
        let w = rows.last();
        (
            rest.0 + w.missed,
            rest.1 + w.false_alarm,
            rest.2 + w.confusion,
            rest.3 + w.reference,
        )
    }
}

proof fn lemma_summed_grows(rows: Seq<Der>, i: int)
    requires
        0 <= i <= rows.len(),
    ensures
        0 <= summed(rows.take(i)).0 <= summed(rows).0,
        0 <= summed(rows.take(i)).1 <= summed(rows).1,
        0 <= summed(rows.take(i)).2 <= summed(rows).2,
        0 <= summed(rows.take(i)).3 <= summed(rows).3,
    decreases rows.len(),
{
    if i == rows.len() {
        assert(rows.take(i) == rows);
        if i > 0 {
            lemma_summed_grows(rows.drop_last(), i - 1);
        }
    } else {
        lemma_summed_grows(rows.drop_last(), i);
        assert(rows.drop_last().take(i) == rows.take(i));
    }
}

/// The score of several meetings together. Its rate goes by the summed frames, not
/// by the average of the rates, so a meeting with little speech in it cannot
/// outvote a talkative one.
pub fn total(rows: &[Der]) -> (r: Der)
    requires
        summed(rows@).0 <= usize::MAX,
        summed(rows@).1 <= usize::MAX,
        summed(rows@).2 <= usize::MAX,
        summed(rows@).3 <= usize::MAX,
    ensures
        (
            r.missed as int,
            r.false_alarm as int,
            r.confusion as int,
            r.reference as int,
        ) == summed(rows@),
{
    let mut t: Der = Der { missed: 0, false_alarm: 0, confusion: 0, reference: 0 };
    let mut i: usize = 0;
    proof {
        assert(rows@.take(0) == Seq::<Der>::empty());
    }
    while i < rows.len()
        invariant
            summed(rows@).0 <= usize::MAX,
            summed(rows@).1 <= usize::MAX,
            summed(rows@).2 <= usize::MAX,
            summed(rows@).3 <= usize::MAX,
            i <= rows@.len(),
            t.missed == summed(rows@.take(i as int)).0,
            t.false_alarm == summed(rows@.take(i as int)).1,
            t.confusion == summed(rows@.take(i as int)).2,
            t.reference == summed(rows@.take(i as int)).3,
        decreases rows@.len() - i,
    {
        let w: Der = rows[i];
        proof {
            assert(rows@.take(i + 1).drop_last() == rows@.take(i as int));
            assert(rows@.take(i + 1).last() == w);
            lemma_summed_grows(rows@, i + 1);
        }
        t = Der {
            missed: t.missed + w.missed,
            false_alarm: t.false_alarm + w.false_alarm,
            confusion: t.confusion + w.confusion,
            reference: t.reference + w.reference,
        };
        i = i + 1;
    }
    proof {
        assert(rows@.take(rows@.len() as int) == rows@);
    }
    t
}

/// The frames are as many as the longest turn needs, and no more.
pub proof fn the_longest_turn_sets_the_frames(turns: Seq<Turn>)
    ensures
        forall|t: int| 0 <= t < turns.len() ==> (#[trigger] turns[t]).end <= frame_count(turns),
        turns.len() == 0 ==> frame_count(turns) == 0,
        turns.len() > 0 ==> exists|t: int|
            0 <= t < turns.len() && (#[trigger] turns[t]).end == frame_count(turns),
    decreases turns.len(),
{
    if turns.len() > 0 {
        let front = turns.drop_last();
        the_longest_turn_sets_the_frames(front);
        assert forall|t: int| 0 <= t < turns.len() implies (#[trigger] turns[t]).end <= frame_count(
            turns,
        ) by {
            if t < front.len() {
                assert(front[t] == turns[t]);
            }
        }
        if turns.last().end > frame_count(front) || front.len() == 0 {
            assert(turns[turns.len() - 1].end == frame_count(turns));
        } else {
            let t = choose|t: int|
                0 <= t < front.len() && (#[trigger] front[t]).end == frame_count(front);
            assert(turns[t].end == frame_count(turns));
        }
    }
}

/// Everybody who speaks in a frame counts once.
pub proof fn everybody_speaking_counts_once(
    turns: Seq<Turn>,
    labels: Seq<Seq<char>>,
    k: nat,
    frame: int,
)
    requires
        k <= labels.len(),
    ensures
        crowd(turns, labels, k, frame) == labels.take(k as int).filter(
            |l: Seq<char>|
                exists|t: int|
                    0 <= t < turns.len() && (#[trigger] turns[t]).speaker@ == l && turns[t].first
                        <= frame < turns[t].end,
        ).len(),
    decreases k,
{
    reveal(Seq::filter);
    if k > 0 {
        everybody_speaking_counts_once(turns, labels, (k - 1) as nat, frame);
        assert(labels.take(k as int).drop_last() == labels.take(k - 1));
        assert(labels.take(k as int).last() == labels[k - 1]);
        assert(speaks(turns, labels[k - 1], frame) <==> exists|t: int|
            0 <= t < turns.len() && (#[trigger] turns[t]).speaker@ == labels[k - 1]
                && turns[t].first <= frame < turns[t].end);
    }
}

/// The frames in which something holds.
pub open spec fn frames_where(g: spec_fn(int) -> int, n: nat) -> Set<int> {
    Set::new(|f: int| 0 <= f < n && g(f) == 1)
}

/// Where a frame counts one or nothing, the sum is how many count.
pub proof fn frames_are_counted(g: spec_fn(int) -> int, n: nat)
    requires
        forall|f: int| 0 <= f < n ==> #[trigger] g(f) == 0 || g(f) == 1,
    ensures
        frames_where(g, n).finite(),
        over_frames(g, n) == frames_where(g, n).len(),
    decreases n,
{
    let all = frames_where(g, n);
    if n == 0 {
        assert(all == Set::<int>::empty());
    } else {
        let front = frames_where(g, (n - 1) as nat);
        frames_are_counted(g, (n - 1) as nat);
        assert(g(n - 1) == 0 || g(n - 1) == 1);
        if g(n - 1) == 1 {
            assert(all == front.insert(n - 1));
        } else {
            assert(all == front);
        }
    }
}

/// The sum over frames takes sums apart.
pub proof fn frames_add_up(a: spec_fn(int) -> int, b: spec_fn(int) -> int, n: nat)
    ensures
        over_frames(|f: int| a(f) + b(f), n) == over_frames(a, n) + over_frames(b, n),
    decreases n,
{
    if n > 0 {
        frames_add_up(a, b, (n - 1) as nat);
    }
}

/// In a frame that is scored every reference speaker is missed or set against a
/// hypothesis speaker, and every hypothesis speaker is a false alarm or set against a
/// reference speaker; there is never both. In one that is not, nothing counts.
pub proof fn every_speaker_of_a_frame_is_accounted_for(c: Trial, f: int)
    ensures
        c.scored(f) ==> {
            &&& (c.missed())(f) + (c.paired())(f) == c.n_ref(f)
            &&& (c.false_alarm())(f) + (c.paired())(f) == c.n_hyp(f)
            &&& (c.missed())(f) >= 0
            &&& (c.false_alarm())(f) >= 0
            &&& (c.missed())(f) == 0 || (c.false_alarm())(f) == 0
            &&& (c.speech())(f) == c.n_ref(f)
        },
        !c.scored(f) ==> (c.missed())(f) == 0 && (c.false_alarm())(f) == 0 && (c.paired())(f) == 0
            && (c.speech())(f) == 0,
{
}

/// Every reference speaker of every scored frame is missed, confused or right: what
/// a score has of the three is the reference.
pub proof fn the_reference_is_missed_confused_or_right(c: Trial, d: Der)
    requires
        is_der(c, d),
    ensures
        exists|m: Seq<Option<usize>>| #[trigger]
            c.best(m) && d.missed + d.confusion + c.agreed(m, c.frames()) == d.reference,
{
    let n = c.frames();
    lemma_missed_and_paired(c, n);
    let m = choose|m: Seq<Option<usize>>| #[trigger]
        c.best(m) && d.confusion == over_frames(c.paired(), n) - c.agreed(m, n);
    assert(c.best(m) && d.missed + d.confusion + c.agreed(m, c.frames()) == d.reference);
}

proof fn lemma_missed_and_paired(c: Trial, n: nat)
    ensures
        over_frames(c.missed(), n) + over_frames(c.paired(), n) == over_frames(c.speech(), n),
    decreases n,
{
    if n > 0 {
        lemma_missed_and_paired(c, (n - 1) as nat);
    }
}

/// What a mapping gets right is counted frame by frame: one more label adds the
/// scored frames in which both it and the label it is mapped to speak, and one that
/// is mapped to nobody adds nothing.
pub proof fn agreement_is_counted_by_frame(
    c: Trial,
    m: Seq<Option<usize>>,
    h: usize,
    n: nat,
)
    ensures
        c.agreed(Seq::<Option<usize>>::empty(), n) == 0,
        c.agreed(m.push(None), n) == c.agreed(m, n),
        c.agreed(m.push(Some(h)), n) == c.agreed(m, n) + Set::new(
            |f: int|
                0 <= f < n && c.scored(f) && speaks(
                    c.reference,
                    c.reference_labels()[m.len() as int],
                    f,
                ) && speaks(c.hypothesis, c.hypothesis_labels()[h as int], f),
        ).len(),
{
    assert(m.push(None).drop_last() == m);
    assert(m.push(Some(h)).drop_last() == m);
    let g = c.shared(m.len() as int, h as int);
    frames_are_counted(g, n);
    let s = Set::new(
        |f: int|
            0 <= f < n && c.scored(f) && speaks(
                c.reference,
                c.reference_labels()[m.len() as int],
                f,
            ) && speaks(c.hypothesis, c.hypothesis_labels()[h as int], f),
    );
    assert(frames_where(g, n) == s);
}

/// A line of a segmentation file is read by the place of its fields: the onset is
/// the fourth, the duration the fifth and the speaker the eighth. Blank lines and
/// comments are passed over.
pub proof fn fields_are_read_by_place(number: nat, ws: Seq<Seq<char>>)
    requires
        ws.len() >= 8,
        forall|i: int| 0 <= i < ws.len() ==> text::is_word(#[trigger] ws[i]),
        ws[0] == "SPEAKER"@,
    ensures
        read_line(number, text::joined(ws, " "@)) == Reading::Speaker(
            RttmText { line: number, onset: ws[3], duration: ws[4], speaker: ws[7] },
        ),
        read_line(number, Seq::<char>::empty()) == Reading::Skip,
{
    let s = text::joined(ws, " "@);
    text::lemma_words_of_joined(ws);
    text::lemma_joined_words_are_trim(ws);
    reveal_strlit("SPEAKER");
    reveal_strlit(";;");
    assert(text::is_word(ws[0]));
    text::lemma_joined_starts(ws, " "@);
    assert(s[0] == 'S');
    if text::starts_with(s, ";;"@) {
        assert(s.take(2)[0] == s[0]);
        assert(";;"@[0] == ';');
    }
    assert(text::trim(Seq::<char>::empty()) == Seq::<char>::empty());
}

/// A turn is read from every line that holds one, in order, and from no other.
pub proof fn every_line_with_a_turn_is_read(lines: Seq<Seq<char>>, k: nat) -> (at: Seq<int>)
    requires
        k <= lines.len(),
    ensures
        at.len() == turns_of(lines, k).len(),
        forall|p: int|
            0 <= p < at.len() ==> 0 <= #[trigger] at[p] < k && read_line(
                (at[p] + 1) as nat,
                lines[at[p]],
            ) == Reading::Speaker(turns_of(lines, k)[p]),
        forall|p: int, q: int| 0 <= p < q < at.len() ==> #[trigger] at[p] < #[trigger] at[q],
        forall|i: int|
            0 <= i < k && #[trigger] read_line((i + 1) as nat, lines[i]) is Speaker ==> at.contains(
                i,
            ),
    decreases k,
{
    if k == 0 {
        Seq::empty()
    } else {
        let was = every_line_with_a_turn_is_read(lines, (k - 1) as nat);
        let old = turns_of(lines, (k - 1) as nat);
        let now = turns_of(lines, k);
        let at = if now.len() > old.len() {
            was.push(k - 1)
        } else {
            was
        };
        assert forall|p: int| 0 <= p < at.len() implies 0 <= #[trigger] at[p] < k && read_line(
            (at[p] + 1) as nat,
            lines[at[p]],
        ) == Reading::Speaker(now[p]) by {
            if p < was.len() {
                assert(0 <= was[p] < k - 1);
            }
        }
        assert forall|i: int|
            0 <= i < k && #[trigger] read_line(
                (i + 1) as nat,
                lines[i],
            ) is Speaker implies at.contains(i) by {
            if i < k - 1 {
                let p = was.index_of(i);
                assert(at[p] == i);
            } else {
                assert(at[was.len() as int] == i);
            }
        }
        at
    }
}

/// Scores add up count by count, however they are divided.
pub proof fn scores_add_up(x: Seq<Der>, d: Der, y: Seq<Der>)
    ensures
        summed(Seq::<Der>::empty()) == (0int, 0int, 0int, 0int),
        summed(seq![d]) == (
            d.missed as int,
            d.false_alarm as int,
            d.confusion as int,
            d.reference as int,
        ),
        summed(x + y) == (
            summed(x).0 + summed(y).0,
            summed(x).1 + summed(y).1,
            summed(x).2 + summed(y).2,
            summed(x).3 + summed(y).3,
        ),
    decreases y.len(),
{
    assert(seq![d].drop_last() == Seq::<Der>::empty());
    if y.len() == 0 {
        assert(x + y == x);
    } else {
        scores_add_up(x, d, y.drop_last());
        assert((x + y).drop_last() == x + y.drop_last());
    }
}

/// The frames of a trial are those of the longer side.
pub proof fn the_longer_side_sets_the_frames(c: Trial)
    ensures
        c.frames() >= frame_count(c.reference),
        c.frames() >= frame_count(c.hypothesis),
        c.frames() == frame_count(c.reference) || c.frames() == frame_count(c.hypothesis),
{
}

} // verus!
