//! The microphone overhearing the call: one utterance transcribed twice.

use crate::session;
use crate::session::{Line, LineText, Track};
use crate::text;
use crate::text::{chars_of, same, string_lower};
use vstd::prelude::*;

verus! {

/// How many characters at the front of `s` are letters or numbers.
pub open spec fn token_len(s: Seq<char>) -> nat
    decreases s.len(),
{
    if s.len() == 0 || !text::alphanumeric(s[0]) {
        0
    } else {
        1 + token_len(s.drop_first())
    }
}

/// The maximal runs of letters and numbers, in order.
pub open spec fn tokens(s: Seq<char>) -> Seq<Seq<char>>
    decreases s.len(),
{
    if s.len() == 0 {
        Seq::empty()
    } else if !text::alphanumeric(s[0]) {
        tokens(s.drop_first())
    } else {
        let k = token_len(s);
        if k == 0 {
            Seq::empty()
        } else {
            proof {
                lemma_token_len(s);
            }
            seq![s.take(k as int)] + tokens(s.skip(k as int))
        }
    }
}

pub proof fn lemma_token_len(s: Seq<char>)
    ensures
        token_len(s) <= s.len(),
    decreases s.len(),
{
    if s.len() > 0 && text::alphanumeric(s[0]) {
        lemma_token_len(s.drop_first());
    }
}

proof fn lemma_token_len_is(s: Seq<char>, k: nat)
    requires
        k <= s.len(),
        forall|i: int| 0 <= i < k ==> text::alphanumeric(#[trigger] s[i]),
        k < s.len() ==> !text::alphanumeric(s[k as int]),
    ensures
        token_len(s) == k,
    decreases s.len(),
{
    if k > 0 {
        let t = s.drop_first();
        assert(text::alphanumeric(s[0]));
        assert forall|i: int| 0 <= i < k - 1 implies text::alphanumeric(#[trigger] t[i]) by {
            assert(t[i] == s[i + 1]);
        }
        lemma_token_len_is(t, (k - 1) as nat);
    }
}

fn split_tokens(s: &[char]) -> (r: Vec<Vec<char>>)
    ensures
        text::seqs(r@) == tokens(s@),
{
    let n: usize = s.len();
    let mut out: Vec<Vec<char>> = Vec::new();
    let mut i: usize = 0;
    proof {
        assert(s@.skip(0) == s@);
        assert(text::seqs(out@) + tokens(s@) == tokens(s@));
    }
    while i < n
        invariant
            n == s@.len(),
            i <= n,
            text::seqs(out@) + tokens(s@.skip(i as int)) == tokens(s@),
        decreases n - i,
    {
        let ghost t = s@.skip(i as int);
        proof {
            assert(t[0] == s@[i as int]);
            assert(t.drop_first() == s@.skip(i + 1));
        }
        if !s[i].is_alphanumeric() {
            i = i + 1;
        } else {
            let start: usize = i;
            let mut word: Vec<char> = Vec::new();
            while i < n && s[i].is_alphanumeric()
                invariant
                    n == s@.len(),
                    start <= i <= n,
                    word@ == s@.subrange(start as int, i as int),
                    forall|j: int| start <= j < i ==> text::alphanumeric(#[trigger] s@[j]),
                decreases n - i,
            {
                word.push(s[i]);
                i = i + 1;
            }
            proof {
                let k = (i - start) as nat;
                assert forall|j: int| 0 <= j < k implies text::alphanumeric(#[trigger] t[j]) by {
                    assert(t[j] == s@[j + start]);
                }
                lemma_token_len_is(t, k);
                assert(t.take(k as int) == word@);
                assert(t.skip(k as int) == s@.skip(i as int));
                assert(tokens(t) == seq![word@] + tokens(s@.skip(i as int)));
                assert(text::seqs(out@.push(word)) == text::seqs(out@) + seq![word@]);
                assert(text::seqs(out@) + (seq![word@] + tokens(s@.skip(i as int))) == text::seqs(
                    out@.push(word),
                ) + tokens(s@.skip(i as int)));
            }
            out.push(word);
        }
    }
    proof {
        assert(s@.skip(n as int) == Seq::<char>::empty());
        assert(text::seqs(out@) + Seq::<Seq<char>>::empty() == text::seqs(out@));
    }
    out
}

/// How many of `short`'s words are among `long`'s.
pub open spec fn found(short: Seq<Seq<char>>, long: Seq<Seq<char>>) -> nat
    decreases short.len(),
{
    if short.len() == 0 {
        0
    } else {
        found(short.drop_last(), long) + if long.contains(short.last()) {
            1nat
        } else {
            0nat
        }
    }
}

/// The words of a line, without case and punctuation.
pub open spec fn wording(s: Seq<char>) -> Seq<Seq<char>> {
    tokens(text::lowercased(s))
}

/// How much of the shorter line's wording appears in the longer one: how many
/// of its words, and how many it has.
pub open spec fn contained(a: Seq<char>, b: Seq<char>) -> (nat, nat) {
    let x = wording(a);
    let y = wording(b);
    if x.len() <= y.len() {
        (found(x, y), x.len())
    } else {
        (found(y, x), y.len())
    }
}

fn count_found(short: &Vec<Vec<char>>, long: &Vec<Vec<char>>) -> (n: usize)
    ensures
        n == found(text::seqs(short@), text::seqs(long@)),
        n <= short@.len(),
{
    let ghost x = text::seqs(short@);
    let ghost y = text::seqs(long@);
    let mut n: usize = 0;
    let mut i: usize = 0;
    proof {
        assert(x.take(0) == Seq::<Seq<char>>::empty());
    }
    while i < short.len()
        invariant
            i <= short@.len(),
            x == text::seqs(short@),
            y == text::seqs(long@),
            n <= i,
            n == found(x.take(i as int), y),
        decreases short@.len() - i,
    {
        let mut hit: bool = false;
        let mut j: usize = 0;
        while j < long.len()
            invariant
                i < short@.len(),
                j <= long@.len(),
                hit == exists|k: int| 0 <= k < j && (#[trigger] long@[k])@ == short@[i as int]@,
            decreases long@.len() - j,
        {
            if same(long[j].as_slice(), short[i].as_slice()) {
                hit = true;
            }
            j = j + 1;
        }
        proof {
            assert(x.take(i + 1).drop_last() == x.take(i as int));
            assert(x.take(i + 1).last() == short@[i as int]@);
            if hit {
                let k = choose|k: int|
                    0 <= k < long@.len() && (#[trigger] long@[k])@ == short@[i as int]@;
                assert(y[k] == short@[i as int]@);
            }
            if y.contains(short@[i as int]@) {
                let k = choose|k: int| 0 <= k < y.len() && y[k] == short@[i as int]@;
                assert(long@[k]@ == short@[i as int]@);
            }
        }
        if hit {
            n = n + 1;
        }
        i = i + 1;
    }
    proof {
        assert(x.take(short@.len() as int) == x);
    }
    n
}

/// How much of the shorter line's wording appears in the longer one, as a count
/// out of a count.
pub fn containment(a: &str, b: &str) -> (r: (usize, usize))
    ensures
        r.0 == contained(a@, b@).0,
        r.1 == contained(a@, b@).1,
        r.0 <= r.1,
{
    let p: Vec<char> = chars_of(string_lower(a).as_str());
    let q: Vec<char> = chars_of(string_lower(b).as_str());
    let x: Vec<Vec<char>> = split_tokens(p.as_slice());
    let y: Vec<Vec<char>> = split_tokens(q.as_slice());
    proof {
        assert(text::seqs(x@).len() == x@.len());
        assert(text::seqs(y@).len() == y@.len());
    }
    if x.len() <= y.len() {
        (count_found(&x, &y), x.len())
    } else {
        (count_found(&y, &x), y.len())
    }
}

/// At least three words in five of the shorter line: two overlapping lines are
/// then the same utterance heard twice. Low enough to survive two independent
/// recognitions disagreeing on a word or two, high enough that two people saying
/// different things over each other both survive.
pub open spec fn same_utterance(a: Seq<char>, b: Seq<char>) -> bool {
    let c = contained(a, b);
    c.1 > 0 && 5 * c.0 >= 3 * c.1
}

pub open spec fn span(l: LineText) -> int {
    l.end_ms - l.start_ms
}

pub open spec fn overlap(a: LineText, b: LineText) -> int {
    let lo = if a.start_ms > b.start_ms {
        a.start_ms
    } else {
        b.start_ms
    };
    let hi = if a.end_ms < b.end_ms {
        a.end_ms
    } else {
        b.end_ms
    };
    if hi > lo {
        hi - lo
    } else {
        0
    }
}

/// The room line is the call line overheard: the two share at least half of the
/// shorter one's time, and most of the shorter one's words.
pub open spec fn overheard(room: LineText, call: LineText) -> bool {
    let shorter = if span(room) < span(call) {
        span(room)
    } else {
        span(call)
    };
    &&& shorter > 0
    &&& overlap(room, call) * 2 >= shorter
    &&& same_utterance(room.text, call.text)
}

/// A room line that some call line makes redundant.
pub open spec fn redundant(lines: Seq<LineText>, l: LineText) -> bool {
    &&& l.track == Track::Room
    &&& exists|c: int|
        0 <= c < lines.len() && (#[trigger] lines[c]).track == Track::Call && overheard(l, lines[c])
}

/// The lines of `part` that are not redundant among `lines`, in order.
pub open spec fn kept(lines: Seq<LineText>, part: Seq<LineText>) -> Seq<LineText>
    decreases part.len(),
{
    if part.len() == 0 {
        Seq::empty()
    } else if redundant(lines, part.last()) {
        kept(lines, part.drop_last())
    } else {
        kept(lines, part.drop_last()).push(part.last())
    }
}

/// A line that ends no earlier than it starts.
pub open spec fn forward(l: LineText) -> bool {
    l.start_ms <= l.end_ms
}

/// The room's lines can be laid against the call's: where both speak, no line ends
/// before it starts.
pub open spec fn comparable(lines: Seq<LineText>) -> bool {
    forall|r: int, c: int|
        0 <= r < lines.len() && 0 <= c < lines.len() && (#[trigger] lines[r]).track == Track::Room
            && (#[trigger] lines[c]).track == Track::Call ==> forward(lines[r]) && forward(lines[c])
}

fn is_overheard(l: &Line, c: &Line) -> (r: bool)
    requires
        forward(l@),
        forward(c@),
    ensures
        r == overheard(l@, c@),
{
    let lo: u64 = if l.start_ms > c.start_ms {
        l.start_ms
    } else {
        c.start_ms
    };
    let hi: u64 = if l.end_ms < c.end_ms {
        l.end_ms
    } else {
        c.end_ms
    };
    let common: u64 = if hi > lo {
        hi - lo
    } else {
        0
    };
    let mine: u64 = l.end_ms - l.start_ms;
    let theirs: u64 = c.end_ms - c.start_ms;
    let shorter: u64 = if mine < theirs {
        mine
    } else {
        theirs
    };
    // Half the shorter span, so a brief coincidence is not enough.
    if shorter == 0 || common < shorter - common {
        return false;
    }
    let (n, of): (usize, usize) = containment(l.text.as_str(), c.text.as_str());
    of > 0 && 5 * (n as u128) >= 3 * (of as u128)
}

fn is_redundant(lines: &[Line], at: usize) -> (r: bool)
    requires
        comparable(session::line_texts(lines@)),
        at < lines@.len(),
    ensures
        r == redundant(session::line_texts(lines@), lines@[at as int]@),
{
    let l: &Line = &lines[at];
    if l.track == Track::Call {
        return false;
    }
    let ghost ls = session::line_texts(lines@);
    let mut i: usize = 0;
    while i < lines.len()
        invariant
            i <= lines@.len(),
            ls == session::line_texts(lines@),
            comparable(ls),
            at < lines@.len(),
            l == lines@[at as int],
            l.track == Track::Room,
            forall|c: int|
                0 <= c < i ==> !((#[trigger] ls[c]).track == Track::Call && overheard(l@, ls[c])),
        decreases lines@.len() - i,
    {
        proof {
            assert(ls[i as int] == lines@[i as int]@);
            assert(ls[at as int] == l@);
        }
        if lines[i].track == Track::Call && is_overheard(l, &lines[i]) {
            return true;
        }
        i = i + 1;
    }
    false
}

/// Drop room lines that are the microphone overhearing the call, and say how
/// many.
///
/// The room mic picks up the laptop speakers, so on speakerphone every remote
/// utterance is transcribed twice. Only room lines are ever dropped: the call
/// track is both the better copy and the side that cannot be reconstructed if it
/// goes missing.
pub fn dedup_bleed(lines: &[Line]) -> (r: (Vec<Line>, usize))
    requires
        comparable(session::line_texts(lines@)),
    ensures
        session::line_texts(r.0@) == kept(
            session::line_texts(lines@),
            session::line_texts(lines@),
        ),
        r.0@.len() + r.1 == lines@.len(),
{
    let ghost ls = session::line_texts(lines@);
    let mut out: Vec<Line> = Vec::new();
    let mut dropped: usize = 0;
    let mut i: usize = 0;
    proof {
        assert(ls.take(0) == Seq::<LineText>::empty());
        assert(session::line_texts(out@) == Seq::<LineText>::empty());
    }
    while i < lines.len()
        invariant
            i <= lines@.len(),
            ls == session::line_texts(lines@),
            comparable(ls),
            out@.len() + dropped == i,
            session::line_texts(out@) == kept(ls, ls.take(i as int)),
        decreases lines@.len() - i,
    {
        proof {
            assert(ls[i as int] == lines@[i as int]@);
            assert(ls.take(i + 1).drop_last() == ls.take(i as int));
            assert(ls.take(i + 1).last() == ls[i as int]);
        }
        if is_redundant(lines, i) {
            dropped = dropped + 1;
        } else {
            let l: Line = lines[i].clone();
            proof {
                assert(session::line_texts(out@.push(l)) == session::line_texts(out@).push(l@));
            }
            out.push(l);
        }
        i = i + 1;
    }
    proof {
        assert(ls.take(lines@.len() as int) == ls);
    }
    (out, dropped)
}

/// The call's lines, in order.
pub open spec fn calls(lines: Seq<LineText>) -> Seq<LineText>
    decreases lines.len(),
{
    if lines.len() == 0 {
        Seq::empty()
    } else if lines.last().track == Track::Call {
        calls(lines.drop_last()).push(lines.last())
    } else {
        calls(lines.drop_last())
    }
}

proof fn lemma_kept_calls(lines: Seq<LineText>, part: Seq<LineText>)
    ensures
        calls(kept(lines, part)) == calls(part),
    decreases part.len(),
{
    if part.len() > 0 {
        lemma_kept_calls(lines, part.drop_last());
        if !redundant(lines, part.last()) {
            let k = kept(lines, part.drop_last()).push(part.last());
            assert(k.drop_last() == kept(lines, part.drop_last()));
        }
    }
}

/// Only room lines are ever dropped: the call's lines all stay, in order.
pub proof fn call_lines_are_never_dropped(lines: Seq<LineText>)
    ensures
        calls(kept(lines, lines)) == calls(lines),
{
    lemma_kept_calls(lines, lines);
}

proof fn lemma_kept_all(lines: Seq<LineText>, part: Seq<LineText>)
    requires
        forall|i: int| 0 <= i < part.len() ==> !redundant(lines, #[trigger] part[i]),
    ensures
        kept(lines, part) == part,
    decreases part.len(),
{
    if part.len() > 0 {
        let front = part.drop_last();
        assert forall|i: int| 0 <= i < front.len() implies !redundant(lines, #[trigger] front[i]) by {
            assert(front[i] == part[i]);
        }
        lemma_kept_all(lines, front);
        assert(!redundant(lines, part[part.len() - 1]));
        assert(front.push(part.last()) == part);
    }
}

/// With no call track there is nothing to overhear, and every line stays.
pub proof fn room_only_session_keeps_everything(lines: Seq<LineText>)
    requires
        forall|i: int| 0 <= i < lines.len() ==> (#[trigger] lines[i]).track == Track::Room,
    ensures
        kept(lines, lines) == lines,
{
    assert forall|i: int| 0 <= i < lines.len() implies !redundant(lines, #[trigger] lines[i]) by {}
    lemma_kept_all(lines, lines);
}

proof fn lemma_kept_members(lines: Seq<LineText>, part: Seq<LineText>)
    ensures
        forall|i: int|
            0 <= i < kept(lines, part).len() ==> !redundant(
                lines,
                #[trigger] kept(lines, part)[i],
            ) && part.contains(kept(lines, part)[i]),
    decreases part.len(),
{
    if part.len() > 0 {
        let front = part.drop_last();
        lemma_kept_members(lines, front);
        let k = kept(lines, part);
        assert forall|i: int| 0 <= i < k.len() implies !redundant(lines, #[trigger] k[i])
            && part.contains(k[i]) by {
            if redundant(lines, part.last()) || i < kept(lines, front).len() {
                assert(k[i] == kept(lines, front)[i]);
                let j = choose|j: int| 0 <= j < front.len() && front[j] == k[i];
                assert(part[j] == k[i]);
            } else {
                assert(part[part.len() - 1] == k[i]);
            }
        }
    }
}

/// Doing it twice drops nothing more.
pub proof fn dedup_is_idempotent(lines: Seq<LineText>)
    ensures
        kept(kept(lines, lines), kept(lines, lines)) == kept(lines, lines),
{
    let k = kept(lines, lines);
    lemma_kept_members(lines, lines);
    assert forall|i: int| 0 <= i < k.len() implies !redundant(k, #[trigger] k[i]) by {
        if redundant(k, k[i]) {
            let c = choose|c: int|
                0 <= c < k.len() && (#[trigger] k[c]).track == Track::Call && overheard(k[i], k[c]);
            assert(lines.contains(k[c]));
            let j = choose|j: int| 0 <= j < lines.len() && lines[j] == k[c];
            assert(lines[j].track == Track::Call);
            assert(redundant(lines, k[i]));
        }
    }
    lemma_kept_all(k, k);
}

/// A line of letters and numbers alone is one word.
pub proof fn a_token_is_itself(w: Seq<char>)
    requires
        w.len() > 0,
        forall|i: int| 0 <= i < w.len() ==> text::alphanumeric(#[trigger] w[i]),
    ensures
        tokens(w) == seq![w],
        tokens(Seq::<char>::empty()) == Seq::<Seq<char>>::empty(),
{
    lemma_token_len_is(w, w.len());
    assert(text::alphanumeric(w[0]));
    assert(w.take(w.len() as int) == w);
    assert(w.skip(w.len() as int) == Seq::<char>::empty());
    assert(tokens(w) == seq![w] + tokens(Seq::<char>::empty()));
    assert(tokens(w) == seq![w]);
}

/// Anything but a letter or a number divides words wherever it stands: the words of
/// a line are those before it and those after it.
pub proof fn punctuation_divides_words(a: Seq<char>, c: char, b: Seq<char>)
    requires
        !text::alphanumeric(c),
    ensures
        tokens(a + seq![c] + b) == tokens(a) + tokens(b),
    decreases a.len(),
{
    let s = a + seq![c] + b;
    if a.len() == 0 {
        assert(s.drop_first() == b);
        assert(tokens(a) + tokens(b) == tokens(b));
    } else if !text::alphanumeric(a[0]) {
        let t = a.drop_first();
        punctuation_divides_words(t, c, b);
        assert(s.drop_first() == t + seq![c] + b);
    } else {
        let k = token_len(a);
        lemma_token_len(a);
        lemma_token_chars(a);
        assert forall|i: int| 0 <= i < k implies text::alphanumeric(#[trigger] s[i]) by {
            assert(s[i] == a[i]);
        }
        if k < a.len() {
            assert(s[k as int] == a[k as int]);
        } else {
            assert(s[k as int] == c);
        }
        lemma_token_len_is(s, k);
        let rest = a.skip(k as int);
        assert(s.take(k as int) == a.take(k as int));
        assert(s.skip(k as int) == rest + seq![c] + b);
        punctuation_divides_words(rest, c, b);
        assert(tokens(s) == seq![a.take(k as int)] + (tokens(rest) + tokens(b)));
        assert(tokens(a) + tokens(b) == seq![a.take(k as int)] + (tokens(rest) + tokens(b)));
    }
}

proof fn lemma_token_chars(s: Seq<char>)
    ensures
        forall|i: int| 0 <= i < token_len(s) ==> text::alphanumeric(#[trigger] s[i]),
        token_len(s) < s.len() ==> !text::alphanumeric(s[token_len(s) as int]),
    decreases s.len(),
{
    if s.len() > 0 && text::alphanumeric(s[0]) {
        lemma_token_chars(s.drop_first());
        lemma_token_len(s);
        assert forall|i: int| 0 <= i < token_len(s) implies text::alphanumeric(#[trigger] s[i]) by {
            if i > 0 {
                assert(s[i] == s.drop_first()[i - 1]);
            }
        }
    }
}

proof fn lemma_found_counts(short: Seq<Seq<char>>, long: Seq<Seq<char>>)
    ensures
        found(short, long) == short.filter(|w: Seq<char>| long.contains(w)).len(),
    decreases short.len(),
{
    reveal(Seq::filter);
    if short.len() > 0 {
        lemma_found_counts(short.drop_last(), long);
    }
}

/// One line is measured against another by the words of whichever has fewer, the
/// first if neither has: how many it has, and how many of those the other has too.
pub proof fn the_shorter_line_is_measured(a: Seq<char>, b: Seq<char>)
    ensures
        ({
            let x = tokens(text::lowercased(a));
            let y = tokens(text::lowercased(b));
            &&& x.len() <= y.len() ==> contained(a, b).1 == x.len() && contained(a, b).0
                == x.filter(|w: Seq<char>| y.contains(w)).len()
            &&& y.len() < x.len() ==> contained(a, b).1 == y.len() && contained(a, b).0
                == y.filter(|w: Seq<char>| x.contains(w)).len()
        }),
{
    lemma_found_counts(wording(a), wording(b));
    lemma_found_counts(wording(b), wording(a));
}

/// A line whose every word is in one at least as long is contained in it wholly; one
/// that shares no word with it, not at all.
pub proof fn a_quoted_line_is_contained_wholly(a: Seq<char>, b: Seq<char>)
    requires
        tokens(text::lowercased(a)).len() <= tokens(text::lowercased(b)).len(),
    ensures
        (forall|i: int|
            0 <= i < tokens(text::lowercased(a)).len() ==> tokens(text::lowercased(b)).contains(
                #[trigger] tokens(text::lowercased(a))[i],
            )) <==> contained(a, b).0 == contained(a, b).1,
        (forall|i: int|
            0 <= i < tokens(text::lowercased(a)).len() ==> !tokens(text::lowercased(b)).contains(
                #[trigger] tokens(text::lowercased(a))[i],
            )) <==> contained(a, b).0 == 0,
{
    lemma_found_all(wording(a), wording(b));
}

proof fn lemma_found_all(short: Seq<Seq<char>>, long: Seq<Seq<char>>)
    ensures
        found(short, long) <= short.len(),
        (forall|i: int| 0 <= i < short.len() ==> long.contains(#[trigger] short[i])) <==> found(
            short,
            long,
        ) == short.len(),
        (forall|i: int| 0 <= i < short.len() ==> !long.contains(#[trigger] short[i])) <==> found(
            short,
            long,
        ) == 0,
    decreases short.len(),
{
    if short.len() > 0 {
        let front = short.drop_last();
        lemma_found_all(front, long);
        assert(forall|i: int| 0 <= i < front.len() ==> front[i] == #[trigger] short[i]);
        assert(short[short.len() - 1] == short.last());
        if found(short, long) == short.len() {
            assert forall|i: int| 0 <= i < short.len() implies long.contains(#[trigger] short[i]) by {
                if i < front.len() {
                    assert(long.contains(front[i]));
                }
            }
        }
        if forall|i: int| 0 <= i < short.len() ==> long.contains(#[trigger] short[i]) {
            assert forall|i: int| 0 <= i < front.len() implies long.contains(#[trigger] front[i]) by {
                assert(long.contains(short[i]));
            }
        }
        if found(short, long) == 0 {
            assert forall|i: int| 0 <= i < short.len() implies !long.contains(#[trigger] short[i]) by {
                if i < front.len() {
                    assert(!long.contains(front[i]));
                }
            }
        }
        if forall|i: int| 0 <= i < short.len() ==> !long.contains(#[trigger] short[i]) {
            assert forall|i: int| 0 <= i < front.len() implies !long.contains(
                #[trigger] front[i],
            ) by {
                assert(!long.contains(short[i]));
            }
        }
    }
}

/// The milliseconds at which both lines are being said.
pub open spec fn together(a: LineText, b: LineText) -> Set<int> {
    Set::new(|x: int| a.start_ms <= x < a.end_ms && b.start_ms <= x < b.end_ms)
}

/// What counts as overheard, to the millisecond and the word: both lines last, they
/// are said together for half of one of them, and at least three in five of the
/// words measured are shared.
pub proof fn half_the_time_and_most_of_the_words(room: LineText, call: LineText)
    requires
        forward(room),
        forward(call),
    ensures
        together(room, call).finite(),
        overheard(room, call) <==> {
            &&& room.start_ms < room.end_ms
            &&& call.start_ms < call.end_ms
            &&& {
                ||| 2 * together(room, call).len() >= room.end_ms - room.start_ms
                ||| 2 * together(room, call).len() >= call.end_ms - call.start_ms
            }
            &&& contained(room.text, call.text).1 > 0
            &&& contained(room.text, call.text).0 * 5 >= contained(room.text, call.text).1 * 3
        },
{
    let lo = if room.start_ms > call.start_ms {
        room.start_ms
    } else {
        call.start_ms
    };
    let hi = if room.end_ms < call.end_ms {
        room.end_ms
    } else {
        call.end_ms
    };
    if hi > lo {
        vstd::set_lib::lemma_int_range(lo as int, hi as int);
        assert(together(room, call) == vstd::set_lib::set_int_range(lo as int, hi as int));
    } else {
        assert(together(room, call) == Set::<int>::empty());
    }
}

/// Every line stays, in order, but for the room's lines that some call line makes
/// redundant.
pub proof fn only_overheard_room_lines_go(lines: Seq<LineText>)
    ensures
        kept(lines, lines) == lines.filter(
            |l: LineText|
                l.track == Track::Call || forall|c: int|
                    0 <= c < lines.len() && (#[trigger] lines[c]).track == Track::Call
                        ==> !overheard(l, lines[c]),
        ),
{
    lemma_kept_filters(lines, lines);
}

proof fn lemma_kept_filters(lines: Seq<LineText>, part: Seq<LineText>)
    ensures
        kept(lines, part) == part.filter(
            |l: LineText|
                l.track == Track::Call || forall|c: int|
                    0 <= c < lines.len() && (#[trigger] lines[c]).track == Track::Call
                        ==> !overheard(l, lines[c]),
        ),
    decreases part.len(),
{
    reveal(Seq::filter);
    if part.len() > 0 {
        lemma_kept_filters(lines, part.drop_last());
    }
}

pub proof fn lemma_kept_len(lines: Seq<LineText>, part: Seq<LineText>)
    ensures
        kept(lines, part).len() <= part.len(),
    decreases part.len(),
{
    if part.len() > 0 {
        lemma_kept_len(lines, part.drop_last());
    }
}

} // verus!
