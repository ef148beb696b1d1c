//! Word error rate: how far a transcript is from what was said.
//!
//! The three edit counts are kept apart because they do not mean the same thing
//! to fix: deletions are usually the segmenter throwing speech away, insertions
//! are usually the recogniser inventing words from noise, and substitutions are
//! the acoustic model being wrong.

use crate::text;
use crate::text::{chars_of, lower, split_words, string_of};
use vstd::prelude::*;

verus! {

/// The edit counts behind one score, and the reference length they are
/// measured against.
#[derive(Debug, Clone, Copy, Default, PartialEq, Eq, Structural)]
pub struct Wer {
    pub substitutions: usize,
    pub insertions: usize,
    pub deletions: usize,
    pub reference_words: usize,
}

impl Wer {
    /// `S + I + D`.
    pub open spec fn errors(&self) -> int {
        self.substitutions + self.insertions + self.deletions
    }

    /// The word error rate `(S + I + D) / N` as a numerator and a denominator.
    /// Not capped at one: a recogniser that hallucinates can legitimately score
    /// above it. With nothing to divide by, two empty sequences agree perfectly
    /// and a hypothesis with no reference behind it is wholly wrong.
    pub fn rate(&self) -> (r: (usize, usize))
        requires
            self.errors() <= usize::MAX,
        ensures
            self.reference_words == 0 && self.insertions == 0 ==> r == (0usize, 1usize),
            self.reference_words == 0 && self.insertions != 0 ==> r == (1usize, 1usize),
            self.reference_words != 0 ==> r.0 == self.errors() && r.1 == self.reference_words,
    {
        if self.reference_words == 0 {
            return if self.insertions == 0 {
                (0, 1)
            } else {
                (1, 1)
            };
        }
        (self.substitutions + self.insertions + self.deletions, self.reference_words)
    }
}

/// The typographic apostrophe reads as the plain one.
pub open spec fn fold(c: char) -> char {
    if c == '\u{2019}' {
        '\''
    } else {
        c
    }
}

/// What is left of one word: its letters, digits and apostrophes, lowered.
pub open spec fn cleaned(word: Seq<char>) -> Seq<char>
    decreases word.len(),
{
    if word.len() == 0 {
        Seq::empty()
    } else {
        let c = fold(word.last());
        cleaned(word.drop_last()) + if text::alphanumeric(c) || c == '\'' {
            text::lowercase(c)
        } else {
            Seq::empty()
        }
    }
}

/// The cleaned words that are not empty, in order.
pub open spec fn normalised(ws: Seq<Seq<char>>) -> Seq<Seq<char>>
    decreases ws.len(),
{
    if ws.len() == 0 {
        Seq::empty()
    } else {
        let rest = normalised(ws.drop_last());
        let w = cleaned(ws.last());
        if w.len() == 0 {
            rest
        } else {
            rest.push(w)
        }
    }
}

/// A text of ASCII characters and typographic apostrophes.
pub open spec fn plain(s: Seq<char>) -> bool {
    forall|i: int| 0 <= i < s.len() ==> (#[trigger] s[i] as u32) < 0x80 || s[i] == '\u{2019}'
}

/// What is left of one plain word: the ASCII letters, lowered, the digits and the
/// apostrophes.
pub open spec fn plain_cleaned(word: Seq<char>) -> Seq<char>
    decreases word.len(),
{
    if word.len() == 0 {
        Seq::empty()
    } else {
        let c = fold(word.last());
        let rest = plain_cleaned(word.drop_last());
        if text::ascii_letter_or_digit(c) || c == '\'' {
            rest.push(text::ascii_lower(c))
        } else {
            rest
        }
    }
}

/// The cleaned words of a plain text that are not empty, in order.
pub open spec fn plain_normalised(ws: Seq<Seq<char>>) -> Seq<Seq<char>>
    decreases ws.len(),
{
    if ws.len() == 0 {
        Seq::empty()
    } else {
        let rest = plain_normalised(ws.drop_last());
        let w = plain_cleaned(ws.last());
        if w.len() == 0 {
            rest
        } else {
            rest.push(w)
        }
    }
}

fn clean(word: &[char]) -> (r: Vec<char>)
    ensures
        r@ == cleaned(word@),
        plain(word@) ==> r@ == plain_cleaned(word@),
{
    let mut out: Vec<char> = Vec::new();
    let mut i: usize = 0;
    proof {
        assert(word@.take(0) == Seq::<char>::empty());
    }
    while i < word.len()
        invariant
            i <= word.len(),
            out@ == cleaned(word@.take(i as int)),
            plain(word@) ==> out@ == plain_cleaned(word@.take(i as int)),
        decreases word.len() - i,
    {
        let c: char = if word[i] == '\u{2019}' {
            '\''
        } else {
            word[i]
        };
        proof {
            assert(word@.take(i + 1).drop_last() == word@.take(i as int));
            assert(out@ + Seq::<char>::empty() == out@);
            assert(word@.take(i + 1).last() == word@[i as int]);
        }
        let ghost before = out@;
        if c.is_alphanumeric() || c == '\'' {
            let mut low: Vec<char> = lower(c);
            let ghost added = low@;
            out.append(&mut low);
            proof {
                if (c as u32) < 0x80 {
                    assert(before + added == before.push(text::ascii_lower(c)));
                }
            }
        }
        i = i + 1;
    }
    proof {
        assert(word@.take(word@.len() as int) == word@);
    }
    out
}

/// Lowercase, split on white space, and keep only letters, digits and
/// apostrophes within each word. A word with nothing left is dropped.
///
/// A hyphen splits nothing: `"well-known"` stays a single word and becomes
/// `"wellknown"`. The typographic apostrophe is folded to `'` first so that a
/// recogniser that punctuates prettily still matches a reference that does not.
pub fn normalise(text: &str) -> (r: Vec<String>)
    ensures
        text::views(r@) == normalised(text::words(text@)),
        plain(text@) ==> text::views(r@) == plain_normalised(text::words(text@)),
{
    let chars: Vec<char> = chars_of(text);
    let ws: Vec<Vec<char>> = split_words(chars.as_slice());
    let mut out: Vec<String> = Vec::new();
    let mut i: usize = 0;
    proof {
        assert(text::seqs(ws@).take(0) == Seq::<Seq<char>>::empty());
        assert(text::views(out@) == Seq::<Seq<char>>::empty());
        if plain(text@) {
            lemma_words_stay_plain(text@);
            assert forall|j: int| 0 <= j < ws@.len() implies plain(#[trigger] ws@[j]@) by {
                assert(text::seqs(ws@)[j] == ws@[j]@);
            }
        }
    }
    while i < ws.len()
        invariant
            i <= ws.len(),
            text::views(out@) == normalised(text::seqs(ws@).take(i as int)),
            plain(text@) ==> forall|j: int| 0 <= j < ws@.len() ==> plain(#[trigger] ws@[j]@),
            plain(text@) ==> text::views(out@) == plain_normalised(
                text::seqs(ws@).take(i as int),
            ),
        decreases ws.len() - i,
    {
        let w: Vec<char> = clean(ws[i].as_slice());
        proof {
            assert(text::seqs(ws@).take(i + 1).drop_last() == text::seqs(ws@).take(i as int));
            assert(text::seqs(ws@).take(i + 1).last() == ws@[i as int]@);
        }
        if w.len() > 0 {
            let word: String = string_of(w.as_slice());
            proof {
                assert(text::views(out@.push(word)) == text::views(out@).push(word@));
            }
            out.push(word);
        }
        i = i + 1;
    }
    proof {
        assert(text::seqs(ws@).take(ws@.len() as int) == text::seqs(ws@));
    }
    out
}

proof fn lemma_trim_stays_plain(s: Seq<char>)
    requires
        plain(s),
    ensures
        plain(text::trim_start(s)),
    decreases s.len(),
{
    if s.len() > 0 && text::white_space(s[0]) {
        assert forall|i: int| 0 <= i < s.drop_first().len() implies (#[trigger] s.drop_first()[i] as u32)
            < 0x80 || s.drop_first()[i] == '\u{2019}' by {
            assert(s.drop_first()[i] == s[i + 1]);
        }
        lemma_trim_stays_plain(s.drop_first());
    }
}

proof fn lemma_words_stay_plain(s: Seq<char>)
    requires
        plain(s),
    ensures
        forall|i: int| 0 <= i < text::words(s).len() ==> plain(#[trigger] text::words(s)[i]),
    decreases s.len(),
{
    let t = text::trim_start(s);
    let k = text::word_len(t);
    text::lemma_trim_start_len(s);
    text::lemma_word_len(t);
    lemma_trim_stays_plain(s);
    if t.len() > 0 && k > 0 {
        let first = t.take(k as int);
        let rest = t.skip(k as int);
        assert forall|i: int| 0 <= i < rest.len() implies (#[trigger] rest[i] as u32) < 0x80 || rest[i]
            == '\u{2019}' by {
            assert(rest[i] == t[i + k]);
        }
        assert forall|i: int| 0 <= i < first.len() implies (#[trigger] first[i] as u32) < 0x80
            || first[i] == '\u{2019}' by {
            assert(first[i] == t[i]);
        }
        lemma_words_stay_plain(rest);
        assert forall|i: int| 0 <= i < text::words(s).len() implies plain(
            #[trigger] text::words(s)[i],
        ) by {
            if i > 0 {
                assert(text::words(s)[i] == text::words(rest)[i - 1]);
            }
        }
    }
}

/// A lower-case ASCII letter, a digit or an apostrophe.
pub open spec fn lower_plain(c: char) -> bool {
    'a' <= c <= 'z' || '0' <= c <= '9' || c == '\''
}

/// A word of such characters alone, and of at least one.
pub open spec fn lower_word(w: Seq<char>) -> bool {
    w.len() > 0 && forall|i: int| 0 <= i < w.len() ==> lower_plain(#[trigger] w[i])
}

proof fn lemma_cleaned_is_lower(w: Seq<char>)
    ensures
        forall|i: int| 0 <= i < plain_cleaned(w).len() ==> lower_plain(#[trigger] plain_cleaned(w)[i]),
    decreases w.len(),
{
    if w.len() > 0 {
        let rest = plain_cleaned(w.drop_last());
        let all = plain_cleaned(w);
        lemma_cleaned_is_lower(w.drop_last());
        assert forall|i: int| 0 <= i < all.len() implies lower_plain(#[trigger] all[i]) by {
            if i < rest.len() {
                assert(all[i] == rest[i]);
            }
        }
    }
}

proof fn lemma_lower_word_stays(w: Seq<char>)
    requires
        forall|i: int| 0 <= i < w.len() ==> lower_plain(#[trigger] w[i]),
    ensures
        plain_cleaned(w) == w,
    decreases w.len(),
{
    if w.len() > 0 {
        assert forall|i: int| 0 <= i < w.drop_last().len() implies lower_plain(
            #[trigger] w.drop_last()[i],
        ) by {
            assert(w.drop_last()[i] == w[i]);
        }
        lemma_lower_word_stays(w.drop_last());
        assert(lower_plain(w[w.len() - 1]));
        assert(w.drop_last().push(w.last()) == w);
    }
}

proof fn lemma_normalised_is_lower(ws: Seq<Seq<char>>)
    ensures
        forall|i: int|
            0 <= i < plain_normalised(ws).len() ==> lower_word(#[trigger] plain_normalised(ws)[i]),
    decreases ws.len(),
{
    if ws.len() > 0 {
        lemma_normalised_is_lower(ws.drop_last());
        lemma_cleaned_is_lower(ws.last());
        let rest = plain_normalised(ws.drop_last());
        let all = plain_normalised(ws);
        assert forall|i: int| 0 <= i < all.len() implies lower_word(#[trigger] all[i]) by {
            if i < rest.len() {
                assert(all[i] == rest[i]);
            }
        }
    }
}

proof fn lemma_lower_words_stay(ws: Seq<Seq<char>>)
    requires
        forall|i: int| 0 <= i < ws.len() ==> lower_word(#[trigger] ws[i]),
    ensures
        plain_normalised(ws) == ws,
    decreases ws.len(),
{
    if ws.len() > 0 {
        assert forall|i: int| 0 <= i < ws.drop_last().len() implies lower_word(
            #[trigger] ws.drop_last()[i],
        ) by {
            assert(ws.drop_last()[i] == ws[i]);
        }
        lemma_lower_words_stay(ws.drop_last());
        assert(lower_word(ws[ws.len() - 1]));
        lemma_lower_word_stays(ws.last());
        assert(ws.drop_last().push(ws.last()) == ws);
    }
}

proof fn lemma_joined_stays_plain(ws: Seq<Seq<char>>)
    requires
        forall|i: int| 0 <= i < ws.len() ==> lower_word(#[trigger] ws[i]),
    ensures
        plain(text::joined(ws, " "@)),
    decreases ws.len(),
{
    reveal_strlit(" ");
    if ws.len() > 0 {
        assert forall|i: int| 0 <= i < ws.drop_last().len() implies lower_word(
            #[trigger] ws.drop_last()[i],
        ) by {
            assert(ws.drop_last()[i] == ws[i]);
        }
        lemma_joined_stays_plain(ws.drop_last());
        assert(lower_word(ws[ws.len() - 1]));
        assert(lower_word(ws[0]));
        let s = text::joined(ws, " "@);
        let head = text::joined(ws.drop_last(), " "@);
        assert forall|i: int| 0 <= i < s.len() implies (#[trigger] s[i] as u32) < 0x80 || s[i]
            == '\u{2019}' by {
            if ws.len() == 1 {
                assert(lower_plain(ws[0][i]));
            } else if i < head.len() {
                assert(s[i] == head[i]);
            } else if i > head.len() {
                assert(s[i] == ws.last()[i - head.len() - 1]);
            }
        }
    }
}

/// The words a plain text is normalised to hold lower-case ASCII letters, digits
/// and apostrophes alone, and none is empty.
pub proof fn plain_text_gives_plain_words(s: Seq<char>)
    requires
        plain(s),
    ensures
        forall|i: int|
            0 <= i < plain_normalised(text::words(s)).len() ==> lower_word(
                #[trigger] plain_normalised(text::words(s))[i],
            ),
{
    lemma_normalised_is_lower(text::words(s));
}

/// Normalising a plain text twice changes nothing: the words it was normalised to,
/// set side by side again, are a plain text and are normalised to themselves.
pub proof fn normalising_twice_changes_nothing(s: Seq<char>)
    requires
        plain(s),
    ensures
        ({
            let once = plain_normalised(text::words(s));
            let again = text::joined(once, " "@);
            plain(again) && plain_normalised(text::words(again)) == once
        }),
{
    let once = plain_normalised(text::words(s));
    lemma_normalised_is_lower(text::words(s));
    assert forall|i: int| 0 <= i < once.len() implies text::is_word(#[trigger] once[i]) by {
        assert(lower_word(once[i]));
        assert forall|j: int| 0 <= j < once[i].len() implies !text::white_space(
            #[trigger] once[i][j],
        ) by {
            assert(lower_plain(once[i][j]));
        }
    }
    text::lemma_words_of_joined(once);
    lemma_joined_stays_plain(once);
    lemma_lower_words_stay(once);
}

/// Normalising makes no word out of nothing: there are at most as many as the text
/// has.
pub proof fn no_word_is_added(ws: Seq<Seq<char>>)
    ensures
        normalised(ws).len() <= ws.len(),
    decreases ws.len(),
{
    if ws.len() > 0 {
        no_word_is_added(ws.drop_last());
    }
}

/// A text with its typographic apostrophes made plain.
pub open spec fn folded(s: Seq<char>) -> Seq<char> {
    s.map_values(|c: char| fold(c))
}

proof fn lemma_folded_trims(s: Seq<char>)
    ensures
        text::trim_start(folded(s)) == folded(text::trim_start(s)),
    decreases s.len(),
{
    if s.len() > 0 && text::white_space(s[0]) {
        lemma_folded_trims(s.drop_first());
        assert(folded(s).drop_first() == folded(s.drop_first()));
    }
}

proof fn lemma_folded_word_len(s: Seq<char>)
    ensures
        text::word_len(folded(s)) == text::word_len(s),
    decreases s.len(),
{
    if s.len() > 0 && !text::white_space(s[0]) {
        lemma_folded_word_len(s.drop_first());
        assert(folded(s).drop_first() == folded(s.drop_first()));
    }
}

proof fn lemma_folded_words(s: Seq<char>)
    ensures
        text::words(folded(s)) == text::words(s).map_values(|w: Seq<char>| folded(w)),
    decreases s.len(),
{
    let t = text::trim_start(s);
    let k = text::word_len(t);
    text::lemma_trim_start_len(s);
    text::lemma_word_len(t);
    lemma_folded_trims(s);
    lemma_folded_word_len(t);
    let all = text::words(s).map_values(|w: Seq<char>| folded(w));
    if t.len() > 0 && k > 0 {
        let rest = t.skip(k as int);
        lemma_folded_words(rest);
        assert(folded(t).take(k as int) == folded(t.take(k as int)));
        assert(folded(t).skip(k as int) == folded(rest));
        assert(text::words(folded(s)) == seq![folded(t.take(k as int))] + text::words(folded(rest)));
        assert(all == seq![folded(t.take(k as int))] + text::words(rest).map_values(
            |w: Seq<char>| folded(w),
        ));
    } else {
        assert(all == Seq::<Seq<char>>::empty());
    }
}

proof fn lemma_folded_cleans(w: Seq<char>)
    ensures
        cleaned(folded(w)) == cleaned(w),
    decreases w.len(),
{
    if w.len() > 0 {
        lemma_folded_cleans(w.drop_last());
        assert(folded(w).drop_last() == folded(w.drop_last()));
        assert(fold(folded(w).last()) == fold(w.last()));
    }
}

proof fn lemma_folded_normalises(ws: Seq<Seq<char>>)
    ensures
        normalised(ws.map_values(|w: Seq<char>| folded(w))) == normalised(ws),
    decreases ws.len(),
{
    let all = ws.map_values(|w: Seq<char>| folded(w));
    if ws.len() > 0 {
        lemma_folded_normalises(ws.drop_last());
        lemma_folded_cleans(ws.last());
        assert(all.drop_last() == ws.drop_last().map_values(|w: Seq<char>| folded(w)));
    }
}

/// Which of the two apostrophes a text is written with makes no difference, whatever
/// else it holds.
pub proof fn apostrophes_are_alike(s: Seq<char>)
    ensures
        normalised(text::words(folded(s))) == normalised(text::words(s)),
{
    lemma_folded_words(s);
    lemma_folded_normalises(text::words(s));
}

/// The cost of setting word `x` against word `y`.
pub open spec fn mismatch(x: Seq<char>, y: Seq<char>) -> nat {
    if x == y {
        0
    } else {
        1
    }
}

pub open spec fn least(x: nat, y: nat) -> nat {
    if x <= y {
        x
    } else {
        y
    }
}

/// The fewest substitutions, deletions and insertions that turn the first `i`
/// words of `a` into the first `j` words of `b`.
pub open spec fn distance(a: Seq<Seq<char>>, b: Seq<Seq<char>>, i: nat, j: nat) -> nat
    decreases i + j,
{
    if i == 0 {
        j
    } else if j == 0 {
        i
    } else {
        let sub = distance(a, b, (i - 1) as nat, (j - 1) as nat) + mismatch(a[i - 1], b[j - 1]);
        let del = distance(a, b, (i - 1) as nat, j) + 1;
        let ins = distance(a, b, i, (j - 1) as nat) + 1;
        least(least(sub, del), ins)
    }
}

/// One step of an alignment.
pub enum Step {
    /// A reference word set against a hypothesis word, equal or not.
    Pair,
    /// A reference word with nothing opposite it.
    Delete,
    /// A hypothesis word with nothing opposite it.
    Insert,
}

/// Substitutions, insertions and deletions.
pub struct Counts {
    pub substitutions: nat,
    pub insertions: nat,
    pub deletions: nat,
}

impl Counts {
    pub open spec fn total(self) -> nat {
        self.substitutions + self.insertions + self.deletions
    }
}

/// The steps take exactly the first `i` words of one side and the first `j` of
/// the other.
pub open spec fn aligns(steps: Seq<Step>, i: nat, j: nat) -> bool
    decreases steps.len(),
{
    if steps.len() == 0 {
        i == 0 && j == 0
    } else {
        match steps.last() {
            Step::Pair => i > 0 && j > 0 && aligns(
                steps.drop_last(),
                (i - 1) as nat,
                (j - 1) as nat,
            ),
            Step::Delete => i > 0 && aligns(steps.drop_last(), (i - 1) as nat, j),
            Step::Insert => j > 0 && aligns(steps.drop_last(), i, (j - 1) as nat),
        }
    }
}

/// What an alignment charges.
pub open spec fn charged(
    a: Seq<Seq<char>>,
    b: Seq<Seq<char>>,
    steps: Seq<Step>,
    i: nat,
    j: nat,
) -> Counts
    decreases steps.len(),
{
    if steps.len() == 0 {
        Counts { substitutions: 0, insertions: 0, deletions: 0 }
    } else {
        let front = steps.drop_last();
        match steps.last() {
            Step::Pair => {
                let c = charged(a, b, front, (i - 1) as nat, (j - 1) as nat);
                Counts { substitutions: c.substitutions + mismatch(a[i - 1], b[j - 1]), ..c }
            },
            Step::Delete => {
                let c = charged(a, b, front, (i - 1) as nat, j);
                Counts { deletions: c.deletions + 1, ..c }
            },
            Step::Insert => {
                let c = charged(a, b, front, i, (j - 1) as nat);
                Counts { insertions: c.insertions + 1, ..c }
            },
        }
    }
}

/// The alignment a score reports: walked back from the end, it prefers a pair,
/// then a deletion, then an insertion among the steps that keep the distance
/// least.
pub open spec fn preferred(a: Seq<Seq<char>>, b: Seq<Seq<char>>, i: nat, j: nat) -> Seq<Step>
    decreases i + j,
{
    if i == 0 && j == 0 {
        Seq::empty()
    } else if i > 0 && j > 0 && distance(a, b, i, j) == distance(
        a,
        b,
        (i - 1) as nat,
        (j - 1) as nat,
    ) + mismatch(a[i - 1], b[j - 1]) {
        preferred(a, b, (i - 1) as nat, (j - 1) as nat).push(Step::Pair)
    } else if i > 0 && distance(a, b, i, j) == distance(a, b, (i - 1) as nat, j) + 1 {
        preferred(a, b, (i - 1) as nat, j).push(Step::Delete)
    } else if j > 0 {
        preferred(a, b, i, (j - 1) as nat).push(Step::Insert)
    } else {
        Seq::empty()
    }
}

/// The counts of the preferred alignment of the first `i` and `j` words.
pub open spec fn breakdown(a: Seq<Seq<char>>, b: Seq<Seq<char>>, i: nat, j: nat) -> Counts {
    charged(a, b, preferred(a, b, i, j), i, j)
}

/// `w` is the score of `hypothesis` against `reference`.
pub open spec fn is_score(reference: Seq<Seq<char>>, hypothesis: Seq<Seq<char>>, w: Wer) -> bool {
    let c = breakdown(reference, hypothesis, reference.len(), hypothesis.len());
    &&& w.reference_words == reference.len()
    &&& w.substitutions == c.substitutions
    &&& w.insertions == c.insertions
    &&& w.deletions == c.deletions
}

proof fn lemma_distance_bound(a: Seq<Seq<char>>, b: Seq<Seq<char>>, i: nat, j: nat)
    ensures
        distance(a, b, i, j) <= i || distance(a, b, i, j) <= j,
        distance(a, b, i, j) >= i - j,
        distance(a, b, i, j) >= j - i,
    decreases i + j,
{
    if i > 0 && j > 0 {
        lemma_distance_bound(a, b, (i - 1) as nat, (j - 1) as nat);
        lemma_distance_bound(a, b, (i - 1) as nat, j);
        lemma_distance_bound(a, b, i, (j - 1) as nat);
    }
}

proof fn lemma_preferred(a: Seq<Seq<char>>, b: Seq<Seq<char>>, i: nat, j: nat)
    ensures
        aligns(preferred(a, b, i, j), i, j),
        breakdown(a, b, i, j).total() == distance(a, b, i, j),
        breakdown(a, b, i, j).substitutions + breakdown(a, b, i, j).deletions <= i,
        breakdown(a, b, i, j).substitutions + breakdown(a, b, i, j).insertions <= j,
    decreases i + j,
{
    let p = preferred(a, b, i, j);
    if i == 0 && j == 0 {
    } else if i > 0 && j > 0 && distance(a, b, i, j) == distance(
        a,
        b,
        (i - 1) as nat,
        (j - 1) as nat,
    ) + mismatch(a[i - 1], b[j - 1]) {
        lemma_preferred(a, b, (i - 1) as nat, (j - 1) as nat);
        assert(p.drop_last() == preferred(a, b, (i - 1) as nat, (j - 1) as nat));
    } else if i > 0 && distance(a, b, i, j) == distance(a, b, (i - 1) as nat, j) + 1 {
        lemma_preferred(a, b, (i - 1) as nat, j);
        assert(p.drop_last() == preferred(a, b, (i - 1) as nat, j));
    } else {
        if j == 0 {
            assert(distance(a, b, i, 0) == i);
            assert(distance(a, b, (i - 1) as nat, 0) == i - 1);
        }
        lemma_preferred(a, b, i, (j - 1) as nat);
        assert(p.drop_last() == preferred(a, b, i, (j - 1) as nat));
    }
}

proof fn lemma_distance_local(
    a: Seq<Seq<char>>,
    b: Seq<Seq<char>>,
    k: nat,
    i: nat,
    j: nat,
)
    requires
        i <= k <= a.len(),
    ensures
        distance(a.take(k as int), b, i, j) == distance(a, b, i, j),
    decreases i + j,
{
    if i > 0 && j > 0 {
        lemma_distance_local(a, b, k, (i - 1) as nat, (j - 1) as nat);
        lemma_distance_local(a, b, k, (i - 1) as nat, j);
        lemma_distance_local(a, b, k, i, (j - 1) as nat);
    }
}

/// The three counts of a score sum to the edit distance, and no alignment of
/// the two word sequences charges less.
pub proof fn score_is_least(
    reference: Seq<Seq<char>>,
    hypothesis: Seq<Seq<char>>,
    w: Wer,
    steps: Seq<Step>,
)
    requires
        is_score(reference, hypothesis, w),
        aligns(steps, reference.len(), hypothesis.len()),
    ensures
        w.errors() == distance(reference, hypothesis, reference.len(), hypothesis.len()),
        w.errors() <= charged(
            reference,
            hypothesis,
            steps,
            reference.len(),
            hypothesis.len(),
        ).total(),
{
    lemma_preferred(reference, hypothesis, reference.len(), hypothesis.len());
    lemma_no_alignment_beats(reference, hypothesis, steps, reference.len(), hypothesis.len());
}

proof fn lemma_no_alignment_beats(
    a: Seq<Seq<char>>,
    b: Seq<Seq<char>>,
    steps: Seq<Step>,
    i: nat,
    j: nat,
)
    requires
        aligns(steps, i, j),
    ensures
        distance(a, b, i, j) <= charged(a, b, steps, i, j).total(),
    decreases steps.len(),
{
    if steps.len() > 0 {
        let front = steps.drop_last();
        match steps.last() {
            Step::Pair => {
                lemma_no_alignment_beats(a, b, front, (i - 1) as nat, (j - 1) as nat);
            },
            Step::Delete => {
                lemma_no_alignment_beats(a, b, front, (i - 1) as nat, j);
                assert(distance(a, b, i, j) <= distance(a, b, (i - 1) as nat, j) + 1);
            },
            Step::Insert => {
                lemma_no_alignment_beats(a, b, front, i, (j - 1) as nat);
                lemma_distance_bound(a, b, i, (j - 1) as nat);
                assert(distance(a, b, i, j) <= distance(a, b, i, (j - 1) as nat) + 1);
            },
        }
    }
}

/// A score's counts are those of one alignment that really exists, not three
/// independent guesses.
pub proof fn score_is_one_alignment(
    reference: Seq<Seq<char>>,
    hypothesis: Seq<Seq<char>>,
    w: Wer,
)
    requires
        is_score(reference, hypothesis, w),
    ensures
        exists|steps: Seq<Step>|
            {
                &&& #[trigger] aligns(steps, reference.len(), hypothesis.len())
                &&& charged(
                    reference,
                    hypothesis,
                    steps,
                    reference.len(),
                    hypothesis.len(),
                ).substitutions == w.substitutions
                &&& charged(
                    reference,
                    hypothesis,
                    steps,
                    reference.len(),
                    hypothesis.len(),
                ).insertions == w.insertions
                &&& charged(
                    reference,
                    hypothesis,
                    steps,
                    reference.len(),
                    hypothesis.len(),
                ).deletions == w.deletions
            },
{
    lemma_preferred(reference, hypothesis, reference.len(), hypothesis.len());
    assert(aligns(
        preferred(reference, hypothesis, reference.len(), hypothesis.len()),
        reference.len(),
        hypothesis.len(),
    ));
}

/// A transcript scores no errors exactly when it is the reference.
pub proof fn perfect_score_means_equal(
    reference: Seq<Seq<char>>,
    hypothesis: Seq<Seq<char>>,
    w: Wer,
)
    requires
        is_score(reference, hypothesis, w),
    ensures
        w.errors() == 0 <==> reference == hypothesis,
{
    lemma_preferred(reference, hypothesis, reference.len(), hypothesis.len());
    lemma_distance_zero(reference, hypothesis, reference.len(), hypothesis.len());
    if reference != hypothesis && reference.len() == hypothesis.len() {
        assert(exists|i: int| 0 <= i < reference.len() && reference[i] != hypothesis[i]) by {
            if forall|i: int| 0 <= i < reference.len() ==> reference[i] == hypothesis[i] {
                assert(reference =~= hypothesis);
            }
        }
    }
}

proof fn lemma_distance_zero(a: Seq<Seq<char>>, b: Seq<Seq<char>>, i: nat, j: nat)
    ensures
        distance(a, b, i, j) == 0 <==> i == j && forall|k: int| 0 <= k < i ==> a[k] == b[k],
    decreases i + j,
{
    if i > 0 && j > 0 {
        lemma_distance_zero(a, b, (i - 1) as nat, (j - 1) as nat);
        if i == j && (forall|k: int| 0 <= k < i ==> a[k] == b[k]) {
            assert(a[i - 1] == b[j - 1]);
        }
        if distance(a, b, i, j) == 0 {
            assert forall|k: int| 0 <= k < i implies a[k] == b[k] by {}
        }
    }
}

/// Exchanging the two sequences leaves the distance as it is.
pub proof fn distance_is_symmetric(a: Seq<Seq<char>>, b: Seq<Seq<char>>, i: nat, j: nat)
    ensures
        distance(a, b, i, j) == distance(b, a, j, i),
    decreases i + j,
{
    if i > 0 && j > 0 {
        distance_is_symmetric(a, b, (i - 1) as nat, (j - 1) as nat);
        distance_is_symmetric(a, b, (i - 1) as nat, j);
        distance_is_symmetric(a, b, i, (j - 1) as nat);
    }
}

/// One row of the distance table from the row before it.
fn next_row(reference: &[String], hypothesis: &[String], i: usize, prev: &Vec<usize>) -> (r: Vec<
    usize,
>)
    requires
        1 <= i <= reference@.len(),
        reference@.len() < usize::MAX,
        hypothesis@.len() < usize::MAX,
        prev@.len() == hypothesis@.len() + 1,
        forall|j: int|
            0 <= j <= hypothesis@.len() ==> #[trigger] prev@[j] == distance(
                text::views(reference@),
                text::views(hypothesis@),
                (i - 1) as nat,
                j as nat,
            ),
    ensures
        r@.len() == hypothesis@.len() + 1,
        forall|j: int|
            0 <= j <= hypothesis@.len() ==> #[trigger] r@[j] == distance(
                text::views(reference@),
                text::views(hypothesis@),
                i as nat,
                j as nat,
            ),
{
    let ghost a = text::views(reference@);
    let ghost b = text::views(hypothesis@);
    let m: usize = hypothesis.len();
    let mut row: Vec<usize> = Vec::new();
    row.push(i);
    let mut j: usize = 1;
    while j <= m
        invariant
            1 <= i <= reference@.len(),
            reference@.len() < usize::MAX,
            hypothesis@.len() < usize::MAX,
            m == hypothesis@.len(),
            1 <= j <= m + 1,
            a == text::views(reference@),
            b == text::views(hypothesis@),
            prev@.len() == m + 1,
            forall|k: int|
                0 <= k <= m ==> #[trigger] prev@[k] == distance(a, b, (i - 1) as nat, k as nat),
            row@.len() == j,
            forall|k: int| 0 <= k < j ==> #[trigger] row@[k] == distance(a, b, i as nat, k as nat),
        decreases m + 1 - j,
    {
        proof {
            lemma_distance_bound(a, b, (i - 1) as nat, (j - 1) as nat);
            lemma_distance_bound(a, b, (i - 1) as nat, j as nat);
            lemma_distance_bound(a, b, i as nat, (j - 1) as nat);
            assert(a[i - 1] == reference@[i - 1]@);
            assert(b[j - 1] == hypothesis@[j - 1]@);
        }
        let cost: usize = if reference[i - 1] == hypothesis[j - 1] {
            0
        } else {
            1
        };
        let sub: usize = prev[j - 1] + cost;
        let del: usize = prev[j] + 1;
        let ins: usize = row[j - 1] + 1;
        let mut best: usize = sub;
        if del < best {
            best = del;
        }
        if ins < best {
            best = ins;
        }
        row.push(best);
        j = j + 1;
    }
    row
}

/// The row for no reference words at all: every hypothesis word is inserted.
fn first_row(m: usize) -> (r: Vec<usize>)
    requires
        m < usize::MAX,
    ensures
        r@.len() == m + 1,
        forall|j: int| 0 <= j <= m ==> #[trigger] r@[j] == j,
{
    let mut row: Vec<usize> = Vec::new();
    let mut j: usize = 0;
    while j <= m
        invariant
            j <= m + 1,
            m < usize::MAX,
            row@.len() == j,
            forall|k: int| 0 <= k < j ==> #[trigger] row@[k] == k,
        decreases m + 1 - j,
    {
        row.push(j);
        j = j + 1;
    }
    row
}

/// Align the two word sequences and count the edits that separate them.
///
/// Word-level Levenshtein with the standard traceback. Where several alignments
/// are equally short the traceback prefers a substitution, then a deletion,
/// then an insertion, so the same pair of inputs always reports the same
/// breakdown.
pub fn score(reference: &[String], hypothesis: &[String]) -> (w: Wer)
    requires
        reference@.len() < usize::MAX,
        hypothesis@.len() < usize::MAX,
    ensures
        is_score(text::views(reference@), text::views(hypothesis@), w),
{
    let ghost a = text::views(reference@);
    let ghost b = text::views(hypothesis@);
    let n: usize = reference.len();
    let m: usize = hypothesis.len();

    // d[i][j] is the edit distance between reference[..i] and hypothesis[..j].
    let mut d: Vec<Vec<usize>> = Vec::new();
    d.push(first_row(m));
    let mut row: usize = 1;
    while row <= n
        invariant
            n == reference@.len(),
            m == hypothesis@.len(),
            n < usize::MAX,
            m < usize::MAX,
            1 <= row <= n + 1,
            a == text::views(reference@),
            b == text::views(hypothesis@),
            d@.len() == row,
            forall|i: int| 0 <= i < row ==> (#[trigger] d@[i])@.len() == m + 1,
            forall|i: int, j: int|
                0 <= i < row && 0 <= j <= m ==> #[trigger] d@[i]@[j] == distance(
                    a,
                    b,
                    i as nat,
                    j as nat,
                ),
        decreases n + 1 - row,
    {
        let next: Vec<usize> = next_row(reference, hypothesis, row, &d[row - 1]);
        d.push(next);
        row = row + 1;
    }

    let mut wer: Wer = Wer { substitutions: 0, insertions: 0, deletions: 0, reference_words: n };
    let mut i: usize = n;
    let mut j: usize = m;
    while i > 0 || j > 0
        invariant
            n == reference@.len(),
            m == hypothesis@.len(),
            i <= n,
            j <= m,
            a == text::views(reference@),
            b == text::views(hypothesis@),
            d@.len() == n + 1,
            forall|x: int| 0 <= x <= n ==> (#[trigger] d@[x])@.len() == m + 1,
            forall|x: int, y: int|
                0 <= x <= n && 0 <= y <= m ==> #[trigger] d@[x]@[y] == distance(
                    a,
                    b,
                    x as nat,
                    y as nat,
                ),
            wer.reference_words == n,
            wer.substitutions <= n - i,
            wer.deletions <= n - i,
            wer.insertions <= m - j,
            wer.substitutions + breakdown(a, b, i as nat, j as nat).substitutions == breakdown(
                a,
                b,
                n as nat,
                m as nat,
            ).substitutions,
            wer.insertions + breakdown(a, b, i as nat, j as nat).insertions == breakdown(
                a,
                b,
                n as nat,
                m as nat,
            ).insertions,
            wer.deletions + breakdown(a, b, i as nat, j as nat).deletions == breakdown(
                a,
                b,
                n as nat,
                m as nat,
            ).deletions,
        decreases i + j,
    {
        let here: usize = d[i][j];
        let ghost p = preferred(a, b, i as nat, j as nat);
        if i > 0 && j > 0 {
            proof {
                assert(a[i - 1] == reference@[i - 1]@);
                assert(b[j - 1] == hypothesis@[j - 1]@);
                lemma_distance_bound(a, b, (i - 1) as nat, (j - 1) as nat);
            }
            let cost: usize = if reference[i - 1] == hypothesis[j - 1] {
                0
            } else {
                1
            };
            let diagonal: usize = d[i - 1][j - 1];
            if here >= cost && here - cost == diagonal {
                proof {
                    assert(p.drop_last() == preferred(a, b, (i - 1) as nat, (j - 1) as nat));
                }
                wer.substitutions = wer.substitutions + cost;
                i = i - 1;
                j = j - 1;
                continue ;
            }
        }
        if i > 0 && here >= 1 && here - 1 == d[i - 1][j] {
            proof {
                assert(p.drop_last() == preferred(a, b, (i - 1) as nat, j as nat));
            }
            wer.deletions = wer.deletions + 1;
            i = i - 1;
            continue ;
        }
        proof {
            if j == 0 {
                assert(distance(a, b, i as nat, 0) == i);
                assert(distance(a, b, (i - 1) as nat, 0) == i - 1);
            }
            assert(p.drop_last() == preferred(a, b, i as nat, (j - 1) as nat));
        }
        wer.insertions = wer.insertions + 1;
        j = j - 1;
    }
    wer
}

/// Some prefix of the reference is at least as close to the hypothesis as every
/// other, and closer than every shorter one.
pub open spec fn best_prefix(reference: Seq<Seq<char>>, hypothesis: Seq<Seq<char>>, k: nat) -> bool {
    let m = hypothesis.len();
    &&& k <= reference.len()
    &&& forall|i: nat|
        i <= reference.len() ==> distance(reference, hypothesis, k, m) <= #[trigger] distance(
            reference,
            hypothesis,
            i,
            m,
        )
    &&& forall|i: nat|
        i < k ==> distance(reference, hypothesis, k, m) < #[trigger] distance(
            reference,
            hypothesis,
            i,
            m,
        )
}

/// Score `hypothesis` against the prefix of `reference` that best matches it,
/// rather than the whole reference.
///
/// For a reference that runs on past where the audio was cut, scoring against
/// the whole of it would count every word spoken after the cut as a deletion.
/// The search is a rolling two-row table: it needs the distance from each
/// reference prefix to the full hypothesis, but never the whole table. Ties
/// choose the smallest prefix.
pub fn score_prefix(reference: &[String], hypothesis: &[String]) -> (w: Wer)
    requires
        reference@.len() < usize::MAX,
        hypothesis@.len() < usize::MAX,
    ensures
        best_prefix(text::views(reference@), text::views(hypothesis@), w.reference_words as nat),
        is_score(
            text::views(reference@).take(w.reference_words as int),
            text::views(hypothesis@),
            w,
        ),
{
    let ghost a = text::views(reference@);
    let ghost b = text::views(hypothesis@);
    let n: usize = reference.len();
    let m: usize = hypothesis.len();
    let mut prev: Vec<usize> = first_row(m);
    let mut best_k: usize = 0;
    let mut best_dist: usize = prev[m];
    let mut i: usize = 1;
    while i <= n
        invariant
            n == reference@.len(),
            m == hypothesis@.len(),
            n < usize::MAX,
            m < usize::MAX,
            1 <= i <= n + 1,
            best_k < i,
            a == text::views(reference@),
            b == text::views(hypothesis@),
            prev@.len() == m + 1,
            forall|j: int|
                0 <= j <= m ==> #[trigger] prev@[j] == distance(a, b, (i - 1) as nat, j as nat),
            best_dist == distance(a, b, best_k as nat, m as nat),
            forall|k: nat| k < i ==> best_dist <= #[trigger] distance(a, b, k, m as nat),
            forall|k: nat| k < best_k ==> best_dist < #[trigger] distance(a, b, k, m as nat),
        decreases n + 1 - i,
    {
        let curr: Vec<usize> = next_row(reference, hypothesis, i, &prev);
        if curr[m] < best_dist {
            best_dist = curr[m];
            best_k = i;
        }
        prev = curr;
        i = i + 1;
    }
    let front: &[String] = vstd::slice::slice_subrange(reference, 0, best_k);
    proof {
        assert(text::views(front@) == a.take(best_k as int));
    }
    score(front, hypothesis)
}

/// When the whole reference is itself the best prefix, scoring against the best
/// prefix and scoring against the reference agree.
pub proof fn prefix_agrees_when_all_is_best(
    reference: Seq<Seq<char>>,
    hypothesis: Seq<Seq<char>>,
    whole: Wer,
    prefix: Wer,
)
    requires
        is_score(reference, hypothesis, whole),
        best_prefix(reference, hypothesis, reference.len()),
        best_prefix(reference, hypothesis, prefix.reference_words as nat),
        is_score(reference.take(prefix.reference_words as int), hypothesis, prefix),
    ensures
        prefix == whole,
{
    assert(prefix.reference_words == reference.len());
    assert(reference.take(reference.len() as int) == reference);
}

/// Scoring against the best prefix never reports more errors than scoring
/// against the whole reference.
pub proof fn prefix_never_scores_worse(
    reference: Seq<Seq<char>>,
    hypothesis: Seq<Seq<char>>,
    whole: Wer,
    prefix: Wer,
)
    requires
        is_score(reference, hypothesis, whole),
        best_prefix(reference, hypothesis, prefix.reference_words as nat),
        is_score(reference.take(prefix.reference_words as int), hypothesis, prefix),
    ensures
        prefix.errors() <= whole.errors(),
{
    let k = prefix.reference_words as nat;
    let front = reference.take(k as int);
    lemma_preferred(reference, hypothesis, reference.len(), hypothesis.len());
    lemma_preferred(front, hypothesis, k, hypothesis.len());
    lemma_distance_local(reference, hypothesis, k, k, hypothesis.len());
}

/// The counts of several scores together, each count on its own.
pub open spec fn summed(rows: Seq<Wer>) -> (int, int, int, int)
    decreases rows.len(),
{
    if rows.len() == 0 {
        (0, 0, 0, 0)
    } else {
        let rest = summed(rows.drop_last());
        let w = rows.last();
        (
            rest.0 + w.substitutions,
            rest.1 + w.insertions,
            rest.2 + w.deletions,
            rest.3 + w.reference_words,
        )
    }
}

proof fn lemma_summed_grows(rows: Seq<Wer>, i: int)
    requires
        0 <= i <= rows.len(),
    ensures
        0 <= summed(rows.take(i)).0 <= summed(rows).0,
        0 <= summed(rows.take(i)).1 <= summed(rows).1,
        0 <= summed(rows.take(i)).2 <= summed(rows).2,
        0 <= summed(rows.take(i)).3 <= summed(rows).3,
    decreases rows.len(),
{
    if i == rows.len() {
        assert(rows.take(i) == rows);
        if i > 0 {
            lemma_summed_grows(rows.drop_last(), i - 1);
        }
    } else {
        lemma_summed_grows(rows.drop_last(), i);
        assert(rows.drop_last().take(i) == rows.take(i));
    }
}

/// The score of several recordings together. Its rate goes by the summed counts,
/// not by the average of the rates, so a short recording cannot outvote a long
/// one.
pub fn total(rows: &[Wer]) -> (r: Wer)
    requires
        summed(rows@).0 <= usize::MAX,
        summed(rows@).1 <= usize::MAX,
        summed(rows@).2 <= usize::MAX,
        summed(rows@).3 <= usize::MAX,
    ensures
        (
            r.substitutions as int,
            r.insertions as int,
            r.deletions as int,
            r.reference_words as int,
        ) == summed(rows@),
{
    let mut t: Wer = Wer { substitutions: 0, insertions: 0, deletions: 0, reference_words: 0 };
    let mut i: usize = 0;
    proof {
        assert(rows@.take(0) == Seq::<Wer>::empty());
    }
    while i < rows.len()
        invariant
            summed(rows@).0 <= usize::MAX,
            summed(rows@).1 <= usize::MAX,
            summed(rows@).2 <= usize::MAX,
            summed(rows@).3 <= usize::MAX,
            i <= rows@.len(),
            t.substitutions == summed(rows@.take(i as int)).0,
            t.insertions == summed(rows@.take(i as int)).1,
            t.deletions == summed(rows@.take(i as int)).2,
            t.reference_words == summed(rows@.take(i as int)).3,
        decreases rows@.len() - i,
    {
        let w: Wer = rows[i];
        proof {
            assert(rows@.take(i + 1).drop_last() == rows@.take(i as int));
            assert(rows@.take(i + 1).last() == w);
            lemma_summed_grows(rows@, i + 1);
        }
        t = Wer {
            substitutions: t.substitutions + w.substitutions,
            insertions: t.insertions + w.insertions,
            deletions: t.deletions + w.deletions,
            reference_words: t.reference_words + w.reference_words,
        };
        i = i + 1;
    }
    proof {
        assert(rows@.take(rows@.len() as int) == rows@);
    }
    t
}

/// A word is cleaned character by character: a letter, a digit or an apostrophe of
/// either kind is kept, lowered, and everything else goes.
pub proof fn words_are_cleaned_by_character(a: Seq<char>, c: char, b: Seq<char>)
    ensures
        cleaned(Seq::<char>::empty()) == Seq::<char>::empty(),
        cleaned(a + b) == cleaned(a) + cleaned(b),
        c == '\u{2019}' ==> cleaned(seq![c]) == text::lowercase('\''),
        c != '\u{2019}' && (text::alphanumeric(c) || c == '\'') ==> cleaned(seq![c])
            == text::lowercase(c),
        c != '\u{2019}' && !text::alphanumeric(c) && c != '\'' ==> cleaned(seq![c]) == Seq::<
            char,
        >::empty(),
    decreases b.len(),
{
    assert(seq![c].drop_last() == Seq::<char>::empty());
    assert(cleaned(Seq::<char>::empty()) == Seq::<char>::empty());
    assert(Seq::<char>::empty() + text::lowercase(fold(c)) == text::lowercase(fold(c)));
    assert(Seq::<char>::empty() + Seq::<char>::empty() == Seq::<char>::empty());
    assert(cleaned(seq![c]) == (if text::alphanumeric(fold(c)) || fold(c) == '\'' {
        text::lowercase(fold(c))
    } else {
        Seq::<char>::empty()
    }));
    if b.len() == 0 {
        assert(a + b == a);
        assert(cleaned(a) + cleaned(b) == cleaned(a));
    } else {
        words_are_cleaned_by_character(a, c, b.drop_last());
        assert((a + b).drop_last() == a + b.drop_last());
        let d = fold(b.last());
        let last = if text::alphanumeric(d) || d == '\'' {
            text::lowercase(d)
        } else {
            Seq::<char>::empty()
        };
        assert(cleaned(a) + cleaned(b.drop_last()) + last == cleaned(a) + (cleaned(b.drop_last())
            + last));
    }
}

/// A plain word keeps its ASCII letters, lowered, its digits and its apostrophes, in
/// order.
pub proof fn plain_words_keep_letters_digits_and_apostrophes(word: Seq<char>)
    ensures
        plain_cleaned(word) == word.map_values(
            |c: char|
                if c == '\u{2019}' {
                    '\''
                } else {
                    c
                },
        ).filter(
            |c: char| 'a' <= c <= 'z' || 'A' <= c <= 'Z' || '0' <= c <= '9' || c == '\'',
        ).map_values(|c: char| text::ascii_lower(c)),
    decreases word.len(),
{
    reveal(Seq::filter);
    let f = |c: char|
        if c == '\u{2019}' {
            '\''
        } else {
            c
        };
    let p = |c: char| 'a' <= c <= 'z' || 'A' <= c <= 'Z' || '0' <= c <= '9' || c == '\'';
    let g = |c: char| text::ascii_lower(c);
    let m = word.map_values(f);
    if word.len() > 0 {
        let front = word.drop_last();
        plain_words_keep_letters_digits_and_apostrophes(front);
        assert(m.drop_last() == front.map_values(f));
        assert(m.last() == fold(word.last()));
        let kept = m.drop_last().filter(p);
        if p(m.last()) {
            assert(kept.push(m.last()).map_values(g) == kept.map_values(g).push(g(m.last())));
        }
    } else {
        assert(m == Seq::<char>::empty());
        assert(Seq::<char>::empty().map_values(g) == Seq::<char>::empty());
    }
}

/// Normalising cleans every word and leaves out the ones nothing is left of, in
/// order.
pub proof fn every_word_is_cleaned(ws: Seq<Seq<char>>)
    ensures
        normalised(ws) == ws.map_values(|w: Seq<char>| cleaned(w)).filter(
            |w: Seq<char>| w.len() > 0,
        ),
        plain_normalised(ws) == ws.map_values(|w: Seq<char>| plain_cleaned(w)).filter(
            |w: Seq<char>| w.len() > 0,
        ),
    decreases ws.len(),
{
    reveal(Seq::filter);
    let f = |w: Seq<char>| cleaned(w);
    let g = |w: Seq<char>| plain_cleaned(w);
    if ws.len() > 0 {
        every_word_is_cleaned(ws.drop_last());
        assert(ws.map_values(f).drop_last() == ws.drop_last().map_values(f));
        assert(ws.map_values(g).drop_last() == ws.drop_last().map_values(g));
    } else {
        assert(ws.map_values(f) == Seq::<Seq<char>>::empty());
        assert(ws.map_values(g) == Seq::<Seq<char>>::empty());
    }
}

/// How many reference words the first steps take.
pub open spec fn taken_left(steps: Seq<Step>) -> int {
    steps.filter(|s: Step| s != Step::Insert).len() as int
}

/// How many hypothesis words the first steps take.
pub open spec fn taken_right(steps: Seq<Step>) -> int {
    steps.filter(|s: Step| s != Step::Delete).len() as int
}

/// The steps that set a word against a different one.
pub open spec fn substitutes(a: Seq<Seq<char>>, b: Seq<Seq<char>>, steps: Seq<Step>) -> Set<int> {
    Set::new(
        |p: int|
            0 <= p < steps.len() && steps[p] == Step::Pair && a[taken_left(steps.take(p))]
                != b[taken_right(steps.take(p))],
    )
}

/// What an alignment charges is what it does: one for every word deleted, one for
/// every word inserted, and one for every word set against a different one. The steps
/// take all the words of either side.
pub proof fn an_alignment_charges_what_it_does(
    a: Seq<Seq<char>>,
    b: Seq<Seq<char>>,
    steps: Seq<Step>,
    i: nat,
    j: nat,
)
    requires
        aligns(steps, i, j),
    ensures
        taken_left(steps) == i,
        taken_right(steps) == j,
        substitutes(a, b, steps).finite(),
        charged(a, b, steps, i, j).deletions == steps.filter(|s: Step| s == Step::Delete).len(),
        charged(a, b, steps, i, j).insertions == steps.filter(|s: Step| s == Step::Insert).len(),
        charged(a, b, steps, i, j).substitutions == substitutes(a, b, steps).len(),
    decreases steps.len(),
{
    reveal(Seq::filter);
    let now = substitutes(a, b, steps);
    if steps.len() == 0 {
        assert(now == Set::<int>::empty());
    } else {
        let front = steps.drop_last();
        let n = steps.len() - 1;
        let was = substitutes(a, b, front);
        match steps.last() {
            Step::Pair => {
                an_alignment_charges_what_it_does(a, b, front, (i - 1) as nat, (j - 1) as nat);
            },
            Step::Delete => {
                an_alignment_charges_what_it_does(a, b, front, (i - 1) as nat, j);
            },
            Step::Insert => {
                an_alignment_charges_what_it_does(a, b, front, i, (j - 1) as nat);
            },
        }
        assert(steps.take(n) == front);
        assert forall|p: int| p != n implies now.contains(p) == was.contains(p) by {
            if 0 <= p < n {
                assert(front.take(p) == steps.take(p));
                assert(front[p] == steps[p]);
            }
        }
        assert(!was.contains(n));
        if now.contains(n) {
            assert(now == was.insert(n));
        } else {
            assert(now == was);
        }
    }
}

/// How soon a step is preferred.
pub open spec fn rank(s: Step) -> int {
    match s {
        Step::Pair => 0,
        Step::Delete => 1,
        Step::Insert => 2,
    }
}

/// Of the alignments that charge least, the one reported pairs words from the end
/// wherever it can, deletes where it cannot, and inserts only where it must; what
/// comes before its last step is again the one that would be reported.
pub proof fn pairs_then_deletions_are_preferred(
    a: Seq<Seq<char>>,
    b: Seq<Seq<char>>,
    steps: Seq<Step>,
    i: nat,
    j: nat,
)
    requires
        steps.len() > 0,
        aligns(steps, i, j),
        charged(a, b, steps, i, j).total() == distance(a, b, i, j),
    ensures
        ({
            let best = preferred(a, b, i, j);
            &&& best.len() > 0
            &&& rank(best.last()) <= rank(steps.last())
            &&& best.last() == Step::Pair ==> best.drop_last() == preferred(
                a,
                b,
                (i - 1) as nat,
                (j - 1) as nat,
            )
            &&& best.last() == Step::Delete ==> best.drop_last() == preferred(
                a,
                b,
                (i - 1) as nat,
                j,
            )
            &&& best.last() == Step::Insert ==> best.drop_last() == preferred(
                a,
                b,
                i,
                (j - 1) as nat,
            )
        }),
{
    let front = steps.drop_last();
    let best = preferred(a, b, i, j);
    match steps.last() {
        Step::Pair => {
            lemma_no_alignment_beats(a, b, front, (i - 1) as nat, (j - 1) as nat);
        },
        Step::Delete => {
            lemma_no_alignment_beats(a, b, front, (i - 1) as nat, j);
        },
        Step::Insert => {
            lemma_no_alignment_beats(a, b, front, i, (j - 1) as nat);
        },
    }
    if i > 0 && j > 0 {
        let x = preferred(a, b, (i - 1) as nat, (j - 1) as nat);
        assert(x.push(Step::Pair).drop_last() == x);
    }
    if i > 0 {
        let x = preferred(a, b, (i - 1) as nat, j);
        assert(x.push(Step::Delete).drop_last() == x);
    }
    if j > 0 {
        let x = preferred(a, b, i, (j - 1) as nat);
        assert(x.push(Step::Insert).drop_last() == x);
    }
}

/// Scores add up count by count, however they are divided.
pub proof fn scores_add_up(x: Seq<Wer>, w: Wer, y: Seq<Wer>)
    ensures
        summed(Seq::<Wer>::empty()) == (0int, 0int, 0int, 0int),
        summed(seq![w]) == (
            w.substitutions as int,
            w.insertions as int,
            w.deletions as int,
            w.reference_words as int,
        ),
        summed(x + y) == (
            summed(x).0 + summed(y).0,
            summed(x).1 + summed(y).1,
            summed(x).2 + summed(y).2,
            summed(x).3 + summed(y).3,
        ),
    decreases y.len(),
{
    assert(seq![w].drop_last() == Seq::<Wer>::empty());
    assert(summed(Seq::<Wer>::empty()) == (0int, 0int, 0int, 0int));
    assert(seq![w].last() == w);
    if y.len() == 0 {
        assert(x + y == x);
    } else {
        scores_add_up(x, w, y.drop_last());
        assert((x + y).drop_last() == x + y.drop_last());
    }
}

} // verus!
