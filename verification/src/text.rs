//! Text as sequences of characters: the handful of string operations the rest
//! of the library is stated in.

use vstd::prelude::*;

verus! {

/// `str::eq`: two string slices are equal exactly when they hold the same
/// characters.
pub assume_specification[ <str as PartialEq<str>>::eq ](a: &str, b: &str) -> (r: bool)
    ensures
        r == (a@ == b@),
;

/// `String::push`: appends one character and changes nothing before it.
pub assume_specification[ String::push ](s: &mut String, c: char)
    ensures
        final(s)@ == old(s)@.push(c),
;

/// Two strings compared for equality.
pub fn same_str(a: &str, b: &str) -> (r: bool)
    ensures
        r == (a@ == b@),
{
    *a == *b
}

/// What `char::is_alphanumeric` answers for a character.
pub uninterp spec fn alphanumeric(c: char) -> bool;

/// What `char::to_lowercase` yields for a character.
pub uninterp spec fn lowercase(c: char) -> Seq<char>;

pub open spec fn ascii_letter_or_digit(c: char) -> bool {
    ||| 'a' <= c <= 'z'
    ||| 'A' <= c <= 'Z'
    ||| '0' <= c <= '9'
}

pub open spec fn ascii_lower(c: char) -> char {
    if 'A' <= c <= 'Z' {
        ((c as u32 + 32) as u32) as char
    } else {
        c
    }
}

/// `char::is_alphanumeric`: Unicode's letters and numbers. The answer is named
/// [`alphanumeric`]; below U+0080 it is the ASCII letters and digits.
pub assume_specification[ char::is_alphanumeric ](c: char) -> (r: bool)
    ensures
        r == alphanumeric(c),
        (c as u32) < 0x80 ==> r == ascii_letter_or_digit(c),
;

/// `char::to_lowercase`: the one or more characters a character lowers to. The
/// result is named [`lowercase`]; below U+0080 it is the ASCII mapping alone.
#[verifier::external_body]
pub(crate) fn lower(c: char) -> (r: Vec<char>)
    ensures
        r@ == lowercase(c),
        (c as u32) < 0x80 ==> r@ == seq![ascii_lower(c)],
{
    c.to_lowercase().collect()
}

/// What `str::to_lowercase` gives for a string.
pub uninterp spec fn lowercased(s: Seq<char>) -> Seq<char>;

/// `str::to_lowercase`: the lowercase equivalent of a whole string. The result
/// is named [`lowercased`]; of an ASCII string it is the ASCII mapping.
#[verifier::external_body]
pub(crate) fn string_lower(s: &str) -> (r: String)
    ensures
        r@ == lowercased(s@),
        (forall|i: int| 0 <= i < s@.len() ==> (#[trigger] s@[i] as u32) < 0x80) ==> r@
            == s@.map_values(|c: char| ascii_lower(c)),
{
    s.to_lowercase()
}

/// Unicode's `White_Space` property.
pub open spec fn white_space(c: char) -> bool {
    let n = c as u32;
    ||| 0x09 <= n <= 0x0D
    ||| n == 0x20
    ||| n == 0x85
    ||| n == 0xA0
    ||| n == 0x1680
    ||| 0x2000 <= n <= 0x200A
    ||| n == 0x2028
    ||| n == 0x2029
    ||| n == 0x202F
    ||| n == 0x205F
    ||| n == 0x3000
}

pub fn is_white_space(c: char) -> (r: bool)
    ensures
        r == white_space(c),
{
    let n: u32 = c as u32;
    (0x09 <= n && n <= 0x0D) || n == 0x20 || n == 0x85 || n == 0xA0 || n == 0x1680 || (0x2000 <= n
        && n <= 0x200A) || n == 0x2028 || n == 0x2029 || n == 0x202F || n == 0x205F || n == 0x3000
}

/// An optional string as plain characters.
pub open spec fn opt(s: Option<String>) -> Option<Seq<char>> {
    match s {
        Some(x) => Some(x@),
        None => None,
    }
}

/// An optional string slice as plain characters.
pub open spec fn opt_str(s: Option<&str>) -> Option<Seq<char>> {
    match s {
        Some(x) => Some(x@),
        None => None,
    }
}

/// The characters of each string, in order.
pub open spec fn views(v: Seq<String>) -> Seq<Seq<char>> {
    v.map_values(|s: String| s@)
}

/// The characters of each vector, in order.
pub open spec fn seqs(v: Seq<Vec<char>>) -> Seq<Seq<char>> {
    v.map_values(|s: Vec<char>| s@)
}

pub fn chars_of(s: &str) -> (r: Vec<char>)
    ensures
        r@ == s@,
{
    let mut out: Vec<char> = Vec::new();
    for c in it: s.chars()
        invariant
            out@ == it.seq().take(it.index()),
            it.seq() == s@,
    {
        out.push(c);
    }
    out
}

pub fn string_of(v: &[char]) -> (r: String)
    ensures
        r@ == v@,
{
    let mut out: String = String::new();
    let mut i: usize = 0;
    while i < v.len()
        invariant
            i <= v.len(),
            out@ == v@.take(i as int),
        decreases v.len() - i,
    {
        out.push(v[i]);
        i = i + 1;
        proof {
            assert(v@.take(i as int) == v@.take(i - 1).push(v@[i - 1]));
        }
    }
    proof {
        assert(v@.take(v@.len() as int) == v@);
    }
    out
}

/// How many characters at the front of `s` are not white space.
pub open spec fn word_len(s: Seq<char>) -> nat
    decreases s.len(),
{
    if s.len() == 0 || white_space(s[0]) {
        0
    } else {
        1 + word_len(s.drop_first())
    }
}

/// `s` without the white space at its front.
pub open spec fn trim_start(s: Seq<char>) -> Seq<char>
    decreases s.len(),
{
    if s.len() > 0 && white_space(s[0]) {
        trim_start(s.drop_first())
    } else {
        s
    }
}

/// `s` without the white space at its end.
pub open spec fn trim_end(s: Seq<char>) -> Seq<char>
    decreases s.len(),
{
    if s.len() > 0 && white_space(s.last()) {
        trim_end(s.drop_last())
    } else {
        s
    }
}

pub open spec fn trim(s: Seq<char>) -> Seq<char> {
    trim_end(trim_start(s))
}

pub proof fn lemma_word_len(s: Seq<char>)
    ensures
        word_len(s) <= s.len(),
        forall|i: int| 0 <= i < word_len(s) ==> !white_space(#[trigger] s[i]),
        word_len(s) < s.len() ==> white_space(s[word_len(s) as int]),
    decreases s.len(),
{
    if s.len() == 0 || white_space(s[0]) {
    } else {
        lemma_word_len(s.drop_first());
        assert forall|i: int| 0 <= i < word_len(s) implies !white_space(#[trigger] s[i]) by {
            if i > 0 {
                assert(s[i] == s.drop_first()[i - 1]);
            }
        }
    }
}

pub proof fn lemma_trim_start_len(s: Seq<char>)
    ensures
        trim_start(s).len() <= s.len(),
        trim_start(s).len() > 0 ==> !white_space(trim_start(s)[0]),
    decreases s.len(),
{
    if s.len() > 0 && white_space(s[0]) {
        lemma_trim_start_len(s.drop_first());
    }
}

/// The maximal runs of non-white-space characters, in order.
pub open spec fn words(s: Seq<char>) -> Seq<Seq<char>>
    decreases s.len(),
{
    let t = trim_start(s);
    let k = word_len(t);
    if t.len() == 0 || k == 0 {
        Seq::empty()
    } else {
        proof {
            lemma_trim_start_len(s);
            lemma_word_len(t);
        }
        seq![t.take(k as int)] + words(t.skip(k as int))
    }
}

proof fn lemma_trim_start_skip(s: Seq<char>, i: int)
    requires
        0 <= i < s.len(),
        white_space(s[i]),
    ensures
        trim_start(s.skip(i)) == trim_start(s.skip(i + 1)),
{
    assert(s.skip(i).drop_first() == s.skip(i + 1));
}

proof fn lemma_word_len_is(s: Seq<char>, k: nat)
    requires
        k <= s.len(),
        forall|i: int| 0 <= i < k ==> !white_space(#[trigger] s[i]),
        k < s.len() ==> white_space(s[k as int]),
    ensures
        word_len(s) == k,
{
    lemma_word_len(s);
    if word_len(s) < k {
        assert(!white_space(s[word_len(s) as int]));
    }
}

/// The words of `s`, as [`words`] divides it.
pub fn split_words(s: &[char]) -> (r: Vec<Vec<char>>)
    ensures
        seqs(r@) == words(s@),
{
    let mut out: Vec<Vec<char>> = Vec::new();
    let mut i: usize = 0;
    proof {
        assert(s@.skip(0) == s@);
        assert(seqs(out@) + words(s@) == words(s@));
    }
    while i < s.len()
        invariant
            i <= s.len(),
            seqs(out@) + words(s@.skip(i as int)) == words(s@),
        decreases s.len() - i,
    {
        if is_white_space(s[i]) {
            proof {
                lemma_trim_start_skip(s@, i as int);
            }
            i = i + 1;
        } else {
            let start: usize = i;
            let mut word: Vec<char> = Vec::new();
            while i < s.len() && !is_white_space(s[i])
                invariant
                    start <= i <= s.len(),
                    word@ == s@.subrange(start as int, i as int),
                    forall|j: int| start <= j < i ==> !white_space(#[trigger] s@[j]),
                decreases s.len() - i,
            {
                word.push(s[i]);
                i = i + 1;
            }
            proof {
                let t = s@.skip(start as int);
                let k = (i - start) as nat;
                assert(t[0] == s@[start as int]);
                lemma_word_len_is(t, k);
                assert(t.take(k as int) == word@);
                assert(t.skip(k as int) == s@.skip(i as int));
                assert(words(t) == seq![word@] + words(s@.skip(i as int)));
                assert(seqs(out@.push(word)) == seqs(out@) + seq![word@]);
                assert(seqs(out@) + (seq![word@] + words(s@.skip(i as int))) == seqs(
                    out@.push(word),
                ) + words(s@.skip(i as int)));
            }
            out.push(word);
        }
    }
    proof {
        assert(s@.skip(s@.len() as int) == Seq::<char>::empty());
        assert(words(s@.skip(i as int)) == Seq::<Seq<char>>::empty());
        assert(seqs(out@) + Seq::<Seq<char>>::empty() == seqs(out@));
    }
    out
}

proof fn lemma_trim_start_is(s: Seq<char>, k: nat)
    requires
        k <= s.len(),
        forall|i: int| 0 <= i < k ==> white_space(#[trigger] s[i]),
        k < s.len() ==> !white_space(s[k as int]),
    ensures
        trim_start(s) == s.skip(k as int),
    decreases k,
{
    if k == 0 {
        assert(s.skip(0) == s);
    } else {
        let t = s.drop_first();
        assert forall|i: int| 0 <= i < k - 1 implies white_space(#[trigger] t[i]) by {
            assert(t[i] == s[i + 1]);
        }
        assert(white_space(s[0]));
        lemma_trim_start_is(t, (k - 1) as nat);
        assert(t.skip(k - 1) == s.skip(k as int));
    }
}

proof fn lemma_trim_end_is(s: Seq<char>, k: nat)
    requires
        k <= s.len(),
        forall|i: int| k <= i < s.len() ==> white_space(#[trigger] s[i]),
        k > 0 ==> !white_space(s[k - 1]),
    ensures
        trim_end(s) == s.take(k as int),
    decreases s.len() - k,
{
    if k == s.len() {
        assert(s.take(k as int) == s);
    } else {
        let t = s.drop_last();
        assert(white_space(s[s.len() - 1]));
        assert forall|i: int| k <= i < t.len() implies white_space(#[trigger] t[i]) by {
            assert(t[i] == s[i]);
        }
        lemma_trim_end_is(t, k);
        assert(t.take(k as int) == s.take(k as int));
    }
}

/// `s` without the white space at either end.
pub fn trimmed(s: &[char]) -> (r: Vec<char>)
    ensures
        r@ == trim(s@),
{
    let n: usize = s.len();
    let mut from: usize = 0;
    while from < n && is_white_space(s[from])
        invariant
            from <= n,
            n == s@.len(),
            forall|i: int| 0 <= i < from ==> white_space(#[trigger] s@[i]),
        decreases n - from,
    {
        from = from + 1;
    }
    let mut to: usize = n;
    while to > from && is_white_space(s[to - 1])
        invariant
            from <= to <= n,
            n == s@.len(),
            forall|i: int| to <= i < n ==> white_space(#[trigger] s@[i]),
        decreases to - from,
    {
        to = to - 1;
    }
    proof {
        lemma_trim_start_is(s@, from as nat);
        let t = s@.skip(from as int);
        assert forall|i: int| to - from <= i < t.len() implies white_space(#[trigger] t[i]) by {
            assert(t[i] == s@[i + from]);
        }
        lemma_trim_end_is(t, (to - from) as nat);
        assert(t.take(to - from) == s@.subrange(from as int, to as int));
    }
    part(s, from, to)
}

/// A copy of `s[from..to]`.
pub fn part(s: &[char], from: usize, to: usize) -> (r: Vec<char>)
    requires
        from <= to <= s@.len(),
    ensures
        r@ == s@.subrange(from as int, to as int),
{
    let mut out: Vec<char> = Vec::new();
    let mut i: usize = from;
    while i < to
        invariant
            from <= i <= to <= s@.len(),
            out@ == s@.subrange(from as int, i as int),
        decreases to - i,
    {
        out.push(s[i]);
        i = i + 1;
    }
    out
}

/// How many characters at the front of `s` are not `stop`.
pub open spec fn run_len(s: Seq<char>, stop: char) -> nat
    decreases s.len(),
{
    if s.len() == 0 || s[0] == stop {
        0
    } else {
        1 + run_len(s.drop_first(), stop)
    }
}

pub proof fn lemma_run_len(s: Seq<char>, stop: char)
    ensures
        run_len(s, stop) <= s.len(),
        forall|i: int| 0 <= i < run_len(s, stop) ==> #[trigger] s[i] != stop,
        run_len(s, stop) < s.len() ==> s[run_len(s, stop) as int] == stop,
    decreases s.len(),
{
    if s.len() > 0 && s[0] != stop {
        lemma_run_len(s.drop_first(), stop);
        assert forall|i: int| 0 <= i < run_len(s, stop) implies #[trigger] s[i] != stop by {
            if i > 0 {
                assert(s[i] == s.drop_first()[i - 1]);
            }
        }
    }
}

pub proof fn lemma_run_len_is(s: Seq<char>, stop: char, k: nat)
    requires
        k <= s.len(),
        forall|i: int| 0 <= i < k ==> #[trigger] s[i] != stop,
        k < s.len() ==> s[k as int] == stop,
    ensures
        run_len(s, stop) == k,
{
    lemma_run_len(s, stop);
    if run_len(s, stop) < k {
        assert(s[run_len(s, stop) as int] != stop);
    }
}

/// `s` without one carriage return at its end.
pub open spec fn chomp(s: Seq<char>) -> Seq<char> {
    if s.len() > 0 && s.last() == '\r' {
        s.drop_last()
    } else {
        s
    }
}

/// The lines of `s`: split at every newline, the newline and a carriage return
/// right before it left out, and no empty line after a final newline.
pub open spec fn lines(s: Seq<char>) -> Seq<Seq<char>>
    decreases s.len(),
{
    let k = run_len(s, '\n');
    if s.len() == 0 {
        Seq::empty()
    } else if k >= s.len() {
        seq![s]
    } else {
        seq![chomp(s.take(k as int))] + lines(s.skip(k as int + 1))
    }
}

/// The lines of `s`, as [`lines`] divides it.
pub fn split_lines(s: &[char]) -> (r: Vec<Vec<char>>)
    ensures
        seqs(r@) == lines(s@),
{
    let n: usize = s.len();
    let mut out: Vec<Vec<char>> = Vec::new();
    let mut i: usize = 0;
    proof {
        assert(s@.skip(0) == s@);
        assert(seqs(out@) + lines(s@) == lines(s@));
    }
    while i < n
        invariant
            n == s@.len(),
            i <= n,
            seqs(out@) + lines(s@.skip(i as int)) == lines(s@),
        decreases n - i,
    {
        let start: usize = i;
        let ghost t = s@.skip(start as int);
        while i < n && s[i] != '\n'
            invariant
                n == s@.len(),
                start <= i <= n,
                forall|j: int| start <= j < i ==> #[trigger] s@[j] != '\n',
            decreases n - i,
        {
            i = i + 1;
        }
        proof {
            assert forall|j: int| 0 <= j < i - start implies #[trigger] t[j] != '\n' by {
                assert(t[j] == s@[j + start]);
            }
            lemma_run_len_is(t, '\n', (i - start) as nat);
        }
        let ended: bool = i < n;
        let stop: usize = if ended && i > start && s[i - 1] == '\r' {
            i - 1
        } else {
            i
        };
        let line: Vec<char> = part(s, start, stop);
        if ended {
            i = i + 1;
        }
        proof {
            if ended {
                assert(t.skip(i - start) == s@.skip(i as int));
                assert(t.take(i - 1 - start) == s@.subrange(start as int, i - 1));
                assert(line@ == chomp(t.take(i - 1 - start)));
                assert(lines(t) == seq![line@] + lines(s@.skip(i as int)));
            } else {
                assert(line@ == t);
                assert(s@.skip(i as int) == Seq::<char>::empty());
                assert(lines(t) == seq![line@] + lines(s@.skip(i as int)));
            }
            assert(seqs(out@.push(line)) == seqs(out@) + seq![line@]);
            assert(seqs(out@) + (seq![line@] + lines(s@.skip(i as int))) == seqs(out@.push(line))
                + lines(s@.skip(i as int)));
        }
        out.push(line);
    }
    proof {
        assert(s@.skip(n as int) == Seq::<char>::empty());
        assert(seqs(out@) + Seq::<Seq<char>>::empty() == seqs(out@));
    }
    out
}

/// `s` begins with `prefix`.
pub open spec fn starts_with(s: Seq<char>, prefix: Seq<char>) -> bool {
    prefix.len() <= s.len() && s.take(prefix.len() as int) == prefix
}

pub fn has_prefix(s: &[char], prefix: &[char]) -> (r: bool)
    ensures
        r == starts_with(s@, prefix@),
{
    if prefix.len() > s.len() {
        return false;
    }
    let mut i: usize = 0;
    while i < prefix.len()
        invariant
            i <= prefix@.len() <= s@.len(),
            forall|j: int| 0 <= j < i ==> #[trigger] s@[j] == prefix@[j],
        decreases prefix@.len() - i,
    {
        if s[i] != prefix[i] {
            proof {
                assert(s@.take(prefix@.len() as int)[i as int] != prefix@[i as int]);
            }
            return false;
        }
        i = i + 1;
    }
    proof {
        assert(s@.take(prefix@.len() as int) == prefix@);
    }
    true
}

/// Two character sequences compared for equality.
pub fn same(a: &[char], b: &[char]) -> (r: bool)
    ensures
        r == (a@ == b@),
{
    if a.len() != b.len() {
        return false;
    }
    let mut i: usize = 0;
    while i < a.len()
        invariant
            i <= a@.len() == b@.len(),
            forall|j: int| 0 <= j < i ==> #[trigger] a@[j] == b@[j],
        decreases a@.len() - i,
    {
        if a[i] != b[i] {
            return false;
        }
        i = i + 1;
    }
    proof {
        assert(a@ == b@);
    }
    true
}

/// Dictionary order by code point: `a` comes strictly before `b`. It is the
/// order of the two strings' UTF-8 bytes.
pub open spec fn before(a: Seq<char>, b: Seq<char>) -> bool
    decreases a.len(),
{
    if b.len() == 0 {
        false
    } else if a.len() == 0 {
        true
    } else {
        a[0] < b[0] || (a[0] == b[0] && before(a.drop_first(), b.drop_first()))
    }
}

pub proof fn lemma_before_total(a: Seq<char>, b: Seq<char>)
    ensures
        before(a, b) || before(b, a) || a == b,
        !(before(a, b) && before(b, a)),
    decreases a.len() + b.len(),
{
    if a.len() > 0 && b.len() > 0 {
        lemma_before_total(a.drop_first(), b.drop_first());
        if a.drop_first() == b.drop_first() && a[0] == b[0] {
            assert(a == seq![a[0]] + a.drop_first());
            assert(b == seq![b[0]] + b.drop_first());
        }
    } else {
        if a.len() == 0 && b.len() == 0 {
            assert(a == b);
        }
    }
}

pub proof fn lemma_before_trans(a: Seq<char>, b: Seq<char>, c: Seq<char>)
    requires
        before(a, b),
        before(b, c),
    ensures
        before(a, c),
    decreases a.len(),
{
    if a.len() > 0 {
        if a[0] == b[0] && b[0] == c[0] {
            lemma_before_trans(a.drop_first(), b.drop_first(), c.drop_first());
        }
    }
}

pub proof fn lemma_before_at(a: Seq<char>, b: Seq<char>, k: int)
    requires
        0 <= k <= a.len(),
        k <= b.len(),
        forall|j: int| 0 <= j < k ==> #[trigger] a[j] == b[j],
    ensures
        before(a, b) == before(a.skip(k), b.skip(k)),
    decreases k,
{
    if k == 0 {
        assert(a.skip(0) == a);
        assert(b.skip(0) == b);
    } else {
        let x = a.drop_first();
        let y = b.drop_first();
        assert forall|j: int| 0 <= j < k - 1 implies #[trigger] x[j] == y[j] by {
            assert(x[j] == a[j + 1] && y[j] == b[j + 1]);
        }
        lemma_before_at(x, y, k - 1);
        assert(a[0] == b[0]);
        assert(x.skip(k - 1) == a.skip(k));
        assert(y.skip(k - 1) == b.skip(k));
    }
}

pub fn comes_before(a: &[char], b: &[char]) -> (r: bool)
    ensures
        r == before(a@, b@),
{
    let mut i: usize = 0;
    while i < a.len() && i < b.len() && a[i] == b[i]
        invariant
            i <= a@.len(),
            i <= b@.len(),
            forall|j: int| 0 <= j < i ==> #[trigger] a@[j] == b@[j],
        decreases a@.len() - i,
    {
        i = i + 1;
    }
    proof {
        lemma_before_at(a@, b@, i as int);
    }
    if i >= b.len() {
        false
    } else if i >= a.len() {
        true
    } else {
        let x: char = a[i];
        let y: char = b[i];
        proof {
            assert(a@.skip(i as int)[0] == x);
            assert(b@.skip(i as int)[0] == y);
        }
        x < y
    }
}

pub fn string_before(a: &str, b: &str) -> (r: bool)
    ensures
        r == before(a@, b@),
{
    let x: Vec<char> = chars_of(a);
    let y: Vec<char> = chars_of(b);
    comes_before(x.as_slice(), y.as_slice())
}

pub open spec fn digit(d: nat) -> char {
    (('0' as u32 + d) as u32) as char
}

/// A number in decimal, without leading zeros.
pub open spec fn decimal(n: nat) -> Seq<char>
    decreases n,
{
    if n < 10 {
        seq![digit(n)]
    } else {
        decimal(n / 10).push(digit(n % 10))
    }
}

/// A digit as a character.
fn digit_char(d: u64) -> (c: char)
    requires
        d < 10,
    ensures
        c == digit(d as nat),
{
    let b: u8 = 48u8 + d as u8;
    b as char
}

pub fn decimal_chars(n: u64) -> (r: Vec<char>)
    ensures
        r@ == decimal(n as nat),
    decreases n,
{
    if n < 10 {
        let mut out: Vec<char> = Vec::new();
        out.push(digit_char(n));
        proof {
            assert(out@ == decimal(n as nat));
        }
        out
    } else {
        let mut out: Vec<char> = decimal_chars(n / 10);
        out.push(digit_char(n % 10));
        out
    }
}

/// `s` with zeros in front, up to `width` characters.
pub open spec fn zero_padded(s: Seq<char>, width: nat) -> Seq<char>
    decreases width - s.len(),
{
    if s.len() >= width {
        s
    } else {
        zero_padded(seq!['0'] + s, width)
    }
}

pub fn decimal_string(n: u64) -> (r: String)
    ensures
        r@ == decimal(n as nat),
{
    let c: Vec<char> = decimal_chars(n);
    string_of(c.as_slice())
}

/// `n` in decimal, with zeros in front up to `width` characters.
pub fn padded_string(n: u64, width: usize) -> (r: String)
    ensures
        r@ == zero_padded(decimal(n as nat), width as nat),
{
    let mut c: Vec<char> = decimal_chars(n);
    while c.len() < width
        invariant
            zero_padded(c@, width as nat) == zero_padded(decimal(n as nat), width as nat),
        decreases width - c.len(),
    {
        let ghost was = c@;
        c.insert(0, '0');
        proof {
            assert(c@ == seq!['0'] + was);
        }
    }
    string_of(c.as_slice())
}

/// `x` put in its place in an ordered list, once.
pub open spec fn ordered_insert(list: Seq<Seq<char>>, x: Seq<char>) -> Seq<Seq<char>>
    decreases list.len(),
{
    if list.len() == 0 {
        seq![x]
    } else if list.last() == x {
        list
    } else if before(list.last(), x) {
        list.push(x)
    } else {
        ordered_insert(list.drop_last(), x).push(list.last())
    }
}

pub open spec fn strictly_ordered(list: Seq<Seq<char>>) -> bool {
    forall|i: int, j: int|
        0 <= i < j < list.len() ==> before(#[trigger] list[i], #[trigger] list[j])
}

pub proof fn lemma_ordered_insert(list: Seq<Seq<char>>, x: Seq<char>)
    requires
        strictly_ordered(list),
    ensures
        strictly_ordered(ordered_insert(list, x)),
        ordered_insert(list, x).contains(x),
        forall|y: Seq<char>|
            ordered_insert(list, x).contains(y) <==> (#[trigger] list.contains(y) || y == x),
        ordered_insert(list, x).len() <= list.len() + 1,
    decreases list.len(),
{
    let out = ordered_insert(list, x);
    if list.len() == 0 {
        assert(out[0] == x);
        assert forall|y: Seq<char>| out.contains(y) <==> (#[trigger] list.contains(y) || y == x) by {
            if out.contains(y) {
                assert(y == x);
            }
        }
    } else if list.last() == x {
        assert(list[list.len() - 1] == x);
    } else if before(list.last(), x) {
        assert forall|i: int, j: int| 0 <= i < j < out.len() implies before(
            #[trigger] out[i],
            #[trigger] out[j],
        ) by {
            if j == list.len() && i < list.len() - 1 {
                assert(before(list[i], list[list.len() - 1]));
                lemma_before_trans(list[i], list.last(), x);
            }
        }
        assert(out[list.len() as int] == x);
        assert forall|y: Seq<char>| out.contains(y) <==> (#[trigger] list.contains(y) || y == x) by {
            if list.contains(y) {
                let k = choose|k: int| 0 <= k < list.len() && list[k] == y;
                assert(out[k] == y);
            }
        }
    } else {
        let front = list.drop_last();
        let low = ordered_insert(front, x);
        lemma_ordered_insert(front, x);
        lemma_before_total(list.last(), x);
        assert forall|i: int, j: int| 0 <= i < j < out.len() implies before(
            #[trigger] out[i],
            #[trigger] out[j],
        ) by {
            if j == low.len() {
                assert(low.contains(low[i]));
                if front.contains(low[i]) {
                    let k = choose|k: int| 0 <= k < front.len() && front[k] == low[i];
                    assert(before(list[k], list[list.len() - 1]));
                }
            }
        }
        assert forall|y: Seq<char>| out.contains(y) <==> (#[trigger] list.contains(y) || y == x) by {
            if out.contains(y) {
                let k = choose|k: int| 0 <= k < out.len() && out[k] == y;
                if k < low.len() {
                    assert(low[k] == y);
                    assert(low.contains(y));
                    if front.contains(y) {
                        let m = choose|m: int| 0 <= m < front.len() && front[m] == y;
                        assert(list[m] == y);
                    }
                } else {
                    assert(list[list.len() - 1] == y);
                }
            }
            if list.contains(y) {
                let k = choose|k: int| 0 <= k < list.len() && list[k] == y;
                if k < front.len() {
                    assert(front[k] == y);
                    assert(front.contains(y));
                    let m = choose|m: int| 0 <= m < low.len() && low[m] == y;
                    assert(out[m] == y);
                } else {
                    assert(out[low.len() as int] == y);
                }
            }
            if y == x {
                let m = choose|m: int| 0 <= m < low.len() && low[m] == x;
                assert(out[m] == x);
            }
        }
        let m = choose|m: int| 0 <= m < low.len() && low[m] == x;
        assert(out[m] == x);
    }
}

proof fn lemma_ordered_insert_at(list: Seq<Seq<char>>, x: Seq<char>, k: nat)
    requires
        k <= list.len(),
        forall|i: int| k <= i < list.len() ==> before(x, #[trigger] list[i]),
        k > 0 ==> list[k - 1] == x || before(list[k - 1], x),
    ensures
        k > 0 && list[k - 1] == x ==> ordered_insert(list, x) == list,
        !(k > 0 && list[k - 1] == x) ==> ordered_insert(list, x) == list.insert(k as int, x),
    decreases list.len(),
{
    if k == list.len() {
        if list.len() > 0 {
            assert(list.last() == list[k - 1]);
        }
        assert(list.insert(k as int, x) == list.push(x));
    } else {
        let front = list.drop_last();
        lemma_before_total(list.last(), x);
        assert(before(x, list[list.len() - 1]));
        assert forall|i: int| k <= i < front.len() implies before(x, #[trigger] front[i]) by {
            assert(front[i] == list[i]);
        }
        lemma_ordered_insert_at(front, x, k);
        assert(front.push(list.last()) == list);
        assert(front.insert(k as int, x).push(list.last()) == list.insert(k as int, x));
    }
}

/// Put `x` in its place in an ordered list, once.
pub fn insert_ordered(list: &mut Vec<String>, x: &str)
    ensures
        views(final(list)@) == ordered_insert(views(old(list)@), x@),
{
    let ghost was = views(list@);
    let mut k: usize = list.len();
    while k > 0 && string_before(x, list[k - 1].as_str())
        invariant
            k <= list@.len(),
            was == views(list@),
            list@ == old(list)@,
            forall|j: int| k <= j < list@.len() ==> before(x@, #[trigger] was[j]),
        decreases k,
    {
        k = k - 1;
    }
    let present: bool = k > 0 && same_str(list[k - 1].as_str(), x);
    proof {
        if k > 0 {
            assert(was[k - 1] == list@[k - 1]@);
            lemma_before_total(was[k - 1], x@);
        }
        lemma_ordered_insert_at(was, x@, k as nat);
    }
    if !present {
        let name: String = x.to_owned();
        proof {
            assert(views(list@.insert(k as int, name)) == was.insert(k as int, x@));
        }
        list.insert(k, name);
    }
}

/// The distinct strings of a list, in dictionary order.
pub open spec fn ordered_set(list: Seq<Seq<char>>) -> Seq<Seq<char>>
    decreases list.len(),
{
    if list.len() == 0 {
        Seq::empty()
    } else {
        ordered_insert(ordered_set(list.drop_last()), list.last())
    }
}

/// The parts one after another with `sep` between them.
pub open spec fn joined(parts: Seq<Seq<char>>, sep: Seq<char>) -> Seq<char>
    decreases parts.len(),
{
    if parts.len() == 0 {
        Seq::empty()
    } else if parts.len() == 1 {
        parts[0]
    } else {
        joined(parts.drop_last(), sep) + sep + parts.last()
    }
}

proof fn lemma_joined_first(parts: Seq<Seq<char>>, sep: Seq<char>)
    requires
        parts.len() >= 2,
    ensures
        joined(parts, sep) == parts[0] + sep + joined(parts.drop_first(), sep),
    decreases parts.len(),
{
    let rest = parts.drop_first();
    if parts.len() == 2 {
        assert(joined(parts.drop_last(), sep) == parts[0]);
        assert(joined(rest, sep) == parts.last());
    } else {
        lemma_joined_first(parts.drop_last(), sep);
        assert(parts.drop_last().drop_first() == rest.drop_last());
        assert(parts.drop_last()[0] == parts[0]);
        assert(rest.last() == parts.last());
        assert(parts[0] + sep + joined(rest.drop_last(), sep) + sep + parts.last() == parts[0] + sep
            + (joined(rest.drop_last(), sep) + sep + parts.last()));
    }
}

/// A text without a newline in it.
pub open spec fn one_line(s: Seq<char>) -> bool {
    forall|i: int| 0 <= i < s.len() ==> #[trigger] s[i] != '\n'
}

/// The first `n` characters hold no newline.
pub open spec fn clear_up_to(s: Seq<char>, n: nat) -> bool
    decreases n,
{
    n == 0 || (s[n - 1] != '\n' && clear_up_to(s, (n - 1) as nat))
}

proof fn lemma_clear_up_to(s: Seq<char>, n: nat)
    requires
        clear_up_to(s, n),
    ensures
        forall|i: int| 0 <= i < n ==> #[trigger] s[i] != '\n',
    decreases n,
{
    if n > 0 {
        lemma_clear_up_to(s, (n - 1) as nat);
    }
}

pub proof fn lemma_clear(s: Seq<char>)
    requires
        clear_up_to(s, s.len()),
    ensures
        one_line(s),
{
    lemma_clear_up_to(s, s.len());
}

pub broadcast proof fn lemma_one_line_glued(a: Seq<char>, b: Seq<char>)
    requires
        one_line(a),
        one_line(b),
    ensures
        #[trigger] one_line(a + b),
{
}

pub proof fn lemma_decimal_one_line(n: nat)
    ensures
        one_line(decimal(n)),
    decreases n,
{
    if n >= 10 {
        lemma_decimal_one_line(n / 10);
    }
}

pub proof fn lemma_joined_one_line(parts: Seq<Seq<char>>, sep: Seq<char>)
    requires
        one_line(sep),
        forall|i: int| 0 <= i < parts.len() ==> one_line(#[trigger] parts[i]),
    ensures
        one_line(joined(parts, sep)),
    decreases parts.len(),
{
    broadcast use lemma_one_line_glued;

    if parts.len() > 0 {
        let front = parts.drop_last();
        assert forall|i: int| 0 <= i < front.len() implies one_line(#[trigger] front[i]) by {
            assert(front[i] == parts[i]);
        }
        lemma_joined_one_line(front, sep);
        assert(one_line(parts[0]));
        assert(one_line(parts[parts.len() - 1]));
    }
}

/// A word: some characters, none of them white space.
pub open spec fn is_word(w: Seq<char>) -> bool {
    w.len() > 0 && forall|i: int| 0 <= i < w.len() ==> !white_space(#[trigger] w[i])
}

/// The words of a text are words.
pub proof fn lemma_words_are_words(s: Seq<char>)
    ensures
        forall|i: int| 0 <= i < words(s).len() ==> is_word(#[trigger] words(s)[i]),
    decreases s.len(),
{
    let t = trim_start(s);
    let k = word_len(t);
    lemma_trim_start_len(s);
    lemma_word_len(t);
    if t.len() > 0 && k > 0 {
        let rest = t.skip(k as int);
        lemma_words_are_words(rest);
        assert forall|i: int| 0 <= i < words(s).len() implies is_word(#[trigger] words(s)[i]) by {
            if i > 0 {
                assert(words(s)[i] == words(rest)[i - 1]);
            }
        }
    }
}

/// Words set side by side with a space between them are the words of the text they
/// make.
pub proof fn lemma_words_of_joined(ws: Seq<Seq<char>>)
    requires
        forall|i: int| 0 <= i < ws.len() ==> is_word(#[trigger] ws[i]),
    ensures
        words(joined(ws, " "@)) == ws,
    decreases ws.len(),
{
    reveal_strlit(" ");
    let s = joined(ws, " "@);
    if ws.len() > 0 {
        let w = ws[0];
        let rest = ws.drop_first();
        assert(is_word(w));
        assert(!white_space(w[0]));
        if ws.len() == 1 {
            lemma_word_len_is(s, w.len());
            assert(s.take(w.len() as int) == w);
            assert(s.skip(w.len() as int) == Seq::<char>::empty());
            assert(words(Seq::<char>::empty()) == Seq::<Seq<char>>::empty());
            assert(words(s) == ws);
        } else {
            lemma_joined_first(ws, " "@);
            let tail = joined(rest, " "@);
            assert forall|i: int| 0 <= i < rest.len() implies is_word(#[trigger] rest[i]) by {
                assert(rest[i] == ws[i + 1]);
            }
            lemma_words_of_joined(rest);
            assert(s[w.len() as int] == ' ');
            lemma_word_len_is(s, w.len());
            assert(s.take(w.len() as int) == w);
            let after = s.skip(w.len() as int);
            assert(after[0] == ' ');
            assert(after.drop_first() == tail);
            assert(trim_start(after) == trim_start(tail));
            assert(words(after) == words(tail));
            assert(seq![w] + rest == ws);
        }
    }
}

pub fn join(parts: &[String], sep: &str) -> (r: String)
    ensures
        r@ == joined(views(parts@), sep@),
{
    let mut out: String = String::new();
    let mut i: usize = 0;
    let ghost all = views(parts@);
    proof {
        assert(all.take(0) == Seq::<Seq<char>>::empty());
    }
    while i < parts.len()
        invariant
            i <= parts@.len(),
            all == views(parts@),
            out@ == joined(all.take(i as int), sep@),
        decreases parts@.len() - i,
    {
        proof {
            assert(all.take(i + 1).drop_last() == all.take(i as int));
            assert(all.take(i + 1).last() == parts@[i as int]@);
            if i == 0 {
                assert(out@ + parts@[0]@ == parts@[0]@);
            }
        }
        if i > 0 {
            out.append(sep);
        }
        out.append(parts[i].as_str());
        i = i + 1;
    }
    proof {
        assert(all.take(parts@.len() as int) == all);
    }
    out
}

/// `to` before, between and after the characters of `s`.
pub open spec fn interleaved(s: Seq<char>, to: Seq<char>) -> Seq<char>
    decreases s.len(),
{
    if s.len() == 0 {
        to
    } else {
        interleaved(s.drop_last(), to).push(s.last()) + to
    }
}

/// `s` with every non-empty `from` in it, found from the left and without
/// overlap, replaced by `to`.
pub open spec fn substituted(s: Seq<char>, from: Seq<char>, to: Seq<char>) -> Seq<char>
    decreases s.len(),
{
    if from.len() == 0 || s.len() < from.len() {
        s
    } else if starts_with(s, from) {
        to + substituted(s.skip(from.len() as int), from, to)
    } else {
        seq![s[0]] + substituted(s.drop_first(), from, to)
    }
}

/// `s` with every `from` replaced by `to`. An empty `from` is found at both
/// ends and between any two characters.
pub open spec fn replaced(s: Seq<char>, from: Seq<char>, to: Seq<char>) -> Seq<char> {
    if from.len() == 0 {
        interleaved(s, to)
    } else {
        substituted(s, from, to)
    }
}

pub fn replace(s: &str, from: &str, to: &str) -> (r: String)
    ensures
        r@ == replaced(s@, from@, to@),
{
    let c: Vec<char> = chars_of(s);
    let f: Vec<char> = chars_of(from);
    let mut out: String = String::new();
    let mut i: usize = 0;
    if f.len() == 0 {
        out.append(to);
        proof {
            assert(c@.take(0) == Seq::<char>::empty());
            assert(out@ == to@);
        }
        while i < c.len()
            invariant
                i <= c@.len(),
                c@ == s@,
                out@ == interleaved(c@.take(i as int), to@),
            decreases c@.len() - i,
        {
            proof {
                assert(c@.take(i + 1).drop_last() == c@.take(i as int));
            }
            out.push(c[i]);
            out.append(to);
            i = i + 1;
        }
        proof {
            assert(c@.take(c@.len() as int) == c@);
        }
        return out;
    }
    proof {
        assert(c@.skip(0) == c@);
        assert(out@ + substituted(c@, f@, to@) == substituted(c@, f@, to@));
    }
    while i < c.len() && c.len() - i >= f.len()
        invariant
            i <= c@.len(),
            c@ == s@,
            f@ == from@,
            f@.len() > 0,
            out@ + substituted(c@.skip(i as int), f@, to@) == substituted(c@, f@, to@),
        decreases c@.len() - i,
    {
        let ghost rest = c@.skip(i as int);
        let rest_v: Vec<char> = part(c.as_slice(), i, i + f.len());
        let hit: bool = same(rest_v.as_slice(), f.as_slice());
        proof {
            assert(rest.take(f@.len() as int) == rest_v@);
            assert(rest.skip(f@.len() as int) == c@.skip(i + f@.len()));
            assert(rest.drop_first() == c@.skip(i + 1));
        }
        if hit {
            proof {
                assert(out@ + (to@ + substituted(c@.skip(i + f@.len()), f@, to@)) == (out@ + to@)
                    + substituted(c@.skip(i + f@.len()), f@, to@));
            }
            out.append(to);
            i = i + f.len();
        } else {
            proof {
                assert(out@ + (seq![rest[0]] + substituted(c@.skip(i + 1), f@, to@)) == out@.push(
                    rest[0],
                ) + substituted(c@.skip(i + 1), f@, to@));
            }
            out.push(c[i]);
            i = i + 1;
        }
    }
    let ghost rest = c@.skip(i as int);
    let ghost front = out@;
    while i < c.len()
        invariant
            i <= c@.len(),
            c@ == s@,
            front + rest == out@ + c@.skip(i as int),
        decreases c@.len() - i,
    {
        proof {
            assert(out@ + c@.skip(i as int) == out@.push(c@[i as int]) + c@.skip(i + 1));
        }
        out.push(c[i]);
        i = i + 1;
    }
    proof {
        assert(out@ + c@.skip(i as int) == out@);
    }
    out
}

/// The lines of `s` that are not blank, as a JSON-lines file divides into
/// records.
pub open spec fn records_of(ls: Seq<Seq<char>>) -> Seq<Seq<char>>
    decreases ls.len(),
{
    if ls.len() == 0 {
        Seq::empty()
    } else if trim(ls.last()).len() == 0 {
        records_of(ls.drop_last())
    } else {
        records_of(ls.drop_last()).push(ls.last())
    }
}

/// The records of a JSON-lines file: its lines, the blank ones left out.
pub fn jsonl_records(s: &str) -> (r: Vec<String>)
    ensures
        views(r@) == records_of(lines(s@)),
{
    let c: Vec<char> = chars_of(s);
    let ls: Vec<Vec<char>> = split_lines(c.as_slice());
    let ghost all = lines(s@);
    let mut out: Vec<String> = Vec::new();
    let mut i: usize = 0;
    proof {
        assert(all.take(0) == Seq::<Seq<char>>::empty());
        assert(views(out@) == Seq::<Seq<char>>::empty());
    }
    while i < ls.len()
        invariant
            i <= ls@.len(),
            seqs(ls@) == all,
            views(out@) == records_of(all.take(i as int)),
        decreases ls@.len() - i,
    {
        proof {
            assert(all.take(i + 1).drop_last() == all.take(i as int));
            assert(all.take(i + 1).last() == ls@[i as int]@);
        }
        let t: Vec<char> = trimmed(ls[i].as_slice());
        if t.len() > 0 {
            let line: String = string_of(ls[i].as_slice());
            proof {
                assert(views(out@.push(line)) == views(out@).push(line@));
            }
            out.push(line);
        }
        i = i + 1;
    }
    proof {
        assert(all.take(ls@.len() as int) == all);
    }
    out
}

/// The value of a run of decimal digits, if it is one.
pub open spec fn digits_value(s: Seq<char>) -> Option<nat>
    decreases s.len(),
{
    if s.len() == 0 {
        Some(0)
    } else {
        match digits_value(s.drop_last()) {
            Some(n) => if '0' <= s.last() <= '9' {
                Some(n * 10 + (s.last() as u32 - '0' as u32) as nat)
            } else {
                None
            },
            None => None,
        }
    }
}

/// A number as `u32` is parsed from text: decimal digits with at most one plus
/// sign in front, within range.
pub open spec fn u32_value(s: Seq<char>) -> Option<u32> {
    let t = if s.len() > 0 && s[0] == '+' {
        s.drop_first()
    } else {
        s
    };
    match digits_value(t) {
        Some(n) => if t.len() > 0 && n <= u32::MAX {
            Some(n as u32)
        } else {
            None
        },
        None => None,
    }
}

proof fn lemma_digits_grow(s: Seq<char>, k: int)
    requires
        0 <= k <= s.len(),
        digits_value(s) is Some,
    ensures
        digits_value(s.take(k)) is Some,
        digits_value(s.take(k))->0 <= digits_value(s)->0,
    decreases s.len() - k,
{
    if k == s.len() {
        assert(s.take(k) == s);
    } else {
        lemma_digits_grow(s, k + 1);
        assert(s.take(k + 1).drop_last() == s.take(k));
    }
}

pub fn parse_u32(s: &[char]) -> (r: Option<u32>)
    ensures
        r == u32_value(s@),
{
    let from: usize = if s.len() > 0 && s[0] == '+' {
        1
    } else {
        0
    };
    let ghost t = s@.skip(from as int);
    proof {
        if from == 1 {
            assert(t == s@.drop_first());
        } else {
            assert(t == s@);
        }
    }
    if s.len() == from {
        return None;
    }
    let mut n: u64 = 0;
    let mut i: usize = from;
    proof {
        assert(t.take(0) == Seq::<char>::empty());
    }
    while i < s.len()
        invariant
            from <= i <= s@.len(),
            t == s@.skip(from as int),
            t.len() > 0,
            n <= u32::MAX,
            u32_value(s@) == (match digits_value(t) {
                Some(v) => if v <= u32::MAX {
                    Some(v as u32)
                } else {
                    None
                },
                None => None,
            }),
            digits_value(t.take(i - from)) == Some(n as nat),
        decreases s@.len() - i,
    {
        let c: char = s[i];
        proof {
            assert(t.take(i - from + 1).drop_last() == t.take(i - from));
            assert(t.take(i - from + 1).last() == c);
            if digits_value(t) is Some {
                lemma_digits_grow(t, i - from + 1);
            }
        }
        if !('0' <= c && c <= '9') {
            return None;
        }
        n = n * 10 + (c as u32 - '0' as u32) as u64;
        if n > u32::MAX as u64 {
            return None;
        }
        i = i + 1;
    }
    proof {
        assert(t.take(t.len() as int) == t);
    }
    Some(n as u32)
}

/// A number written as decimal digits alone, if it fits.
pub open spec fn u64_value(s: Seq<char>) -> Option<u64> {
    match digits_value(s) {
        Some(n) => if s.len() > 0 && n <= u64::MAX {
            Some(n as u64)
        } else {
            None
        },
        None => None,
    }
}

pub fn parse_u64(s: &[char]) -> (r: Option<u64>)
    ensures
        r == u64_value(s@),
{
    if s.len() == 0 {
        return None;
    }
    let mut n: u64 = 0;
    let mut i: usize = 0;
    proof {
        assert(s@.take(0) == Seq::<char>::empty());
    }
    while i < s.len()
        invariant
            i <= s@.len(),
            s@.len() > 0,
            digits_value(s@.take(i as int)) == Some(n as nat),
        decreases s@.len() - i,
    {
        let c: char = s[i];
        proof {
            assert(s@.take(i + 1).drop_last() == s@.take(i as int));
            assert(s@.take(i + 1).last() == c);
            if digits_value(s@) is Some {
                lemma_digits_grow(s@, i + 1);
            }
        }
        if !('0' <= c && c <= '9') {
            return None;
        }
        let d: u64 = (c as u32 - '0' as u32) as u64;
        if n > (u64::MAX - d) / 10 {
            return None;
        }
        n = n * 10 + d;
        i = i + 1;
    }
    proof {
        assert(s@.take(s@.len() as int) == s@);
    }
    Some(n)
}

/// A letter of the alphabet in lower case; every other character as it is.
pub fn lower_ascii(c: char) -> (r: char)
    ensures
        r == ascii_lower(c),
{
    if 'A' <= c && c <= 'Z' {
        let b: u8 = (c as u32 + 32) as u8;
        b as char
    } else {
        c
    }
}

/// Two strings that differ at most in the case of ASCII letters.
pub open spec fn same_ignoring_case(a: Seq<char>, b: Seq<char>) -> bool {
    a.len() == b.len() && forall|i: int|
        0 <= i < a.len() ==> ascii_lower(#[trigger] a[i]) == ascii_lower(b[i])
}

pub fn eq_ignore_ascii_case(a: &[char], b: &[char]) -> (r: bool)
    ensures
        r == same_ignoring_case(a@, b@),
{
    if a.len() != b.len() {
        return false;
    }
    let mut i: usize = 0;
    while i < a.len()
        invariant
            i <= a@.len(),
            a@.len() == b@.len(),
            forall|j: int| 0 <= j < i ==> ascii_lower(#[trigger] a@[j]) == ascii_lower(b@[j]),
        decreases a@.len() - i,
    {
        if lower_ascii(a[i]) != lower_ascii(b[i]) {
            proof {
                assert(ascii_lower(a@[i as int]) != ascii_lower(b@[i as int]));
            }
            return false;
        }
        i = i + 1;
    }
    true
}

/// A name below a directory, with one slash between them.
pub open spec fn beneath(root: Seq<char>, name: Seq<char>) -> Seq<char> {
    if root.len() == 0 || root.last() == '/' {
        root + name
    } else {
        root + "/"@ + name
    }
}

/// The path of a relative name below a directory.
pub fn path_beneath(root: &str, name: &str) -> (r: String)
    ensures
        r@ == beneath(root@, name@),
{
    let c: Vec<char> = chars_of(root);
    let mut out: String = root.to_owned();
    if !(c.len() == 0 || c[c.len() - 1] == '/') {
        out.append("/");
    }
    out.append(name);
    out
}

/// `x` put in its place in an ordered list, after everything that does not come
/// after it.
pub open spec fn sorted_insert(list: Seq<Seq<char>>, x: Seq<char>) -> Seq<Seq<char>>
    decreases list.len(),
{
    if list.len() > 0 && before(x, list.last()) {
        sorted_insert(list.drop_last(), x).push(list.last())
    } else {
        list.push(x)
    }
}

/// The strings of a list in dictionary order.
pub open spec fn sorted(list: Seq<Seq<char>>) -> Seq<Seq<char>>
    decreases list.len(),
{
    if list.len() == 0 {
        Seq::empty()
    } else {
        sorted_insert(sorted(list.drop_last()), list.last())
    }
}

proof fn lemma_sorted_insert_at(list: Seq<Seq<char>>, x: Seq<char>, k: nat)
    requires
        k <= list.len(),
        forall|i: int| k <= i < list.len() ==> before(x, #[trigger] list[i]),
        k > 0 ==> !before(x, list[k - 1]),
    ensures
        sorted_insert(list, x) == list.insert(k as int, x),
    decreases list.len(),
{
    if k == list.len() {
        assert(list.insert(k as int, x) == list.push(x));
    } else {
        let front = list.drop_last();
        assert(before(x, list[list.len() - 1]));
        assert forall|i: int| k <= i < front.len() implies before(x, #[trigger] front[i]) by {
            assert(front[i] == list[i]);
        }
        lemma_sorted_insert_at(front, x, k);
        assert(front.insert(k as int, x).push(list.last()) == list.insert(k as int, x));
    }
}

/// Put `x` in its place in an ordered list.
pub fn insert_sorted(list: &mut Vec<String>, x: &str)
    ensures
        views(final(list)@) == sorted_insert(views(old(list)@), x@),
{
    let ghost was = views(list@);
    let mut k: usize = list.len();
    while k > 0 && string_before(x, list[k - 1].as_str())
        invariant
            k <= list@.len(),
            was == views(list@),
            list@ == old(list)@,
            forall|j: int| k <= j < list@.len() ==> before(x@, #[trigger] was[j]),
        decreases k,
    {
        k = k - 1;
    }
    let name: String = x.to_owned();
    proof {
        if k > 0 {
            assert(was[k - 1] == list@[k - 1]@);
        }
        lemma_sorted_insert_at(was, x@, k as nat);
        assert(views(list@.insert(k as int, name)) == was.insert(k as int, x@));
    }
    list.insert(k, name);
}

/// Each string comes no later than the next.
pub open spec fn in_dictionary_order(list: Seq<Seq<char>>) -> bool {
    forall|i: int, j: int|
        0 <= i < j < list.len() ==> !before(#[trigger] list[j], #[trigger] list[i])
}

proof fn lemma_not_before_trans(a: Seq<char>, b: Seq<char>, c: Seq<char>)
    requires
        !before(b, a),
        !before(c, b),
    ensures
        !before(c, a),
{
    lemma_before_total(a, b);
    lemma_before_total(b, c);
    lemma_before_total(a, c);
    if before(a, b) && before(b, c) {
        lemma_before_trans(a, b, c);
    }
}

proof fn lemma_sorted_insert(list: Seq<Seq<char>>, x: Seq<char>)
    requires
        in_dictionary_order(list),
    ensures
        in_dictionary_order(sorted_insert(list, x)),
        sorted_insert(list, x).to_multiset() =~= list.to_multiset().insert(x),
        forall|i: int|
            0 <= i < sorted_insert(list, x).len() ==> sorted_insert(list, x)[i] == x
                || list.contains(#[trigger] sorted_insert(list, x)[i]),
        sorted_insert(list, x).len() == list.len() + 1,
    decreases list.len(),
{
    broadcast use vstd::seq_lib::group_to_multiset_ensures;

    let out = sorted_insert(list, x);
    if list.len() > 0 && before(x, list.last()) {
        let front = list.drop_last();
        lemma_sorted_insert(front, x);
        let low = sorted_insert(front, x);
        assert(front.push(list.last()) == list);
        assert forall|i: int| 0 <= i < out.len() implies out[i] == x || list.contains(
            #[trigger] out[i],
        ) by {
            if i < low.len() {
                assert(out[i] == low[i]);
                if low[i] != x {
                    let k = choose|k: int| 0 <= k < front.len() && front[k] == low[i];
                    assert(list[k] == low[i]);
                }
            } else {
                assert(list[list.len() - 1] == out[i]);
            }
        }
        assert forall|i: int, j: int| 0 <= i < j < out.len() implies !before(
            #[trigger] out[j],
            #[trigger] out[i],
        ) by {
            if j == low.len() {
                assert(low[i] == out[i]);
                lemma_before_total(x, list.last());
                if low[i] != x {
                    let k = choose|k: int| 0 <= k < front.len() && front[k] == low[i];
                    assert(!before(list[list.len() - 1], list[k]));
                }
            } else {
                assert(low[i] == out[i] && low[j] == out[j]);
            }
        }
    } else {
        assert forall|i: int, j: int| 0 <= i < j < out.len() implies !before(
            #[trigger] out[j],
            #[trigger] out[i],
        ) by {
            if j == list.len() && i < list.len() - 1 {
                assert(!before(list[list.len() - 1], list[i]));
                lemma_not_before_trans(list[i], list.last(), x);
            }
        }
        assert forall|i: int| 0 <= i < out.len() implies out[i] == x || list.contains(
            #[trigger] out[i],
        ) by {
            if i < list.len() {
                assert(list[i] == out[i]);
            }
        }
    }
}

/// Sorting puts strings in dictionary order, and loses and invents none.
pub proof fn sorting_orders(list: Seq<Seq<char>>)
    ensures
        in_dictionary_order(sorted(list)),
        sorted(list).to_multiset() =~= list.to_multiset(),
        sorted(list).len() == list.len(),
    decreases list.len(),
{
    broadcast use vstd::seq_lib::group_to_multiset_ensures;

    if list.len() > 0 {
        sorting_orders(list.drop_last());
        lemma_sorted_insert(sorted(list.drop_last()), list.last());
        assert(list.drop_last().push(list.last()) == list);
    }
}

/// `s` with spaces behind it, up to `width` characters.
pub open spec fn left_aligned(s: Seq<char>, width: nat) -> Seq<char>
    decreases width - s.len(),
{
    if s.len() >= width {
        s
    } else {
        left_aligned(s.push(' '), width)
    }
}

pub fn align_left(s: &str, width: usize) -> (r: String)
    ensures
        r@ == left_aligned(s@, width as nat),
{
    let mut out: String = s.to_owned();
    let mut n: usize = chars_of(s).len();
    while n < width
        invariant
            n == out@.len(),
            left_aligned(out@, width as nat) == left_aligned(s@, width as nat),
        decreases width - n,
    {
        out.push(' ');
        n = n + 1;
    }
    out
}

/// How many characters at the end of `s` are not slashes.
pub open spec fn tail_len(s: Seq<char>) -> nat
    decreases s.len(),
{
    if s.len() == 0 || s.last() == '/' {
        0
    } else {
        1 + tail_len(s.drop_last())
    }
}

pub proof fn lemma_tail_len(s: Seq<char>)
    ensures
        tail_len(s) <= s.len(),
    decreases s.len(),
{
    if s.len() > 0 && s.last() != '/' {
        lemma_tail_len(s.drop_last());
    }
}

/// The last component of a path that names something: trailing slashes and dots
/// that stand alone are passed over, and `..` names nothing.
pub open spec fn file_name(s: Seq<char>) -> Option<Seq<char>>
    decreases s.len(),
{
    let k = tail_len(s);
    let last = s.skip(s.len() - k);
    if s.len() == 0 {
        None
    } else if k == 0 {
        file_name(s.drop_last())
    } else if last == seq!['.'] {
        proof {
            lemma_tail_len(s);
        }
        file_name(s.take(s.len() - k))
    } else if last == seq!['.', '.'] {
        None
    } else {
        Some(last)
    }
}

proof fn lemma_tail_len_is(s: Seq<char>, k: nat)
    requires
        k <= s.len(),
        forall|i: int| s.len() - k <= i < s.len() ==> #[trigger] s[i] != '/',
        k < s.len() ==> s[s.len() - k - 1] == '/',
    ensures
        tail_len(s) == k,
    decreases s.len(),
{
    if k > 0 {
        assert(s[s.len() - 1] != '/');
        let t = s.drop_last();
        assert forall|i: int| t.len() - (k - 1) <= i < t.len() implies #[trigger] t[i] != '/' by {
            assert(t[i] == s[i]);
        }
        lemma_tail_len_is(t, (k - 1) as nat);
    }
}

/// The name of the file a path points at.
pub fn path_name(path: &str) -> (r: Option<String>)
    ensures
        match r {
            Some(n) => file_name(path@) == Some(n@),
            None => file_name(path@) is None,
        },
{
    let c: Vec<char> = chars_of(path);
    let mut end: usize = c.len();
    proof {
        assert(c@.take(c@.len() as int) == c@);
    }
    while end > 0
        invariant
            end <= c@.len(),
            c@ == path@,
            file_name(path@) == file_name(c@.take(end as int)),
        decreases end,
    {
        let ghost s = c@.take(end as int);
        if c[end - 1] == '/' {
            proof {
                assert(s.drop_last() == c@.take(end - 1));
            }
            end = end - 1;
        } else {
            let mut start: usize = end;
            while start > 0 && c[start - 1] != '/'
                invariant
                    start <= end <= c@.len(),
                    forall|i: int| start <= i < end ==> #[trigger] c@[i] != '/',
                decreases start,
            {
                start = start - 1;
            }
            let last: Vec<char> = part(c.as_slice(), start, end);
            proof {
                let k = (end - start) as nat;
                assert forall|i: int| s.len() - k <= i < s.len() implies #[trigger] s[i] != '/' by {
                    assert(s[i] == c@[i]);
                }
                assert(k > 0);
                lemma_tail_len_is(s, k);
                assert(s.skip(s.len() - k) == last@);
                assert(s.take(s.len() - k) == c@.take(start as int));
            }
            if last.len() == 1 && last[0] == '.' {
                proof {
                    assert(last@ == seq!['.']);
                }
                end = start;
            } else if last.len() == 2 && last[0] == '.' && last[1] == '.' {
                proof {
                    assert(last@ == seq!['.', '.']);
                }
                return None;
            } else {
                return Some(string_of(last.as_slice()));
            }
        }
    }
    None
}

/// The name of the file a path points at, or nothing at all.
pub open spec fn name_or_empty(path: Seq<char>) -> Seq<char> {
    match file_name(path) {
        Some(n) => n,
        None => Seq::empty(),
    }
}

/// A decimal is digits, no zero in front of another, and reads back as the number
/// it was written from.
pub proof fn decimals_read_back(n: nat)
    ensures
        decimal(n).len() > 0,
        forall|i: int| 0 <= i < decimal(n).len() ==> '0' <= #[trigger] decimal(n)[i] <= '9',
        digits_value(decimal(n)) == Some(n),
        decimal(n).len() > 1 ==> decimal(n)[0] != '0',
        n == 0 <==> decimal(n) == seq!['0'],
    decreases n,
{
    if n < 10 {
        let d = digit(n);
        assert(decimal(n) == seq![d]);
        assert(decimal(n).drop_last() == Seq::<char>::empty());
        assert(digits_value(Seq::<char>::empty()) == Some(0nat));
        assert(decimal(n)[0] == d);
        if decimal(n) == seq!['0'] {
            assert(seq!['0'][0] == d);
        }
    } else {
        let front = decimal(n / 10);
        decimals_read_back(n / 10);
        let s = decimal(n);
        assert(s.drop_last() == front);
        assert(s.last() == digit(n % 10));
        assert(s[0] == front[0]);
        if front.len() == 1 && front[0] == '0' {
            assert(front == seq!['0']);
        }
        if s == seq!['0'] {
            assert(s.len() == 1);
        }
    }
}

/// Padding puts zeros in front and nothing else, as many as are missing.
pub proof fn padding_puts_zeros_in_front(s: Seq<char>, width: nat)
    ensures
        zero_padded(s, width) == Seq::new(
            if s.len() < width {
                (width - s.len()) as nat
            } else {
                0
            },
            |i: int| '0',
        ) + s,
    decreases width - s.len(),
{
    if s.len() < width {
        let t = seq!['0'] + s;
        padding_puts_zeros_in_front(t, width);
        assert(zero_padded(s, width) == Seq::new((width - s.len()) as nat, |i: int| '0') + s);
    } else {
        assert(Seq::new(0, |i: int| '0') + s == s);
    }
}

/// Aligning puts spaces behind and nothing else, as many as are missing.
pub proof fn aligning_puts_spaces_behind(s: Seq<char>, width: nat)
    ensures
        left_aligned(s, width) == s + Seq::new(
            if s.len() < width {
                (width - s.len()) as nat
            } else {
                0
            },
            |i: int| ' ',
        ),
    decreases width - s.len(),
{
    if s.len() < width {
        let t = s.push(' ');
        aligning_puts_spaces_behind(t, width);
        assert(left_aligned(s, width) == s + Seq::new((width - s.len()) as nat, |i: int| ' '));
    } else {
        assert(s + Seq::new(0, |i: int| ' ') == s);
    }
}

proof fn lemma_trim_start_cut(s: Seq<char>) -> (i: int)
    ensures
        0 <= i <= s.len(),
        trim_start(s) == s.skip(i),
        forall|j: int| 0 <= j < i ==> white_space(#[trigger] s[j]),
        i < s.len() ==> !white_space(s[i]),
    decreases s.len(),
{
    if s.len() > 0 && white_space(s[0]) {
        let t = s.drop_first();
        let i = lemma_trim_start_cut(t);
        assert(t.skip(i) == s.skip(i + 1));
        assert forall|j: int| 0 <= j < i + 1 implies white_space(#[trigger] s[j]) by {
            if j > 0 {
                assert(t[j - 1] == s[j]);
            }
        }
        i + 1
    } else {
        assert(s.skip(0) == s);
        0
    }
}

proof fn lemma_trim_end_cut(s: Seq<char>) -> (i: int)
    ensures
        0 <= i <= s.len(),
        trim_end(s) == s.take(i),
        forall|j: int| i <= j < s.len() ==> white_space(#[trigger] s[j]),
        i > 0 ==> !white_space(s[i - 1]),
    decreases s.len(),
{
    if s.len() > 0 && white_space(s.last()) {
        let t = s.drop_last();
        let i = lemma_trim_end_cut(t);
        assert(t.take(i) == s.take(i));
        assert forall|j: int| i <= j < s.len() implies white_space(#[trigger] s[j]) by {
            if j < t.len() {
                assert(t[j] == s[j]);
            }
        }
        i
    } else {
        assert(s.take(s.len() as int) == s);
        s.len() as int
    }
}

/// Trimming takes the white space off both ends, all of it, and nothing else.
pub proof fn trimming_takes_white_space_off_the_ends(s: Seq<char>) -> (r: (int, int))
    ensures
        0 <= r.0 <= r.1 <= s.len(),
        trim(s) == s.subrange(r.0, r.1),
        forall|j: int| 0 <= j < s.len() && (j < r.0 || r.1 <= j) ==> white_space(#[trigger] s[j]),
        r.0 < r.1 ==> !white_space(s[r.0]) && !white_space(s[r.1 - 1]),
{
    let i = lemma_trim_start_cut(s);
    let t = s.skip(i);
    let k = lemma_trim_end_cut(t);
    assert(t.take(k) == s.subrange(i, i + k));
    assert forall|j: int| 0 <= j < s.len() && (j < i || i + k <= j) implies white_space(
        #[trigger] s[j],
    ) by {
        if j >= i {
            assert(t[j - i] == s[j]);
        }
    }
    if k > 0 {
        assert(t[k - 1] == s[i + k - 1]);
        if white_space(s[i]) {
            assert(t[0] == s[i]);
        }
    }
    (i, i + k)
}

/// A text without white space is one word, if it is anything.
pub proof fn a_word_is_itself(w: Seq<char>)
    requires
        is_word(w),
    ensures
        words(w) == seq![w],
        words(Seq::<char>::empty()) == Seq::<Seq<char>>::empty(),
{
    assert(!white_space(w[0]));
    lemma_word_len_is(w, w.len());
    assert(w.take(w.len() as int) == w);
    assert(w.skip(w.len() as int) == Seq::<char>::empty());
    assert(words(w) == seq![w] + words(Seq::<char>::empty()));
    assert(words(w) == seq![w]);
}

/// White space divides words wherever it stands: the words of a text are those
/// before it and those after it.
pub proof fn white_space_divides_words(a: Seq<char>, c: char, b: Seq<char>)
    requires
        white_space(c),
    ensures
        words(a + seq![c] + b) == words(a) + words(b),
    decreases a.len(),
{
    let s = a + seq![c] + b;
    if a.len() == 0 {
        assert(s.drop_first() == b);
        assert(trim_start(s) == trim_start(b));
        assert(words(s) == words(b));
        assert(words(a) + words(b) == words(b));
    } else if white_space(a[0]) {
        let t = a.drop_first();
        white_space_divides_words(t, c, b);
        assert(s.drop_first() == t + seq![c] + b);
        assert(trim_start(s) == trim_start(s.drop_first()));
        assert(trim_start(a) == trim_start(t));
        assert(words(s) == words(s.drop_first()));
        assert(words(a) == words(t));
    } else {
        let k = word_len(a);
        lemma_word_len(a);
        assert(trim_start(s) == s);
        assert(trim_start(a) == a);
        assert forall|i: int| 0 <= i < k implies !white_space(#[trigger] s[i]) by {
            assert(s[i] == a[i]);
        }
        assert(k > 0);
        if k < a.len() {
            assert(s[k as int] == a[k as int]);
        } else {
            assert(s[k as int] == c);
        }
        lemma_word_len_is(s, k);
        let rest = a.skip(k as int);
        assert(s.take(k as int) == a.take(k as int));
        assert(s.skip(k as int) == rest + seq![c] + b);
        white_space_divides_words(rest, c, b);
        assert(words(s) == seq![a.take(k as int)] + (words(rest) + words(b)));
        assert(words(a) + words(b) == seq![a.take(k as int)] + (words(rest) + words(b)));
    }
}

/// A newline ends a line, and a carriage return right before it goes with it. What
/// follows the last newline is a line if it is anything.
pub proof fn newlines_end_lines(a: Seq<char>, b: Seq<char>)
    requires
        !a.contains('\n'),
    ensures
        lines(Seq::<char>::empty()) == Seq::<Seq<char>>::empty(),
        a.len() > 0 ==> lines(a) == seq![a],
        a.len() == 0 || a.last() != '\r' ==> lines(a + seq!['\n'] + b) == seq![a] + lines(b),
        lines(a + seq!['\r', '\n'] + b) == seq![a] + lines(b),
{
    lemma_run_len_is(a, '\n', a.len());
    let s = a + seq!['\n'] + b;
    assert forall|i: int| 0 <= i < a.len() implies #[trigger] s[i] != '\n' by {
        assert(a[i] == s[i]);
    }
    lemma_run_len_is(s, '\n', a.len());
    assert(s.take(a.len() as int) == a);
    assert(s.skip(a.len() as int + 1) == b);
    let t = a + seq!['\r', '\n'] + b;
    assert forall|i: int| 0 <= i < a.len() + 1 implies #[trigger] t[i] != '\n' by {
        if i < a.len() {
            assert(a[i] == t[i]);
        }
    }
    lemma_run_len_is(t, '\n', a.len() + 1);
    assert(t.take(a.len() as int + 1) == a.push('\r'));
    assert(a.push('\r').drop_last() == a);
    assert(t.skip(a.len() as int + 2) == b);
}

/// One string comes before another where they first differ, or by ending first.
pub proof fn the_first_difference_decides(a: Seq<char>, b: Seq<char>, k: int)
    requires
        0 <= k <= a.len(),
        k <= b.len(),
        a.take(k) == b.take(k),
        k < a.len() && k < b.len() ==> a[k] != b[k],
    ensures
        before(a, b) <==> k < b.len() && (k == a.len() || a[k] < b[k]),
{
    assert forall|j: int| 0 <= j < k implies #[trigger] a[j] == b[j] by {
        assert(a.take(k)[j] == a[j]);
        assert(b.take(k)[j] == b[j]);
    }
    lemma_before_at(a, b, k);
    if k < a.len() {
        assert(a.skip(k)[0] == a[k]);
    }
    if k < b.len() {
        assert(b.skip(k)[0] == b[k]);
    }
}

/// The separator stands between any two parts, and nowhere else.
pub proof fn the_separator_stands_between(
    front: Seq<Seq<char>>,
    back: Seq<Seq<char>>,
    one: Seq<char>,
    sep: Seq<char>,
)
    requires
        front.len() > 0,
        back.len() > 0,
    ensures
        joined(Seq::<Seq<char>>::empty(), sep) == Seq::<char>::empty(),
        joined(seq![one], sep) == one,
        joined(front + back, sep) == joined(front, sep) + sep + joined(back, sep),
    decreases back.len(),
{
    let all = front + back;
    assert(all.drop_last() == front + back.drop_last());
    assert(all.last() == back.last());
    if back.len() == 1 {
        assert(front + back.drop_last() == front);
        assert(joined(back, sep) == back[0]);
    } else {
        the_separator_stands_between(front, back.drop_last(), one, sep);
        assert(joined(all, sep) == joined(front, sep) + sep + joined(back.drop_last(), sep) + sep
            + back.last());
        assert(joined(front, sep) + sep + joined(back.drop_last(), sep) + sep + back.last()
            == joined(front, sep) + sep + (joined(back.drop_last(), sep) + sep + back.last()));
    }
}

/// The distinct strings of a list stand in order, each once, and they are the ones
/// in the list.
pub proof fn distinct_strings_stand_in_order(list: Seq<Seq<char>>)
    ensures
        strictly_ordered(ordered_set(list)),
        forall|x: Seq<char>| #[trigger] ordered_set(list).contains(x) <==> list.contains(x),
    decreases list.len(),
{
    if list.len() > 0 {
        let front = list.drop_last();
        distinct_strings_stand_in_order(front);
        lemma_ordered_insert(ordered_set(front), list.last());
        assert forall|x: Seq<char>| #[trigger] ordered_set(list).contains(x) <==> list.contains(
            x,
        ) by {
            assert(ordered_set(list).contains(x) <==> ordered_set(front).contains(x) || x
                == list.last());
            if front.contains(x) {
                let i = front.index_of(x);
                assert(list[i] == x);
            }
            if x == list.last() {
                assert(list[list.len() - 1] == x);
            }
            if list.contains(x) && x != list.last() {
                let i = list.index_of(x);
                assert(front[i] == x);
            }
        }
    }
}

/// The records are the lines with something on them, in order.
pub proof fn only_blank_lines_are_left_out(ls: Seq<Seq<char>>)
    ensures
        records_of(ls) == ls.filter(
            |l: Seq<char>| exists|i: int| 0 <= i < l.len() && !white_space(#[trigger] l[i]),
        ),
    decreases ls.len(),
{
    reveal(Seq::filter);
    if ls.len() > 0 {
        only_blank_lines_are_left_out(ls.drop_last());
        let l = ls.last();
        let r = trimming_takes_white_space_off_the_ends(l);
        if trim(l).len() > 0 {
            assert(!white_space(l[r.0]));
        } else if exists|i: int| 0 <= i < l.len() && !white_space(#[trigger] l[i]) {
            let i = choose|i: int| 0 <= i < l.len() && !white_space(#[trigger] l[i]);
            assert(i < r.0 || r.1 <= i);
        }
    }
}

/// `from` starts at `i` in `s`.
pub open spec fn occurs_at(s: Seq<char>, from: Seq<char>, i: int) -> bool {
    0 <= i && i + from.len() <= s.len() && s.subrange(i, i + from.len()) == from
}

/// Every occurrence is replaced, the leftmost first: what stands before it stays,
/// and the search goes on behind it. A text without one stays as it is.
pub proof fn the_leftmost_is_replaced_first(a: Seq<char>, from: Seq<char>, to: Seq<char>, b: Seq<char>)
    requires
        from.len() > 0,
        forall|i: int| 0 <= i < a.len() ==> !#[trigger] occurs_at(a + from + b, from, i),
    ensures
        replaced(a + from + b, from, to) == a + to + replaced(b, from, to),
        (forall|i: int| !#[trigger] occurs_at(b, from, i)) ==> replaced(b, from, to) == b,
    decreases a.len() + b.len(),
{
    let s = a + from + b;
    if a.len() == 0 {
        assert(s.take(from.len() as int) == from);
        assert(s.skip(from.len() as int) == b);
        assert(a + to + substituted(b, from, to) == to + substituted(b, from, to));
    } else {
        let t = a.drop_first();
        assert(s.drop_first() == t + from + b);
        assert forall|i: int| 0 <= i < t.len() implies !#[trigger] occurs_at(
            t + from + b,
            from,
            i,
        ) by {
            if occurs_at(t + from + b, from, i) {
                assert(s.subrange(i + 1, i + 1 + from.len()) == (t + from + b).subrange(
                    i,
                    i + from.len(),
                ));
                assert(occurs_at(s, from, i + 1));
            }
        }
        the_leftmost_is_replaced_first(t, from, to, b);
        if starts_with(s, from) {
            assert(s.subrange(0, from.len() as int) == s.take(from.len() as int));
            assert(occurs_at(s, from, 0));
        }
        assert(seq![s[0]] + (t + to + substituted(b, from, to)) == a + to + substituted(
            b,
            from,
            to,
        ));
    }
    if forall|i: int| !#[trigger] occurs_at(b, from, i) {
        lemma_unchanged(b, from, to);
    }
}

proof fn lemma_unchanged(b: Seq<char>, from: Seq<char>, to: Seq<char>)
    requires
        from.len() > 0,
        forall|i: int| !#[trigger] occurs_at(b, from, i),
    ensures
        substituted(b, from, to) == b,
    decreases b.len(),
{
    if b.len() >= from.len() {
        let t = b.drop_first();
        if starts_with(b, from) {
            assert(b.subrange(0, from.len() as int) == b.take(from.len() as int));
            assert(occurs_at(b, from, 0));
        }
        assert forall|i: int| !#[trigger] occurs_at(t, from, i) by {
            if occurs_at(t, from, i) {
                assert(b.subrange(i + 1, i + 1 + from.len()) == t.subrange(i, i + from.len()));
                assert(occurs_at(b, from, i + 1));
            }
        }
        lemma_unchanged(t, from, to);
        assert(seq![b[0]] + t == b);
    }
}

proof fn lemma_tail_is(s: Seq<char>, k: nat)
    requires
        k <= s.len(),
        forall|i: int| s.len() - k <= i < s.len() ==> #[trigger] s[i] != '/',
        k < s.len() ==> s[s.len() - k - 1] == '/',
    ensures
        tail_len(s) == k,
    decreases s.len(),
{
    if k > 0 {
        assert(s[s.len() - 1] != '/');
        let t = s.drop_last();
        assert forall|i: int| t.len() - (k - 1) <= i < t.len() implies #[trigger] t[i] != '/' by {
            assert(t[i] == s[i]);
        }
        lemma_tail_is(t, (k - 1) as nat);
    }
}

/// A path names what stands behind its last slash; slashes at its end, and a lone
/// dot, change nothing.
pub proof fn a_path_names_its_last_part(dir: Seq<char>, name: Seq<char>)
    requires
        name.len() > 0,
        !name.contains('/'),
        name != seq!['.'],
        name != seq!['.', '.'],
    ensures
        file_name(name) == Some(name),
        file_name(dir + seq!['/'] + name) == Some(name),
        file_name(beneath(dir, name)) == Some(name),
        file_name(dir + seq!['/']) == file_name(dir),
        file_name(dir + seq!['/', '.']) == file_name(dir),
{
    reveal_strlit("/");
    lemma_names_last(Seq::empty(), name);
    assert(Seq::<char>::empty() + name == name);
    lemma_names_last(dir + seq!['/'], name);
    if dir.len() == 0 || dir.last() == '/' {
        lemma_names_last(dir, name);
    }
    assert("/"@ == seq!['/']);
    let p = dir + seq!['/'];
    assert(p.drop_last() == dir);
    assert(tail_len(p) == 0);
    let q = dir + seq!['/', '.'];
    lemma_tail_is(q, 1);
    assert(q.skip(q.len() - 1) == seq!['.']);
    assert(q.take(q.len() - 1) == p);
}

proof fn lemma_names_last(front: Seq<char>, name: Seq<char>)
    requires
        name.len() > 0,
        !name.contains('/'),
        name != seq!['.'],
        name != seq!['.', '.'],
        front.len() == 0 || front.last() == '/',
    ensures
        file_name(front + name) == Some(name),
{
    let s = front + name;
    assert forall|i: int| front.len() <= i < s.len() implies #[trigger] s[i] != '/' by {
        assert(name[i - front.len()] == s[i]);
        assert(name.contains(name[i - front.len()]));
    }
    lemma_tail_is(s, name.len());
    assert(s.skip(front.len() as int) == name);
}

/// Two texts that are the same around something have the same in between.
pub proof fn lemma_middle(front: Seq<char>, x: Seq<char>, y: Seq<char>, back: Seq<char>)
    ensures
        front + x + back == front + y + back ==> x == y,
{
    let s = front + x + back;
    let t = front + y + back;
    if s == t {
        assert(s.len() == t.len());
        assert forall|i: int| 0 <= i < x.len() implies x[i] == y[i] by {
            assert(s[front.len() + i] == x[i]);
            assert(t[front.len() + i] == y[i]);
        }
        assert(x == y);
    }
}

/// What is joined starts with the first part.
pub proof fn lemma_joined_starts(parts: Seq<Seq<char>>, sep: Seq<char>)
    requires
        parts.len() > 0,
    ensures
        starts_with(joined(parts, sep), parts[0]),
        forall|i: int| 0 <= i < parts[0].len() ==> #[trigger] joined(parts, sep)[i] == parts[0][i],
        joined(parts, sep).len() >= parts[0].len(),
    decreases parts.len(),
{
    let s = joined(parts, sep);
    if parts.len() > 1 {
        lemma_joined_starts(parts.drop_last(), sep);
        let t = joined(parts.drop_last(), sep);
        assert(parts.drop_last()[0] == parts[0]);
        assert forall|i: int| 0 <= i < parts[0].len() implies #[trigger] s[i] == parts[0][i] by {
            assert(t[i] == s[i]);
        }
    }
    assert(s.take(parts[0].len() as int) == parts[0]);
}

/// Words set side by side have no white space around them.
pub proof fn lemma_joined_words_are_trim(ws: Seq<Seq<char>>)
    requires
        forall|i: int| 0 <= i < ws.len() ==> is_word(#[trigger] ws[i]),
    ensures
        trim(joined(ws, " "@)) == joined(ws, " "@),
{
    let s = joined(ws, " "@);
    if ws.len() > 0 {
        lemma_joined_starts(ws, " "@);
        assert(is_word(ws[0]) && is_word(ws[ws.len() - 1]));
        let w = ws.last();
        assert(s[0] == ws[0][0]);
        assert(s.last() == w[w.len() - 1]);
        assert(trim_start(s) == s);
        assert(trim_end(s) == s);
    }
}

} // verus!
