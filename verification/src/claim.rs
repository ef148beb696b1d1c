//! Claiming a session directory, and claiming the right to transcribe one.

use crate::text;
use crate::text::{chars_of, decimal_string, lower_ascii, padded_string, parse_u32, path_beneath, same, string_of, trimmed};
use vstd::prelude::*;

verus! {

pub open spec fn ascii_lower_alnum(c: char) -> bool {
    'a' <= c <= 'z' || '0' <= c <= '9'
}

/// The slug of what has been read so far: every ASCII letter or digit in lower
/// case, and one dash for each run of anything else between them.
pub open spec fn slugged(s: Seq<char>) -> Seq<char>
    decreases s.len(),
{
    if s.len() == 0 {
        Seq::empty()
    } else {
        let front = slugged(s.drop_last());
        if text::ascii_letter_or_digit(s.last()) {
            front.push(text::ascii_lower(s.last()))
        } else if front.len() > 0 && front.last() != '-' {
            front.push('-')
        } else {
            front
        }
    }
}

/// The slug of a name, with no dash left over at its end.
pub open spec fn slug(s: Seq<char>) -> Seq<char> {
    let out = slugged(s);
    if out.len() > 0 && out.last() == '-' {
        out.drop_last()
    } else {
        out
    }
}

proof fn lemma_slugged(s: Seq<char>)
    ensures
        forall|i: int|
            0 <= i < slugged(s).len() ==> ascii_lower_alnum(#[trigger] slugged(s)[i]) || slugged(
                s,
            )[i] == '-',
        slugged(s).len() > 0 ==> slugged(s)[0] != '-',
        forall|i: int|
            0 < i < slugged(s).len() && #[trigger] slugged(s)[i] == '-' ==> slugged(s)[i - 1] != '-',
    decreases s.len(),
{
    if s.len() > 0 {
        lemma_slugged(s.drop_last());
    }
}

/// A slug holds lower-case letters, digits and dashes, neither starts nor ends
/// with a dash, and never has two dashes together.
pub proof fn slug_is_clean(s: Seq<char>)
    ensures
        forall|i: int|
            0 <= i < slug(s).len() ==> ascii_lower_alnum(#[trigger] slug(s)[i]) || slug(s)[i] == '-',
        slug(s).len() > 0 ==> slug(s)[0] != '-' && slug(s).last() != '-',
        forall|i: int|
            0 < i < slug(s).len() && #[trigger] slug(s)[i] == '-' ==> slug(s)[i - 1] != '-',
{
    lemma_slugged(s);
    let out = slugged(s);
    if out.len() > 0 && out.last() == '-' {
        assert(out[out.len() - 1] == '-');
        let cut = out.drop_last();
        assert forall|i: int| 0 <= i < cut.len() implies ascii_lower_alnum(#[trigger] cut[i])
            || cut[i] == '-' by {
            assert(cut[i] == out[i]);
        }
        assert forall|i: int| 0 < i < cut.len() && #[trigger] cut[i] == '-' implies cut[i - 1]
            != '-' by {
            assert(out[i] == '-');
        }
        if cut.len() > 0 {
            assert(cut.last() == out[out.len() - 2]);
        }
    }
}

/// A name as part of a directory name.
pub fn slugify(s: &str) -> (r: String)
    ensures
        r@ == slug(s@),
{
    let c: Vec<char> = chars_of(s);
    let mut out: Vec<char> = Vec::new();
    let mut i: usize = 0;
    proof {
        assert(c@.take(0) == Seq::<char>::empty());
    }
    while i < c.len()
        invariant
            i <= c@.len(),
            out@ == slugged(c@.take(i as int)),
        decreases c@.len() - i,
    {
        let x: char = c[i];
        proof {
            assert(c@.take(i + 1).drop_last() == c@.take(i as int));
            assert(c@.take(i + 1).last() == x);
        }
        if ('a' <= x && x <= 'z') || ('A' <= x && x <= 'Z') || ('0' <= x && x <= '9') {
            out.push(lower_ascii(x));
        } else if out.len() > 0 && out[out.len() - 1] != '-' {
            out.push('-');
        }
        i = i + 1;
    }
    proof {
        assert(c@.take(c@.len() as int) == c@);
    }
    if out.len() > 0 && out[out.len() - 1] == '-' {
        out.pop();
    }
    string_of(out.as_slice())
}

/// What a session started at `stamp` asks to be called: the stamp, and the slug
/// of its name where there is one.
pub open spec fn base_name(stamp: Seq<char>, name: Option<Seq<char>>) -> Seq<char> {
    match name {
        Some(n) => if slug(n).len() > 0 {
            stamp + "-"@ + slug(n)
        } else {
            stamp
        },
        None => stamp,
    }
}

/// The name tried at the `n`th attempt. A collision retries with a zero-padded
/// suffix: every listing sorts these names as bytes, and unpadded `-10` sorts
/// before `-2`.
pub open spec fn attempt_name(base: Seq<char>, n: nat) -> Seq<char> {
    if n <= 1 {
        base
    } else {
        base + "-"@ + text::zero_padded(text::decimal(n), 2)
    }
}

/// How many names are tried before giving up.
pub const ATTEMPTS: u32 = 99;

/// A claim on a directory name that is still being made.
#[derive(Debug)]
pub struct Claim {
    base: String,
    n: u32,
}

impl Claim {
    pub closed spec fn base(&self) -> Seq<char> {
        self.base@
    }

    pub closed spec fn attempt_number(&self) -> nat {
        self.n as nat
    }

    pub open spec fn wf(&self) -> bool {
        1 <= self.attempt_number() <= ATTEMPTS
    }

    /// Start claiming a directory for a recording that starts at `stamp`.
    pub fn new(stamp: &str, name: Option<&str>) -> (c: Claim)
        ensures
            c.wf(),
            c.attempt_number() == 1,
            c.base() == base_name(
                stamp@,
                match name {
                    Some(n) => Some(n@),
                    None => None,
                },
            ),
    {
        let mut base: String = stamp.to_owned();
        if let Some(n) = name {
            let s: String = slugify(n);
            if !s.as_str().is_empty() {
                base.append("-");
                base.append(s.as_str());
            }
        }
        Claim { base, n: 1 }
    }

    /// The name to create a directory under.
    pub fn attempt(&self) -> (r: String)
        requires
            self.wf(),
        ensures
            r@ == attempt_name(self.base(), self.attempt_number()),
    {
        if self.n == 1 {
            self.base.clone()
        } else {
            let mut out: String = self.base.clone();
            out.append("-");
            out.append(padded_string(self.n as u64, 2).as_str());
            out
        }
    }

    /// The name was taken: try the next one, or give up.
    pub fn taken(self, home: &str) -> (r: Result<Claim, String>)
        requires
            self.wf(),
        ensures
            match r {
                Ok(c) => self.attempt_number() < ATTEMPTS && c.wf() && c.base() == self.base()
                    && c.attempt_number() == self.attempt_number() + 1,
                Err(e) => self.attempt_number() == ATTEMPTS && e@ == home@
                    + " already holds 99 sessions claimed as "@ + self.base(),
            },
    {
        if self.n < ATTEMPTS {
            Ok(Claim { base: self.base, n: self.n + 1 })
        } else {
            let mut e: String = home.to_owned();
            e.append(" already holds 99 sessions claimed as ");
            e.append(self.base.as_str());
            Err(e)
        }
    }

    /// The directory was created: it is this process's own.
    pub fn won(self, home: &str) -> (d: SessionDir)
        requires
            self.wf(),
        ensures
            d.name() == attempt_name(self.base(), self.attempt_number()),
            d.location() == text::beneath(home@, d.name()),
    {
        let name: String = self.attempt();
        let path: String = path_beneath(home, name.as_str());
        SessionDir { path, name }
    }
}

/// A session directory this process created and therefore owns.
///
/// The only way to hold one is to win a [`Claim`], and winning is what follows
/// creating the directory — so a `SessionDir` is evidence that no other
/// recording is writing there.
#[derive(Debug)]
pub struct SessionDir {
    path: String,
    name: String,
}

impl SessionDir {
    pub closed spec fn location(&self) -> Seq<char> {
        self.path@
    }

    pub closed spec fn name(&self) -> Seq<char> {
        self.name@
    }

    pub fn path(&self) -> (r: &str)
        ensures
            r@ == self.location(),
    {
        self.path.as_str()
    }

    /// The session id, which is the directory's own name and never the string
    /// that was formatted to ask for it: a claim that collided is called `-02`,
    /// and everything written inside has to say so.
    pub fn id(&self) -> (r: String)
        ensures
            r@ == self.name(),
    {
        self.name.clone()
    }
}

proof fn lemma_two_digits(n: nat)
    requires
        n < 100,
    ensures
        text::zero_padded(text::decimal(n), 2) == seq![text::digit(n / 10), text::digit(n % 10)],
{
    if n < 10 {
        let one = seq![text::digit(n)];
        assert(text::decimal(n) == one);
        assert(text::digit(0) == '0');
        assert(seq!['0'] + one == seq![text::digit(0), text::digit(n)]);
        assert(text::zero_padded(seq!['0'] + one, 2) == seq!['0'] + one);
    } else {
        assert(text::decimal(n / 10) == seq![text::digit(n / 10)]);
        assert(text::decimal(n) == seq![text::digit(n / 10), text::digit(n % 10)]);
    }
}

proof fn lemma_after_prefix(p: Seq<char>, a: Seq<char>, b: Seq<char>)
    ensures
        text::before(p + a, p + b) == text::before(a, b),
{
    text::lemma_before_at(p + a, p + b, p.len() as int);
    assert((p + a).skip(p.len() as int) == a);
    assert((p + b).skip(p.len() as int) == b);
}

/// The names a claim tries come in the order a listing sorts them.
pub proof fn attempts_sort_in_order(base: Seq<char>, m: nat, n: nat)
    requires
        1 <= m < n <= ATTEMPTS,
    ensures
        text::before(attempt_name(base, m), attempt_name(base, n)),
{
    reveal_with_fuel(text::before, 3);
    lemma_two_digits(n);
    let dash = "-"@;
    reveal_strlit("-");
    let x = text::zero_padded(text::decimal(n), 2);
    if m == 1 {
        assert(base + Seq::<char>::empty() == base);
        assert(base + (dash + x) == base + dash + x);
        lemma_after_prefix(base, Seq::empty(), dash + x);
    } else {
        lemma_two_digits(m);
        let y = text::zero_padded(text::decimal(m), 2);
        lemma_after_prefix(base + dash, y, x);
        if m / 10 == n / 10 {
            assert(y.drop_first()[0] == text::digit(m % 10));
            assert(x.drop_first()[0] == text::digit(n % 10));
            assert(text::digit(m % 10) < text::digit(n % 10));
        } else {
            assert(text::digit(m / 10) < text::digit(n / 10));
        }
    }
}

/// Every name a claim tries sorts before a later stamp of the same length.
pub proof fn attempts_sort_before_the_next_stamp(base: Seq<char>, next: Seq<char>, n: nat)
    requires
        text::before(base, next),
        base.len() == next.len(),
    ensures
        text::before(attempt_name(base, n), next),
{
    if n > 1 {
        lemma_before_extended(base, "-"@ + text::zero_padded(text::decimal(n), 2), next);
        assert(base + ("-"@ + text::zero_padded(text::decimal(n), 2)) == attempt_name(base, n));
    }
}

proof fn lemma_before_extended(a: Seq<char>, x: Seq<char>, b: Seq<char>)
    requires
        text::before(a, b),
        a.len() == b.len(),
    ensures
        text::before(a + x, b),
    decreases a.len(),
{
    assert((a + x)[0] == a[0]);
    if a[0] == b[0] {
        lemma_before_extended(a.drop_first(), x, b.drop_first());
        assert((a + x).drop_first() == a.drop_first() + x);
    }
}

/// Proof that a stop was asked for, and of nothing else. The field is private,
/// so the only way to hold one is to have written the sentinel.
#[derive(Debug, Clone, Copy)]
pub struct StopSignalled(());

/// Name of the file whose existence asks a running recording to stop. A file
/// rather than a signal because the only launch that gets system audio has no
/// terminal to interrupt and no pid a user can see.
pub const STOP_FILE: &'static str = "STOP";

/// Live level meter, rewritten each second.
pub const STATUS_FILE: &'static str = "status";

/// Held by whichever process is transcribing a session.
pub const TRANSCRIBING_LOCK: &'static str = "transcribing.lock";

/// Where the stop sentinel of a claimed directory goes. It cannot be the wrong
/// directory: it is told which one, by a value only a claim could have produced.
pub fn stop_path(dir: &SessionDir) -> (r: String)
    ensures
        r@ == text::beneath(dir.location(), "STOP"@),
{
    path_beneath(dir.path(), STOP_FILE)
}

/// Ask the recording in `dir` to stop, given how writing the sentinel went.
pub fn signal_stop(dir: &SessionDir, written: Result<(), String>) -> (r: Result<
    StopSignalled,
    String,
>)
    ensures
        r is Ok <==> written is Ok,
        r matches Err(e) ==> e@ == "writing "@ + text::beneath(dir.location(), "STOP"@) + ": "@
            + written->Err_0@,
{
    match written {
        Ok(()) => Ok(StopSignalled(())),
        Err(cause) => {
            let mut e: String = "writing ".to_owned();
            e.append(stop_path(dir).as_str());
            e.append(": ");
            e.append(cause.as_str());
            Err(e)
        },
    }
}

/// The pid written into a lock file, if the file names one.
pub open spec fn pid_in(contents: Option<Seq<char>>) -> Option<u32> {
    match contents {
        Some(s) => text::u32_value(text::trim(s)),
        None => None,
    }
}

/// Who a lock file says is transcribing.
pub fn lock_pid(contents: Option<&str>) -> (r: Option<u32>)
    ensures
        r == pid_in(text::opt_str(contents)),
{
    match contents {
        Some(s) => {
            let c: Vec<char> = chars_of(s);
            parse_u32(trimmed(c.as_slice()).as_slice())
        },
        None => None,
    }
}

/// The pid in a lock file, if it names a live process. A pid that no longer
/// answers is a crash's leftovers, and the lock is stale.
pub fn live_transcriber(contents: Option<&str>, alive: bool) -> (r: Option<u32>)
    ensures
        r == (if alive {
            pid_in(text::opt_str(contents))
        } else {
            None
        }),
{
    if alive {
        lock_pid(contents)
    } else {
        None
    }
}

/// How publishing the lock file went.
#[derive(Debug)]
pub enum Link {
    Made,
    Exists,
    Failed(String),
}

/// What to do next about a transcription lock.
#[derive(Debug)]
pub enum LockStep {
    /// The lock is held.
    Held(TranscribeLock),
    /// A dead process left the lock behind: clear it and try again.
    ClearAndRetry,
    /// A dead process left the lock behind, but the retry was lost: clear it
    /// and give up.
    ClearAndRefuse(String),
    Refuse(String),
}

/// Proof that this process holds the transcription lock for a session.
#[derive(Debug)]
pub struct TranscribeLock {
    path: String,
    pid: u32,
}

impl TranscribeLock {
    pub closed spec fn location(&self) -> Seq<char> {
        self.path@
    }

    pub closed spec fn owner(&self) -> u32 {
        self.pid
    }

    pub fn path(&self) -> (r: &str)
        ensures
            r@ == self.location(),
    {
        self.path.as_str()
    }

    /// Whether letting go means removing the file: only a lock that still names
    /// this process. If it was ever judged stale and taken over, the file is
    /// somebody else's now.
    pub fn is_ours(&self, contents: Option<&str>) -> (r: bool)
        ensures
            r == (contents is Some && text::trim(contents->0@) == text::decimal(
                self.owner() as nat,
            )),
    {
        match contents {
            Some(s) => {
                let c: Vec<char> = chars_of(s);
                let mine: Vec<char> = text::decimal_chars(self.pid as u64);
                same(trimmed(c.as_slice()).as_slice(), mine.as_slice())
            },
            None => false,
        }
    }
}

/// One try at the transcription lock of `dir`: a stale lock from a dead process
/// is taken over once, a live one is refused.
pub fn claim_transcription(
    dir: &str,
    pid: u32,
    retried: bool,
    link: Link,
    holder: Option<u32>,
) -> (r: LockStep)
    ensures
        match r {
            LockStep::Held(l) => link is Made && l.owner() == pid && l.location() == text::beneath(
                dir@,
                "transcribing.lock"@,
            ),
            LockStep::ClearAndRetry => link is Exists && holder is None && !retried,
            LockStep::ClearAndRefuse(e) => link is Exists && holder is None && retried && e@ == dir@
                + " was claimed by another transcriber"@,
            LockStep::Refuse(e) => match link {
                Link::Made => false,
                Link::Exists => holder is Some && e@ == dir@
                    + " is being transcribed by another process (pid "@ + text::decimal(
                    holder->0 as nat,
                ) + ")"@,
                Link::Failed(cause) => e@ == "creating "@ + text::beneath(
                    dir@,
                    "transcribing.lock"@,
                ) + ": "@ + cause@,
            },
        },
{
    let path: String = path_beneath(dir, TRANSCRIBING_LOCK);
    match link {
        Link::Made => LockStep::Held(TranscribeLock { path, pid }),
        Link::Exists => {
            if let Some(h) = holder {
                let mut e: String = dir.to_owned();
                e.append(" is being transcribed by another process (pid ");
                e.append(decimal_string(h as u64).as_str());
                e.append(")");
                return LockStep::Refuse(e);
            }
            if retried {
                let mut e: String = dir.to_owned();
                e.append(" was claimed by another transcriber");
                LockStep::ClearAndRefuse(e)
            } else {
                LockStep::ClearAndRetry
            }
        },
        Link::Failed(cause) => {
            let mut e: String = "creating ".to_owned();
            e.append(path.as_str());
            e.append(": ");
            e.append(cause.as_str());
            LockStep::Refuse(e)
        },
    }
}

proof fn lemma_slugged_on(a: Seq<char>, c: char, b: Seq<char>)
    requires
        !text::ascii_letter_or_digit(c),
    ensures
        slugged(a + seq![c] + b) == slugged(a.push(c)) + slugged(b),
    decreases b.len(),
{
    let s = a + seq![c] + b;
    let p = slugged(a.push(c));
    assert(a.push(c).drop_last() == a);
    if b.len() == 0 {
        assert(s == a.push(c));
        assert(p + slugged(b) == p);
    } else {
        lemma_slugged_on(a, c, b.drop_last());
        assert(s.drop_last() == a + seq![c] + b.drop_last());
        assert(s.last() == b.last());
        let front = p + slugged(b.drop_last());
        if slugged(b.drop_last()).len() > 0 {
            assert(front.last() == slugged(b.drop_last()).last());
        } else {
            assert(front == p);
        }
        assert(slugged(s) == p + slugged(b));
    }
}

proof fn lemma_slugged_word(w: Seq<char>)
    requires
        forall|i: int| 0 <= i < w.len() ==> text::ascii_letter_or_digit(#[trigger] w[i]),
    ensures
        slugged(w) == w.map_values(|c: char| text::ascii_lower(c)),
    decreases w.len(),
{
    let f = |c: char| text::ascii_lower(c);
    if w.len() > 0 {
        assert(text::ascii_letter_or_digit(w[w.len() - 1]));
        lemma_slugged_word(w.drop_last());
        assert(w.drop_last().map_values(f).push(f(w.last())) == w.map_values(f));
    } else {
        assert(w.map_values(f) == Seq::<char>::empty());
    }
}

proof fn lemma_slugged_starts(s: Seq<char>)
    ensures
        slugged(s).len() > 0 ==> slugged(s)[0] != '-',
    decreases s.len(),
{
    if s.len() > 0 {
        lemma_slugged_starts(s.drop_last());
    }
}

/// A name of letters and digits is its own slug in lower case. Anything else stands
/// for a dash between what comes before it and what comes after, and for nothing at
/// either end.
pub proof fn anything_else_is_one_dash_between(a: Seq<char>, c: char, b: Seq<char>, w: Seq<char>)
    requires
        !text::ascii_letter_or_digit(c),
        forall|i: int| 0 <= i < w.len() ==> text::ascii_letter_or_digit(#[trigger] w[i]),
    ensures
        slug(w) == w.map_values(|x: char| text::ascii_lower(x)),
        slug(a).len() > 0 && slug(b).len() > 0 ==> slug(a + seq![c] + b) == slug(a) + seq!['-']
            + slug(b),
        slug(a).len() == 0 ==> slug(a + seq![c] + b) == slug(b),
        slug(b).len() == 0 ==> slug(a + seq![c] + b) == slug(a),
{
    lemma_slugged_word(w);
    if w.len() > 0 {
        let x = w.last();
        assert(text::ascii_letter_or_digit(w[w.len() - 1]));
        assert(slugged(w).last() == text::ascii_lower(x));
        assert(text::ascii_lower(x) != '-');
    }
    lemma_slugged_on(a, c, b);
    lemma_slugged_starts(a);
    lemma_slugged_starts(b);
    assert(a.push(c).drop_last() == a);
    let u = slugged(a);
    let v = slugged(b);
    let p = slugged(a.push(c));
    let all = p + v;
    if u.len() > 0 {
        assert(p == slug(a).push('-'));
    } else {
        assert(p == Seq::<char>::empty());
    }
    if v.len() == 0 {
        assert(all == p);
        assert(p.len() > 0 ==> p.drop_last() == slug(a));
    } else {
        assert(all.last() == v.last());
        assert(slug(b).len() > 0);
        if v.last() == '-' {
            assert(all.drop_last() == p + v.drop_last());
        }
        assert(slug(a + seq![c] + b) == p + slug(b));
        if u.len() > 0 {
            assert(slug(a).len() > 0);
            assert(slug(a).push('-') + slug(b) == slug(a) + seq!['-'] + slug(b));
        } else {
            assert(p + slug(b) == slug(b));
        }
    }
}

/// A lock that a process wrote its number into names that process.
pub proof fn a_lock_names_its_process(pid: u32)
    ensures
        pid_in(Some(text::decimal(pid as nat))) == Some(pid),
        pid_in(Some(text::decimal(pid as nat) + seq!['\n'])) == Some(pid),
        pid_in(None) is None,
        pid_in(Some(Seq::<char>::empty())) is None,
{
    let d = text::decimal(pid as nat);
    text::decimals_read_back(pid as nat);
    assert('0' <= d[0] <= '9');
    assert('0' <= d[d.len() - 1] <= '9');
    assert(text::trim_start(d) == d);
    assert(text::trim_end(d) == d);
    let s = d + seq!['\n'];
    assert(s[0] == d[0]);
    assert(text::trim_start(s) == s);
    assert(s.drop_last() == d);
    assert(text::trim_end(s) == text::trim_end(d));
    let none = Seq::<char>::empty();
    assert(text::trim(none) == none);
}

/// A session is called by when it started, and by its name where that leaves
/// anything.
pub proof fn a_session_is_called_by_its_stamp(stamp: Seq<char>, name: Seq<char>)
    ensures
        base_name(stamp, None) == stamp,
        base_name(stamp, Some(name)).take(stamp.len() as int) == stamp,
        slug(name).len() == 0 ==> base_name(stamp, Some(name)) == stamp,
        slug(name).len() > 0 ==> base_name(stamp, Some(name)).skip(stamp.len() as int) == seq!['-']
            + slug(name),
{
    reveal_strlit("-");
    assert("-"@ == seq!['-']);
    let s = base_name(stamp, Some(name));
    assert(s.take(stamp.len() as int) == stamp);
    if slug(name).len() > 0 {
        assert(s.skip(stamp.len() as int) == seq!['-'] + slug(name));
    }
}

/// The first name tried is the one asked for; after that the number of the attempt
/// is put behind it.
pub proof fn attempts_are_numbered(base: Seq<char>, n: nat)
    requires
        2 <= n <= ATTEMPTS,
    ensures
        attempt_name(base, 1) == base,
        attempt_name(base, n).len() == base.len() + 3,
        attempt_name(base, n).take(base.len() as int + 1) == base + seq!['-'],
        text::digits_value(attempt_name(base, n).skip(base.len() as int + 1)) == Some(n),
{
    reveal_strlit("-");
    assert("-"@ == seq!['-']);
    let d = text::decimal(n);
    let p = text::zero_padded(d, 2);
    let s = attempt_name(base, n);
    text::decimals_read_back(n);
    text::padding_puts_zeros_in_front(d, 2);
    if n < 10 {
        assert(d == seq![text::digit(n)]);
        assert(p == seq!['0', text::digit(n)]);
        assert(p.drop_last() == seq!['0']);
        assert(seq!['0'].drop_last() == Seq::<char>::empty());
        assert(text::digits_value(Seq::<char>::empty()) == Some(0nat));
        assert(text::digits_value(seq!['0']) == Some(0nat));
    } else {
        assert(text::decimal(n / 10) == seq![text::digit(n / 10)]);
        assert(d.len() == 2);
        assert(p == d);
    }
    assert(s.take(base.len() as int + 1) == base + seq!['-']);
    assert(s.skip(base.len() as int + 1) == p);
}

} // verus!
