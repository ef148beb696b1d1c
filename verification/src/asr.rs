//! Transducer decoding: what a token file says, how far a step moves, and how
//! the pieces become words.
//!
//! A token-and-duration transducer emits both a token and a duration, and the
//! duration says how many encoder frames to skip.

use crate::text;
use crate::text::{chars_of, decimal_string, join, part, replace, split_lines, string_before, string_of, trimmed};
use crate::vad::Segment;
use vstd::prelude::*;

verus! {

/// How many duration bins the joiner has: zero to four frames.
pub const N_DURATIONS: usize = 5;

/// Guard against a duration-zero loop that never advances.
pub const MAX_SYMBOLS_PER_STEP: usize = 10;

/// The least audio worth decoding: 100 ms.
pub const MIN_DECODE: usize = 1600;

/// One line of a token file: everything before its last space, or all of it if
/// there is none. The piece itself may be a space.
pub open spec fn piece(line: Seq<char>) -> Seq<char>
    decreases line.len(),
{
    piece_before(line, line.len())
}

/// The part of a line before the last space among its first `k` characters.
pub open spec fn piece_before(line: Seq<char>, k: nat) -> Seq<char>
    decreases k,
{
    if k == 0 {
        line
    } else if line[k - 1] == ' ' {
        line.take(k - 1)
    } else {
        piece_before(line, (k - 1) as nat)
    }
}

/// The pieces of the lines that are not blank, in order.
pub open spec fn token_pieces(lines: Seq<Seq<char>>) -> Seq<Seq<char>>
    decreases lines.len(),
{
    if lines.len() == 0 {
        Seq::empty()
    } else if text::trim(lines.last()).len() == 0 {
        token_pieces(lines.drop_last())
    } else {
        token_pieces(lines.drop_last()).push(piece(lines.last()))
    }
}

fn line_piece(line: &[char]) -> (r: Vec<char>)
    ensures
        r@ == piece(line@),
{
    let mut k: usize = line.len();
    while k > 0
        invariant
            k <= line@.len(),
            piece(line@) == piece_before(line@, k as nat),
        decreases k,
    {
        if line[k - 1] == ' ' {
            proof {
                assert(line@.take(k - 1) == line@.subrange(0, k - 1));
            }
            return part(line, 0, k - 1);
        }
        k = k - 1;
    }
    proof {
        assert(line@.subrange(0, line@.len() as int) == line@);
    }
    part(line, 0, line.len())
}

/// Split a token file into its pieces, one per line.
///
/// The last token is the blank, so an empty file would put every later index out
/// of bounds: fail here, naming the file.
pub fn parse_tokens(text: &str, source: &str) -> (r: Result<Vec<String>, String>)
    ensures
        ({
            let pieces = token_pieces(text::lines(text@));
            match r {
                Ok(t) => pieces.len() > 0 && text::views(t@) == pieces,
                Err(e) => pieces.len() == 0 && e@ == source@ + " is empty"@,
            }
        }),
{
    let c: Vec<char> = chars_of(text);
    let ls: Vec<Vec<char>> = split_lines(c.as_slice());
    let ghost all = text::lines(text@);
    let mut out: Vec<String> = Vec::new();
    let mut i: usize = 0;
    proof {
        assert(all.take(0) == Seq::<Seq<char>>::empty());
        assert(text::views(out@) == Seq::<Seq<char>>::empty());
    }
    while i < ls.len()
        invariant
            i <= ls@.len(),
            text::seqs(ls@) == all,
            text::views(out@) == token_pieces(all.take(i as int)),
        decreases ls@.len() - i,
    {
        proof {
            assert(all.take(i + 1).drop_last() == all.take(i as int));
            assert(all.take(i + 1).last() == ls@[i as int]@);
        }
        let t: Vec<char> = trimmed(ls[i].as_slice());
        if t.len() > 0 {
            let p: Vec<char> = line_piece(ls[i].as_slice());
            let s: String = string_of(p.as_slice());
            proof {
                assert(text::views(out@.push(s)) == text::views(out@).push(s@));
            }
            out.push(s);
        }
        i = i + 1;
    }
    proof {
        assert(all.take(ls@.len() as int) == all);
        assert(text::views(out@).len() == out@.len());
    }
    if out.len() == 0 {
        let mut e: String = source.to_owned();
        e.append(" is empty");
        return Err(e);
    }
    Ok(out)
}

/// Check one joiner output before it is indexed, given which of its values are
/// finite.
///
/// The decode loop slices the token half and the duration half by position, so a
/// short output would read durations as tokens; and one value that is no number
/// turns every confidence into none.
pub fn check_joiner(finite: &[bool], n_tok: usize, n_dur: usize) -> (r: Result<(), String>)
    requires
        n_tok + n_dur <= usize::MAX,
    ensures
        ({
            let want = (n_tok + n_dur) as int;
            match r {
                Ok(()) => finite@.len() >= want && forall|i: int| 0 <= i < want ==> #[trigger] finite@[i],
                Err(e) => if finite@.len() < want {
                    e@ == "joiner output has "@ + text::decimal(finite@.len())
                        + " values, expected at least "@ + text::decimal(want as nat)
                } else {
                    &&& exists|i: int| 0 <= i < want && !#[trigger] finite@[i]
                    &&& e@ == "joiner output is not finite"@
                },
            }
        }),
{
    let want: usize = n_tok + n_dur;
    if finite.len() < want {
        let mut e: String = "joiner output has ".to_owned();
        e.append(decimal_string(finite.len() as u64).as_str());
        e.append(" values, expected at least ");
        e.append(decimal_string(want as u64).as_str());
        return Err(e);
    }
    let mut i: usize = 0;
    while i < want
        invariant
            i <= want <= finite@.len(),
            want == n_tok + n_dur,
            forall|j: int| 0 <= j < i ==> #[trigger] finite@[j],
        decreases want - i,
    {
        if !finite[i] {
            return Err("joiner output is not finite".to_owned());
        }
        i = i + 1;
    }
    Ok(())
}

/// A greedy decode in progress.
#[derive(Debug)]
pub struct Decode {
    /// The encoder frame being looked at.
    pub t: usize,
    /// Tokens emitted at this frame so far.
    pub symbols: usize,
    pub emitted: Vec<usize>,
}

/// Where a decode is after a joiner output, as plain numbers.
pub open spec fn moved(t: int, symbols: int, blank: bool, duration: int) -> (int, int) {
    let n = if blank {
        symbols
    } else {
        symbols + 1
    };
    if duration > 0 {
        (t + duration, 0)
    } else if blank || n >= MAX_SYMBOLS_PER_STEP {
        (t + 1, 0)
    } else {
        (t, n)
    }
}

impl Decode {
    pub open spec fn wf(&self) -> bool {
        self.symbols < MAX_SYMBOLS_PER_STEP
    }

    pub fn start() -> (d: Decode)
        ensures
            d.wf(),
            d.t == 0,
            d.symbols == 0,
            d.emitted@ == Seq::<usize>::empty(),
    {
        Decode { t: 0, symbols: 0, emitted: Vec::new() }
    }

    /// Whether there is another frame to look at.
    pub fn goes_on(&self, t_max: usize) -> (r: bool)
        ensures
            r == (self.t < t_max),
    {
        self.t < t_max
    }

    /// Take one joiner output: the winning token and the winning duration. A
    /// zero duration with no emission would spin forever, so it advances by one,
    /// and so does a frame that has emitted its fill. Says whether a token was
    /// emitted.
    pub fn step(&mut self, token: usize, blank: usize, duration: usize) -> (r: bool)
        requires
            old(self).wf(),
            duration < N_DURATIONS,
            old(self).t + N_DURATIONS <= usize::MAX,
        ensures
            final(self).wf(),
            r == (token != blank),
            final(self).emitted@ == (if r {
                old(self).emitted@.push(token)
            } else {
                old(self).emitted@
            }),
            ({
                let m = moved(
                    old(self).t as int,
                    old(self).symbols as int,
                    !r,
                    duration as int,
                );
                final(self).t == m.0 && final(self).symbols == m.1
            }),
    {
        let emits: bool = token != blank;
        if emits {
            self.emitted.push(token);
            self.symbols = self.symbols + 1;
        }
        if duration > 0 {
            self.t = self.t + duration;
            self.symbols = 0;
        } else if !emits || self.symbols >= MAX_SYMBOLS_PER_STEP {
            self.t = self.t + 1;
            self.symbols = 0;
        }
        emits
    }
}

/// Decoding always gets on: every joiner output moves it forward, so it ends
/// after finitely many of them whatever the model says.
pub proof fn decoding_always_gets_on(t: int, symbols: int, blank: bool, duration: int)
    requires
        0 <= symbols < MAX_SYMBOLS_PER_STEP,
        0 <= duration,
    ensures
        ({
            let m = moved(t, symbols, blank, duration);
            &&& m.0 * MAX_SYMBOLS_PER_STEP + m.1 > t * MAX_SYMBOLS_PER_STEP + symbols
            &&& 0 <= m.1 < MAX_SYMBOLS_PER_STEP
            &&& m.0 >= t
        }),
{
}

/// The pieces one after another.
pub open spec fn spelled(tokens: Seq<Seq<char>>, emitted: Seq<usize>) -> Seq<char>
    decreases emitted.len(),
{
    if emitted.len() == 0 {
        Seq::empty()
    } else {
        spelled(tokens, emitted.drop_last()) + text::replaced(
            tokens[emitted.last() as int],
            seq!['\u{2581}'],
            " "@,
        )
    }
}

/// The words a decode emitted: the pieces joined, the mark that opens a word
/// turned into a space, and no space at either end.
pub fn decoded_text(tokens: &[String], emitted: &[usize]) -> (r: String)
    requires
        forall|i: int| 0 <= i < emitted@.len() ==> #[trigger] emitted@[i] < tokens@.len(),
    ensures
        r@ == text::trim(spelled(text::views(tokens@), emitted@)),
{
    let ghost ts = text::views(tokens@);
    let mut mark: String = String::new();
    mark.push('\u{2581}');
    proof {
        assert(mark@ == seq!['\u{2581}']);
        assert(emitted@.take(0) == Seq::<usize>::empty());
    }
    let mut out: String = String::new();
    let mut i: usize = 0;
    while i < emitted.len()
        invariant
            forall|j: int| 0 <= j < emitted@.len() ==> #[trigger] emitted@[j] < tokens@.len(),
            i <= emitted@.len(),
            ts == text::views(tokens@),
            mark@ == seq!['\u{2581}'],
            out@ == spelled(ts, emitted@.take(i as int)),
        decreases emitted@.len() - i,
    {
        let k: usize = emitted[i];
        proof {
            assert(emitted@[i as int] < tokens@.len());
            assert(emitted@.take(i + 1).drop_last() == emitted@.take(i as int));
            assert(ts[k as int] == tokens@[k as int]@);
        }
        out.append(replace(tokens[k].as_str(), mark.as_str(), " ").as_str());
        i = i + 1;
    }
    proof {
        assert(emitted@.take(emitted@.len() as int) == emitted@);
    }
    let c: Vec<char> = chars_of(out.as_str());
    string_of(trimmed(c.as_slice()).as_slice())
}

/// The part of a recording of `n` samples a segment stands for, if it is long
/// enough to decode.
pub fn decodable(s: Segment, n: usize) -> (r: Option<(usize, usize)>)
    requires
        s.start <= s.end,
    ensures
        ({
            let from = if s.start < n {
                s.start
            } else {
                n
            };
            let to = if s.end < n {
                s.end
            } else {
                n
            };
            r == (if to - from >= MIN_DECODE {
                Some((from, to))
            } else {
                None
            })
        }),
{
    let from: usize = if s.start < n {
        s.start
    } else {
        n
    };
    let to: usize = if s.end < n {
        s.end
    } else {
        n
    };
    if to - from >= MIN_DECODE {
        Some((from, to))
    } else {
        None
    }
}

/// The texts that are not empty, in order.
pub open spec fn said(parts: Seq<Seq<char>>) -> Seq<Seq<char>>
    decreases parts.len(),
{
    if parts.len() == 0 {
        Seq::empty()
    } else if parts.last().len() == 0 {
        said(parts.drop_last())
    } else {
        said(parts.drop_last()).push(parts.last())
    }
}

/// What was said in all, given what each piece decoded to: a piece that decoded
/// to nothing leaves no trace.
pub fn joined_text(parts: &[String]) -> (r: String)
    ensures
        r@ == text::joined(said(text::views(parts@)), " "@),
{
    let ghost all = text::views(parts@);
    let mut kept: Vec<String> = Vec::new();
    let mut i: usize = 0;
    proof {
        assert(all.take(0) == Seq::<Seq<char>>::empty());
        assert(text::views(kept@) == Seq::<Seq<char>>::empty());
    }
    while i < parts.len()
        invariant
            i <= parts@.len(),
            all == text::views(parts@),
            text::views(kept@) == said(all.take(i as int)),
        decreases parts@.len() - i,
    {
        proof {
            assert(all.take(i + 1).drop_last() == all.take(i as int));
            assert(all.take(i + 1).last() == parts@[i as int]@);
        }
        if !parts[i].as_str().is_empty() {
            let s: String = parts[i].clone();
            proof {
                assert(text::views(kept@.push(s)) == text::views(kept@).push(s@));
            }
            kept.push(s);
        }
        i = i + 1;
    }
    proof {
        assert(all.take(parts@.len() as int) == all);
    }
    join(kept.as_slice(), " ")
}

/// How a long recording is cut for decoding: pieces of about thirty seconds.
pub const CHUNK: usize = 480000;

/// How far either side of a boundary a quiet place is looked for.
pub const SEARCH: usize = 32000;

/// How far apart the places looked at are.
pub const STRIDE: usize = 800;

/// Whether a recording is short enough to decode in one go.
pub fn fits_whole(n: usize) -> (r: bool)
    ensures
        r == (n <= CHUNK + SEARCH),
{
    n <= CHUNK + SEARCH
}

/// A long recording being cut.
#[derive(Debug)]
pub struct Splitter {
    /// Where it has been cut so far, starting at zero.
    pub cuts: Vec<usize>,
    /// The boundary that is being looked at.
    pub pos: usize,
}

/// The cuts go strictly forward from zero, and the boundary is one piece beyond
/// the last of them.
pub open spec fn forward_cuts(cuts: Seq<usize>, pos: int) -> bool {
    &&& cuts.len() > 0
    &&& cuts[0] == 0
    &&& forall|i: int, j: int| 0 <= i < j < cuts.len() ==> #[trigger] cuts[i] < #[trigger] cuts[j]
    &&& pos == cuts.last() + CHUNK
}

/// Where a window may start near a boundary: from `SEARCH` before it, every
/// `STRIDE` samples, as long as a tenth of a second still fits before `SEARCH`
/// after it or the end.
pub open spec fn window_start(pos: int, k: int) -> int {
    pos - SEARCH + k * STRIDE
}

pub open spec fn window_end(pos: int, n: int) -> int {
    if pos + SEARCH < n {
        pos + SEARCH
    } else {
        n
    }
}

/// How many places there are to look at near a boundary.
pub open spec fn window_count(pos: int, n: int) -> int {
    let room = window_end(pos, n) - (pos - SEARCH) - MIN_DECODE;
    if room <= 0 {
        0
    } else {
        (room + STRIDE - 1) / STRIDE as int
    }
}

impl Splitter {
    pub open spec fn wf(&self) -> bool {
        forward_cuts(self.cuts@, self.pos as int)
    }

    pub fn start() -> (s: Splitter)
        ensures
            s.wf(),
            s.cuts@ == seq![0usize],
            s.pos == CHUNK,
    {
        let mut cuts: Vec<usize> = Vec::new();
        cuts.push(0);
        proof {
            assert(cuts@ == seq![0usize]);
        }
        Splitter { cuts, pos: CHUNK }
    }

    /// The places to look at for the next cut, where the quiet of each tenth of a
    /// second is wanted; nothing once the boundary is beyond the end.
    pub fn windows(&self, n: usize) -> (r: Option<Vec<usize>>)
        requires
            self.wf(),
            n + CHUNK + SEARCH + MIN_DECODE <= usize::MAX,
        ensures
            r is Some <==> self.pos < n,
            r matches Some(v) ==> {
                &&& v@.len() == window_count(self.pos as int, n as int)
                &&& forall|k: int|
                    0 <= k < v@.len() ==> #[trigger] v@[k] == window_start(self.pos as int, k)
            },
    {
        if self.pos >= n {
            return None;
        }
        let lo: usize = self.pos - SEARCH;
        let hi: usize = if self.pos + SEARCH < n {
            self.pos + SEARCH
        } else {
            n
        };
        let mut out: Vec<usize> = Vec::new();
        let mut i: usize = lo;
        while i + MIN_DECODE < hi
            invariant
                self.pos < n,
                n + CHUNK + SEARCH + MIN_DECODE <= usize::MAX,
                lo == self.pos - SEARCH,
                hi == window_end(self.pos as int, n as int),
                hi <= n,
                i == lo + out@.len() * STRIDE,
                i <= hi + STRIDE,
                out@.len() > 0 ==> (i - STRIDE) + MIN_DECODE < hi,
                forall|k: int|
                    0 <= k < out@.len() ==> #[trigger] out@[k] == window_start(self.pos as int, k),
            decreases hi + STRIDE - i,
        {
            out.push(i);
            i = i + STRIDE;
        }
        proof {
            let room = hi - lo - MIN_DECODE;
            let m = out@.len() as int;
            assert(m * STRIDE >= room);
            if m > 0 {
                assert((m - 1) * STRIDE < room);
            }
            if room > 0 {
                assert(m == (room + STRIDE - 1) / STRIDE as int) by (nonlinear_arith)
                    requires
                        m * STRIDE >= room,
                        m == 0 || (m - 1) * STRIDE < room,
                        room > 0,
                        m >= 0,
                        STRIDE == 800,
                ;
            } else {
                assert(m == 0);
            }
        }
        Some(out)
    }

    /// Cut at the quietest place, the first of them if several are as quiet, or
    /// at the boundary if there was none to look at. `keys` orders the places by
    /// how loud they are; the greatest key is for a place nothing is known of.
    pub fn cut(&mut self, n: usize, keys: &[u32])
        requires
            old(self).wf(),
            old(self).pos < n,
            n + CHUNK + SEARCH + MIN_DECODE <= usize::MAX,
            keys@.len() == window_count(old(self).pos as int, n as int),
        ensures
            final(self).wf(),
            final(self).cuts@.drop_last() == old(self).cuts@,
            ({
                let best = crate::vad::least(keys@, 0, keys@.len() as int);
                final(self).cuts@.last() == (if keys@.len() == 0 || keys@[best] == u32::MAX {
                    old(self).pos as int
                } else {
                    window_start(old(self).pos as int, best) + MIN_DECODE / 2
                })
            }),
            final(self).cuts@.last() < n,
    {
        let mut best: usize = 0;
        let mut k: usize = 1;
        while k < keys.len()
            invariant
                keys@.len() > 0 ==> 1 <= k <= keys@.len() && best < k && best == crate::vad::least(
                    keys@,
                    0,
                    k as int,
                ),
                keys@.len() == 0 ==> k == 1,
            decreases keys@.len() - k,
        {
            if keys[k] < keys[best] {
                best = k;
            }
            k = k + 1;
        }
        let lo: usize = self.pos - SEARCH;
        proof {
            if keys@.len() > 0 {
                let room = window_end(self.pos as int, n as int) - lo - MIN_DECODE;
                assert(room > 0);
                assert((keys@.len() - 1) * STRIDE < room) by (nonlinear_arith)
                    requires
                        keys@.len() == (room + STRIDE - 1) / STRIDE as int,
                        room > 0,
                        STRIDE == 800,
                ;
                assert(best * STRIDE <= (keys@.len() - 1) * STRIDE) by (nonlinear_arith)
                    requires
                        best <= keys@.len() - 1,
                        STRIDE >= 0,
                ;
            }
        }
        let at: usize = if keys.len() == 0 || keys[best] == u32::MAX {
            self.pos
        } else {
            lo + best * STRIDE + MIN_DECODE / 2
        };
        let ghost was = self.cuts@;
        self.cuts.push(at);
        self.pos = at + CHUNK;
        proof {
            assert(self.cuts@.drop_last() == was);
            assert forall|i: int, j: int| 0 <= i < j < self.cuts@.len() implies #[trigger] self.cuts@[i]
                < #[trigger] self.cuts@[j] by {
                if j == was.len() {
                    assert(was[i] <= was.last()) by {
                        if i < was.len() - 1 {
                            assert(was[i] < was[was.len() - 1]);
                        }
                    }
                } else {
                    assert(was[i] < was[j]);
                }
            }
        }
    }

    /// The cuts, with the end of the recording as the last.
    pub fn finish(self, n: usize) -> (r: Vec<usize>)
        requires
            self.wf(),
        ensures
            r@ == self.cuts@.push(n),
    {
        let mut cuts: Vec<usize> = self.cuts;
        cuts.push(n);
        cuts
    }
}

/// A file of a model directory: its name begins with `prefix` and ends with
/// `.onnx`.
pub open spec fn is_model(name: Seq<char>, prefix: Seq<char>) -> bool {
    let suffix = ".onnx"@;
    &&& text::starts_with(name, prefix)
    &&& suffix.len() <= name.len()
    &&& name.skip(name.len() - suffix.len()) == suffix
}

/// Name `i` is a model file, and no model file sorts before it.
pub open spec fn first_model(names: Seq<Seq<char>>, prefix: Seq<char>, i: int) -> bool {
    &&& 0 <= i < names.len()
    &&& is_model(names[i], prefix)
    &&& forall|j: int|
        0 <= j < names.len() && is_model(#[trigger] names[j], prefix) ==> !text::before(
            names[j],
            names[i],
        )
}

fn named_model(name: &str, prefix: &str) -> (r: bool)
    ensures
        r == is_model(name@, prefix@),
{
    let c: Vec<char> = chars_of(name);
    let p: Vec<char> = chars_of(prefix);
    let s: Vec<char> = chars_of(".onnx");
    if !text::has_prefix(c.as_slice(), p.as_slice()) || s.len() > c.len() {
        return false;
    }
    let tail: Vec<char> = part(c.as_slice(), c.len() - s.len(), c.len());
    proof {
        assert(c@.skip(c@.len() - s@.len()) == tail@);
    }
    text::same(tail.as_slice(), s.as_slice())
}

/// Which file of a model directory holds the part of the model that `prefix`
/// names: the first by name.
pub fn find_model(names: &[String], prefix: &str, dir: &str) -> (r: Result<String, String>)
    ensures
        match r {
            Ok(p) => exists|i: int| #[trigger]
                first_model(text::views(names@), prefix@, i) && p@ == dir@ + "/"@ + text::views(
                    names@,
                )[i],
            Err(e) => (forall|j: int|
                0 <= j < names@.len() ==> !is_model(#[trigger] text::views(names@)[j], prefix@))
                && e@ == "no "@ + prefix@ + "*.onnx in "@ + dir@,
        },
{
    let ghost v = text::views(names@);
    let mut best: Option<usize> = None;
    let mut i: usize = 0;
    while i < names.len()
        invariant
            i <= names@.len(),
            v == text::views(names@),
            match best {
                Some(b) => b < i && is_model(v[b as int], prefix@) && forall|j: int|
                    0 <= j < i && is_model(#[trigger] v[j], prefix@) ==> !text::before(
                        v[j],
                        v[b as int],
                    ),
                None => forall|j: int| 0 <= j < i ==> !is_model(#[trigger] v[j], prefix@),
            },
        decreases names@.len() - i,
    {
        proof {
            assert(v[i as int] == names@[i as int]@);
            text::lemma_before_total(v[i as int], v[i as int]);
        }
        if named_model(names[i].as_str(), prefix) {
            let sooner: bool = match best {
                Some(b) => string_before(names[i].as_str(), names[b].as_str()),
                None => true,
            };
            proof {
                if best is Some {
                    let b = v[best->0 as int];
                    let x = v[i as int];
                    text::lemma_before_total(b, x);
                    assert forall|j: int|
                        0 <= j < i && is_model(#[trigger] v[j], prefix@) && sooner implies !text::before(
                        v[j],
                        x,
                    ) by {
                        if text::before(v[j], x) {
                            text::lemma_before_trans(v[j], x, b);
                        }
                    }
                }
            }
            if sooner {
                best = Some(i);
            }
        }
        i = i + 1;
    }
    match best {
        Some(b) => {
            let mut p: String = dir.to_owned();
            p.append("/");
            p.append(names[b].as_str());
            proof {
                assert(first_model(v, prefix@, b as int));
                assert(v[b as int] == names@[b as int]@);
            }
            Ok(p)
        },
        None => {
            let mut e: String = "no ".to_owned();
            e.append(prefix);
            e.append("*.onnx in ");
            e.append(dir);
            Err(e)
        },
    }
}

/// A piece is what stands before the last space of its line, or all of a line
/// without one.
pub proof fn a_piece_ends_at_the_last_space(a: Seq<char>, b: Seq<char>)
    requires
        !b.contains(' '),
    ensures
        piece(a + seq![' '] + b) == a,
        piece(b) == b,
{
    let s = a + seq![' '] + b;
    lemma_piece_before(s, s.len(), a.len());
    assert(s.take(a.len() as int) == a);
    lemma_no_space(b, b.len());
}

proof fn lemma_piece_before(s: Seq<char>, k: nat, at: nat)
    requires
        at < k <= s.len(),
        s[at as int] == ' ',
        forall|i: int| at < i < k ==> #[trigger] s[i] != ' ',
    ensures
        piece_before(s, k) == s.take(at as int),
    decreases k,
{
    if k - 1 > at {
        assert(s[k - 1] != ' ');
        lemma_piece_before(s, (k - 1) as nat, at);
    }
}

proof fn lemma_no_space(s: Seq<char>, k: nat)
    requires
        k <= s.len(),
        !s.contains(' '),
    ensures
        piece_before(s, k) == s,
    decreases k,
{
    if k > 0 {
        assert(s.contains(s[k - 1]));
        lemma_no_space(s, (k - 1) as nat);
    }
}

/// Every line that is not blank gives its piece, in order.
pub proof fn every_line_gives_its_piece(lines: Seq<Seq<char>>)
    ensures
        token_pieces(lines) == lines.filter(
            |l: Seq<char>| exists|i: int| 0 <= i < l.len() && !text::white_space(#[trigger] l[i]),
        ).map_values(|l: Seq<char>| piece(l)),
    decreases lines.len(),
{
    reveal(Seq::filter);
    let p = |l: Seq<char>| exists|i: int| 0 <= i < l.len() && !text::white_space(#[trigger] l[i]);
    let f = |l: Seq<char>| piece(l);
    if lines.len() > 0 {
        every_line_gives_its_piece(lines.drop_last());
        let l = lines.last();
        let r = text::trimming_takes_white_space_off_the_ends(l);
        if text::trim(l).len() > 0 {
            assert(!text::white_space(l[r.0]));
        } else if p(l) {
            let i = choose|i: int| 0 <= i < l.len() && !text::white_space(#[trigger] l[i]);
            assert(i < r.0 || r.1 <= i);
        }
        let front = lines.drop_last().filter(p);
        assert(front.push(l).map_values(f) == front.map_values(f).push(piece(l)));
    } else {
        assert(lines.map_values(f) == Seq::<Seq<char>>::empty());
    }
}

/// A decode moves on by the duration it was given; with none it stays for the next
/// symbol, unless there was no symbol or this was the tenth, when it moves on by one.
/// Whenever it moves, the symbols are counted afresh.
pub proof fn a_decode_moves_by_its_duration(t: int, symbols: int, blank: bool, duration: int)
    requires
        0 <= symbols < 10,
        0 <= duration,
    ensures
        duration > 0 ==> moved(t, symbols, blank, duration).0 - t == duration,
        duration == 0 && blank ==> moved(t, symbols, blank, duration).0 - t == 1,
        duration == 0 && !blank ==> (moved(t, symbols, blank, duration).0 - t == 1 <==> symbols
            == 9),
        moved(t, symbols, blank, duration).0 != t ==> moved(t, symbols, blank, duration).1 == 0,
        moved(t, symbols, blank, duration).0 == t ==> moved(t, symbols, blank, duration).1
            == symbols + 1,
{
}

proof fn lemma_one_character(s: Seq<char>, c: char)
    ensures
        text::replaced(s, seq![c], " "@) == s.map_values(
            |x: char|
                if x == c {
                    ' '
                } else {
                    x
                },
        ),
    decreases s.len(),
{
    reveal_strlit(" ");
    let f = |x: char|
        if x == c {
            ' '
        } else {
            x
        };
    if s.len() > 0 {
        lemma_one_character(s.drop_first(), c);
        assert(s.skip(1) == s.drop_first());
        assert(s.take(1) == seq![s[0]]);
        if s[0] == c {
            assert(text::starts_with(s, seq![c]));
            assert(" "@ + s.drop_first().map_values(f) == s.map_values(f));
        } else {
            if s.take(1) == seq![c] {
                assert(s.take(1)[0] == c);
            }
            assert(seq![s[0]] + s.drop_first().map_values(f) == s.map_values(f));
        }
    } else {
        assert(s.map_values(f) == s);
    }
}

/// What was emitted is spelled piece by piece, with a space for every mark that
/// stands for one.
pub proof fn pieces_are_spelled_in_order(
    tokens: Seq<Seq<char>>,
    a: Seq<usize>,
    e: usize,
    b: Seq<usize>,
)
    ensures
        spelled(tokens, Seq::<usize>::empty()) == Seq::<char>::empty(),
        spelled(tokens, seq![e]) == tokens[e as int].map_values(
            |x: char|
                if x == '\u{2581}' {
                    ' '
                } else {
                    x
                },
        ),
        spelled(tokens, a + b) == spelled(tokens, a) + spelled(tokens, b),
    decreases b.len(),
{
    lemma_one_character(tokens[e as int], '\u{2581}');
    let one = text::replaced(tokens[e as int], seq!['\u{2581}'], " "@);
    assert(seq![e].drop_last() == Seq::<usize>::empty());
    assert(spelled(tokens, Seq::<usize>::empty()) == Seq::<char>::empty());
    assert(spelled(tokens, seq![e]) == Seq::<char>::empty() + one);
    assert(Seq::<char>::empty() + one == one);
    if b.len() == 0 {
        assert(a + b == a);
        assert(spelled(tokens, a) + spelled(tokens, b) == spelled(tokens, a));
    } else {
        pieces_are_spelled_in_order(tokens, a, e, b.drop_last());
        assert((a + b).drop_last() == a + b.drop_last());
        let last = text::replaced(tokens[b.last() as int], seq!['\u{2581}'], " "@);
        assert(spelled(tokens, a) + spelled(tokens, b.drop_last()) + last == spelled(tokens, a) + (
        spelled(tokens, b.drop_last()) + last));
    }
}

/// Only what is not empty is said.
pub proof fn only_what_is_not_empty_is_said(parts: Seq<Seq<char>>)
    ensures
        said(parts) == parts.filter(|p: Seq<char>| p.len() > 0),
    decreases parts.len(),
{
    reveal(Seq::filter);
    if parts.len() > 0 {
        only_what_is_not_empty_is_said(parts.drop_last());
    }
}

/// There is a place to look at for as long as a tenth of a second fits behind it,
/// within two seconds of the boundary and before the end.
pub proof fn places_to_look_at_fit_a_tenth_of_a_second(pos: int, n: int, k: int)
    requires
        0 <= k,
    ensures
        k < window_count(pos, n) <==> {
            &&& pos - 32000 + k * 800 + 1600 < pos + 32000
            &&& pos - 32000 + k * 800 + 1600 < n
        },
        window_start(pos, k) == pos - 32000 + k * 800,
{
}

/// A model file is any name with the prefix in front and the ending behind.
pub proof fn a_model_has_its_prefix_and_ending(prefix: Seq<char>, middle: Seq<char>)
    ensures
        is_model(prefix + middle + ".onnx"@, prefix),
        forall|name: Seq<char>| #[trigger]
            is_model(name, prefix) ==> name.take(prefix.len() as int) == prefix,
{
    let name = prefix + middle + ".onnx"@;
    assert(name.take(prefix.len() as int) == prefix);
    assert(name.skip(name.len() - ".onnx"@.len()) == ".onnx"@);
}

} // verus!
