//! Speaker diarization — who spoke when, within one track.
//!
//! A segmentation model says which parts of a window belong to each of its local
//! speakers; an embedding of each (window, local speaker) is clustered over the
//! whole recording to recover an identity. What is here is everything but the
//! two models and the floating point distances: how the windows are laid out,
//! which fragments are worth embedding, which clusters merge, and how the windows
//! vote on each frame.

use vstd::prelude::*;

verus! {

/// The segmentation model's window, in samples.
pub const WINDOW: usize = 160000;

/// Samples covered by one output frame.
pub const SHIFT: usize = 270;

/// About half a window, rounded down to a whole number of frames so window-local
/// frame indices map onto a single global grid without drift.
pub const HOP: usize = (WINDOW / 2 / SHIFT) * SHIFT;

pub const N_CLASSES: usize = 7;

pub const N_LOCAL: usize = 3;

/// A local speaker needs at least this much audio in a window before its
/// embedding is worth clustering.
pub const MIN_EMBED: usize = 16000;

/// A stretch of one speaker's audio, in samples, labelled with a zero-based
/// speaker index local to this recording.
#[derive(Debug, Clone, Copy, PartialEq, Eq, Structural)]
pub struct Span {
    pub start: usize,
    pub end: usize,
    pub speaker: usize,
}

/// Which local speakers a class stands for: nobody, one of three, or a pair,
/// enumerated by size.
pub open spec fn subset(class: int) -> Seq<usize> {
    if class == 0 {
        seq![]
    } else if class <= 3 {
        seq![(class - 1) as usize]
    } else if class == 4 {
        seq![0, 1]
    } else if class == 5 {
        seq![0, 2]
    } else {
        seq![1, 2]
    }
}

/// The local speakers a class stands for.
pub fn powerset(class: usize) -> (r: Vec<usize>)
    requires
        class < N_CLASSES,
    ensures
        r@ == subset(class as int),
{
    let mut r: Vec<usize> = Vec::new();
    if class == 0 {
    } else if class <= 3 {
        r.push(class - 1);
    } else if class == 4 {
        r.push(0);
        r.push(1);
    } else if class == 5 {
        r.push(0);
        r.push(2);
    } else {
        r.push(1);
        r.push(2);
    }
    proof {
        assert(r@ == subset(class as int));
    }
    r
}

/// No two classes stand for the same local speakers.
pub proof fn classes_differ(a: int, b: int)
    requires
        0 <= a < b < N_CLASSES,
    ensures
        subset(a) != subset(b),
{
    if subset(a) == subset(b) {
        assert(subset(a).len() == subset(b).len());
        assert(subset(a)[0] == subset(b)[0]);
        if subset(a).len() == 2 {
            assert(subset(a)[1] == subset(b)[1]);
        }
    }
}

/// Every set of one or two local speakers has its class.
pub proof fn small_sets_have_a_class(x: usize, y: usize)
    requires
        x < y < N_LOCAL,
    ensures
        exists|c: int| 0 <= c < N_CLASSES && #[trigger] subset(c) == seq![x, y],
        exists|c: int| 0 <= c < N_CLASSES && #[trigger] subset(c) == seq![x],
        exists|c: int| 0 <= c < N_CLASSES && #[trigger] subset(c) == seq![y],
{
    assert(subset(x + 1) == seq![x]);
    assert(subset(y + 1) == seq![y]);
    if x == 0 && y == 1 {
        assert(subset(4) == seq![x, y]);
    } else if x == 0 {
        assert(subset(5) == seq![x, y]);
    } else {
        assert(subset(6) == seq![x, y]);
    }
}

/// Windows land on frame boundaries.
pub proof fn hops_are_whole_frames(k: int)
    ensures
        (k * HOP) % SHIFT as int == 0,
        HOP < WINDOW,
{
    assert(HOP == 79920);
    assert((k * 79920) % 270 == 0) by (nonlinear_arith);
}

/// The windows over `n` samples from `start` on: each a window long, half a
/// window after the one before it, the last one ending at the end.
pub open spec fn windows_from(start: int, n: int) -> Seq<(usize, usize)>
    decreases n - start,
{
    if start + WINDOW >= n {
        seq![(start as usize, n as usize)]
    } else {
        seq![(start as usize, (start + WINDOW) as usize)] + windows_from(start + HOP, n)
    }
}

/// The windows a recording is looked at through; none if it is too short for
/// anybody to be told apart.
pub fn windows(n: usize) -> (r: Vec<(usize, usize)>)
    requires
        n + WINDOW <= usize::MAX,
    ensures
        r@ == (if n < MIN_EMBED {
            Seq::empty()
        } else {
            windows_from(0, n as int)
        }),
{
    let mut out: Vec<(usize, usize)> = Vec::new();
    if n < MIN_EMBED {
        proof {
            assert(out@ == Seq::<(usize, usize)>::empty());
        }
        return out;
    }
    let mut start: usize = 0;
    proof {
        assert(out@ + windows_from(0, n as int) == windows_from(0, n as int));
    }
    while start + WINDOW < n
        invariant
            n + WINDOW <= usize::MAX,
            start <= n,
            out@ + windows_from(start as int, n as int) == windows_from(0, n as int),
        decreases n - start,
    {
        let ghost was = out@;
        out.push((start, start + WINDOW));
        proof {
            assert(out@ + windows_from(start + HOP, n as int) == was + windows_from(
                start as int,
                n as int,
            ));
        }
        start = start + HOP;
    }
    let ghost was = out@;
    out.push((start, n));
    proof {
        assert(out@ == was + windows_from(start as int, n as int));
    }
    out
}

/// A window of the list holds sample `x`.
pub open spec fn seen(windows: Seq<(usize, usize)>, x: int) -> bool {
    exists|i: int| 0 <= i < windows.len() && (#[trigger] windows[i]).0 <= x < windows[i].1
}

/// Every sample of a recording is in some window, and no window reaches beyond
/// it.
pub proof fn windows_cover_everything(start: int, n: int, x: int)
    requires
        0 <= start <= x < n <= usize::MAX,
    ensures
        forall|i: int|
            0 <= i < windows_from(start, n).len() ==> start <= (
            #[trigger] windows_from(start, n)[i]).0 <= windows_from(start, n)[i].1 <= n,
        seen(windows_from(start, n), x),
    decreases n - start,
{
    let all = windows_from(start, n);
    if start + WINDOW >= n {
        assert(all[0].0 <= x < all[0].1);
    } else {
        let rest = windows_from(start + HOP, n);
        let y = if x < start + HOP {
            start + HOP
        } else {
            x
        };
        windows_cover_everything(start + HOP, n, y);
        assert forall|i: int| 0 <= i < all.len() implies start <= (#[trigger] all[i]).0
            <= all[i].1 <= n by {
            if i > 0 {
                assert(all[i] == rest[i - 1]);
            }
        }
        if x < start + WINDOW {
            assert(all[0].0 <= x < all[0].1);
        } else {
            let i = choose|i: int| 0 <= i < rest.len() && (#[trigger] rest[i]).0 <= x < rest[i].1;
            assert(all[i + 1] == rest[i]);
        }
    }
}

/// The frames of a window that look at real audio rather than at the padding.
pub fn valid_frames(start: usize, end: usize, n_classes: usize) -> (r: usize)
    requires
        start <= end,
    ensures
        r == (if (end - start) / SHIFT as int <= n_classes {
            (end - start) / SHIFT as int
        } else {
            n_classes as int
        }),
{
    let k: usize = (end - start) / SHIFT;
    if k <= n_classes {
        k
    } else {
        n_classes
    }
}

/// The global frames among the first of a window in which a local speaker is
/// active.
pub open spec fn frames_of(classes: Seq<usize>, base: int, speaker: usize) -> Seq<usize>
    decreases classes.len(),
{
    if classes.len() == 0 {
        Seq::empty()
    } else {
        let rest = frames_of(classes.drop_last(), base, speaker);
        if subset(classes.last() as int).contains(speaker) {
            rest.push((base + classes.len() - 1) as usize)
        } else {
            rest
        }
    }
}

/// Whether that many frames are enough audio for an embedding.
pub open spec fn enough(frames: nat) -> bool {
    frames * SHIFT >= MIN_EMBED
}

/// The frames in which a local speaker of a window is active, if there are enough
/// of them to embed. `classes` holds the class of each frame that looks at real
/// audio, and `start` is where the window begins.
pub fn candidate(classes: &[usize], start: usize, speaker: usize) -> (r: Option<Vec<usize>>)
    requires
        forall|f: int| 0 <= f < classes@.len() ==> #[trigger] classes@[f] < N_CLASSES,
        start + classes@.len() * SHIFT <= usize::MAX,
    ensures
        ({
            let frames = frames_of(classes@, start as int / SHIFT as int, speaker);
            match r {
                Some(v) => v@ == frames && enough(frames.len()),
                None => !enough(frames.len()),
            }
        }),
{
    let base: usize = start / SHIFT;
    let mut out: Vec<usize> = Vec::new();
    let mut f: usize = 0;
    proof {
        assert(classes@.take(0) == Seq::<usize>::empty());
    }
    while f < classes.len()
        invariant
            forall|f: int| 0 <= f < classes@.len() ==> #[trigger] classes@[f] < N_CLASSES,
            start + classes@.len() * SHIFT <= usize::MAX,
            base == start as int / SHIFT as int,
            f <= classes@.len(),
            out@.len() <= f,
            out@ == frames_of(classes@.take(f as int), base as int, speaker),
        decreases classes@.len() - f,
    {
        proof {
            assert(classes@.take(f + 1).drop_last() == classes@.take(f as int));
        }
        let s: Vec<usize> = powerset(classes[f]);
        let mut has: bool = false;
        let mut i: usize = 0;
        while i < s.len()
            invariant
                i <= s@.len(),
                has == s@.take(i as int).contains(speaker),
            decreases s@.len() - i,
        {
            proof {
                let next = s@.take(i + 1);
                assert(next == s@.take(i as int).push(s@[i as int]));
                if has {
                    let w = s@.take(i as int).index_of(speaker);
                    assert(next[w] == speaker);
                }
                if s@[i as int] == speaker {
                    assert(next[i as int] == speaker);
                }
                if next.contains(speaker) && s@[i as int] != speaker {
                    let w = next.index_of(speaker);
                    assert(s@.take(i as int)[w] == speaker);
                }
            }
            if s[i] == speaker {
                has = true;
            }
            i = i + 1;
        }
        proof {
            assert(s@.take(s@.len() as int) == s@);
        }
        if has {
            out.push(base + f);
        }
        f = f + 1;
    }
    proof {
        assert(classes@.take(classes@.len() as int) == classes@);
    }
    if out.len() * SHIFT >= MIN_EMBED {
        Some(out)
    } else {
        None
    }
}

/// The samples of a frame in a recording of `n`; empty beyond its end.
pub fn frame_samples(frame: usize, n: usize) -> (r: (usize, usize))
    requires
        (frame + 1) * SHIFT <= usize::MAX,
    ensures
        r.0 == frame * SHIFT,
        r.1 == frame_end(frame as int, n as int),
{
    let b: usize = (frame + 1) * SHIFT;
    (frame * SHIFT, if b < n {
        b
    } else {
        n
    })
}

pub open spec fn frame_end(frame: int, n: int) -> int {
    if (frame + 1) * SHIFT < n {
        (frame + 1) * SHIFT
    } else {
        n
    }
}

/// Fragments being merged into speakers, closest two first.
#[derive(Debug)]
pub struct Clusters {
    /// Which surviving fragment each fragment belongs to.
    pub owner: Vec<usize>,
    /// Whether a fragment still stands for a cluster of its own.
    pub active: Vec<bool>,
}

/// Every fragment belongs to a survivor, and a survivor to itself.
pub open spec fn owned(owner: Seq<usize>, active: Seq<bool>) -> bool {
    &&& owner.len() == active.len()
    &&& forall|k: int|
        0 <= k < owner.len() ==> (#[trigger] owner[k]) < owner.len() && active[owner[k] as int]
    &&& forall|k: int| 0 <= k < owner.len() && #[trigger] active[k] ==> owner[k] == k
}

/// `i` and `j` are two clusters that can merge.
pub open spec fn pair(active: Seq<bool>, i: int, j: int) -> bool {
    0 <= i < j < active.len() && active[i] && active[j]
}

/// One pair is looked at before another.
pub open spec fn sooner(a: int, b: int, i: int, j: int) -> bool {
    a < i || (a == i && b < j)
}

/// How far apart two clusters are, as a key that orders distances; the greatest
/// key is for a distance that is no number.
pub open spec fn key_of(keys: Seq<Vec<u32>>, i: int, j: int) -> u32 {
    keys[i]@[j]
}

/// `(i, j)` is the closest pair, the first of them if several are as close.
pub open spec fn closest_pair(active: Seq<bool>, keys: Seq<Vec<u32>>, i: int, j: int) -> bool {
    &&& pair(active, i, j)
    &&& key_of(keys, i, j) < u32::MAX
    &&& forall|a: int, b: int| #[trigger]
        pair(active, a, b) ==> key_of(keys, i, j) <= key_of(keys, a, b) && (sooner(a, b, i, j)
            ==> key_of(keys, i, j) < key_of(keys, a, b))
}

pub open spec fn square(keys: Seq<Vec<u32>>, n: nat) -> bool {
    &&& keys.len() == n
    &&& forall|i: int| 0 <= i < n ==> (#[trigger] keys[i])@.len() == n
}

impl Clusters {
    pub open spec fn wf(&self) -> bool {
        owned(self.owner@, self.active@)
    }

    /// Every fragment on its own.
    pub fn new(n: usize) -> (c: Clusters)
        ensures
            c.wf(),
            c.owner@.len() == n,
            forall|k: int| 0 <= k < n ==> #[trigger] c.owner@[k] == k,
            forall|k: int| 0 <= k < n ==> #[trigger] c.active@[k],
    {
        let mut owner: Vec<usize> = Vec::new();
        let mut active: Vec<bool> = Vec::new();
        let mut k: usize = 0;
        while k < n
            invariant
                k <= n,
                owner@.len() == k,
                active@.len() == k,
                forall|i: int| 0 <= i < k ==> #[trigger] owner@[i] == i,
                forall|i: int| 0 <= i < k ==> #[trigger] active@[i],
            decreases n - k,
        {
            owner.push(k);
            active.push(true);
            k = k + 1;
        }
        Clusters { owner, active }
    }

    /// The next pair to merge: the closest two, unless they are further apart
    /// than the threshold.
    pub fn next(&self, keys: &[Vec<u32>], threshold: u32) -> (r: Option<(usize, usize)>)
        requires
            self.wf(),
            square(keys@, self.owner@.len()),
        ensures
            match r {
                Some((i, j)) => closest_pair(self.active@, keys@, i as int, j as int) && key_of(
                    keys@,
                    i as int,
                    j as int,
                ) <= threshold,
                None => forall|a: int, b: int| #[trigger]
                    pair(self.active@, a, b) ==> key_of(keys@, a, b) == u32::MAX || key_of(
                        keys@,
                        a,
                        b,
                    ) > threshold,
            },
    {
        let n: usize = self.owner.len();
        let mut best: Option<(usize, usize)> = None;
        let mut least: u32 = u32::MAX;
        let mut i: usize = 0;
        while i < n
            invariant
                n == self.owner@.len(),
                self.wf(),
                square(keys@, n as nat),
                i <= n,
                best_so_far(self.active@, keys@, best, least, i as int, i + 1),
            decreases n - i,
        {
            let row: &Vec<u32> = &keys[i];
            let mut j: usize = i + 1;
            while j < n
                invariant
                    n == self.owner@.len(),
                    self.wf(),
                    square(keys@, n as nat),
                    i < j <= n,
                    row@ == keys@[i as int]@,
                    best_so_far(self.active@, keys@, best, least, i as int, j as int),
                decreases n - j,
            {
                if self.active[i] && self.active[j] && row[j] < least {
                    best = Some((i, j));
                    least = row[j];
                }
                j = j + 1;
            }
            i = i + 1;
        }
        match best {
            Some((a, b)) => {
                if least <= threshold {
                    Some((a, b))
                } else {
                    None
                }
            },
            None => None,
        }
    }

    /// Make one cluster of two. Everything that belonged to the second now
    /// belongs to the first.
    pub fn merge(&mut self, i: usize, j: usize)
        requires
            old(self).wf(),
            pair(old(self).active@, i as int, j as int),
        ensures
            final(self).wf(),
            final(self).active@ == old(self).active@.update(j as int, false),
            final(self).owner@ == old(self).owner@.map_values(
                |o: usize|
                    if o == j {
                        i
                    } else {
                        o
                    },
            ),
    {
        let ghost was = self.owner@;
        let ghost on = self.active@;
        let n: usize = self.owner.len();
        self.active.set(j, false);
        let mut k: usize = 0;
        while k < n
            invariant
                owned(was, on),
                pair(on, i as int, j as int),
                n == was.len(),
                k <= n,
                self.active@ == on.update(j as int, false),
                self.owner@.len() == n,
                forall|m: int| k <= m < n ==> #[trigger] self.owner@[m] == was[m],
                forall|m: int|
                    0 <= m < k ==> #[trigger] self.owner@[m] == (if was[m] == j {
                        i
                    } else {
                        was[m]
                    }),
            decreases n - k,
        {
            if self.owner[k] == j {
                self.owner.set(k, i);
            }
            k = k + 1;
        }
        proof {
            assert(self.owner@ == was.map_values(
                |o: usize|
                    if o == j {
                        i
                    } else {
                        o
                    },
            ));
            assert forall|k: int| 0 <= k < n implies (#[trigger] self.owner@[k]) < n
                && self.active@[self.owner@[k] as int] by {
                assert(was[k] < n && on[was[k] as int]);
            }
            assert forall|k: int| 0 <= k < n && #[trigger] self.active@[k] implies self.owner@[k]
                == k by {
                assert(on[k]);
                assert(was[k] == k);
            }
        }
    }

    /// A speaker for each fragment, numbered in the order they first appear, so
    /// speaker zero is whoever spoke first.
    pub fn labels(&self) -> (r: Vec<usize>)
        ensures
            numbered(self.owner@, r@),
    {
        let mut seen: Vec<usize> = Vec::new();
        let mut out: Vec<usize> = Vec::new();
        let mut k: usize = 0;
        proof {
            assert(self.owner@.take(0) == Seq::<usize>::empty());
        }
        while k < self.owner.len()
            invariant
                k <= self.owner@.len(),
                out@.len() == k,
                seen@.len() <= k,
                seen@ == distinct(self.owner@.take(k as int)),
                forall|m: int|
                    0 <= m < k ==> #[trigger] out@[m] < seen@.len() && seen@[out@[m] as int]
                        == self.owner@[m],
            decreases self.owner@.len() - k,
        {
            let o: usize = self.owner[k];
            let mut i: usize = 0;
            while i < seen.len() && seen[i] != o
                invariant
                    i <= seen@.len(),
                    forall|m: int| 0 <= m < i ==> #[trigger] seen@[m] != o,
                decreases seen@.len() - i,
            {
                i = i + 1;
            }
            let ghost was = seen@;
            proof {
                assert(self.owner@.take(k + 1).drop_last() == self.owner@.take(k as int));
                if i < was.len() {
                    assert(was[i as int] == o);
                    assert(was.contains(o));
                } else {
                    assert(!was.contains(o));
                }
            }
            if i == seen.len() {
                seen.push(o);
            }
            out.push(i);
            k = k + 1;
        }
        proof {
            assert(self.owner@.take(self.owner@.len() as int) == self.owner@);
        }
        out
    }
}

/// The best pair among those looked at before `(i, j)`.
spec fn best_so_far(
    active: Seq<bool>,
    keys: Seq<Vec<u32>>,
    best: Option<(usize, usize)>,
    least: u32,
    i: int,
    j: int,
) -> bool {
    match best {
        Some((x, y)) => {
            &&& pair(active, x as int, y as int)
            &&& sooner(x as int, y as int, i, j)
            &&& key_of(keys, x as int, y as int) == least
            &&& least < u32::MAX
            &&& forall|a: int, b: int| #[trigger]
                pair(active, a, b) && sooner(a, b, i, j) ==> least <= key_of(keys, a, b) && (
                sooner(a, b, x as int, y as int) ==> least < key_of(keys, a, b))
        },
        None => {
            &&& least == u32::MAX
            &&& forall|a: int, b: int| #[trigger]
                pair(active, a, b) && sooner(a, b, i, j) ==> key_of(keys, a, b) == u32::MAX
        },
    }
}

/// The different values of a sequence, in the order they first appear.
pub open spec fn distinct(s: Seq<usize>) -> Seq<usize>
    decreases s.len(),
{
    if s.len() == 0 {
        Seq::empty()
    } else {
        let rest = distinct(s.drop_last());
        if rest.contains(s.last()) {
            rest
        } else {
            rest.push(s.last())
        }
    }
}

/// Each element's label is where its value stands among the different ones.
pub open spec fn numbered(owner: Seq<usize>, labels: Seq<usize>) -> bool {
    &&& labels.len() == owner.len()
    &&& forall|k: int|
        0 <= k < owner.len() ==> (#[trigger] labels[k]) < distinct(owner).len() && distinct(
            owner,
        )[labels[k] as int] == owner[k]
}

proof fn lemma_distinct(s: Seq<usize>)
    ensures
        forall|i: int, j: int|
            0 <= i < j < distinct(s).len() ==> #[trigger] distinct(s)[i] != #[trigger] distinct(
                s,
            )[j],
        distinct(s).len() <= s.len(),
    decreases s.len(),
{
    if s.len() > 0 {
        lemma_distinct(s.drop_last());
        let rest = distinct(s.drop_last());
        if !rest.contains(s.last()) {
            assert forall|i: int, j: int| 0 <= i < j < distinct(s).len() implies #[trigger] distinct(
                s,
            )[i] != #[trigger] distinct(s)[j] by {
                if j == rest.len() {
                    assert(rest[i] != s.last());
                } else {
                    assert(rest[i] != rest[j]);
                }
            }
        }
    }
}

/// Two fragments get the same speaker exactly when they were merged, and the
/// first fragment is speaker zero.
pub proof fn labels_are_the_clusters(owner: Seq<usize>, labels: Seq<usize>, a: int, b: int)
    requires
        numbered(owner, labels),
        0 <= a < owner.len(),
        0 <= b < owner.len(),
    ensures
        labels[a] == labels[b] <==> owner[a] == owner[b],
        labels[0] == 0,
{
    lemma_distinct(owner);
    lemma_first_label(owner);
    assert(distinct(owner)[labels[0] as int] == owner[0]);
    assert(distinct(owner)[labels[a] as int] == owner[a]);
    assert(distinct(owner)[labels[b] as int] == owner[b]);
}

proof fn lemma_first_label(s: Seq<usize>)
    requires
        s.len() > 0,
    ensures
        distinct(s).len() > 0,
        distinct(s)[0] == s[0],
    decreases s.len(),
{
    if s.len() > 1 {
        lemma_first_label(s.drop_last());
    } else {
        assert(distinct(s.drop_last()) == Seq::<usize>::empty());
    }
}

/// How often a frame is among a fragment's.
pub open spec fn times(frames: Seq<usize>, f: int) -> nat
    decreases frames.len(),
{
    if frames.len() == 0 {
        0
    } else {
        times(frames.drop_last(), f) + (if frames.last() == f {
            1nat
        } else {
            0nat
        })
    }
}

/// How many votes a speaker has at a frame: one from each of its fragments that
/// is active there.
pub open spec fn votes(cands: Seq<Vec<usize>>, labels: Seq<usize>, f: int, k: int) -> nat
    decreases cands.len(),
{
    if cands.len() == 0 {
        0
    } else {
        votes(cands.drop_last(), labels, f, k) + (if labels[cands.len() - 1] == k {
            times(cands.last()@, f)
        } else {
            0
        })
    }
}

/// The frames of all fragments together.
pub open spec fn claims(cands: Seq<Vec<usize>>) -> nat
    decreases cands.len(),
{
    if cands.len() == 0 {
        0
    } else {
        claims(cands.drop_last()) + cands.last()@.len()
    }
}

/// How many speakers there are.
pub open spec fn speakers(labels: Seq<usize>) -> int
    decreases labels.len(),
{
    if labels.len() == 0 {
        0
    } else {
        let rest = speakers(labels.drop_last());
        if labels.last() >= rest {
            labels.last() + 1
        } else {
            rest
        }
    }
}

/// Who among the first `n` speakers has most votes at a frame, the last of them
/// if several have as many.
pub open spec fn leader(cands: Seq<Vec<usize>>, labels: Seq<usize>, f: int, n: int) -> int
    decreases n,
{
    if n <= 1 {
        0
    } else {
        let b = leader(cands, labels, f, n - 1);
        if votes(cands, labels, f, n - 1) >= votes(cands, labels, f, b) {
            n - 1
        } else {
            b
        }
    }
}

/// Who speaks at a frame, if anybody does.
pub open spec fn speaks(cands: Seq<Vec<usize>>, labels: Seq<usize>, f: int) -> Option<usize> {
    let k = leader(cands, labels, f, speakers(labels));
    if votes(cands, labels, f, k) == 0 {
        None
    } else {
        Some(k as usize)
    }
}

proof fn lemma_speakers(labels: Seq<usize>)
    ensures
        speakers(labels) >= 0,
        speakers(labels) <= usize::MAX + 1,
        forall|i: int| 0 <= i < labels.len() ==> #[trigger] labels[i] < speakers(labels),
    decreases labels.len(),
{
    if labels.len() > 0 {
        lemma_speakers(labels.drop_last());
        assert forall|i: int| 0 <= i < labels.len() implies #[trigger] labels[i] < speakers(
            labels,
        ) by {
            if i < labels.len() - 1 {
                assert(labels.drop_last()[i] == labels[i]);
            }
        }
    }
}

proof fn lemma_times_bound(frames: Seq<usize>, f: int)
    ensures
        times(frames, f) <= frames.len(),
    decreases frames.len(),
{
    if frames.len() > 0 {
        lemma_times_bound(frames.drop_last(), f);
    }
}

proof fn lemma_votes_bound(cands: Seq<Vec<usize>>, labels: Seq<usize>, f: int, k: int)
    ensures
        votes(cands, labels, f, k) <= claims(cands),
    decreases cands.len(),
{
    if cands.len() > 0 {
        lemma_votes_bound(cands.drop_last(), labels, f, k);
        lemma_times_bound(cands.last()@, f);
    }
}

proof fn lemma_claims_grow(cands: Seq<Vec<usize>>, c: int)
    requires
        0 <= c <= cands.len(),
    ensures
        claims(cands.take(c)) <= claims(cands),
    decreases cands.len(),
{
    if c == cands.len() {
        assert(cands.take(c) == cands);
    } else {
        lemma_claims_grow(cands.drop_last(), c);
        assert(cands.drop_last().take(c) == cands.take(c));
    }
}

/// Whoever leads has at least as many votes as anybody, and more than anybody
/// after them.
pub proof fn the_leader_leads(
    cands: Seq<Vec<usize>>,
    labels: Seq<usize>,
    f: int,
    n: int,
    k: int,
)
    requires
        0 <= k < n,
    ensures
        0 <= leader(cands, labels, f, n) < n,
        votes(cands, labels, f, k) <= votes(cands, labels, f, leader(cands, labels, f, n)),
        k > leader(cands, labels, f, n) ==> votes(cands, labels, f, k) < votes(
            cands,
            labels,
            f,
            leader(cands, labels, f, n),
        ),
    decreases n,
{
    if n > 1 {
        if k < n - 1 {
            the_leader_leads(cands, labels, f, n - 1, k);
        } else {
            the_leader_leads(cands, labels, f, n - 1, 0);
        }
    }
}

/// The votes cast at every frame: row by row, one column per speaker.
fn count_votes(cands: &[Vec<usize>], labels: &[usize], n_frames: usize, n: usize) -> (r: Vec<
    Vec<u64>,
>)
    requires
        labels@.len() == cands@.len(),
        forall|i: int| 0 <= i < labels@.len() ==> #[trigger] labels@[i] < n,
        claims(cands@) <= u64::MAX,
    ensures
        r@.len() == n_frames,
        forall|f: int| 0 <= f < n_frames ==> (#[trigger] r@[f])@.len() == n,
        forall|f: int, k: int|
            0 <= f < n_frames && 0 <= k < n ==> #[trigger] r@[f]@[k] == votes(cands@, labels@, f, k),
{
    let mut rows: Vec<Vec<u64>> = Vec::new();
    let mut f: usize = 0;
    while f < n_frames
        invariant
            f <= n_frames,
            rows@.len() == f,
            forall|g: int| 0 <= g < f ==> (#[trigger] rows@[g])@.len() == n,
            forall|g: int, k: int| 0 <= g < f && 0 <= k < n ==> #[trigger] rows@[g]@[k] == 0,
        decreases n_frames - f,
    {
        let row: Vec<u64> = vec![0; n];
        rows.push(row);
        f = f + 1;
    }
    let mut c: usize = 0;
    proof {
        assert(cands@.take(0) == Seq::<Vec<usize>>::empty());
    }
    while c < cands.len()
        invariant
            labels@.len() == cands@.len(),
            forall|i: int| 0 <= i < labels@.len() ==> #[trigger] labels@[i] < n,
            claims(cands@) <= u64::MAX,
            c <= cands@.len(),
            rows@.len() == n_frames,
            forall|g: int| 0 <= g < n_frames ==> (#[trigger] rows@[g])@.len() == n,
            forall|g: int, k: int|
                0 <= g < n_frames && 0 <= k < n ==> #[trigger] rows@[g]@[k] == votes(
                    cands@.take(c as int),
                    labels@,
                    g,
                    k,
                ),
        decreases cands@.len() - c,
    {
        let k: usize = labels[c];
        let frames: &Vec<usize> = &cands[c];
        let ghost before = cands@.take(c as int);
        let mut i: usize = 0;
        proof {
            assert(frames@.take(0) == Seq::<usize>::empty());
            assert(cands@.take(c + 1).drop_last() == before);
            assert(cands@.take(c + 1).last() == cands@[c as int]);
        }
        while i < frames.len()
            invariant
                labels@.len() == cands@.len(),
                c < cands@.len(),
                k == labels@[c as int],
                k < n,
                frames@ == cands@[c as int]@,
                before == cands@.take(c as int),
                claims(cands@) <= u64::MAX,
                cands@.take(c + 1).drop_last() == before,
                cands@.take(c + 1).last() == cands@[c as int],
                i <= frames@.len(),
                rows@.len() == n_frames,
                forall|g: int| 0 <= g < n_frames ==> (#[trigger] rows@[g])@.len() == n,
                forall|g: int, m: int|
                    0 <= g < n_frames && 0 <= m < n ==> #[trigger] rows@[g]@[m] == votes(
                        before,
                        labels@,
                        g,
                        m,
                    ) + (if m == k {
                        times(frames@.take(i as int), g)
                    } else {
                        0
                    }),
            decreases frames@.len() - i,
        {
            let g: usize = frames[i];
            proof {
                assert(frames@.take(i + 1).drop_last() == frames@.take(i as int));
                assert(frames@.take(i + 1).last() == g);
            }
            if g < n_frames {
                proof {
                    lemma_votes_bound(before, labels@, g as int, k as int);
                    lemma_times_bound(frames@.take(i as int), g as int);
                    lemma_claims_grow(cands@, c + 1);
                    assert(claims(cands@.take(c + 1)) == claims(before) + frames@.len());
                }
                let ghost was = rows@;
                let mut row: Vec<u64> = Vec::new();
                std::mem::swap(&mut row, &mut rows[g]);
                let v: u64 = row[k];
                row.set(k, v + 1);
                std::mem::swap(&mut row, &mut rows[g]);
                proof {
                    assert forall|h: int, m: int| 0 <= h < n_frames && 0 <= m < n implies
                        #[trigger] rows@[h]@[m] == votes(before, labels@, h, m) + (if m == k {
                        times(frames@.take(i + 1), h)
                    } else {
                        0
                    }) by {
                        assert(was[h]@[m] == votes(before, labels@, h, m) + (if m == k {
                            times(frames@.take(i as int), h)
                        } else {
                            0
                        }));
                    }
                }
            }
            i = i + 1;
        }
        proof {
            assert(frames@.take(frames@.len() as int) == frames@);
        }
        c = c + 1;
    }
    proof {
        assert(cands@.take(cands@.len() as int) == cands@);
    }
    rows
}

fn speaker_count(labels: &[usize]) -> (r: usize)
    requires
        forall|i: int| 0 <= i < labels@.len() ==> #[trigger] labels@[i] < usize::MAX,
    ensures
        r == speakers(labels@),
{
    let mut r: usize = 0;
    let mut i: usize = 0;
    proof {
        assert(labels@.take(0) == Seq::<usize>::empty());
    }
    while i < labels.len()
        invariant
            forall|i: int| 0 <= i < labels@.len() ==> #[trigger] labels@[i] < usize::MAX,
            i <= labels@.len(),
            r == speakers(labels@.take(i as int)),
        decreases labels@.len() - i,
    {
        proof {
            assert(labels@.take(i + 1).drop_last() == labels@.take(i as int));
        }
        if labels[i] >= r {
            r = labels[i] + 1;
        }
        i = i + 1;
    }
    proof {
        assert(labels@.take(labels@.len() as int) == labels@);
    }
    r
}

/// Windows overlap, so a frame can be claimed twice. They vote, and whoever has
/// most votes speaks there.
pub fn tally(cands: &[Vec<usize>], labels: &[usize], n_frames: usize) -> (r: Vec<Option<usize>>)
    requires
        labels@.len() == cands@.len(),
        claims(cands@) <= u64::MAX,
        forall|i: int| 0 <= i < labels@.len() ==> #[trigger] labels@[i] < usize::MAX,
    ensures
        r@.len() == n_frames,
        forall|f: int| 0 <= f < n_frames ==> #[trigger] r@[f] == speaks(cands@, labels@, f),
{
    let n: usize = speaker_count(labels);
    proof {
        lemma_speakers(labels@);
    }
    let rows: Vec<Vec<u64>> = count_votes(cands, labels, n_frames, n);
    let mut out: Vec<Option<usize>> = Vec::new();
    let mut f: usize = 0;
    while f < n_frames
        invariant
            n == speakers(labels@),
            labels@.len() == cands@.len(),
            rows@.len() == n_frames,
            forall|g: int| 0 <= g < n_frames ==> (#[trigger] rows@[g])@.len() == n,
            forall|g: int, k: int|
                0 <= g < n_frames && 0 <= k < n ==> #[trigger] rows@[g]@[k] == votes(
                    cands@,
                    labels@,
                    g,
                    k,
                ),
            f <= n_frames,
            out@.len() == f,
            forall|g: int| 0 <= g < f ==> #[trigger] out@[g] == speaks(cands@, labels@, g),
        decreases n_frames - f,
    {
        if n == 0 {
            proof {
                lemma_no_labels(labels@);
                assert(votes(cands@, labels@, f as int, 0) == 0);
            }
            out.push(None);
        } else {
            let row: &Vec<u64> = &rows[f];
            let mut best: usize = 0;
            let mut k: usize = 1;
            while k < n
                invariant
                    1 <= k <= n,
                    best < k,
                    row@.len() == n,
                    forall|m: int|
                        0 <= m < n ==> #[trigger] row@[m] == votes(cands@, labels@, f as int, m),
                    best == leader(cands@, labels@, f as int, k as int),
                decreases n - k,
            {
                if row[k] >= row[best] {
                    best = k;
                }
                k = k + 1;
            }
            if row[best] == 0 {
                out.push(None);
            } else {
                out.push(Some(best));
            }
        }
        f = f + 1;
    }
    out
}

proof fn lemma_no_labels(labels: Seq<usize>)
    requires
        speakers(labels) == 0,
    ensures
        labels.len() == 0,
{
    lemma_speakers(labels);
    if labels.len() > 0 {
        assert(labels[0] < 0);
    }
}

/// The spans of the first `f` frames: a frame that goes on where a span of the
/// same speaker ends makes it longer.
pub open spec fn spans_of(who: Seq<Option<usize>>, n: int, f: int) -> Seq<Span>
    decreases f,
{
    if f <= 0 {
        Seq::empty()
    } else {
        let rest = spans_of(who, n, f - 1);
        let a = (f - 1) * SHIFT;
        let b = frame_end(f - 1, n);
        match who[f - 1] {
            None => rest,
            Some(k) => if a >= b {
                rest
            } else if rest.len() > 0 && rest.last().speaker == k && rest.last().end == a {
                rest.drop_last().push(
                    (Span { start: rest.last().start, end: b as usize, speaker: k }),
                )
            } else {
                rest.push((Span { start: a as usize, end: b as usize, speaker: k }))
            },
        }
    }
}

/// Turn who speaks at each frame into spans over `n` samples.
pub fn spans_from(who: &[Option<usize>], n: usize) -> (r: Vec<Span>)
    requires
        who@.len() * SHIFT <= usize::MAX,
    ensures
        r@ == spans_of(who@, n as int, who@.len() as int),
{
    let mut out: Vec<Span> = Vec::new();
    let mut f: usize = 0;
    while f < who.len()
        invariant
            who@.len() * SHIFT <= usize::MAX,
            f <= who@.len(),
            out@ == spans_of(who@, n as int, f as int),
        decreases who@.len() - f,
    {
        if let Some(k) = who[f] {
            let (a, b) = frame_samples(f, n);
            if a < b {
                let m: usize = out.len();
                if m > 0 && out[m - 1].speaker == k && out[m - 1].end == a {
                    let ghost was = out@;
                    let start: usize = out[m - 1].start;
                    out.set(m - 1, Span { start, end: b, speaker: k });
                    proof {
                        assert(out@ == was.drop_last().push(
                            (Span { start, end: b, speaker: k }),
                        ));
                    }
                } else {
                    out.push(Span { start: a, end: b, speaker: k });
                }
            }
        }
        f = f + 1;
    }
    out
}

/// Who speaks at each frame of a recording of `n` samples.
pub open spec fn who_speaks(cands: Seq<Vec<usize>>, labels: Seq<usize>, n: int) -> Seq<
    Option<usize>,
> {
    Seq::new((n / SHIFT as int + 2) as nat, |f: int| speaks(cands, labels, f))
}

/// Who spoke when, given the fragments' frames and the speaker of each.
pub fn speaker_spans(cands: &[Vec<usize>], labels: &[usize], n: usize) -> (r: Vec<Span>)
    requires
        labels@.len() == cands@.len(),
        claims(cands@) <= u64::MAX,
        forall|i: int| 0 <= i < labels@.len() ==> #[trigger] labels@[i] < usize::MAX,
        n + 2 * SHIFT <= usize::MAX,
    ensures
        r@ == spans_of(who_speaks(cands@, labels@, n as int), n as int, n as int / SHIFT as int + 2),
{
    let n_frames: usize = n / SHIFT + 2;
    let who: Vec<Option<usize>> = tally(cands, labels, n_frames);
    let r: Vec<Span> = spans_from(who.as_slice(), n);
    proof {
        assert(who@ == who_speaks(cands@, labels@, n as int));
    }
    r
}

/// The spans lie inside the recording, in order and apart from each other; where
/// two touch, the speaker changes.
pub open spec fn tidy(spans: Seq<Span>, n: int) -> bool {
    &&& forall|i: int|
        0 <= i < spans.len() ==> (#[trigger] spans[i]).start < spans[i].end && spans[i].end <= n
    &&& forall|i: int, j: int|
        0 <= i < j < spans.len() ==> (#[trigger] spans[i]).end <= (#[trigger] spans[j]).start
    &&& forall|i: int, j: int|
        0 <= i && j == i + 1 && j < spans.len() && (#[trigger] spans[i]).end == (
        #[trigger] spans[j]).start ==> spans[i].speaker != spans[j].speaker
}

/// Span `s` holds frame `f`, and says who speaks there.
pub open spec fn holds(s: Span, who: Seq<Option<usize>>, n: int, f: int) -> bool {
    s.start <= f * SHIFT && frame_end(f, n) <= s.end && who[f] == Some(s.speaker)
}

/// The spans of a recording are tidy, and they hold every frame at which somebody
/// speaks.
pub proof fn spans_say_who_speaks(who: Seq<Option<usize>>, n: int, f: int)
    requires
        0 <= n <= usize::MAX,
        0 <= f <= who.len(),
    ensures
        tidy(spans_of(who, n, f), n),
        forall|i: int|
            0 <= i < spans_of(who, n, f).len() ==> (#[trigger] spans_of(who, n, f)[i]).end <= f
                * SHIFT,
        forall|g: int|
            0 <= g < f && (#[trigger] who[g]) is Some && g * SHIFT < n ==> exists|i: int|
                0 <= i < spans_of(who, n, f).len() && #[trigger] holds(
                    spans_of(who, n, f)[i],
                    who,
                    n,
                    g,
                ),
    decreases f,
{
    if f > 0 {
        spans_say_who_speaks(who, n, f - 1);
        let rest = spans_of(who, n, f - 1);
        let all = spans_of(who, n, f);
        let a = (f - 1) * SHIFT;
        let b = frame_end(f - 1, n);
        if who[f - 1] is Some && a < b {
            assert(b <= usize::MAX && a <= usize::MAX);
            let grown = rest.len() > 0 && rest.last().speaker == who[f - 1]->0 && rest.last().end
                == a;
            assert(holds(all.last(), who, n, f - 1));
            assert forall|i: int, j: int| 0 <= i < j < all.len() implies (#[trigger] all[i]).end
                <= (#[trigger] all[j]).start by {
                if grown {
                    assert(rest[i].end <= rest[j].start);
                } else if j < rest.len() {
                    assert(rest[i].end <= rest[j].start);
                } else {
                    assert(rest[i].end <= (f - 1) * SHIFT);
                }
            }
            assert forall|i: int, j: int|
                0 <= i && j == i + 1 && j < all.len() && (#[trigger] all[i]).end == (
                #[trigger] all[j]).start implies all[i].speaker != all[j].speaker by {
                if j < rest.len() {
                    assert(rest[i].end == rest[j].start);
                }
            }
            assert forall|g: int| 0 <= g < f && (#[trigger] who[g]) is Some && g * SHIFT
                < n implies exists|i: int| 0 <= i < all.len() && #[trigger] holds(
                all[i],
                who,
                n,
                g,
            ) by {
                if g == f - 1 {
                    assert(holds(all[all.len() - 1], who, n, g));
                } else {
                    let i = choose|i: int|
                        0 <= i < rest.len() && #[trigger] holds(rest[i], who, n, g);
                    assert(holds(all[i], who, n, g));
                }
            }
        } else {
            assert forall|g: int| 0 <= g < f && (#[trigger] who[g]) is Some && g * SHIFT
                < n implies exists|i: int| 0 <= i < all.len() && #[trigger] holds(
                all[i],
                who,
                n,
                g,
            ) by {
                assert(g < f - 1);
                let i = choose|i: int|
                    0 <= i < rest.len() && #[trigger] holds(rest[i], who, n, g);
                assert(holds(all[i], who, n, g));
            }
        }
    }
}

/// A fragment and a place in it that say a speaker is active at a frame.
pub open spec fn says(
    cands: Seq<Vec<usize>>,
    labels: Seq<usize>,
    f: int,
    k: int,
    p: (int, int),
) -> bool {
    &&& 0 <= p.0 < cands.len()
    &&& 0 <= p.1 < cands[p.0]@.len()
    &&& labels[p.0] == k
    &&& cands[p.0]@[p.1] == f
}

/// Every one of them.
pub open spec fn ballots(cands: Seq<Vec<usize>>, labels: Seq<usize>, f: int, k: int) -> Set<
    (int, int),
> {
    Set::new(|p: (int, int)| says(cands, labels, f, k, p))
}

proof fn lemma_ballots_of_one(
    cands: Seq<Vec<usize>>,
    labels: Seq<usize>,
    f: int,
    k: int,
    upto: int,
) -> (s: Set<(int, int)>)
    requires
        cands.len() > 0,
        labels[cands.len() - 1] == k,
        0 <= upto <= cands.last()@.len(),
    ensures
        s.finite(),
        forall|p: (int, int)| #[trigger]
            s.contains(p) <==> says(cands, labels, f, k, p) && (p.0 < cands.len() - 1 || p.1 < upto),
        s.len() == ballots(cands.drop_last(), labels, f, k).len() + times(
            cands.last()@.take(upto),
            f,
        ),
        ballots(cands.drop_last(), labels, f, k).finite(),
    decreases cands.len(), upto,
{
    let front = cands.drop_last();
    if upto == 0 {
        every_claim_is_a_vote(front, labels, f, k);
        let s = ballots(front, labels, f, k);
        assert forall|p: (int, int)| #[trigger] s.contains(p) <==> says(cands, labels, f, k, p) && (
        p.0 < cands.len() - 1 || p.1 < upto) by {
            if 0 <= p.0 < front.len() {
                assert(front[p.0] == cands[p.0]);
            }
        }
        s
    } else {
        let s = lemma_ballots_of_one(cands, labels, f, k, upto - 1);
        let part = cands.last()@.take(upto);
        assert(part.drop_last() == cands.last()@.take(upto - 1));
        let p = (cands.len() - 1, upto - 1);
        if cands.last()@[upto - 1] == f {
            assert(!s.contains(p));
            let t = s.insert(p);
            assert forall|q: (int, int)| #[trigger] t.contains(q) <==> says(
                cands,
                labels,
                f,
                k,
                q,
            ) && (q.0 < cands.len() - 1 || q.1 < upto) by {
                assert(s.contains(q) <==> says(cands, labels, f, k, q) && (q.0 < cands.len() - 1
                    || q.1 < upto - 1));
            }
            t
        } else {
            assert forall|q: (int, int)| #[trigger] s.contains(q) <==> says(
                cands,
                labels,
                f,
                k,
                q,
            ) && (q.0 < cands.len() - 1 || q.1 < upto) by {}
            s
        }
    }
}

/// A speaker's votes at a frame are all the places at which one of its fragments
/// names the frame: every window that hears the speaker there counts, however many
/// agree.
pub proof fn every_claim_is_a_vote(
    cands: Seq<Vec<usize>>,
    labels: Seq<usize>,
    f: int,
    k: int,
)
    ensures
        ballots(cands, labels, f, k).finite(),
        votes(cands, labels, f, k) == ballots(cands, labels, f, k).len(),
    decreases cands.len(), cands.last()@.len() + 1,
{
    let b = ballots(cands, labels, f, k);
    if cands.len() == 0 {
        assert(b == Set::<(int, int)>::empty());
    } else {
        let front = cands.drop_last();
        if labels[cands.len() - 1] == k {
            let n = cands.last()@.len() as int;
            let s = lemma_ballots_of_one(cands, labels, f, k, n);
            every_claim_is_a_vote(front, labels, f, k);
            assert(cands.last()@.take(n) == cands.last()@);
            assert(b == s);
        } else {
            every_claim_is_a_vote(front, labels, f, k);
            assert forall|p: (int, int)| b.contains(p) == ballots(front, labels, f, k).contains(
                p,
            ) by {
                if 0 <= p.0 < front.len() {
                    assert(front[p.0] == cands[p.0]);
                }
            }
            assert(b == ballots(front, labels, f, k));
        }
    }
}

/// One more fragment raises its own speaker's votes at a frame by how often the
/// frame stands in it, and nobody else's.
pub proof fn a_fragment_votes_for_its_speaker(
    cands: Seq<Vec<usize>>,
    fragment: Vec<usize>,
    labels: Seq<usize>,
    f: usize,
    k: int,
)
    ensures
        votes(cands.push(fragment), labels, f as int, k) == votes(cands, labels, f as int, k) + (
        if labels[cands.len() as int] == k {
            fragment@.to_multiset().count(f)
        } else {
            0
        }),
{
    assert(cands.push(fragment).drop_last() == cands);
    lemma_times_counts(fragment@, f);
}

proof fn lemma_times_counts(frames: Seq<usize>, f: usize)
    ensures
        times(frames, f as int) == frames.to_multiset().count(f),
    decreases frames.len(),
{
    broadcast use vstd::seq_lib::group_to_multiset_ensures;

    if frames.len() > 0 {
        lemma_times_counts(frames.drop_last(), f);
        assert(frames == frames.drop_last().push(frames.last()));
    } else {
        assert(!frames.contains(f));
    }
}

/// Whoever a frame is given to is named there by a fragment of theirs, by at least
/// as many as anybody else and by more than anybody after them. Nobody has it only
/// if no fragment names it.
pub proof fn the_most_named_speaker_has_the_frame(
    cands: Seq<Vec<usize>>,
    labels: Seq<usize>,
    f: int,
    m: usize,
)
    requires
        labels.len() == cands.len(),
        forall|i: int| 0 <= i < labels.len() ==> #[trigger] labels[i] < usize::MAX,
    ensures
        match speaks(cands, labels, f) {
            Some(k) => {
                &&& labels.contains(k)
                &&& ballots(cands, labels, f, k as int).len() > 0
                &&& ballots(cands, labels, f, m as int).len() <= ballots(
                    cands,
                    labels,
                    f,
                    k as int,
                ).len()
                &&& m > k ==> ballots(cands, labels, f, m as int).len() < ballots(
                    cands,
                    labels,
                    f,
                    k as int,
                ).len()
            },
            None => forall|c: int, i: int|
                0 <= c < cands.len() && 0 <= i < cands[c]@.len() ==> #[trigger] cands[c]@[i] != f,
        },
{
    lemma_speakers(labels);
    let n = speakers(labels);
    let k = leader(cands, labels, f, n);
    every_claim_is_a_vote(cands, labels, f, k);
    every_claim_is_a_vote(cands, labels, f, m as int);
    if n > 0 {
        the_leader_leads(cands, labels, f, n, 0);
        lemma_speakers_tight(labels);
        assert(k <= usize::MAX);
    }
    let mine = ballots(cands, labels, f, m as int);
    if m < n {
        the_leader_leads(cands, labels, f, n, m as int);
    } else {
        if mine.len() > 0 {
            vstd::set::axiom_set_choose_len(mine);
            let p = mine.choose();
            assert(says(cands, labels, f, m as int, p));
            assert(labels[p.0] < n);
        }
    }
    match speaks(cands, labels, f) {
        Some(w) => {
            let b = ballots(cands, labels, f, k);
            vstd::set::axiom_set_choose_len(b);
            let p = b.choose();
            assert(says(cands, labels, f, k, p));
            assert(labels[p.0] == w);
        },
        None => {
            assert forall|c: int, i: int|
                0 <= c < cands.len() && 0 <= i < cands[c]@.len() implies #[trigger] cands[c]@[i]
                != f by {
                if cands[c]@[i] == f {
                    let w = labels[c] as int;
                    assert(labels[c] < n);
                    the_leader_leads(cands, labels, f, n, w);
                    every_claim_is_a_vote(cands, labels, f, w);
                    let b = ballots(cands, labels, f, w);
                    assert(says(cands, labels, f, w, (c, i)));
                    assert(b.contains((c, i)));
                    vstd::set::axiom_set_contains_len(b, (c, i));
                }
            }
        },
    }
}

proof fn lemma_speakers_tight(labels: Seq<usize>)
    ensures
        labels.len() == 0 ==> speakers(labels) == 0,
        labels.len() > 0 ==> exists|i: int|
            0 <= i < labels.len() && #[trigger] labels[i] + 1 == speakers(labels),
    decreases labels.len(),
{
    if labels.len() > 0 {
        let front = labels.drop_last();
        lemma_speakers_tight(front);
        if labels.last() >= speakers(front) {
            assert(labels[labels.len() - 1] + 1 == speakers(labels));
        } else {
            let i = choose|i: int| 0 <= i < front.len() && #[trigger] front[i] + 1 == speakers(front);
            assert(labels[i] + 1 == speakers(labels));
        }
    }
}

/// There are as many speakers as the greatest label has room for, and no more.
pub proof fn speakers_are_counted(labels: Seq<usize>)
    ensures
        forall|i: int| 0 <= i < labels.len() ==> #[trigger] labels[i] < speakers(labels),
        labels.len() == 0 ==> speakers(labels) == 0,
        labels.len() > 0 ==> exists|i: int|
            0 <= i < labels.len() && #[trigger] labels[i] + 1 == speakers(labels),
{
    lemma_speakers(labels);
    lemma_speakers_tight(labels);
}

/// A fragment is the frames at which its speaker is active, each once and in
/// order.
pub proof fn a_fragment_is_where_its_speaker_is_active(
    classes: Seq<usize>,
    base: int,
    speaker: usize,
)
    requires
        0 <= base,
        base + classes.len() <= usize::MAX,
    ensures
        ({
            let frames = frames_of(classes, base, speaker);
            &&& forall|i: int, j: int|
                0 <= i < j < frames.len() ==> #[trigger] frames[i] < #[trigger] frames[j]
            &&& forall|i: int|
                0 <= i < frames.len() ==> base <= #[trigger] frames[i] < base + classes.len()
            &&& forall|f: int|
                0 <= f < classes.len() ==> (subset(#[trigger] classes[f] as int).contains(speaker)
                    <==> frames.contains((base + f) as usize))
        }),
    decreases classes.len(),
{
    let frames = frames_of(classes, base, speaker);
    if classes.len() > 0 {
        let front = classes.drop_last();
        a_fragment_is_where_its_speaker_is_active(front, base, speaker);
        let rest = frames_of(front, base, speaker);
        let last = (base + classes.len() - 1) as usize;
        assert forall|f: int| 0 <= f < classes.len() implies (subset(
            #[trigger] classes[f] as int,
        ).contains(speaker) <==> frames.contains((base + f) as usize)) by {
            let g = (base + f) as usize;
            if f < front.len() {
                assert(front[f] == classes[f]);
                if rest.contains(g) {
                    let i = rest.index_of(g);
                    assert(frames[i] == g);
                }
                if frames.contains(g) {
                    let i = frames.index_of(g);
                    assert(i < rest.len());
                    assert(rest[i] == g);
                }
            } else {
                if subset(classes[f] as int).contains(speaker) {
                    assert(frames[rest.len() as int] == last);
                } else if rest.contains(g) {
                    let i = rest.index_of(g);
                    assert(rest[i] < base + front.len());
                }
            }
        }
    }
}

/// The classes go by how many speakers they stand for, then by who they are; a
/// class never stands for more than two, nor for anybody twice.
pub proof fn classes_go_by_size(a: int, b: int)
    requires
        0 <= a < b < N_CLASSES,
    ensures
        subset(0).len() == 0,
        subset(b).len() <= 2,
        forall|i: int| 0 <= i < subset(b).len() ==> #[trigger] subset(b)[i] < N_LOCAL,
        subset(b).len() == 2 ==> subset(b)[0] < subset(b)[1],
        subset(a).len() <= subset(b).len(),
        subset(a).len() == subset(b).len() ==> subset(a)[0] < subset(b)[0] || (subset(a)[0]
            == subset(b)[0] && subset(a)[1] < subset(b)[1]),
{
}

/// Windows start a hop apart, from where the first does. Each is a full window
/// long but the last, which is the only one to reach the end.
pub proof fn windows_step_by_a_hop(start: int, n: int, i: int)
    requires
        0 <= start <= n <= usize::MAX,
        0 <= i < windows_from(start, n).len(),
    ensures
        windows_from(start, n)[i].0 == start + i * HOP,
        i < windows_from(start, n).len() - 1 ==> windows_from(start, n)[i].1 == start + i * HOP
            + WINDOW && windows_from(start, n)[i].1 < n,
        i == windows_from(start, n).len() - 1 ==> windows_from(start, n)[i].1 == n && n <= start + i
            * HOP + WINDOW,
    decreases i,
{
    assert(HOP == 79920);
    if i == 0 {
        assert(i * HOP == 0);
        if start + WINDOW < n {
            assert(windows_from(start + HOP, n).len() > 0);
        }
    } else {
        let rest = windows_from(start + HOP, n);
        windows_step_by_a_hop(start + HOP, n, i - 1);
        assert(windows_from(start, n)[i] == rest[i - 1]);
        assert(start + 79920 + (i - 1) * 79920 == start + i * 79920);
    }
}

/// A speaker's number says how many were heard before: no number is used until all
/// the smaller ones are.
pub proof fn speakers_are_numbered_as_they_appear(
    owner: Seq<usize>,
    labels: Seq<usize>,
    k: int,
    m: usize,
)
    requires
        numbered(owner, labels),
        0 <= k < owner.len(),
        m < labels[k],
    ensures
        exists|j: int| 0 <= j < k && #[trigger] labels[j] == m,
{
    lemma_distinct(owner);
    lemma_distinct_order(owner, m as int, labels[k] as int, k);
    let j = choose|j: int| 0 <= j < k && #[trigger] owner[j] == distinct(owner)[m as int];
    assert(distinct(owner)[labels[j] as int] == owner[j]);
    assert(labels[j] == m);
}

proof fn lemma_distinct_order(s: Seq<usize>, a: int, b: int, k: int)
    requires
        0 <= a < b < distinct(s).len(),
        0 <= k < s.len(),
        s[k] == distinct(s)[b],
    ensures
        exists|j: int| 0 <= j < k && #[trigger] s[j] == distinct(s)[a],
    decreases s.len(),
{
    let front = s.drop_last();
    let rest = distinct(front);
    lemma_distinct(s);
    lemma_distinct(front);
    if k < s.len() - 1 {
        assert(front[k] == s[k]);
        lemma_distinct_holds(front, k);
        if b >= rest.len() {
            let i = rest.index_of(s[k]);
            assert(distinct(s)[i] == s[k]);
            assert(distinct(s)[i] != distinct(s)[b]);
        }
        lemma_distinct_order(front, a, b, k);
        let j = choose|j: int| 0 <= j < k && #[trigger] front[j] == rest[a];
        assert(s[j] == distinct(s)[a]);
    } else {
        lemma_distinct_from(front, a);
        let j = choose|j: int| 0 <= j < front.len() && #[trigger] front[j] == rest[a];
        assert(s[j] == distinct(s)[a]);
    }
}

proof fn lemma_distinct_holds(s: Seq<usize>, k: int)
    requires
        0 <= k < s.len(),
    ensures
        distinct(s).contains(s[k]),
    decreases s.len(),
{
    let rest = distinct(s.drop_last());
    if k < s.len() - 1 {
        lemma_distinct_holds(s.drop_last(), k);
        let i = rest.index_of(s[k]);
        assert(distinct(s)[i] == s[k]);
    } else if !rest.contains(s.last()) {
        assert(distinct(s)[rest.len() as int] == s[k]);
    }
}

proof fn lemma_distinct_from(s: Seq<usize>, a: int)
    requires
        0 <= a < distinct(s).len(),
    ensures
        exists|j: int| 0 <= j < s.len() && #[trigger] s[j] == distinct(s)[a],
    decreases s.len(),
{
    let rest = distinct(s.drop_last());
    if a < rest.len() {
        lemma_distinct_from(s.drop_last(), a);
        let j = choose|j: int| 0 <= j < s.len() - 1 && #[trigger] s.drop_last()[j] == rest[a];
        assert(s[j] == distinct(s)[a]);
    } else {
        assert(s[s.len() - 1] == distinct(s)[a]);
    }
}

/// A span holds nothing but its speaker: whoever it names speaks at the frame of
/// every sample in it.
pub proof fn spans_hold_one_speaker(who: Seq<Option<usize>>, n: int, f: int, i: int, x: int)
    requires
        0 <= n <= usize::MAX,
        0 <= f <= who.len(),
        0 <= i < spans_of(who, n, f).len(),
        spans_of(who, n, f)[i].start <= x < spans_of(who, n, f)[i].end,
    ensures
        0 <= x / SHIFT as int,
        x / (SHIFT as int) < f,
        who[x / SHIFT as int] == Some(spans_of(who, n, f)[i].speaker),
    decreases f,
{
    if f > 0 {
        let rest = spans_of(who, n, f - 1);
        let all = spans_of(who, n, f);
        let a = (f - 1) * SHIFT;
        let b = frame_end(f - 1, n);
        spans_say_who_speaks(who, n, f - 1);
        if who[f - 1] is Some && a < b {
            if i == all.len() - 1 && x >= a {
                assert(x / SHIFT as int == f - 1) by (nonlinear_arith)
                    requires
                        (f - 1) * 270 <= x < f * 270,
                        SHIFT == 270,
                ;
            } else {
                if i < rest.len() {
                    spans_hold_one_speaker(who, n, f - 1, i, x);
                }
            }
        } else {
            spans_hold_one_speaker(who, n, f - 1, i, x);
        }
    }
}

/// A second of audio is enough to tell a voice by, and anything less is not.
pub proof fn a_second_is_enough(frames: nat)
    ensures
        enough(frames) <==> frames * 270 >= 16000,
        enough(60),
        !enough(59),
{
}

/// Of the pairs that are closest the first is taken: no pair is closer, and one as
/// close does not come before it.
pub proof fn the_first_closest_pair_is_taken(
    active: Seq<bool>,
    keys: Seq<Vec<u32>>,
    i: int,
    j: int,
    a: int,
    b: int,
)
    requires
        closest_pair(active, keys, i, j),
        0 <= a < b < active.len(),
        active[a],
        active[b],
    ensures
        0 <= i < j < active.len(),
        active[i] && active[j],
        keys[i]@[j] < u32::MAX,
        keys[i]@[j] <= keys[a]@[b],
        keys[i]@[j] == keys[a]@[b] ==> i < a || (i == a && j <= b),
{
    assert(pair(active, a, b));
}

/// A frame ends where the next one starts, or with the recording.
pub proof fn a_frame_ends_with_the_recording(frame: int, n: int)
    ensures
        frame_end(frame, n) <= n,
        frame_end(frame, n) <= (frame + 1) * 270,
        frame_end(frame, n) == n || frame_end(frame, n) == (frame + 1) * 270,
{
}

/// Every frame of a recording is asked about.
pub proof fn every_frame_is_asked_about(
    cands: Seq<Vec<usize>>,
    labels: Seq<usize>,
    n: int,
    x: int,
)
    requires
        0 <= x < n,
    ensures
        0 <= x / 270 < who_speaks(cands, labels, n).len(),
        who_speaks(cands, labels, n)[x / 270] == speaks(cands, labels, x / 270),
{
    assert(x / 270 <= n / 270) by (nonlinear_arith)
        requires
            x <= n,
    ;
}

} // verus!
