//! Cost accounting for a live transcription pass, and the backlog it implies.
//!
//! One block at a time is measured — resample, voice detection, decode — and this
//! is where those timings turn into an answer to the only question that matters
//! for live work: does a transcriber keep up, or does it fall further behind with
//! every block? Times are whole microseconds.

use vstd::prelude::*;

verus! {

/// One block of a live pass: what it held, when it was complete, and what it
/// cost. `prep` is resample plus voice detection, `decode` the sum of its turns'
/// decodes.
#[derive(Debug, Clone, Copy, PartialEq, Eq, Structural)]
pub struct BlockRow {
    pub index: usize,
    pub audio: u64,
    pub end: u64,
    pub prep: u64,
    pub decode: u64,
    pub turns: usize,
}

impl BlockRow {
    pub open spec fn cost(self) -> int {
        self.prep + self.decode
    }

    /// Everything the block cost: what the queue's worker is busy with.
    pub fn work(&self) -> (r: u64)
        requires
            self.cost() <= u64::MAX,
        ensures
            r == self.cost(),
    {
        self.prep + self.decode
    }
}

/// Realtime factor: work per audio, as a fraction, so below one is faster than
/// the audio arrives. Nothing when there is no audio to divide by — a missing
/// number rather than an infinity that would print as a verdict.
pub fn rtf(work: u64, audio: u64) -> (r: Option<(u64, u64)>)
    ensures
        r == (if audio != 0 {
            Some((work, audio))
        } else {
            None
        }),
{
    if audio != 0 {
        Some((work, audio))
    } else {
        None
    }
}

/// How far behind the audio a transcriber runs.
#[derive(Debug, Clone, Copy, PartialEq, Eq, Structural)]
pub struct Lag {
    pub max_lag: u64,
    pub final_lag: u64,
}

/// How long the workload is: when its last block was complete.
pub open spec fn span(rows: Seq<BlockRow>) -> int {
    if rows.len() == 0 {
        0
    } else {
        rows.last().end as int
    }
}

/// Block `k` of the workload played over and over.
pub open spec fn replayed(rows: Seq<BlockRow>, k: int) -> BlockRow {
    let n = rows.len() as int;
    let r = rows[k % n];
    BlockRow { index: k as usize, end: (r.end + span(rows) * (k / n)) as u64, ..r }
}

/// The workload played `times` over, end to end, as a longer recording of the
/// same character. Whether the lag of the doubled workload matches the single one
/// is the whole test for a bounded backlog: a queue that keeps up has the same
/// lag on a track of any length, one that does not adds to it forever.
pub fn repeat(rows: &[BlockRow], times: usize) -> (r: Vec<BlockRow>)
    requires
        rows@.len() * times <= usize::MAX,
        forall|i: int|
            0 <= i < rows@.len() ==> (#[trigger] rows@[i]).end + span(rows@) * times <= u64::MAX,
    ensures
        r@ == Seq::new((rows@.len() * times) as nat, |k: int| replayed(rows@, k)),
{
    let n: usize = rows.len();
    let mut out: Vec<BlockRow> = Vec::new();
    if n == 0 {
        proof {
            assert(rows@.len() * times == 0) by (nonlinear_arith)
                requires
                    rows@.len() == 0,
            ;
            assert(out@ == Seq::new((rows@.len() * times) as nat, |k: int| replayed(rows@, k)));
        }
        return out;
    }
    let span: u64 = rows[n - 1].end;
    let mut copy: usize = 0;
    proof {
        assert(n * 0 == 0) by (nonlinear_arith);
    }
    while copy < times
        invariant
            n == rows@.len(),
            n > 0,
            span == self::span(rows@),
            n * times <= usize::MAX,
            forall|i: int|
                0 <= i < n ==> (#[trigger] rows@[i]).end + self::span(rows@) * times <= u64::MAX,
            copy <= times,
            out@.len() == n * copy,
            forall|k: int| 0 <= k < out@.len() ==> #[trigger] out@[k] == replayed(rows@, k),
        decreases times - copy,
    {
        proof {
            assert(span * (copy + 1) <= span * times && n * (copy + 1) <= n * times && span * (copy
                + 1) == span * copy + span && n * (copy + 1) == n * copy + n) by (nonlinear_arith)
                requires
                    copy + 1 <= times,
                    span >= 0,
                    n >= 0,
            ;
            assert(rows@[0].end + self::span(rows@) * times <= u64::MAX);
        }
        let offset: u64 = span * (copy as u64);
        let mut i: usize = 0;
        while i < n
            invariant
                n == rows@.len(),
                n > 0,
                span == self::span(rows@),
                span * (copy + 1) <= span * times,
                span * (copy + 1) == span * copy + span,
                n * (copy + 1) <= n * times <= usize::MAX,
                n * (copy + 1) == n * copy + n,
                forall|i: int|
                    0 <= i < n ==> (#[trigger] rows@[i]).end + self::span(rows@) * times <= u64::MAX,
                offset == span * copy,
                i <= n,
                out@.len() == n * copy + i,
                forall|k: int| 0 <= k < out@.len() ==> #[trigger] out@[k] == replayed(rows@, k),
            decreases n - i,
        {
            let r: BlockRow = rows[i];
            let ghost k = n * copy + i;
            proof {
                assert(k % n as int == i && k / n as int == copy) by (nonlinear_arith)
                    requires
                        k == n * copy + i,
                        0 <= i < n,
                        0 <= copy,
                ;
                assert(r.end + self::span(rows@) * times <= u64::MAX);
            }
            let row: BlockRow = BlockRow {
                index: out.len(),
                audio: r.audio,
                end: r.end + offset,
                prep: r.prep,
                decode: r.decode,
                turns: r.turns,
            };
            proof {
                assert(row == replayed(rows@, k));
            }
            out.push(row);
            i = i + 1;
        }
        copy = copy + 1;
    }
    proof {
        assert(out@ == Seq::new((rows@.len() * times) as nat, |k: int| replayed(rows@, k)));
    }
    out
}

/// When the worker is free again, after `k` jobs that each arrive at `end` and
/// take `work`.
pub open spec fn free_after(free: int, end: int, work: int, k: nat) -> int
    decreases k,
{
    if k == 0 {
        free
    } else {
        let f = free_after(free, end, work, (k - 1) as nat);
        (if f > end {
            f
        } else {
            end
        }) + work
    }
}

/// When the worker has finished all blocks so far, `tracks` copies of each.
pub open spec fn free_at(rows: Seq<BlockRow>, tracks: nat) -> int
    decreases rows.len(),
{
    if rows.len() == 0 {
        0
    } else {
        free_after(
            free_at(rows.drop_last(), tracks),
            rows.last().end as int,
            rows.last().cost(),
            tracks,
        )
    }
}

/// How far behind the worker is with the last block, once it is done with it.
pub open spec fn last_lag(rows: Seq<BlockRow>, tracks: nat) -> int {
    if rows.len() == 0 || tracks == 0 {
        0
    } else {
        free_at(rows, tracks) - rows.last().end
    }
}

/// The furthest behind it ever gets.
pub open spec fn worst_lag(rows: Seq<BlockRow>, tracks: nat) -> int
    decreases rows.len(),
{
    if rows.len() == 0 {
        0
    } else {
        let before = worst_lag(rows.drop_last(), tracks);
        let here = last_lag(rows, tracks);
        if here > before {
            here
        } else {
            before
        }
    }
}

/// More copies of a block never free the worker sooner.
proof fn lemma_free_grows(free: int, end: int, work: int, j: nat, k: nat)
    requires
        j <= k,
        work >= 0,
    ensures
        free_after(free, end, work, j) <= free_after(free, end, work, k),
        free <= free_after(free, end, work, j),
    decreases k,
{
    if j < k {
        lemma_free_grows(free, end, work, j, (k - 1) as nat);
    } else if k > 0 {
        lemma_free_grows(free, end, work, (k - 1) as nat, (k - 1) as nat);
    }
}

proof fn lemma_free_prefix(rows: Seq<BlockRow>, tracks: nat, i: int)
    requires
        0 <= i <= rows.len(),
    ensures
        0 <= free_at(rows.take(i), tracks) <= free_at(rows, tracks),
    decreases rows.len(),
{
    if i == rows.len() {
        assert(rows.take(i) == rows);
        if i > 0 {
            lemma_free_prefix(rows.drop_last(), tracks, i - 1);
            assert(rows.drop_last().take(i - 1) == rows.drop_last());
            lemma_free_grows(
                free_at(rows.drop_last(), tracks),
                rows.last().end as int,
                rows.last().cost(),
                0,
                tracks,
            );
        }
    } else {
        lemma_free_prefix(rows.drop_last(), tracks, i);
        assert(rows.drop_last().take(i) == rows.take(i));
        lemma_free_grows(
            free_at(rows.drop_last(), tracks),
            rows.last().end as int,
            rows.last().cost(),
            0,
            tracks,
        );
    }
}

/// Play the blocks back as arrivals and see how far behind a single worker gets.
/// A block cannot be started before its audio exists, so it arrives at `end`;
/// `tracks` copies arrive at that same instant, because a room and a call track
/// are recorded at once; and one worker takes them in arrival order. A block's
/// lag is when the worker finishes it minus when its audio was complete — what a
/// user waits to see the line.
pub fn simulate_queue(rows: &[BlockRow], tracks: usize) -> (r: Lag)
    requires
        forall|i: int| 0 <= i < rows@.len() ==> (#[trigger] rows@[i]).cost() <= u64::MAX,
        free_at(rows@, tracks as nat) <= u64::MAX,
    ensures
        r.max_lag == worst_lag(rows@, tracks as nat),
        r.final_lag == last_lag(rows@, tracks as nat),
{
    let mut free: u64 = 0;
    let mut max_lag: u64 = 0;
    let mut final_lag: u64 = 0;
    let mut i: usize = 0;
    proof {
        assert(rows@.take(0) == Seq::<BlockRow>::empty());
    }
    while i < rows.len()
        invariant
            forall|i: int| 0 <= i < rows@.len() ==> (#[trigger] rows@[i]).cost() <= u64::MAX,
            free_at(rows@, tracks as nat) <= u64::MAX,
            i <= rows@.len(),
            free == free_at(rows@.take(i as int), tracks as nat),
            max_lag == worst_lag(rows@.take(i as int), tracks as nat),
            final_lag == last_lag(rows@.take(i as int), tracks as nat),
        decreases rows@.len() - i,
    {
        let r: BlockRow = rows[i];
        let work: u64 = r.work();
        let ghost here = rows@.take(i + 1);
        let ghost start = free;
        let ghost worst = max_lag;
        let ghost lagged = final_lag;
        proof {
            assert(here.drop_last() == rows@.take(i as int));
            assert(here.last() == r);
            lemma_free_prefix(rows@, tracks as nat, i + 1);
        }
        let mut k: usize = 0;
        while k < tracks
            invariant
                k <= tracks,
                work == r.cost(),
                free_after(start as int, r.end as int, work as int, tracks as nat) <= u64::MAX,
                free == free_after(start as int, r.end as int, work as int, k as nat),
                k > 0 ==> free >= r.end && final_lag == free - r.end,
                k == 0 ==> max_lag == worst && final_lag == lagged,
                k > 0 ==> max_lag == (if final_lag > worst {
                    final_lag
                } else {
                    worst
                }),
            decreases tracks - k,
        {
            proof {
                lemma_free_grows(
                    start as int,
                    r.end as int,
                    work as int,
                    (k + 1) as nat,
                    tracks as nat,
                );
                lemma_free_grows(start as int, r.end as int, work as int, k as nat, tracks as nat);
            }
            let from: u64 = if free > r.end {
                free
            } else {
                r.end
            };
            free = from + work;
            let lag: u64 = free - r.end;
            if lag > max_lag {
                max_lag = lag;
            }
            final_lag = lag;
            k = k + 1;
        }
        i = i + 1;
        proof {
            if tracks == 0 {
                lemma_no_tracks(rows@.take(i as int));
                lemma_no_tracks(rows@.take(i - 1));
            }
        }
    }
    proof {
        assert(rows@.take(rows@.len() as int) == rows@);
    }
    Lag { max_lag, final_lag }
}

proof fn lemma_no_tracks(rows: Seq<BlockRow>)
    ensures
        worst_lag(rows, 0) == 0,
        last_lag(rows, 0) == 0,
    decreases rows.len(),
{
    if rows.len() > 0 {
        lemma_no_tracks(rows.drop_last());
    }
}

/// Every block is complete no later than the one after it, and costs no more than
/// the audio between them.
pub open spec fn keeps_up(rows: Seq<BlockRow>) -> bool {
    forall|i: int, j: int|
        0 <= i && j == i + 1 && j < rows.len() ==> (#[trigger] rows[i]).end + rows[i].cost() <= (
        #[trigger] rows[j]).end
}

/// A worker that is done with each block by the time the next one arrives never
/// lags by more than one block of work, however long the track runs.
pub proof fn keeping_up_bounds_the_lag(rows: Seq<BlockRow>, work: int)
    requires
        keeps_up(rows),
        work >= 0,
        forall|i: int| 0 <= i < rows.len() ==> (#[trigger] rows[i]).cost() <= work,
    ensures
        0 <= worst_lag(rows, 1) <= work,
        rows.len() > 0 ==> free_at(rows, 1) == rows.last().end + rows.last().cost(),
    decreases rows.len(),
{
    if rows.len() > 0 {
        let rest = rows.drop_last();
        assert forall|i: int, j: int|
            0 <= i && j == i + 1 && j < rest.len() implies (#[trigger] rest[i]).end
            + rest[i].cost() <= (#[trigger] rest[j]).end by {
            assert(rows[i].end + rows[i].cost() <= rows[j].end);
        }
        keeping_up_bounds_the_lag(rest, work);
        let free = free_at(rest, 1);
        let end = rows.last().end as int;
        let cost = rows.last().cost();
        assert(free_after(free, end, cost, 0) == free);
        assert(free_after(free, end, cost, 1) == (if free > end {
            free
        } else {
            end
        }) + cost);
        assert(cost <= work);
        if rest.len() > 0 {
            let n = rows.len() as int;
            assert(rows[n - 2].end + rows[n - 2].cost() <= rows[n - 1].end);
        }
    }
}

/// The work of the blocks from `i` on.
pub open spec fn work_from(rows: Seq<BlockRow>, i: int) -> int
    decreases rows.len(),
{
    if rows.len() == 0 || rows.len() <= i {
        0
    } else {
        work_from(rows.drop_last(), i) + rows.last().prep + rows.last().decode
    }
}

proof fn lemma_free_after(free: int, end: int, work: int, k: nat)
    requires
        k > 0,
        work >= 0,
    ensures
        free_after(free, end, work, k) == (if free > end {
            free
        } else {
            end
        }) + k * work,
    decreases k,
{
    if k > 1 {
        lemma_free_after(free, end, work, (k - 1) as nat);
        assert((k - 1) * work + work == k * work) by (nonlinear_arith);
        assert((k - 1) * work >= 0) by (nonlinear_arith)
            requires
                k > 1,
                work >= 0,
        ;
    } else {
        assert(free_after(free, end, work, 0) == free);
        assert(k * work == work) by (nonlinear_arith)
            requires
                k == 1,
        ;
    }
}

/// The worker is free once it has done everything that came since it last had to
/// wait: never sooner than all the work from any block on takes after that block
/// arrived, and exactly then for the block it last waited for.
pub proof fn the_worker_is_free_when_its_work_is_done(
    rows: Seq<BlockRow>,
    tracks: nat,
    i: int,
) -> (last: int)
    requires
        tracks > 0,
        0 <= i < rows.len(),
    ensures
        free_at(rows, tracks) >= rows[i].end + tracks * work_from(rows, i),
        0 <= last < rows.len(),
        free_at(rows, tracks) == rows[last].end + tracks * work_from(rows, last),
    decreases rows.len(),
{
    let front = rows.drop_last();
    let n = rows.len() - 1;
    let r = rows.last();
    let before = free_at(front, tracks);
    lemma_free_after(before, r.end as int, r.cost(), tracks);
    assert(work_from(front, n) == 0);
    if front.len() == 0 {
        assert(work_from(rows, 0) == r.cost());
        n
    } else {
        let j = if i < n {
            i
        } else {
            0
        };
        let l = the_worker_is_free_when_its_work_is_done(front, tracks, j);
        assert(front[j] == rows[j] && front[l] == rows[l]);
        assert(tracks * work_from(rows, j) == tracks * work_from(front, j) + tracks * r.cost())
            by (nonlinear_arith)
            requires
                work_from(rows, j) == work_from(front, j) + r.cost(),
        ;
        assert(tracks * work_from(rows, l) == tracks * work_from(front, l) + tracks * r.cost())
            by (nonlinear_arith)
            requires
                work_from(rows, l) == work_from(front, l) + r.cost(),
        ;
        assert(work_from(rows, n) == r.cost());
        if before > r.end {
            l
        } else {
            n
        }
    }
}

/// The worst lag is the greatest there is after any block, and never less than none.
pub proof fn the_worst_lag_is_the_greatest(rows: Seq<BlockRow>, tracks: nat, k: int)
    requires
        0 <= k <= rows.len(),
    ensures
        last_lag(rows.take(k), tracks) <= worst_lag(rows, tracks),
        worst_lag(rows, tracks) == 0 || exists|j: int|
            0 < j <= rows.len() && worst_lag(rows, tracks) == #[trigger] last_lag(
                rows.take(j),
                tracks,
            ),
        worst_lag(rows, tracks) >= 0,
    decreases rows.len(),
{
    if rows.len() > 0 {
        let front = rows.drop_last();
        let n = rows.len() as int;
        assert(rows.take(n) == rows);
        the_worst_lag_is_the_greatest(
            front,
            tracks,
            if k < n {
                k
            } else {
                0
            },
        );
        if k < n {
            assert(front.take(k) == rows.take(k));
        }
        if last_lag(rows, tracks) > worst_lag(front, tracks) {
            assert(worst_lag(rows, tracks) == last_lag(rows.take(n), tracks));
        } else if worst_lag(front, tracks) != 0 {
            let j = choose|j: int|
                0 < j <= front.len() && worst_lag(front, tracks) == #[trigger] last_lag(
                    front.take(j),
                    tracks,
                );
            assert(front.take(j) == rows.take(j));
            assert(worst_lag(rows, tracks) == last_lag(rows.take(j), tracks));
        }
    }
}

} // verus!
