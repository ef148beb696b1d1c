//! The serial transcription queue.
//!
//! Capture and transcription are separate work, so a new recording can start the
//! moment the last one's audio is on disk, rather than after its transcript is.
//! One transcription at a time: running two of them beside a live tap risks
//! dropped audio, which costs more than the wait does.

use crate::meter::{Meter, MeterPhase};
use crate::text;
use crate::text::{decimal_string, path_name};
use vstd::prelude::*;

verus! {

/// A session whose audio is written and whose transcript is not yet.
#[derive(Debug)]
pub struct Job {
    pub dir: String,
    /// Written by the worker as it moves through recognition and separation,
    /// read by whichever UI is drawing the queue.
    pub meter: Meter,
}

impl Job {
    /// The session's id: the name of its directory.
    pub fn id(&self) -> (r: String)
        ensures
            r@ == text::name_or_empty(self.dir@),
    {
        match path_name(self.dir.as_str()) {
            Some(n) => n,
            None => String::new(),
        }
    }
}

/// What the worker hands back: which session, and how it went.
pub type Outcome = (String, Result<String, String>);

/// What looking for a result found.
#[derive(Debug)]
pub enum Polled {
    Arrived(Outcome),
    /// Nothing yet.
    Empty,
    /// The worker is gone.
    Gone,
}

/// The sessions waiting for a transcript, oldest first. The front is the one the
/// worker is on; everything behind it is waiting.
#[derive(Debug)]
pub struct Queue {
    pending: Vec<Job>,
}

impl View for Queue {
    type V = Seq<Job>;

    closed spec fn view(&self) -> Seq<Job> {
        self.pending@
    }
}

/// A job as it is queued: nothing metered yet, and drawn as transcribing.
pub open spec fn fresh(dir: String) -> Job {
    Job {
        dir,
        meter: Meter {
            elapsed_ms: 0,
            room_peak_milli: 0,
            call_peak_milli: 0,
            audio_arriving: false,
            phase: MeterPhase::Transcribing.number(),
        },
    }
}

/// What the worker hands back, as plain characters.
pub open spec fn outcome_text(o: Outcome) -> (Seq<char>, Result<Seq<char>, Seq<char>>) {
    (
        o.0@,
        match o.1 {
            Ok(d) => Ok(d@),
            Err(e) => Err(e@),
        },
    )
}

/// One poll: the jobs it leaves, and what it hands on.
pub open spec fn polled(jobs: Seq<Job>, event: Polled) -> (
    Seq<Job>,
    Option<(Seq<char>, Result<Seq<char>, Seq<char>>)>,
) {
    let rest = if jobs.len() > 0 {
        jobs.drop_first()
    } else {
        jobs
    };
    match event {
        Polled::Empty => (jobs, None),
        Polled::Arrived(o) => (rest, Some(outcome_text(o))),
        Polled::Gone => if jobs.len() > 0 {
            (
                rest,
                Some(
                    (
                        jobs[0].dir@,
                        Err::<Seq<char>, Seq<char>>("the transcription thread went away"@),
                    ),
                ),
            )
        } else {
            (jobs, None)
        },
    }
}

/// What the worker is doing, in a word.
pub open spec fn verb(p: MeterPhase) -> Seq<char> {
    match p {
        MeterPhase::Diarizing => "Separating voices"@,
        MeterPhase::Done => "Finishing"@,
        MeterPhase::Failed => "Failed"@,
        MeterPhase::Capturing => "Transcribing"@,
        MeterPhase::Transcribing => "Transcribing"@,
    }
}

/// The queue in one line: what is being done to which session, and how many are
/// behind it.
pub open spec fn summarised(jobs: Seq<Job>) -> Option<Seq<char>> {
    if jobs.len() == 0 {
        None
    } else {
        let front = verb(MeterPhase::numbered(jobs[0].meter.phase)) + " "@ + text::name_or_empty(
            jobs[0].dir@,
        );
        let behind = (jobs.len() - 1) as nat;
        if behind == 0 {
            Some(front)
        } else {
            Some(front + " · "@ + text::decimal(behind) + " waiting"@)
        }
    }
}

impl Queue {
    pub fn new() -> (q: Queue)
        ensures
            q@ == Seq::<Job>::empty(),
    {
        Queue { pending: Vec::new() }
    }

    /// Queue a session for transcription. The meter starts at `Transcribing`, so
    /// a job read before the worker has touched it is never drawn as a
    /// recording.
    pub fn push(&mut self, dir: String)
        ensures
            final(self)@ == old(self)@.push(fresh(dir)),
    {
        let mut meter: Meter = Meter::default();
        meter.set_phase(MeterPhase::Transcribing);
        self.pending.push(Job { dir, meter });
    }

    /// The worker has moved the front job on.
    pub fn report(&mut self, meter: Meter)
        ensures
            old(self)@.len() == 0 ==> final(self)@ == old(self)@,
            old(self)@.len() > 0 ==> final(self)@ == old(self)@.update(
                0,
                (Job { dir: old(self)@[0].dir, meter }),
            ),
    {
        if self.pending.len() > 0 {
            let dir: String = self.pending[0].dir.clone();
            self.pending.set(0, Job { dir, meter });
        }
    }

    /// Whether a result has arrived. Serial and first in, first out, so a result
    /// always belongs to the front. Once the worker is gone every pending job is
    /// a failure, one per poll so each is reported against its own session.
    pub fn poll(&mut self, event: Polled) -> (r: Option<Outcome>)
        ensures
            final(self)@ == polled(old(self)@, event).0,
            polled(old(self)@, event).1 == (match r {
                Some(o) => Some(outcome_text(o)),
                None => None,
            }),
    {
        match event {
            Polled::Empty => None,
            Polled::Arrived(o) => {
                if self.pending.len() > 0 {
                    let _front: Job = self.pending.remove(0);
                    proof {
                        assert(self@ == old(self)@.drop_first());
                    }
                }
                Some(o)
            },
            Polled::Gone => {
                if self.pending.len() > 0 {
                    let front: Job = self.pending.remove(0);
                    proof {
                        assert(self@ == old(self)@.drop_first());
                    }
                    Some((front.dir, Err("the transcription thread went away".to_owned())))
                } else {
                    None
                }
            },
        }
    }

    pub fn is_empty(&self) -> (r: bool)
        ensures
            r == (self@.len() == 0),
    {
        self.pending.len() == 0
    }

    pub fn len(&self) -> (n: usize)
        ensures
            n == self@.len(),
    {
        self.pending.len()
    }

    /// One line for the menu, or nothing when there is nothing to say.
    pub fn summary(&self) -> (r: Option<String>)
        ensures
            crate::text::opt(r) == summarised(self@),
    {
        if self.pending.len() == 0 {
            return None;
        }
        let front: &Job = &self.pending[0];
        let mut out: String = match front.meter.phase() {
            MeterPhase::Diarizing => "Separating voices".to_owned(),
            MeterPhase::Done => "Finishing".to_owned(),
            MeterPhase::Failed => "Failed".to_owned(),
            MeterPhase::Capturing => "Transcribing".to_owned(),
            MeterPhase::Transcribing => "Transcribing".to_owned(),
        };
        out.append(" ");
        out.append(front.id().as_str());
        let behind: usize = self.pending.len() - 1;
        if behind > 0 {
            out.append(" · ");
            out.append(decimal_string(behind as u64).as_str());
            out.append(" waiting");
        }
        Some(out)
    }
}

/// The jobs of sessions queued one after the other on an empty queue.
pub open spec fn queued(dirs: Seq<String>) -> Seq<Job> {
    dirs.map_values(|d: String| fresh(d))
}

/// The jobs that a run of polls leaves, and what it hands on.
pub open spec fn polls(jobs: Seq<Job>, events: Seq<Polled>) -> (
    Seq<Job>,
    Seq<(Seq<char>, Result<Seq<char>, Seq<char>>)>,
)
    decreases events.len(),
{
    if events.len() == 0 {
        (jobs, Seq::empty())
    } else {
        let before = polls(jobs, events.drop_last());
        let now = polled(before.0, events.last());
        (
            now.0,
            match now.1 {
                Some(o) => before.1.push(o),
                None => before.1,
            },
        )
    }
}

/// What the worker handed back over a run of polls, in order.
pub open spec fn arrivals(events: Seq<Polled>) -> Seq<Outcome>
    decreases events.len(),
{
    if events.len() == 0 {
        Seq::empty()
    } else {
        match events.last() {
            Polled::Arrived(o) => arrivals(events.drop_last()).push(o),
            _ => arrivals(events.drop_last()),
        }
    }
}

/// A poll that hands something on takes one job off a queue that holds any, and
/// one that hands nothing on leaves the queue as it is.
pub proof fn a_result_takes_one_job_off(jobs: Seq<Job>, event: Polled)
    ensures
        polled(jobs, event).1 is None ==> polled(jobs, event).0 == jobs,
        polled(jobs, event).1 is Some && jobs.len() > 0 ==> polled(jobs, event).0
            == jobs.drop_first(),
{
}

/// Jobs come back in the order they were queued: while the worker lives and hands
/// back one result for each session in turn, the polls hand on exactly those
/// results, each once and in that order, with any number of polls in between that
/// find nothing. What is left is what stood behind them: nothing, once there were
/// as many results as jobs.
pub proof fn jobs_come_back_in_order(dirs: Seq<String>, events: Seq<Polled>)
    requires
        forall|k: int| 0 <= k < events.len() ==> !(#[trigger] events[k] is Gone),
        arrivals(events).len() <= dirs.len(),
        forall|i: int|
            0 <= i < arrivals(events).len() ==> (#[trigger] arrivals(events)[i]).0 == dirs[i],
    ensures
        polls(queued(dirs), events).1 == arrivals(events).map_values(|o: Outcome| outcome_text(o)),
        forall|i: int|
            0 <= i < arrivals(events).len() ==> (#[trigger] polls(queued(dirs), events).1[i]).0
                == dirs[i]@,
        polls(queued(dirs), events).0 == queued(dirs).skip(arrivals(events).len() as int),
        arrivals(events).len() == dirs.len() ==> polls(queued(dirs), events).0.len() == 0,
    decreases events.len(),
{
    let jobs = queued(dirs);
    let told = arrivals(events).map_values(|o: Outcome| outcome_text(o));
    if events.len() == 0 {
        assert(jobs.skip(0) == jobs);
        assert(polls(jobs, events).1 == told);
    } else {
        let earlier = events.drop_last();
        assert forall|k: int| 0 <= k < earlier.len() implies !(#[trigger] earlier[k] is Gone) by {
            assert(earlier[k] == events[k]);
        }
        let n = arrivals(earlier).len();
        assert forall|i: int| 0 <= i < n implies (#[trigger] arrivals(earlier)[i]).0 == dirs[i] by {
            assert(arrivals(events)[i] == arrivals(earlier)[i]);
        }
        jobs_come_back_in_order(dirs, earlier);
        assert(events[events.len() - 1] == events.last());
        match events.last() {
            Polled::Arrived(o) => {
                assert(jobs.skip(n as int).drop_first() == jobs.skip((n + 1) as int));
                assert(told == polls(jobs, earlier).1.push(outcome_text(o)));
            },
            _ => {
                assert(told == polls(jobs, earlier).1);
            },
        }
    }
}

/// Once the worker is gone every job still waiting is reported as failed, one for
/// each poll and oldest first, and after that nothing is.
pub proof fn a_lost_worker_fails_every_job(jobs: Seq<Job>, events: Seq<Polled>)
    requires
        forall|k: int| 0 <= k < events.len() ==> #[trigger] events[k] is Gone,
    ensures
        ({
            let n = if events.len() < jobs.len() {
                events.len()
            } else {
                jobs.len()
            };
            &&& polls(jobs, events).0 == jobs.skip(n as int)
            &&& polls(jobs, events).1 == Seq::new(
                n,
                |i: int|
                    (
                        jobs[i].dir@,
                        Err::<Seq<char>, Seq<char>>("the transcription thread went away"@),
                    ),
            )
        }),
    decreases events.len(),
{
    if events.len() == 0 {
        assert(jobs.skip(0) == jobs);
    } else {
        let earlier = events.drop_last();
        assert forall|k: int| 0 <= k < earlier.len() implies #[trigger] earlier[k] is Gone by {
            assert(earlier[k] == events[k]);
        }
        a_lost_worker_fails_every_job(jobs, earlier);
        assert(events[events.len() - 1] is Gone);
        if earlier.len() < jobs.len() {
            assert(jobs.skip(earlier.len() as int).drop_first() == jobs.skip(events.len() as int));
        }
    }
}

/// The queue is told by what is being done to its first job, and how many wait
/// behind it; an empty one is not told of.
pub proof fn the_queue_tells_how_many_wait(jobs: Seq<Job>)
    ensures
        summarised(jobs) is None <==> jobs.len() == 0,
        jobs.len() == 1 ==> summarised(jobs) == Some(
            verb(MeterPhase::numbered(jobs[0].meter.phase)) + " "@ + text::name_or_empty(
                jobs[0].dir@,
            ),
        ),
        jobs.len() > 1 ==> summarised(jobs) == Some(
            summarised(jobs.take(1))->0 + " · "@ + text::decimal((jobs.len() - 1) as nat)
                + " waiting"@,
        ),
{
}

} // verus!
