//! The menu bar app: what it notices, what it shows, and when it may leave.

use crate::meter::Meter;
use crate::queue;
use crate::queue::{Outcome, Polled, Queue};
use crate::state;
use crate::state::{listed, Live, Phase, PhaseKind, Quit};
use crate::text;
use vstd::prelude::*;

verus! {

/// Which icon the status item shows: the phase's own, except that an idle app
/// with transcripts still being written is not idle to look at.
pub fn symbol_for(kind: PhaseKind, transcribing: bool) -> (r: &'static str)
    ensures
        r@ == (if kind == PhaseKind::Idle && transcribing {
            PhaseKind::Stopping.icon()
        } else {
            kind.icon()
        }),
{
    if kind == PhaseKind::Idle && transcribing {
        PhaseKind::Stopping.symbol()
    } else {
        kind.symbol()
    }
}

/// What the watcher should do about what is currently playing.
#[derive(Debug)]
pub enum Tick {
    Nothing,
    /// Stand down from `Armed`: the app it was waiting on has stopped, whether or
    /// not anything else is still playing.
    Disarm,
    Arm(String),
    Start(String),
}

/// What the watcher should do, as plain characters.
pub enum TickText {
    Nothing,
    Disarm,
    Arm(Seq<char>),
    Start(Seq<char>),
}

impl View for Tick {
    type V = TickText;

    open spec fn view(&self) -> TickText {
        match self {
            Tick::Nothing => TickText::Nothing,
            Tick::Disarm => TickText::Disarm,
            Tick::Arm(a) => TickText::Arm(a@),
            Tick::Start(a) => TickText::Start(a@),
        }
    }
}

/// The first of the first `k` watched apps that is playing and has not been
/// declined.
pub open spec fn caller(
    apps: Seq<Seq<char>>,
    live: Seq<Seq<char>>,
    declined: Set<Seq<char>>,
    k: nat,
) -> Option<Seq<char>>
    decreases k,
{
    if k == 0 {
        None
    } else {
        let before = caller(apps, live, declined, (k - 1) as nat);
        if before is Some {
            before
        } else if live.contains(apps[k - 1]) && !declined.contains(apps[k - 1]) {
            Some(apps[k - 1])
        } else {
            None
        }
    }
}

/// The consent rule.
///
/// An empty list watches nothing: it already means "capture all system audio",
/// and arming on any sound would flap at every notification chime. An armed
/// phase stands down when the app it armed for goes quiet. A failure the user
/// has not dismissed must not stop the next call being noticed.
pub open spec fn ruled(
    phase: Phase,
    apps: Seq<Seq<char>>,
    live: Seq<Seq<char>>,
    ask: bool,
) -> TickText {
    if apps.len() == 0 {
        TickText::Nothing
    } else if phase is Armed && !live.contains(phase->Armed_app@) {
        TickText::Disarm
    } else if phase is Idle || phase is Failed {
        match caller(apps, live, phase.declines()@, apps.len()) {
            Some(app) => if ask {
                TickText::Arm(app)
            } else {
                TickText::Start(app)
            },
            None => TickText::Nothing,
        }
    } else {
        TickText::Nothing
    }
}

proof fn lemma_caller_stays(
    apps: Seq<Seq<char>>,
    live: Seq<Seq<char>>,
    declined: Set<Seq<char>>,
    k: nat,
    n: nat,
)
    requires
        k <= n,
        caller(apps, live, declined, k) is Some,
    ensures
        caller(apps, live, declined, n) == caller(apps, live, declined, k),
    decreases n,
{
    if k < n {
        lemma_caller_stays(apps, live, declined, k, (n - 1) as nat);
    }
}

fn find_caller(phase: &Phase, apps: &[String], live: &[String]) -> (r: Option<usize>)
    ensures
        ({
            let c = caller(
                text::views(apps@),
                text::views(live@),
                phase.declines()@,
                apps@.len(),
            );
            match r {
                Some(i) => i < apps@.len() && c == Some(apps@[i as int]@),
                None => c is None,
            }
        }),
{
    let ghost a = text::views(apps@);
    let ghost l = text::views(live@);
    let ghost d = phase.declines()@;
    let mut i: usize = 0;
    while i < apps.len()
        invariant
            i <= apps@.len(),
            a == text::views(apps@),
            l == text::views(live@),
            d == phase.declines()@,
            caller(a, l, d, i as nat) is None,
        decreases apps@.len() - i,
    {
        proof {
            assert(a[i as int] == apps@[i as int]@);
        }
        if listed(live, apps[i].as_str()) && !phase.declined().is_declined(apps[i].as_str()) {
            proof {
                lemma_caller_stays(a, l, d, (i + 1) as nat, a.len());
            }
            return Some(i);
        }
        i = i + 1;
    }
    None
}

/// What the watcher should do about what is playing.
pub fn next(phase: &Phase, apps: &[String], live: &[String], ask: bool) -> (t: Tick)
    ensures
        t@ == ruled(*phase, text::views(apps@), text::views(live@), ask),
{
    proof {
        assert(text::views(apps@).len() == apps@.len());
    }
    if apps.len() == 0 {
        return Tick::Nothing;
    }
    match phase {
        Phase::Armed { app, .. } => {
            if !listed(live, app.as_str()) {
                return Tick::Disarm;
            }
            return Tick::Nothing;
        },
        Phase::Idle { .. } => {},
        Phase::Failed { .. } => {},
        _ => {
            return Tick::Nothing;
        },
    }
    match find_caller(phase, apps, live) {
        Some(i) => {
            let who: String = apps[i].clone();
            if ask {
                Tick::Arm(who)
            } else {
                Tick::Start(who)
            }
        },
        None => Tick::Nothing,
    }
}

proof fn lemma_caller(
    apps: Seq<Seq<char>>,
    live: Seq<Seq<char>>,
    declined: Set<Seq<char>>,
    k: nat,
)
    requires
        k <= apps.len(),
    ensures
        caller(apps, live, declined, k) matches Some(a) ==> apps.contains(a) && live.contains(a)
            && !declined.contains(a),
        caller(apps, live, declined, k) is None ==> forall|i: int|
            0 <= i < k ==> !live.contains(#[trigger] apps[i]) || declined.contains(apps[i]),
    decreases k,
{
    if k > 0 {
        lemma_caller(apps, live, declined, (k - 1) as nat);
    }
}

/// Nothing is recorded or asked about unless it is watched, is playing, and has
/// not been declined.
pub proof fn only_watched_playing_undeclined_apps(
    phase: Phase,
    apps: Seq<Seq<char>>,
    live: Seq<Seq<char>>,
    ask: bool,
    app: Seq<char>,
)
    requires
        ruled(phase, apps, live, ask) == TickText::Arm(app) || ruled(phase, apps, live, ask)
            == TickText::Start(app),
    ensures
        apps.contains(app),
        live.contains(app),
        !phase.declines()@.contains(app),
        phase.worker() is None,
{
    lemma_caller(apps, live, phase.declines()@, apps.len());
}

/// Recording by itself happens only when asking is switched off, and asking only
/// when it is switched on.
pub proof fn consent_is_asked_for(
    phase: Phase,
    apps: Seq<Seq<char>>,
    live: Seq<Seq<char>>,
    ask: bool,
)
    ensures
        ruled(phase, apps, live, ask) is Start ==> !ask,
        ruled(phase, apps, live, ask) is Arm ==> ask,
{
}

/// A declined app never masks another one: with anything watched, playing and
/// undeclined, an idle app acts.
pub proof fn declined_app_masks_nothing(
    phase: Phase,
    apps: Seq<Seq<char>>,
    live: Seq<Seq<char>>,
    ask: bool,
    i: int,
)
    requires
        phase is Idle || phase is Failed,
        0 <= i < apps.len(),
        live.contains(apps[i]),
        !phase.declines()@.contains(apps[i]),
    ensures
        ruled(phase, apps, live, ask) is Arm || ruled(phase, apps, live, ask) is Start,
{
    lemma_caller(apps, live, phase.declines()@, apps.len());
}

/// What one poll for calls decides, and the phase it leaves behind: declines of
/// apps that have gone quiet are forgotten first, then the consent rule is
/// applied. Starting needs a worker, which the caller provides.
pub fn poll_for_calls(phase: Phase, apps: &[String], playing: &[String], ask: bool) -> (r: (
    Phase,
    Tick,
))
    ensures
        ({
            let live = text::views(playing@);
            let kept = phase.declines()@.filter(|a: Seq<char>| live.contains(a));
            exists|d: state::Declined|
                {
                    let p = #[trigger] phase.with_declines(d);
                    &&& d@ == kept
                    &&& r.1@ == ruled(p, text::views(apps@), live, ask)
                    &&& r.0.declines() == d
                    &&& r.0.worker() == phase.worker()
                    &&& match r.1 {
                        Tick::Disarm => r.0 is Idle,
                        Tick::Arm(a) => r.0 is Armed && r.0->Armed_app@ == a@,
                        _ => r.0 == p,
                    }
                }
        }),
{
    let mut p: Phase = phase;
    p.declined_mut().retire(playing);
    let ghost mid = p;
    let t: Tick = next(&p, apps, playing, ask);
    proof {
        assert(mid == phase.with_declines(mid.declines()));
    }
    let after: Phase = match &t {
        Tick::Disarm => p.disarm(),
        Tick::Arm(app) => p.arm(app.clone()),
        Tick::Nothing => p,
        Tick::Start(_) => p,
    };
    (after, t)
}

/// What the menu shows. Every control's title, enabled and hidden flag comes
/// from the phase and from nowhere else.
#[derive(Debug)]
pub struct Menu {
    pub symbol: &'static str,
    pub start_enabled: bool,
    pub stop_enabled: bool,
    /// The level line, while a worker is running or a failure is standing.
    pub level: Option<String>,
    /// What the transcription queue is doing.
    pub queue: Option<String>,
    /// The consent pair's title, while the user is being asked.
    pub consent: Option<String>,
}

/// The level line: the newest failure while one is standing, the meter while a
/// worker is running, nothing otherwise.
pub open spec fn level_line(
    phase: Phase,
    banner: Option<Seq<char>>,
    meter: Option<Meter>,
) -> Option<Seq<char>> {
    if phase is Failed {
        Some(
            "failed: "@ + (match banner {
                Some(b) => b,
                None => phase->Failed_error@,
            }),
        )
    } else if phase.worker() is Some {
        Some(
            match meter {
                Some(m) => m.line(),
                None => "starting…"@,
            },
        )
    } else {
        None
    }
}

/// The whole of the menu, from the phase, the last failure, what the queue says
/// and the running recording's meter.
pub fn render(phase: &Phase, banner: Option<&str>, queue_line: Option<String>, meter: Option<&Meter>) -> (m:
    Menu)
    ensures
        m.symbol@ == (if phase is Idle && queue_line is Some {
            PhaseKind::Stopping.icon()
        } else {
            phase.kind_of().icon()
        }),
        m.start_enabled == (phase.worker() is None),
        m.stop_enabled == (phase is Recording),
        text::opt(m.level) == level_line(
            *phase,
            match banner {
                Some(b) => Some(b@),
                None => None,
            },
            match meter {
                Some(x) => Some(*x),
                None => None,
            },
        ),
        m.queue == queue_line,
        text::opt(m.consent) == (if phase is Armed {
            Some("Record "@ + phase->Armed_app@)
        } else {
            None
        }),
{
    let view: state::PhaseView = phase.view();
    let level: Option<String> = match phase {
        Phase::Failed { error, .. } => {
            let mut out: String = "failed: ".to_owned();
            match banner {
                Some(b) => out.append(b),
                None => out.append(error.as_str()),
            }
            Some(out)
        },
        _ => if view.has_worker {
            match meter {
                Some(m) => Some(m.status_line()),
                None => Some("starting…".to_owned()),
            }
        } else {
            None
        },
    };
    let consent: Option<String> = match phase {
        Phase::Armed { app, .. } => {
            let mut out: String = "Record ".to_owned();
            out.append(app.as_str());
            Some(out)
        },
        _ => None,
    };
    Menu {
        symbol: symbol_for(view.kind, queue_line.is_some()),
        start_enabled: !view.has_worker,
        stop_enabled: view.kind == PhaseKind::Recording,
        level,
        queue: queue_line,
        consent,
    }
}

/// Everything the app keeps between ticks.
#[derive(Debug)]
pub struct Shell {
    /// The single source of truth for what the app is doing.
    pub phase: Phase,
    /// Sessions whose audio is written and whose transcript is not.
    pub queue: Queue,
    /// The most recent failure, in the words it will be shown in.
    pub banner: Option<String>,
    /// A transcript that failed while the phase was busy with something else:
    /// the directory and the error. It waits here for the first idle tick.
    pub pending_failure: Option<(String, String)>,
    pub quitting: bool,
    pub ticks: u64,
}

/// How a failure reads: what was being done, and what went wrong.
pub open spec fn failure_text(context: Seq<char>, error: Seq<char>) -> Seq<char> {
    context + ": "@ + error
}

fn failure(context: &str, error: &str) -> (r: String)
    ensures
        r@ == failure_text(context@, error@),
{
    let mut out: String = context.to_owned();
    out.append(": ");
    out.append(error);
    out
}

impl Shell {
    pub fn new() -> (s: Shell)
        ensures
            s.phase is Idle,
            s.phase.declines()@ == Set::<Seq<char>>::empty(),
            s.queue@ == Seq::<queue::Job>::empty(),
            s.banner is None,
            s.pending_failure is None,
            !s.quitting,
            s.ticks == 0,
    {
        Shell {
            phase: Phase::idle(),
            queue: Queue::new(),
            banner: None,
            pending_failure: None,
            quitting: false,
            ticks: 0,
        }
    }

    /// Note a failure: the words the banner will use.
    pub fn fail(self, context: &str, error: &str) -> (s: Shell)
        ensures
            text::opt(s.banner) == Some(failure_text(context@, error@)),
            s == (Shell { banner: s.banner, ..self }),
    {
        let text: String = failure(context, error);
        Shell { banner: Some(text), ..self }
    }

    /// One tick of the timer, and whether it is time to look for calls: every
    /// eighth tick, while the phase is one that watches, and not while a quit is
    /// waiting — a call starting must not begin a recording under an app that has
    /// been asked to leave.
    pub fn tick(self) -> (r: (Shell, bool))
        ensures
            r.0.ticks == (if self.ticks == u64::MAX {
                0
            } else {
                self.ticks + 1
            }),
            r.0 == (Shell { ticks: r.0.ticks, ..self }),
            r.1 == (r.0.ticks % 8 == 0 && self.phase.kind_of().watching() && !self.quitting),
    {
        let n: u64 = if self.ticks == u64::MAX {
            0
        } else {
            self.ticks + 1
        };
        let due: bool = n % 8 == 0 && self.phase.kind().is_watching() && !self.quitting;
        (Shell { ticks: n, ..self }, due)
    }

    /// The capture worker handed back a result: the phase is free again, and a
    /// captured session goes on the queue while a failure is noted.
    pub fn captured(self, result: Result<String, String>, at: &str) -> (s: Shell)
        requires
            self.phase.worker() is Some,
        ensures
            s.phase.worker() is None,
            s.phase.declines() == self.phase.declines(),
            match result {
                Ok(dir) => {
                    &&& s.phase is Idle
                    &&& s.banner == self.banner
                    &&& s.queue@ == self.queue@.push(queue::fresh(dir))
                },
                Err(e) => {
                    &&& s.phase is Failed
                    &&& text::opt(s.phase->Failed_dir) == Some(
                        self.phase.worker()->0.dir.location(),
                    )
                    &&& s.phase->Failed_error@ == e@
                    &&& s.phase->Failed_at@ == at@
                    &&& text::opt(s.banner) == Some(failure_text("recording"@, e@))
                    &&& s.queue@ == self.queue@
                },
            },
            s.pending_failure == self.pending_failure,
            s.quitting == self.quitting,
            s.ticks == self.ticks,
    {
        match result {
            Ok(dir) => {
                let next: Phase = self.phase.finished(Ok(dir.clone()), at);
                let mut queue: Queue = self.queue;
                queue.push(dir);
                Shell {
                    phase: next,
                    queue,
                    banner: self.banner,
                    pending_failure: self.pending_failure,
                    quitting: self.quitting,
                    ticks: self.ticks,
                }
            },
            Err(e) => {
                let banner: String = failure("recording", e.as_str());
                let next: Phase = self.phase.finished(Err(e), at);
                Shell {
                    phase: next,
                    queue: self.queue,
                    banner: Some(banner),
                    pending_failure: self.pending_failure,
                    quitting: self.quitting,
                    ticks: self.ticks,
                }
            },
        }
    }

    /// The transcription queue was looked at. A failure is held rather than
    /// applied: the phase may be busy with the next recording. The newest one
    /// wins the slot.
    pub fn polled(self, event: Polled) -> (r: (Shell, Option<Outcome>))
        ensures
            r.0.phase == self.phase,
            r.0.quitting == self.quitting,
            r.0.ticks == self.ticks,
            r.0.queue@ == queue::polled(self.queue@, event).0,
            queue::polled(self.queue@, event).1 == (match r.1 {
                Some(o) => Some(queue::outcome_text(o)),
                None => None,
            }),
            match r.1 {
                Some(o) => match o.1 {
                    Ok(_) => r.0.banner == self.banner && r.0.pending_failure
                        == self.pending_failure,
                    Err(e) => {
                        &&& text::opt(r.0.banner) == Some(
                            failure_text("transcribing "@ + o.0@, e@),
                        )
                        &&& r.0.pending_failure matches Some(f)
                        &&& f.0@ == o.0@
                        &&& f.1@ == e@
                    },
                },
                None => r.0.banner == self.banner && r.0.pending_failure == self.pending_failure,
            },
    {
        let mut queue: Queue = self.queue;
        let done: Option<Outcome> = queue.poll(event);
        match done {
            Some((dir, Err(e))) => {
                let mut context: String = "transcribing ".to_owned();
                context.append(dir.as_str());
                let banner: String = failure(context.as_str(), e.as_str());
                let held: (String, String) = (dir.clone(), e.clone());
                (
                    Shell {
                        phase: self.phase,
                        queue,
                        banner: Some(banner),
                        pending_failure: Some(held),
                        quitting: self.quitting,
                        ticks: self.ticks,
                    },
                    Some((dir, Err(e))),
                )
            },
            other => (
                Shell {
                    phase: self.phase,
                    queue,
                    banner: self.banner,
                    pending_failure: self.pending_failure,
                    quitting: self.quitting,
                    ticks: self.ticks,
                },
                other,
            ),
        }
    }

    /// Apply a held failure on the first idle tick, so it is drawn the way a
    /// capture failure is and can be dismissed the same way.
    pub fn settle(self, at: &str) -> (s: Shell)
        ensures
            self.phase is Idle && self.pending_failure is Some ==> {
                &&& s.phase is Failed
                &&& self.pending_failure matches Some(f)
                &&& text::opt(s.phase->Failed_dir) == Some(f.0@)
                &&& s.phase->Failed_error@ == f.1@
                &&& s.phase->Failed_at@ == at@
                &&& s.phase.declines() == self.phase.declines()
                &&& s.pending_failure is None
                &&& s.queue == self.queue
                &&& s.banner == self.banner
                &&& s.quitting == self.quitting
                &&& s.ticks == self.ticks
            },
            !(self.phase is Idle && self.pending_failure is Some) ==> s == self,
    {
        let idle: bool = self.phase.kind() == PhaseKind::Idle;
        match self.pending_failure {
            Some((dir, e)) => {
                if idle {
                    Shell {
                        phase: self.phase.transcript_failed(dir, e, at),
                        queue: self.queue,
                        banner: self.banner,
                        pending_failure: None,
                        quitting: self.quitting,
                        ticks: self.ticks,
                    }
                } else {
                    Shell { pending_failure: Some((dir, e)), ..self }
                }
            },
            None => Shell { pending_failure: None, ..self },
        }
    }

    /// Whether the Start item begins a recording now: unless one is under way.
    pub fn may_start(&self) -> (r: bool)
        ensures
            r == (self.phase.worker() is None),
    {
        !self.phase.view().has_worker
    }

    /// The call the user is being asked about: what the consent pair answers for.
    pub fn asked_about(&self) -> (r: Option<String>)
        ensures
            text::opt(r) == (if self.phase is Armed {
                self.phase.about()
            } else {
                None
            }),
    {
        match self.phase.kind() {
            PhaseKind::Armed => self.phase.app(),
            _ => None,
        }
    }

    /// A recording was to begin: its directory was claimed and its worker runs, or
    /// the claim failed. A failure stands down rather than sit armed over a
    /// recording that was never started. A recording that finds another under way
    /// comes back, to be stopped by whoever started it.
    pub fn begun(self, started: Result<Live, String>) -> (r: (Shell, Option<Live>))
        ensures
            match started {
                Ok(live) => {
                    &&& self.phase.worker() is None ==> r.1 is None && r.0.phase is Recording
                        && r.0.phase.worker() == Some(live)
                    &&& self.phase.worker() is Some ==> r.1 == Some(live) && r.0.phase == self.phase
                    &&& r.0.banner == self.banner
                },
                Err(e) => {
                    &&& r.1 is None
                    &&& self.phase is Armed ==> r.0.phase is Idle
                    &&& !(self.phase is Armed) ==> r.0.phase == self.phase
                    &&& text::opt(r.0.banner) == Some(
                        failure_text("could not start a recording"@, e@),
                    )
                },
            },
            r.0.phase.declines() == self.phase.declines(),
            r.0 == (Shell { phase: r.0.phase, banner: r.0.banner, ..self }),
    {
        match started {
            Ok(live) => {
                let (phase, left): (Phase, Option<Live>) = self.phase.start(live);
                (Shell { phase, ..self }, left)
            },
            Err(e) => {
                let banner: String = failure("could not start a recording", e.as_str());
                let phase: Phase = self.phase.disarm();
                (Shell { phase, banner: Some(banner), ..self }, None)
            },
        }
    }

    /// The user waved the call away: remembered against the app, so the menu does
    /// not ask again a moment later.
    pub fn not_this_one(self) -> (s: Shell)
        ensures
            !(self.phase is Armed) ==> s == self,
            self.phase is Armed ==> s.phase is Idle && s.phase.declines()@
                == self.phase.declines()@.insert(self.phase->Armed_app@),
            s == (Shell { phase: s.phase, ..self }),
    {
        let who: String = match self.asked_about() {
            Some(a) => a,
            None => {
                return self;
            },
        };
        let mut phase: Phase = self.phase;
        phase.declined_mut().decline(who.as_str());
        Shell { phase: phase.disarm(), ..self }
    }

    /// The user asked to stop, and writing the sentinel went as `written` says.
    /// Stopping is an answer about the call too, or the watcher would start it
    /// again. Where the sentinel could not be written the worker is still
    /// recording, and so is the phase.
    pub fn stop(self, watched: &[String], playing: &[String], written: Result<(), String>) -> (s: Shell)
        ensures
            !(self.phase is Recording) ==> s == self,
            self.phase is Recording ==> {
                let w = text::views(watched@);
                let p = text::views(playing@);
                let who = if state::first_of(w, p, w.len()) is Some {
                    state::first_of(w, p, w.len())
                } else {
                    self.phase.about()
                };
                &&& s.phase.worker() == self.phase.worker()
                &&& s.phase.declines()@ == (match who {
                    Some(a) => self.phase.declines()@.insert(a),
                    None => self.phase.declines()@,
                })
                &&& match written {
                    Ok(()) => s.phase is Stopping && s.banner == self.banner,
                    Err(e) => s.phase is Recording && text::opt(s.banner) == Some(
                        failure_text(
                            "could not stop the recording"@,
                            "writing "@ + text::beneath(
                                self.phase.worker()->0.dir.location(),
                                "STOP"@,
                            ) + ": "@ + e@,
                        ),
                    ),
                }
            },
            s == (Shell { phase: s.phase, banner: s.banner, ..self }),
    {
        if self.phase.kind() != PhaseKind::Recording {
            return self;
        }
        match self.phase.decline_this_call(watched, playing).stop(written) {
            Ok(phase) => Shell { phase, ..self },
            Err((phase, e)) => {
                let banner: String = failure("could not stop the recording", e.as_str());
                Shell { phase, banner: Some(banner), ..self }
            },
        }
    }

    /// The user cleared a failure.
    pub fn dismissed(self) -> (s: Shell)
        ensures
            self.phase is Failed ==> s.phase is Idle,
            !(self.phase is Failed) ==> s.phase == self.phase,
            s.phase.declines() == self.phase.declines(),
            s == (Shell { phase: s.phase, ..self }),
    {
        Shell { phase: self.phase.dismiss(), ..self }
    }

    /// The user asked to quit.
    pub fn quit(self, written: Result<(), String>) -> (r: (Shell, Quit))
        ensures
            r.0.phase.worker() == self.phase.worker(),
            r.0.phase.declines() == self.phase.declines(),
            self.phase is Recording && written is Ok ==> r.0.phase is Stopping,
            !(self.phase is Recording && written is Ok) ==> r.0.phase == self.phase,
            r.0.queue == self.queue,
            r.0.ticks == self.ticks,
            r.0.pending_failure == self.pending_failure,
            r.1 is Later ==> r.0.quitting && (r.0.phase.worker() is Some || r.0.queue@.len() > 0),
            !(r.1 is Later) ==> r.0.quitting == self.quitting,
            r.1 is Now <==> self.phase.worker() is None && self.queue@.len() == 0,
            r.1 is Cancel <==> self.phase is Recording && written is Err,
            r.1 matches Quit::Cancel(e) ==> e@ == "writing "@ + text::beneath(
                self.phase.worker()->0.dir.location(),
                "STOP"@,
            ) + ": "@ + written->Err_0@ && text::opt(r.0.banner) == Some(
                failure_text("could not stop the recording"@, e@),
            ),
            !(r.1 is Cancel) ==> r.0.banner == self.banner,
    {
        let busy: bool = !self.queue.is_empty();
        let (phase, q): (Phase, Quit) = self.phase.on_quit(busy, written);
        let mut banner: Option<String> = self.banner;
        let mut quitting: bool = self.quitting;
        match &q {
            Quit::Now => {},
            Quit::Later(_) => {
                quitting = true;
            },
            Quit::Cancel(e) => {
                banner = Some(failure("could not stop the recording", e.as_str()));
            },
        }
        (
            Shell {
                phase,
                queue: self.queue,
                banner,
                pending_failure: self.pending_failure,
                quitting,
                ticks: self.ticks,
            },
            q,
        )
    }

    /// Whether a deferred quit is answered now: once nothing is left to wait for,
    /// no capture worker and nothing on the queue.
    pub fn may_leave(self) -> (r: (Shell, bool))
        ensures
            r.1 == (self.quitting && self.phase.worker() is None && self.queue@.len() == 0),
            r.0 == (Shell { quitting: self.quitting && !r.1, ..self }),
    {
        let go: bool = self.quitting && !self.phase.view().has_worker && self.queue.is_empty();
        let quitting: bool = self.quitting && !go;
        (Shell { quitting, ..self }, go)
    }
}

/// Of several that are playing, the one that is watched first is acted on.
pub proof fn the_first_watched_app_is_acted_on(
    apps: Seq<Seq<char>>,
    live: Seq<Seq<char>>,
    declined: Set<Seq<char>>,
    k: nat,
)
    requires
        k <= apps.len(),
    ensures
        match caller(apps, live, declined, k) {
            Some(app) => exists|i: int|
                {
                    &&& 0 <= i < k
                    &&& #[trigger] apps[i] == app
                    &&& live.contains(app)
                    &&& !declined.contains(app)
                    &&& forall|j: int|
                        0 <= j < i ==> !live.contains(#[trigger] apps[j]) || declined.contains(
                            apps[j],
                        )
                },
            None => forall|j: int|
                0 <= j < k ==> !live.contains(#[trigger] apps[j]) || declined.contains(apps[j]),
        },
    decreases k,
{
    if k > 0 {
        the_first_watched_app_is_acted_on(apps, live, declined, (k - 1) as nat);
        let before = caller(apps, live, declined, (k - 1) as nat);
        if before is None && caller(apps, live, declined, k) is Some {
            assert(apps[k - 1] == caller(apps, live, declined, k)->0);
        }
    }
}

/// With nothing watched nothing happens. A phase that asks stands down exactly when
/// the app it asks about has gone quiet; one that is recording or stopping is left
/// alone.
pub proof fn a_question_stands_down_when_the_app_goes_quiet(
    phase: Phase,
    apps: Seq<Seq<char>>,
    live: Seq<Seq<char>>,
    ask: bool,
)
    ensures
        apps.len() == 0 ==> ruled(phase, apps, live, ask) is Nothing,
        ruled(phase, apps, live, ask) is Disarm <==> apps.len() > 0 && (phase matches Phase::Armed {
            app,
            ..
        } && !live.contains(app@)),
        phase matches Phase::Armed { app, .. } ==> live.contains(app@) ==> ruled(
            phase,
            apps,
            live,
            ask,
        ) is Nothing,
        phase is Recording || phase is Stopping ==> ruled(phase, apps, live, ask) is Nothing,
{
}

} // verus!
