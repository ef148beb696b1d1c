//! What the app is doing, and the only legal ways to move between those states.
//!
//! Every transition consumes the phase and hands back the next one, so a
//! recording cannot be left behind by a state change: either the `Live` moves
//! into the new phase or it moves back into the old one. A `Stopping` phase
//! cannot be built without a [`StopSignalled`], and a `StopSignalled` cannot be
//! built without having written the sentinel into a directory this process
//! claimed.

use crate::claim::{signal_stop, stop_path, SessionDir, StopSignalled};
use crate::text;
use crate::text::{insert_ordered, same_str};
use std::sync::Arc;
use vstd::prelude::*;

verus! {

/// Bundles the user has said "not this one" to, keyed by bundle id so declining
/// one call can never touch the answer about another. A decline lasts only as
/// long as that app keeps producing audio.
#[derive(Debug)]
pub struct Declined {
    apps: Vec<String>,
}

impl View for Declined {
    type V = Set<Seq<char>>;

    closed spec fn view(&self) -> Set<Seq<char>> {
        text::views(self.apps@).to_set()
    }
}

impl Declined {
    /// The names are kept in order and none occurs twice.
    #[verifier::type_invariant]
    spec fn ordered(self) -> bool {
        text::strictly_ordered(text::views(self.apps@))
    }

    pub fn none() -> (d: Declined)
        ensures
            d@ == Set::<Seq<char>>::empty(),
    {
        let apps: Vec<String> = Vec::new();
        proof {
            assert(text::views(apps@) == Seq::<Seq<char>>::empty());
            assert(text::views(apps@).to_set() =~= Set::<Seq<char>>::empty());
        }
        Declined { apps }
    }

    pub fn decline(&mut self, app: &str)
        ensures
            final(self)@ == old(self)@.insert(app@),
    {
        proof {
            use_type_invariant(&*self);
        }
        let mut apps: Vec<String> = Vec::new();
        proof {
            assert(text::views(apps@) == Seq::<Seq<char>>::empty());
        }
        std::mem::swap(&mut apps, &mut self.apps);
        let ghost was = text::views(apps@);
        insert_ordered(&mut apps, app);
        proof {
            text::lemma_ordered_insert(was, app@);
            let now = text::views(apps@);
            assert(now.to_set() =~= was.to_set().insert(app@)) by {
                assert forall|x: Seq<char>| now.to_set().contains(x) <==> was.to_set().insert(
                    app@,
                ).contains(x) by {
                    assert(now.contains(x) <==> (was.contains(x) || x == app@));
                }
            }
        }
        self.apps = apps;
    }

    pub fn is_declined(&self, app: &str) -> (r: bool)
        ensures
            r == self@.contains(app@),
    {
        let mut i: usize = 0;
        let ghost v = text::views(self.apps@);
        while i < self.apps.len()
            invariant
                i <= self.apps@.len(),
                v == text::views(self.apps@),
                forall|j: int| 0 <= j < i ==> #[trigger] v[j] != app@,
            decreases self.apps@.len() - i,
        {
            proof {
                assert(v[i as int] == self.apps@[i as int]@);
            }
            if same_str(self.apps[i].as_str(), app) {
                proof {
                    assert(v.contains(app@));
                }
                return true;
            }
            i = i + 1;
        }
        false
    }

    /// Drop every declined app that has stopped producing audio. Called at every
    /// poll, which is what lets the next call from the same app be asked about
    /// afresh.
    pub fn retire(&mut self, live: &[String])
        ensures
            final(self)@ == old(self)@.filter(|a: Seq<char>| text::views(live@).contains(a)),
    {
        proof {
            use_type_invariant(&*self);
        }
        let ghost all = text::views(self.apps@);
        let ghost playing = text::views(live@);
        let mut kept: Vec<String> = Vec::new();
        let mut i: usize = 0;
        proof {
            assert(text::views(kept@) == Seq::<Seq<char>>::empty());
        }
        while i < self.apps.len()
            invariant
                self.apps@ == old(self).apps@,
                i <= self.apps@.len(),
                all == text::views(self.apps@),
                playing == text::views(live@),
                text::strictly_ordered(all),
                text::strictly_ordered(text::views(kept@)),
                forall|k: int|
                    0 <= k < kept@.len() ==> all.take(i as int).contains((#[trigger] kept@[k])@)
                        && playing.contains(kept@[k]@),
                forall|j: int|
                    0 <= j < i && playing.contains(#[trigger] all[j]) ==> text::views(
                        kept@,
                    ).contains(all[j]),
            decreases self.apps@.len() - i,
        {
            let ghost before = text::views(kept@);
            proof {
                assert(all[i as int] == self.apps@[i as int]@);
                assert forall|x: Seq<char>| all.take(i as int).contains(x) implies #[trigger] all.take(
                    i + 1,
                ).contains(x) by {
                    let j = choose|j: int| 0 <= j < i && all.take(i as int)[j] == x;
                    assert(all.take(i + 1)[j] == x);
                }
                assert(all.take(i + 1)[i as int] == all[i as int]);
            }
            if listed(live, self.apps[i].as_str()) {
                let name: String = self.apps[i].clone();
                proof {
                    assert(text::views(kept@.push(name)) == before.push(name@));
                    assert forall|x: int, y: int|
                        0 <= x < y < before.push(name@).len() implies text::before(
                        #[trigger] before.push(name@)[x],
                        #[trigger] before.push(name@)[y],
                    ) by {
                        if y == before.len() {
                            assert(before[x] == kept@[x]@);
                            let j = choose|j: int| 0 <= j < i && all.take(i as int)[j] == kept@[x]@;
                            assert(text::before(all[j], all[i as int]));
                        } else {
                            assert(text::before(before[x], before[y]));
                        }
                    }
                    assert forall|j: int|
                        0 <= j < i + 1 && playing.contains(#[trigger] all[j]) implies before.push(
                        name@,
                    ).contains(all[j]) by {
                        if j < i {
                            assert(before.contains(all[j]));
                            let k = choose|k: int| 0 <= k < before.len() && before[k] == all[j];
                            assert(before.push(name@)[k] == all[j]);
                        } else {
                            assert(before.push(name@)[before.len() as int] == all[j]);
                        }
                    }
                    assert(playing.contains(all[i as int]));
                }
                kept.push(name);
            }
            i = i + 1;
        }
        proof {
            let now = text::views(kept@);
            let want = all.to_set().filter(|a: Seq<char>| playing.contains(a));
            assert(now.to_set() =~= want) by {
                assert forall|x: Seq<char>| now.to_set().contains(x) <==> want.contains(x) by {
                    if now.contains(x) {
                        let k = choose|k: int| 0 <= k < now.len() && now[k] == x;
                        assert(kept@[k]@ == x);
                        assert(all.take(all.len() as int) == all);
                        assert(all.contains(x));
                    }
                    if all.contains(x) && playing.contains(x) {
                        let j = choose|j: int| 0 <= j < all.len() && all[j] == x;
                        assert(playing.contains(all[j]));
                    }
                }
            }
        }
        self.apps = kept;
    }
}

impl Default for Declined {
    fn default() -> (d: Self)
        ensures
            d@ == Set::<Seq<char>>::empty(),
    {
        Declined::none()
    }
}

/// Whether a name is in a list of names.
pub fn listed(list: &[String], name: &str) -> (r: bool)
    ensures
        r == text::views(list@).contains(name@),
{
    let mut i: usize = 0;
    let ghost v = text::views(list@);
    while i < list.len()
        invariant
            i <= list@.len(),
            v == text::views(list@),
            forall|j: int| 0 <= j < i ==> #[trigger] v[j] != name@,
        decreases list@.len() - i,
    {
        proof {
            assert(v[i as int] == list@[i as int]@);
        }
        if same_str(list[i].as_str(), name) {
            return true;
        }
        i = i + 1;
    }
    false
}

/// A recording this process started and still owns.
///
/// The directory is claimed before the worker starts, which is what makes
/// stopping honest: the sentinel goes into the directory this recording is
/// actually writing to.
#[derive(Debug)]
pub struct Live {
    /// Shared with the worker that records into it.
    pub dir: Arc<SessionDir>,
    /// Which call this recording belongs to, when it was started by the watcher
    /// rather than by hand.
    pub app: Option<String>,
    /// Names the worker that will answer for this recording. Exactly one phase
    /// holds it at a time, and a deferred quit is answerable only because it
    /// exists.
    pub worker: u64,
}

/// Which state the app is in.
#[derive(Debug)]
pub enum Phase {
    Idle { declined: Declined },
    /// A watched app started producing audio and the user is being asked whether
    /// to record it.
    Armed { app: String, declined: Declined },
    Recording { live: Live, declined: Declined },
    /// Stop has been signalled and the capture worker is still finalising the
    /// audio. Transcription is not a phase at all: it belongs to the queue.
    Stopping { live: Live, stopped: StopSignalled, declined: Declined },
    /// A worker came back with an error. A failed *stop* stays `Recording`,
    /// because the worker really is still recording.
    Failed { dir: Option<String>, error: String, at: String, declined: Declined },
}

/// A phase with its payload stripped off: enough to decide what to draw.
#[derive(Clone, Copy, Debug, PartialEq, Eq, Structural)]
pub enum PhaseKind {
    Idle,
    Armed,
    Recording,
    Stopping,
    Failed,
}

impl PhaseKind {
    /// The name of the icon that stands for a kind.
    pub open spec fn icon(self) -> Seq<char> {
        match self {
            PhaseKind::Idle => "waveform"@,
            PhaseKind::Armed => "waveform.badge.exclamationmark"@,
            PhaseKind::Recording => "waveform.circle.fill"@,
            PhaseKind::Stopping => "hourglass"@,
            PhaseKind::Failed => "exclamationmark.triangle"@,
        }
    }

    pub open spec fn watching(self) -> bool {
        self == PhaseKind::Idle || self == PhaseKind::Armed || self == PhaseKind::Failed
    }

    /// Every kind, so a check can walk them instead of repeating them.
    pub fn all() -> (r: [PhaseKind; 5])
        ensures
            r@ == seq![
                PhaseKind::Idle,
                PhaseKind::Armed,
                PhaseKind::Recording,
                PhaseKind::Stopping,
                PhaseKind::Failed,
            ],
            forall|k: PhaseKind| r@.contains(k),
    {
        let r: [PhaseKind; 5] = [
            PhaseKind::Idle,
            PhaseKind::Armed,
            PhaseKind::Recording,
            PhaseKind::Stopping,
            PhaseKind::Failed,
        ];
        proof {
            assert forall|k: PhaseKind| r@.contains(k) by {
                match k {
                    PhaseKind::Idle => assert(r@[0] == k),
                    PhaseKind::Armed => assert(r@[1] == k),
                    PhaseKind::Recording => assert(r@[2] == k),
                    PhaseKind::Stopping => assert(r@[3] == k),
                    PhaseKind::Failed => assert(r@[4] == k),
                }
            }
        }
        r
    }

    /// Outline when present but recording nothing, filled while live, a distinct
    /// shape while the models are running, and a warning when the last attempt
    /// failed.
    pub fn symbol(self) -> (r: &'static str)
        ensures
            r@ == self.icon(),
    {
        match self {
            PhaseKind::Idle => "waveform",
            PhaseKind::Armed => "waveform.badge.exclamationmark",
            PhaseKind::Recording => "waveform.circle.fill",
            PhaseKind::Stopping => "hourglass",
            PhaseKind::Failed => "exclamationmark.triangle",
        }
    }

    /// `Failed` is watched exactly like `Idle`: a phase with no way out of it
    /// would make the app deaf to every later call.
    pub fn is_watching(self) -> (r: bool)
        ensures
            r == self.watching(),
    {
        match self {
            PhaseKind::Idle => true,
            PhaseKind::Armed => true,
            PhaseKind::Failed => true,
            _ => false,
        }
    }
}

/// A summary of a phase.
#[derive(Clone, Copy, Debug, PartialEq, Eq, Structural)]
pub struct PhaseView {
    pub kind: PhaseKind,
    /// Whether a worker is alive to answer for itself. The Stop item and the
    /// deferred-quit reply turn on this and nothing else.
    pub has_worker: bool,
}

/// Proof that something is alive to answer a deferred quit. The field is
/// private, and the only producer refuses unless a worker or the queue can
/// answer.
#[derive(Debug)]
pub struct Deferred(());

/// What a request to quit is answered.
#[derive(Debug)]
pub enum Quit {
    Now,
    Later(Deferred),
    /// Refuse the quit and say why. A live recording whose stop failed is still
    /// recording; killing it here would abandon the conversation.
    Cancel(String),
}

/// The only producer of [`Quit::Later`]. Two things can answer a deferred quit:
/// the capture worker this phase holds, or the transcription queue's worker.
fn defer(phase: Phase, queue_busy: bool) -> (r: (Phase, Quit))
    ensures
        r.0 == phase,
        r.1 is Later <==> phase.worker() is Some || queue_busy,
        r.1 is Now <==> phase.worker() is None && !queue_busy,
{
    if phase.live().is_some() || queue_busy {
        (phase, Quit::Later(Deferred(())))
    } else {
        (phase, Quit::Now)
    }
}

impl Phase {
    pub open spec fn kind_of(self) -> PhaseKind {
        match self {
            Phase::Idle { .. } => PhaseKind::Idle,
            Phase::Armed { .. } => PhaseKind::Armed,
            Phase::Recording { .. } => PhaseKind::Recording,
            Phase::Stopping { .. } => PhaseKind::Stopping,
            Phase::Failed { .. } => PhaseKind::Failed,
        }
    }

    /// What has been declined, whatever the phase.
    pub open spec fn declines(self) -> Declined {
        match self {
            Phase::Idle { declined } => declined,
            Phase::Armed { declined, .. } => declined,
            Phase::Recording { declined, .. } => declined,
            Phase::Stopping { declined, .. } => declined,
            Phase::Failed { declined, .. } => declined,
        }
    }

    /// The recording this phase owns, if it owns one.
    pub open spec fn worker(self) -> Option<Live> {
        match self {
            Phase::Recording { live, .. } => Some(live),
            Phase::Stopping { live, .. } => Some(live),
            _ => None,
        }
    }

    /// The app this phase is about, when it is about one.
    pub open spec fn about(self) -> Option<Seq<char>> {
        match self {
            Phase::Armed { app, .. } => Some(app@),
            Phase::Recording { live, .. } => crate::text::opt(live.app),
            Phase::Stopping { live, .. } => crate::text::opt(live.app),
            _ => None,
        }
    }

    /// The same phase with other declines.
    pub open spec fn with_declines(self, d: Declined) -> Phase {
        match self {
            Phase::Idle { .. } => Phase::Idle { declined: d },
            Phase::Armed { app, .. } => Phase::Armed { app, declined: d },
            Phase::Recording { live, .. } => Phase::Recording { live, declined: d },
            Phase::Stopping { live, stopped, .. } => Phase::Stopping { live, stopped, declined: d },
            Phase::Failed { dir, error, at, .. } => Phase::Failed { dir, error, at, declined: d },
        }
    }

    pub fn idle() -> (p: Phase)
        ensures
            p is Idle,
            p.declines()@ == Set::<Seq<char>>::empty(),
    {
        Phase::Idle { declined: Declined::none() }
    }

    pub fn kind(&self) -> (k: PhaseKind)
        ensures
            k == self.kind_of(),
    {
        match self {
            Phase::Idle { .. } => PhaseKind::Idle,
            Phase::Armed { .. } => PhaseKind::Armed,
            Phase::Recording { .. } => PhaseKind::Recording,
            Phase::Stopping { .. } => PhaseKind::Stopping,
            Phase::Failed { .. } => PhaseKind::Failed,
        }
    }

    pub fn view(&self) -> (v: PhaseView)
        ensures
            v == (PhaseView { kind: self.kind_of(), has_worker: self.worker() is Some }),
    {
        PhaseView { kind: self.kind(), has_worker: self.live().is_some() }
    }

    pub fn live(&self) -> (r: Option<&Live>)
        ensures
            match r {
                Some(l) => self.worker() == Some(*l),
                None => self.worker() is None,
            },
    {
        match self {
            Phase::Recording { live, .. } => Some(live),
            Phase::Stopping { live, .. } => Some(live),
            _ => None,
        }
    }

    pub fn declined(&self) -> (d: &Declined)
        ensures
            *d == self.declines(),
    {
        match self {
            Phase::Idle { declined } => declined,
            Phase::Armed { declined, .. } => declined,
            Phase::Recording { declined, .. } => declined,
            Phase::Stopping { declined, .. } => declined,
            Phase::Failed { declined, .. } => declined,
        }
    }

    pub fn declined_mut(&mut self) -> (d: &mut Declined)
        ensures
            *d == old(self).declines(),
            *final(self) == old(self).with_declines(*final(d)),
    {
        match self {
            Phase::Idle { declined } => declined,
            Phase::Armed { declined, .. } => declined,
            Phase::Recording { declined, .. } => declined,
            Phase::Stopping { declined, .. } => declined,
            Phase::Failed { declined, .. } => declined,
        }
    }

    /// The app this phase is about, when it is about one.
    pub fn app(&self) -> (r: Option<String>)
        ensures
            crate::text::opt(r) == self.about(),
    {
        match self {
            Phase::Armed { app, .. } => Some(app.clone()),
            Phase::Recording { live, .. } => match &live.app {
                Some(a) => Some(a.clone()),
                None => None,
            },
            Phase::Stopping { live, .. } => match &live.app {
                Some(a) => Some(a.clone()),
                None => None,
            },
            _ => None,
        }
    }

    /// The banner text a failure left behind, if the app is showing one.
    pub fn failure(&self) -> (r: Option<&str>)
        ensures
            match r {
                Some(e) => self matches Phase::Failed { error, .. } && e@ == error@,
                None => !(self is Failed),
            },
    {
        match self {
            Phase::Failed { error, .. } => Some(error.as_str()),
            _ => None,
        }
    }

    /// The directory a failure was about, when it had one.
    pub fn failed_dir(&self) -> (r: Option<&str>)
        ensures
            match r {
                Some(d) => self matches Phase::Failed { dir, .. } && crate::text::opt(*dir)
                    == Some(d@),
                None => !(self is Failed) || (self matches Phase::Failed { dir, .. } && dir is None),
            },
    {
        match self {
            Phase::Failed { dir, .. } => match dir {
                Some(d) => Some(d.as_str()),
                None => None,
            },
            _ => None,
        }
    }

    /// Where the stop sentinel of the running recording goes, if one is running
    /// and has not been told to stop.
    pub fn sentinel(&self) -> (r: Option<String>)
        ensures
            match r {
                Some(p) => self matches Phase::Recording { live, .. } && p@ == text::beneath(
                    live.dir.location(),
                    "STOP"@,
                ),
                None => !(self is Recording),
            },
    {
        match self {
            Phase::Recording { live, .. } => Some(stop_path(&live.dir)),
            _ => None,
        }
    }

    /// The running capture has been asked to stop, and writing the sentinel went
    /// as `written` says.
    ///
    /// On failure the recording is handed back and the phase stays `Recording`,
    /// which is the honest state: the worker really is still recording.
    pub fn stop(self, written: Result<(), String>) -> (r: Result<Phase, (Phase, String)>)
        ensures
            r is Ok <==> self is Recording && written is Ok,
            r matches Ok(next) ==> next is Stopping && next.worker() == self.worker()
                && next.declines() == self.declines(),
            r matches Err(back) ==> back.0 == self && (if self is Recording {
                back.1@ == "writing "@ + text::beneath(self->Recording_live.dir.location(), "STOP"@)
                    + ": "@ + written->Err_0@
            } else {
                back.1@ == "not recording"@
            }),
    {
        match self {
            Phase::Recording { live, declined } => match signal_stop(&live.dir, written) {
                Ok(stopped) => Ok(Phase::Stopping { live, stopped, declined }),
                Err(e) => Err((Phase::Recording { live, declined }, e)),
            },
            other => Err((other, "not recording".to_owned())),
        }
    }

    /// The worker handed back a result. Success returns to `Idle`; failure is
    /// drawn, so a recording that produced nothing stops being drawn as "nothing
    /// happened". A result arriving in a phase that owns no worker changes
    /// nothing.
    pub fn finished(self, r: Result<String, String>, at: &str) -> (next: Phase)
        ensures
            self.worker() is None ==> next == self,
            self.worker() is Some && r is Ok ==> next is Idle,
            self.worker() is Some && r is Err ==> (next matches Phase::Failed {
                dir,
                error,
                at: when,
                ..
            } && crate::text::opt(dir) == Some(self.worker()->0.dir.location()) && error@
                == r->Err_0@ && when@ == at@),
            next.declines() == self.declines(),
    {
        let (dir, declined): (String, Declined) = match self {
            Phase::Recording { live, declined } => (live.dir.path().to_owned(), declined),
            Phase::Stopping { live, declined, .. } => (live.dir.path().to_owned(), declined),
            other => {
                return other;
            },
        };
        match r {
            Ok(_) => Phase::Idle { declined },
            Err(error) => Phase::Failed { dir: Some(dir), error, at: at.to_owned(), declined },
        }
    }

    /// The transcription queue failed a session. `Idle` becomes `Failed`; any
    /// other phase is left alone — a recording in progress or a call being asked
    /// about must not be interrupted by old news.
    pub fn transcript_failed(self, dir: String, error: String, at: &str) -> (next: Phase)
        ensures
            !(self is Idle) ==> next == self,
            self is Idle ==> (next matches Phase::Failed { dir: d, error: e, at: when, .. } && d
                == Some(dir) && e == error && when@ == at@),
            next.declines() == self.declines(),
    {
        match self {
            Phase::Idle { declined } => Phase::Failed {
                dir: Some(dir),
                error,
                at: at.to_owned(),
                declined,
            },
            other => other,
        }
    }

    /// Clear a failure banner. Keeps the declines, like every other move.
    pub fn dismiss(self) -> (next: Phase)
        ensures
            !(self is Failed) ==> next == self,
            self is Failed ==> next is Idle,
            next.declines() == self.declines(),
            next.worker() == self.worker(),
    {
        match self {
            Phase::Failed { declined, .. } => Phase::Idle { declined },
            other => other,
        }
    }

    /// Wait for consent about `app`. Dismisses a stale failure implicitly.
    pub fn arm(self, app: String) -> (next: Phase)
        ensures
            self is Idle || self is Failed ==> (next matches Phase::Armed { app: a, .. } && a == app),
            !(self is Idle || self is Failed) ==> next == self,
            next.declines() == self.declines(),
            next.worker() == self.worker(),
    {
        match self.dismiss() {
            Phase::Idle { declined } => Phase::Armed { app, declined },
            other => other,
        }
    }

    /// Stand down from `Armed` without recording.
    pub fn disarm(self) -> (next: Phase)
        ensures
            self is Armed ==> next is Idle,
            !(self is Armed) ==> next == self,
            next.declines() == self.declines(),
            next.worker() == self.worker(),
    {
        match self {
            Phase::Armed { declined, .. } => Phase::Idle { declined },
            other => other,
        }
    }

    /// Take ownership of a freshly spawned worker. Dismisses a stale failure
    /// implicitly. A phase that already owns one refuses, handing the `Live`
    /// straight back rather than dropping it.
    pub fn start(self, live: Live) -> (r: (Phase, Option<Live>))
        ensures
            self.worker() is None ==> r.1 is None && r.0 is Recording && r.0.worker() == Some(live),
            self.worker() is Some ==> r.0 == self && r.1 == Some(live),
            r.0.declines() == self.declines(),
    {
        match self.dismiss() {
            Phase::Idle { declined } => (Phase::Recording { live, declined }, None),
            Phase::Armed { declined, .. } => (Phase::Recording { live, declined }, None),
            other => (other, Some(live)),
        }
    }

    /// Stopping, or waving a call away, is an answer about that call: the first
    /// watched app that is playing, or with none playing the app this phase is
    /// about.
    ///
    /// Without recording it, the watcher sees the app still playing on its next
    /// tick and starts a fresh recording — leaving no way to stop until the call
    /// ends.
    pub fn decline_this_call(self, watched: &[String], playing: &[String]) -> (next: Phase)
        ensures
            ({
                let w = text::views(watched@);
                let p = text::views(playing@);
                let who = if first_of(w, p, w.len()) is Some {
                    first_of(w, p, w.len())
                } else {
                    self.about()
                };
                &&& next == self.with_declines(next.declines())
                &&& next.declines()@ == (match who {
                    Some(a) => self.declines()@.insert(a),
                    None => self.declines()@,
                })
            }),
    {
        let who: Option<String> = match first_playing(watched, playing) {
            Some(i) => Some(watched[i].clone()),
            None => self.app(),
        };
        let mut next: Phase = self;
        if let Some(a) = who {
            next.declined_mut().decline(a.as_str());
        }
        next
    }

    /// The quit table.
    ///
    /// | Phase | Reply |
    /// |---|---|
    /// | `Idle`, `Armed`, `Failed`, queue idle | now — nothing exists to defer for |
    /// | `Idle`, `Armed`, `Failed`, queue busy | later — the queue's worker answers |
    /// | `Recording`, stop succeeds | later, `Stopping` |
    /// | `Recording`, stop fails | cancelled — the capture keeps running |
    /// | `Stopping` | later — it owns the worker |
    ///
    /// Quitting mid-queue finishes the outstanding work rather than abandoning
    /// it, exactly as quitting mid-recording does.
    pub fn on_quit(self, queue_busy: bool, written: Result<(), String>) -> (r: (Phase, Quit))
        ensures
            self is Idle || self is Armed || self is Failed ==> r.0 == self && (if queue_busy {
                r.1 is Later
            } else {
                r.1 is Now
            }),
            self is Stopping ==> r.0 == self && r.1 is Later,
            self is Recording && written is Ok ==> r.0 is Stopping && r.1 is Later,
            self is Recording && written is Err ==> r.0 == self && (r.1 matches Quit::Cancel(e)
                && e@ == "writing "@ + text::beneath(
                self->Recording_live.dir.location(),
                "STOP"@,
            ) + ": "@ + written->Err_0@),
            r.0.declines() == self.declines(),
            r.0.worker() == self.worker(),
            r.1 is Later ==> r.0.worker() is Some || queue_busy,
    {
        match self {
            Phase::Recording { live, declined } => match (Phase::Recording { live, declined }).stop(
                written,
            ) {
                Ok(next) => defer(next, queue_busy),
                Err(pair) => (pair.0, Quit::Cancel(pair.1)),
            },
            other => defer(other, queue_busy),
        }
    }
}

/// The first of the first `k` watched apps that is playing.
pub open spec fn first_of(watched: Seq<Seq<char>>, playing: Seq<Seq<char>>, k: nat) -> Option<
    Seq<char>,
>
    decreases k,
{
    if k == 0 {
        None
    } else {
        let before = first_of(watched, playing, (k - 1) as nat);
        if before is Some {
            before
        } else if playing.contains(watched[k - 1]) {
            Some(watched[k - 1])
        } else {
            None
        }
    }
}

fn first_playing(watched: &[String], playing: &[String]) -> (r: Option<usize>)
    ensures
        match r {
            Some(i) => i < watched@.len() && first_of(
                text::views(watched@),
                text::views(playing@),
                watched@.len(),
            ) == Some(watched@[i as int]@),
            None => first_of(text::views(watched@), text::views(playing@), watched@.len()) is None,
        },
{
    let ghost w = text::views(watched@);
    let ghost p = text::views(playing@);
    let mut i: usize = 0;
    while i < watched.len()
        invariant
            i <= watched@.len(),
            w == text::views(watched@),
            p == text::views(playing@),
            first_of(w, p, i as nat) is None,
        decreases watched@.len() - i,
    {
        proof {
            assert(w[i as int] == watched@[i as int]@);
        }
        if listed(playing, watched[i].as_str()) {
            proof {
                lemma_first_stays(w, p, (i + 1) as nat, w.len());
            }
            return Some(i);
        }
        i = i + 1;
    }
    None
}

proof fn lemma_first_stays(w: Seq<Seq<char>>, p: Seq<Seq<char>>, k: nat, n: nat)
    requires
        k <= n,
        first_of(w, p, k) is Some,
    ensures
        first_of(w, p, n) == first_of(w, p, k),
    decreases n,
{
    if k < n {
        lemma_first_stays(w, p, k, (n - 1) as nat);
    }
}

/// The first watched app that is playing is the one that is meant.
pub proof fn the_first_playing_app_is_meant(
    watched: Seq<Seq<char>>,
    playing: Seq<Seq<char>>,
    k: nat,
)
    requires
        k <= watched.len(),
    ensures
        match first_of(watched, playing, k) {
            Some(app) => exists|i: int|
                {
                    &&& 0 <= i < k
                    &&& #[trigger] watched[i] == app
                    &&& playing.contains(app)
                    &&& forall|j: int| 0 <= j < i ==> !playing.contains(#[trigger] watched[j])
                },
            None => forall|j: int| 0 <= j < k ==> !playing.contains(#[trigger] watched[j]),
        },
    decreases k,
{
    if k > 0 {
        the_first_playing_app_is_meant(watched, playing, (k - 1) as nat);
        let before = first_of(watched, playing, (k - 1) as nat);
        if before is None && first_of(watched, playing, k) is Some {
            assert(watched[k - 1] == first_of(watched, playing, k)->0);
        }
    }
}

} // verus!
