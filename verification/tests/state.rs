use ambient::claim::Claim;
use ambient::state::{Declined, Live, Phase, PhaseKind, Quit};
use std::sync::Arc;

fn recording(app: Option<&str>, declined: Declined) -> Phase {
    Phase::Recording {
        live: Live {
            dir: Arc::new(Claim::new("2026-09-02T0900", None).won("/s")),
            app: app.map(str::to_string),
            worker: 1,
        },
        declined,
    }
}

fn failed() -> Phase {
    Phase::Failed {
        dir: None,
        error: "the models did not load".into(),
        at: "09:00".into(),
        declined: Declined::none(),
    }
}

/// A stop that fails must not advance the state: the worker is still
/// recording, so the phase that says so is `Recording`.
#[test]
fn a_failed_stop_hands_the_recording_back() {
    let phase = recording(Some("us.zoom.xos"), Declined::none());
    assert_eq!(phase.sentinel().as_deref(), Some("/s/2026-09-02T0900/STOP"));
    let Err((back, e)) = phase.stop(Err("No such file or directory".into())) else {
        panic!("stop reported success with no directory to write the sentinel into");
    };
    assert_eq!(back.kind(), PhaseKind::Recording);
    assert!(
        back.live().is_some(),
        "the worker is still recording, so the receiver must survive the failure"
    );
    assert!(
        e.contains("STOP"),
        "the error should name what could not be written, got: {e}"
    );
}

#[test]
fn a_successful_stop_writes_the_sentinel_and_moves_to_transcribing() {
    let next = recording(None, Declined::none())
        .stop(Ok(()))
        .unwrap_or_else(|(_, e)| panic!("stop failed: {e}"));
    assert_eq!(next.kind(), PhaseKind::Stopping);
    assert_eq!(next.sentinel(), None);
}

#[test]
fn stopping_what_is_not_recording_is_refused() {
    let Err((back, e)) = Phase::idle().stop(Ok(())) else { panic!("stopped nothing") };
    assert_eq!(back.kind(), PhaseKind::Idle);
    assert_eq!(e, "not recording");
}

/// A quit is deferred only from a variant holding a live worker.
#[test]
fn a_quit_is_only_deferred_when_a_worker_can_answer_it() {
    for phase in [
        Phase::idle(),
        Phase::idle().arm("us.zoom.xos".into()),
        failed(),
    ] {
        let (after, q) = phase.on_quit(false, Ok(()));
        assert!(
            matches!(q, Quit::Now),
            "{:?} has no worker, so nothing can be deferred for",
            after.kind()
        );
    }

    // Recording, stop succeeds: deferred, and the phase that answers owns
    // the worker.
    let (after, q) = recording(None, Declined::none()).on_quit(false, Ok(()));
    assert!(matches!(q, Quit::Later(_)));
    assert_eq!(after.kind(), PhaseKind::Stopping);
    assert!(after.live().is_some());

    // Stopping: deferred by construction.
    let (after, q) = after.on_quit(false, Ok(()));
    assert!(matches!(q, Quit::Later(_)));
    assert!(after.live().is_some());

    // Recording, stop fails: refused, and still recording.
    let (after, q) = recording(None, Declined::none()).on_quit(false, Err("gone".into()));
    assert!(
        matches!(q, Quit::Cancel(_)),
        "abandoning a running capture is the failure the deferred quit exists to prevent"
    );
    assert_eq!(after.kind(), PhaseKind::Recording);
}

/// One entry to `Failed`, and two ways out.
#[test]
fn only_a_worker_error_enters_failed_and_it_is_leavable() {
    let ok = recording(None, Declined::none()).finished(Ok("/tmp/whatever".into()), "09:00");
    assert_eq!(ok.kind(), PhaseKind::Idle);

    let failed = recording(None, Declined::none())
        .finished(Err("the models did not load".into()), "09:00");
    assert_eq!(failed.kind(), PhaseKind::Failed);
    assert_eq!(failed.failure(), Some("the models did not load"));
    assert_eq!(failed.failed_dir(), Some("/s/2026-09-02T0900"));

    // Exit one: the banner is cleared.
    assert_eq!(failed.dismiss().kind(), PhaseKind::Idle);

    // Exit two: the watcher treats it as Idle, so arming dismisses it.
    let failed = recording(None, Declined::none()).finished(Err("boom".into()), "09:00");
    assert!(
        failed.kind().is_watching(),
        "Failed must not make the app deaf"
    );
    assert_eq!(failed.arm("us.zoom.xos".into()).kind(), PhaseKind::Armed);
}

/// Declines are threaded by move through every variant.
#[test]
fn declines_survive_every_transition() {
    let mut d = Declined::none();
    d.decline("us.zoom.xos");
    let phase = recording(None, d).stop(Ok(())).unwrap_or_else(|(_, e)| panic!("{e}"));
    assert!(phase.declined().is_declined("us.zoom.xos"));
    let phase = phase.finished(Err("boom".into()), "09:00");
    assert!(phase.declined().is_declined("us.zoom.xos"));
    let phase = phase.dismiss().arm("com.microsoft.teams2".into());
    assert!(phase.declined().is_declined("us.zoom.xos"));
    assert!(phase.disarm().declined().is_declined("us.zoom.xos"));
}

/// Stopping records an answer about the call, or the watcher restarts the
/// recording four seconds later and there is no way out until the call ends.
#[test]
fn stopping_declines_the_call_it_was_recording() {
    let watched = vec!["us.zoom.xos".to_string()];
    // Nothing is playing any more: fall back to the app the recording
    // belongs to.
    let phase = recording(Some("us.zoom.xos"), Declined::none());
    let phase = phase.decline_this_call(&watched, &[]);
    assert!(phase.declined().is_declined("us.zoom.xos"));
}

#[test]
fn a_busy_queue_defers_a_quit_from_every_workerless_phase() {
    for phase in [
        Phase::idle(),
        Phase::idle().arm("us.zoom.xos".into()),
        failed(),
    ] {
        let kind = phase.kind();
        let (after, q) = phase.on_quit(true, Ok(()));
        assert!(
            matches!(q, Quit::Later(_)),
            "{kind:?} with a busy queue must wait for it"
        );
        assert_eq!(after.kind(), kind, "the phase itself does not move");
    }
    // And with a capture running too, the answer is the same one as before.
    let (after, q) = recording(None, Declined::none()).on_quit(true, Ok(()));
    assert!(matches!(q, Quit::Later(_)));
    assert_eq!(after.kind(), PhaseKind::Stopping);
}

/// A transcript failing is drawn like any other failure when the app is
/// idle, and stays out of the way when it is not.
#[test]
fn a_failed_transcript_enters_failed_only_from_idle() {
    let e = "the models did not load";
    let dir = "/s/2026-09-02T0900";

    let failed = Phase::idle().transcript_failed(dir.into(), e.into(), "09:00");
    assert_eq!(failed.kind(), PhaseKind::Failed);
    assert_eq!(failed.failed_dir(), Some(dir));
    assert_eq!(failed.failure(), Some("the models did not load"));

    let armed = Phase::idle().arm("us.zoom.xos".into());
    assert_eq!(
        armed.transcript_failed(dir.into(), e.into(), "09:00").kind(),
        PhaseKind::Armed,
        "a call being asked about is not interrupted by old news"
    );
    assert_eq!(
        recording(None, Declined::none()).transcript_failed(dir.into(), e.into(), "09:00").kind(),
        PhaseKind::Recording,
        "a recording in progress is not interrupted either"
    );
}

#[test]
fn a_recording_starts_once() {
    let live = |n| Live {
        dir: Arc::new(Claim::new("2026-09-02T0900", None).won("/s")),
        app: None,
        worker: n,
    };
    let (phase, left) = Phase::idle().start(live(1));
    assert!(left.is_none());
    assert_eq!(phase.kind(), PhaseKind::Recording);
    let (phase, left) = phase.start(live(2));
    assert_eq!(left.unwrap().worker, 2);
    assert_eq!(phase.live().unwrap().worker, 1);
    assert!(phase.view().has_worker);
}

#[test]
fn every_kind_has_an_icon_of_its_own() {
    let mut icons: Vec<&str> = PhaseKind::all().iter().map(|k| k.symbol()).collect();
    icons.sort();
    icons.dedup();
    assert_eq!(icons.len(), 5);
    assert!(!PhaseKind::Recording.is_watching() && !PhaseKind::Stopping.is_watching());
}

#[test]
fn declines_are_a_set() {
    let mut d = Declined::none();
    d.decline("a");
    d.decline("a");
    d.decline("b");
    assert!(d.is_declined("a") && d.is_declined("b") && !d.is_declined("c"));
    d.retire(&["b".to_string()]);
    assert!(!d.is_declined("a") && d.is_declined("b"));
}
