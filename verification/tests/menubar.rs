use ambient::claim::Claim;
use ambient::menubar::{next, poll_for_calls, render, symbol_for, Shell, Tick};
use ambient::queue::Polled;
use ambient::state::{Declined, Live, Phase, PhaseKind, Quit};
use std::sync::Arc;

fn apps() -> Vec<String> {
    vec!["us.zoom.xos".into(), "com.microsoft.teams2".into()]
}

fn declined(apps: &[&str]) -> Declined {
    let mut d = Declined::none();
    for a in apps {
        d.decline(a);
    }
    d
}

fn idle(d: Declined) -> Phase {
    Phase::Idle { declined: d }
}

fn armed(app: &str, d: Declined) -> Phase {
    Phase::Armed {
        app: app.into(),
        declined: d,
    }
}

fn recording(app: Option<&str>, declined: Declined) -> Phase {
    Phase::Recording {
        live: Live {
            dir: Arc::new(Claim::new("2026-09-02T0900", None).won("/s")),
            app: app.map(str::to_string),
            worker: 1,
        },
        declined,
    }
}

fn arms(t: Tick, app: &str) -> bool {
    matches!(t, Tick::Arm(a) if a == app)
}

#[test]
fn an_empty_watch_list_never_arms() {
    let live = vec!["us.zoom.xos".to_string()];
    assert!(matches!(next(&idle(Declined::none()), &[], &live, true), Tick::Nothing));
}

#[test]
fn a_watched_app_playing_arms_when_asked_to_ask() {
    let live = vec!["us.zoom.xos".to_string()];
    assert!(arms(next(&idle(Declined::none()), &apps(), &live, true), "us.zoom.xos"));
}

#[test]
fn with_asking_off_it_records_by_itself() {
    let live = vec!["com.microsoft.teams2".to_string()];
    let t = next(&idle(Declined::none()), &apps(), &live, false);
    assert!(matches!(t, Tick::Start(a) if a == "com.microsoft.teams2"));
}

#[test]
fn an_unwatched_app_playing_is_ignored() {
    let live = vec!["com.spotify.client".to_string()];
    assert!(matches!(next(&idle(Declined::none()), &apps(), &live, true), Tick::Nothing));
}

/// Declining must actually stick, or the menu asks again four seconds later
/// and the answer means nothing.
#[test]
fn a_declined_call_is_not_asked_about_again() {
    let live = vec!["us.zoom.xos".to_string()];
    let t = next(&idle(declined(&["us.zoom.xos"])), &apps(), &live, true);
    assert!(matches!(t, Tick::Nothing));
}

/// ...but declining one call must not opt out of the next one: once the
/// app falls quiet, `retire` drops it from the set.
#[test]
fn the_decline_is_forgotten_once_the_call_ends() {
    let mut d = declined(&["us.zoom.xos"]);
    d.retire(&[]);
    assert!(!d.is_declined("us.zoom.xos"));
    assert!(matches!(next(&idle(d), &apps(), &[], true), Tick::Nothing));
}

#[test]
fn declining_one_app_does_not_silence_another() {
    let live = vec!["com.microsoft.teams2".to_string()];
    let t = next(&idle(declined(&["us.zoom.xos"])), &apps(), &live, true);
    assert!(arms(t, "com.microsoft.teams2"));
}

#[test]
fn a_declined_app_does_not_mask_a_later_call() {
    let live = vec![
        "us.zoom.xos".to_string(),
        "com.microsoft.teams2".to_string(),
    ];
    let t = next(&idle(declined(&["us.zoom.xos"])), &apps(), &live, true);
    assert!(arms(t, "com.microsoft.teams2"));
}

#[test]
fn everything_playing_being_declined_asks_nothing() {
    let live = vec!["us.zoom.xos".to_string()];
    let t = next(&idle(declined(&["us.zoom.xos"])), &apps(), &live, true);
    assert!(matches!(t, Tick::Nothing));
}

#[test]
fn a_call_ending_while_armed_stands_down() {
    let t = next(&armed("us.zoom.xos", Declined::none()), &apps(), &[], true);
    assert!(matches!(t, Tick::Disarm));
}

/// A recording in progress must never be disturbed by the watcher, and
/// nor must one still writing its audio after Stop.
#[test]
fn recording_and_stopping_are_left_alone() {
    let live = vec!["us.zoom.xos".to_string()];
    let rec = recording(Some("us.zoom.xos"), Declined::none());
    let stopping = recording(Some("us.zoom.xos"), Declined::none())
        .stop(Ok(()))
        .unwrap_or_else(|(_, e)| panic!("{e}"));
    for phase in [rec, stopping, armed("us.zoom.xos", Declined::none())] {
        assert!(matches!(next(&phase, &apps(), &live, true), Tick::Nothing));
    }
}

#[test]
fn a_session_being_transcribed_does_not_deafen_the_watcher() {
    let live = vec!["us.zoom.xos".to_string()];
    let idle = recording(Some("us.zoom.xos"), Declined::none())
        .stop(Ok(()))
        .unwrap_or_else(|(_, e)| panic!("{e}"))
        .finished(Ok("/s/2026-09-02T0900".into()), "09:00");
    assert_eq!(idle.kind(), PhaseKind::Idle);
    assert!(arms(next(&idle, &apps(), &live, true), "us.zoom.xos"));
}

/// The icon says work is happening while the menu is closed.
#[test]
fn an_idle_app_with_a_busy_queue_shows_the_hourglass() {
    assert_eq!(symbol_for(PhaseKind::Idle, true), "hourglass");
    assert_eq!(symbol_for(PhaseKind::Idle, false), "waveform");
    // Every other state keeps its own icon: a call being asked about or
    // recorded is more important to show than a transcript being written.
    for kind in [PhaseKind::Armed, PhaseKind::Recording, PhaseKind::Failed] {
        assert_eq!(symbol_for(kind, true), kind.symbol());
    }
}

/// `Failed` is watched exactly like `Idle`, or an undismissed failure
/// leaves the app deaf to every later call.
#[test]
fn a_standing_failure_does_not_make_the_watcher_deaf() {
    let live = vec!["us.zoom.xos".to_string()];
    let failed = Phase::Failed {
        dir: None,
        error: "the models did not load".into(),
        at: "09:00".into(),
        declined: Declined::none(),
    };
    assert!(arms(next(&failed, &apps(), &live, true), "us.zoom.xos"));
}

#[test]
fn declining_one_of_two_leaves_the_other_armable_and_sticky() {
    let live = vec![
        "us.zoom.xos".to_string(),
        "com.microsoft.teams2".to_string(),
    ];
    let phase = idle(declined(&["us.zoom.xos"]));
    assert!(arms(next(&phase, &apps(), &live, true), "com.microsoft.teams2"));
    // Arm for teams and poll again: zoom must still read as declined,
    // because the set moves into the new phase rather than being rebuilt.
    let phase = phase.arm("com.microsoft.teams2".into());
    assert!(matches!(next(&phase, &apps(), &live, true), Tick::Nothing));
    assert!(phase.declined().is_declined("us.zoom.xos"));
}

#[test]
fn declining_both_arms_nothing_and_never_reprompts() {
    let live = vec![
        "us.zoom.xos".to_string(),
        "com.microsoft.teams2".to_string(),
    ];
    let phase = idle(declined(&["us.zoom.xos", "com.microsoft.teams2"]));
    for _ in 0..3 {
        assert!(matches!(next(&phase, &apps(), &live, true), Tick::Nothing));
    }
}

#[test]
fn armed_app_going_quiet_disarms_even_if_another_still_plays() {
    let live = vec!["com.microsoft.teams2".to_string()];
    let t = next(&armed("us.zoom.xos", Declined::none()), &apps(), &live, true);
    assert!(matches!(t, Tick::Disarm));
}

#[test]
fn a_poll_forgets_the_declines_of_calls_that_ended() {
    let playing = vec!["com.microsoft.teams2".to_string()];
    let phase = idle(declined(&["us.zoom.xos", "com.microsoft.teams2"]));
    let (phase, tick) = poll_for_calls(phase, &apps(), &playing, true);
    assert!(matches!(tick, Tick::Nothing));
    assert!(!phase.declined().is_declined("us.zoom.xos"));
    assert!(phase.declined().is_declined("com.microsoft.teams2"));
}

#[test]
fn stop_is_offered_while_recording_and_start_is_not() {
    let m = render(&recording(Some("us.zoom.xos"), Declined::none()), None, None, None);
    assert!(m.stop_enabled && !m.start_enabled);
    assert_eq!(m.symbol, "waveform.circle.fill");
    let m = render(&Phase::idle(), None, Some("Transcribing a".into()), None);
    assert!(!m.stop_enabled && m.start_enabled);
    assert_eq!(m.symbol, "hourglass");
}

#[test]
fn calls_are_looked_for_every_eighth_tick_while_watching() {
    let mut shell = Shell::new();
    let mut looks = Vec::new();
    for n in 1..=16 {
        let (next, look) = shell.tick();
        shell = next;
        if look {
            looks.push(n);
        }
    }
    assert_eq!(looks, [8, 16]);
    let shell = shell.fail("recording", "no microphone");
    assert!(shell.banner.as_deref().unwrap().contains("no microphone"));
}

#[test]
fn a_capture_that_ends_joins_the_queue() {
    let shell = Shell { phase: recording(None, Declined::none()), ..Shell::new() };
    let shell = shell.captured(Ok("/s/2026-09-02T0900".into()), "09:00");
    assert_eq!(shell.phase.kind(), PhaseKind::Idle);
    assert_eq!(shell.queue.len(), 1);
    assert_eq!(shell.queue.summary().as_deref(), Some("Transcribing 2026-09-02T0900"));
    let mut queue = shell.queue;
    assert!(queue.poll(Polled::Empty).is_none());
}

fn live(worker: u64) -> Live {
    Live { dir: Arc::new(Claim::new("2026-09-02T0900", None).won("/s")), app: None, worker }
}

#[test]
fn a_claim_that_fails_stands_down() {
    let shell = Shell { phase: armed("us.zoom.xos", Declined::none()), ..Shell::new() };
    assert_eq!(shell.asked_about().as_deref(), Some("us.zoom.xos"));
    let (shell, left) = shell.begun(Err("disk full".into()));
    assert!(left.is_none());
    assert_eq!(shell.phase.kind(), PhaseKind::Idle);
    assert_eq!(shell.banner.as_deref(), Some("could not start a recording: disk full"));
    assert!(shell.may_start());
    let (shell, left) = shell.begun(Ok(live(1)));
    assert!(left.is_none() && !shell.may_start());
    let (shell, left) = shell.begun(Ok(live(2)));
    assert_eq!(left.unwrap().worker, 2);
    assert_eq!(shell.phase.live().unwrap().worker, 1);
    assert_eq!(shell.asked_about(), None);
}

#[test]
fn waving_a_call_away_is_remembered() {
    let shell = Shell { phase: armed("us.zoom.xos", Declined::none()), ..Shell::new() };
    let shell = shell.not_this_one();
    assert_eq!(shell.phase.kind(), PhaseKind::Idle);
    assert!(shell.phase.declined().is_declined("us.zoom.xos"));
    assert_eq!(shell.not_this_one().phase.kind(), PhaseKind::Idle);
}

#[test]
fn a_stop_that_fails_keeps_recording_and_says_why() {
    let playing = vec!["us.zoom.xos".to_string()];
    let shell = Shell { phase: recording(None, Declined::none()), ..Shell::new() };
    let shell = shell.stop(&apps(), &playing, Err("read-only".into()));
    assert_eq!(shell.phase.kind(), PhaseKind::Recording);
    assert!(shell.phase.declined().is_declined("us.zoom.xos"));
    assert_eq!(
        shell.banner.as_deref(),
        Some("could not stop the recording: writing /s/2026-09-02T0900/STOP: read-only")
    );
    let shell = shell.stop(&apps(), &playing, Ok(()));
    assert_eq!(shell.phase.kind(), PhaseKind::Stopping);
    assert_eq!(Shell::new().stop(&apps(), &playing, Ok(())).phase.kind(), PhaseKind::Idle);
}

/// A failed transcript waits for an idle phase, is shown, and can be dismissed.
#[test]
fn a_held_failure_is_shown_on_the_first_idle_tick() {
    let mut shell = Shell { phase: recording(None, Declined::none()), ..Shell::new() };
    shell.queue.push("/s/old".into());
    let (shell, done) =
        shell.polled(Polled::Arrived(("/s/old".into(), Err("no models".into()))));
    assert_eq!(done.unwrap().1.unwrap_err(), "no models");
    assert_eq!(shell.banner.as_deref(), Some("transcribing /s/old: no models"));
    let shell = shell.settle("09:00");
    assert_eq!(shell.phase.kind(), PhaseKind::Recording);
    let shell = shell.captured(Ok("/s/new".into()), "09:01").settle("09:02");
    assert_eq!(shell.phase.failed_dir(), Some("/s/old"));
    assert_eq!(shell.dismissed().phase.kind(), PhaseKind::Idle);
}

/// A deferred quit is answered once nothing is left to wait for.
#[test]
fn a_quit_waits_for_the_recording_and_the_queue() {
    let shell = Shell { phase: recording(None, Declined::none()), ..Shell::new() };
    let (shell, q) = shell.quit(Ok(()));
    assert!(matches!(q, Quit::Later(_)) && shell.quitting);
    let (shell, go) = shell.may_leave();
    assert!(!go);
    let (shell, go) = shell.captured(Ok("/s/a".into()), "09:00").may_leave();
    assert!(!go && shell.quitting);
    let (shell, _) = shell.polled(Polled::Arrived(("/s/a".into(), Ok("/s/a".into()))));
    let (shell, go) = shell.may_leave();
    assert!(go && !shell.quitting);
    assert!(matches!(shell.quit(Ok(())).1, Quit::Now));
    let shell = Shell { phase: recording(None, Declined::none()), ..Shell::new() };
    assert!(matches!(shell.quit(Err("x".into())).1, Quit::Cancel(_)));
}
