use ambient::claim::Claim;
use ambient::meter::MeterPhase;
use ambient::recording::{
    chosen_apps, home, model_candidates, model_paths, models_root, raw_record, transcribe_step,
    Capture, CaptureEnd, CaptureEvent, CaptureRun, CaptureStage, CaptureStep, Progress, Stage,
    Status,
};
use ambient::session::Track;

#[test]
fn the_environment_wins_over_the_setting() {
    assert_eq!(home(Some("/env"), Some("/set"), Some("/Users/x")), "/env");
    assert_eq!(home(None, Some("/set"), Some("/Users/x")), "/set");
    assert_eq!(home(None, None, Some("/Users/x")), "/Users/x/Documents/Ambient");
    assert_eq!(home(None, None, None), "./Documents/Ambient");
}

#[test]
fn models_are_looked_for_beside_and_above_the_executable() {
    let above: Vec<String> =
        ["/a/b/c/d/e/f", "/a/b/c/d/e", "/a/b/c/d", "/a/b/c", "/a/b", "/a"].map(String::from).into();
    let places = model_candidates(&above);
    assert_eq!(
        places,
        [
            "models",
            "/a/b/c/d/e/f/../Resources/models",
            "/a/b/c/d/e/f/models",
            "/a/b/c/d/e/models",
            "/a/b/c/d/models",
            "/a/b/c/models",
            "/a/b/models",
        ]
    );
    let mut found = [false; 7];
    assert!(models_root(None, &places, &found).unwrap_err().contains("looked in models, /a/b"));
    found[3] = true;
    found[5] = true;
    assert_eq!(models_root(None, &places, &found).unwrap(), "/a/b/c/d/e/models");
    assert_eq!(models_root(Some("/m"), &places, &found).unwrap(), "/m");
}

#[test]
fn a_missing_model_is_named() {
    let (asr, vad) = model_paths("/m", None, true, true).unwrap();
    assert_eq!(asr, "/m/sherpa-onnx-nemo-parakeet-tdt-0.6b-v3-int8");
    assert_eq!(vad, "/m/silero_vad.onnx");
    assert_eq!(
        model_paths("/m", Some("/mine"), false, true).unwrap_err(),
        "no ASR model at /mine — run ./fetch-models.sh"
    );
    assert_eq!(
        model_paths("/m", None, true, false).unwrap_err(),
        "no VAD model at /m/silero_vad.onnx"
    );
}

#[test]
fn apps_asked_for_win_over_apps_configured() {
    let apps = |a: &[&str]| a.iter().map(|s| s.to_string()).collect::<Vec<_>>();
    assert_eq!(chosen_apps(apps(&["a"]), apps(&["b"])), ["a"]);
    assert_eq!(chosen_apps(apps(&[]), apps(&["b"])), ["b"]);
}

#[test]
fn a_capture_runs_until_it_is_told_to_stop() {
    assert_eq!(
        Capture::start(48000, 44100, 0, 0).unwrap_err(),
        "capture started with no channels"
    );
    let mut c = Capture::start(48000, 44100, 1, 2).unwrap();
    assert!(matches!(c.step(false, false, false), CaptureStep::Drain));
    for (a, b, d) in [(true, false, false), (false, true, false), (false, false, true)] {
        assert!(matches!(c.step(a, b, d), CaptureStep::Finish));
    }
    c.drained(100, 80);
    c.drained(0, 30);
    assert_eq!(c.duration(), (130, 48000));
    assert_eq!(c.line(65, true, "0.31", "0.87"), "01:05  room 0.31  call 0.87");
    assert_eq!(c.line(65, false, "0.31", "0.87"), "01:05  no audio arriving");
}

#[test]
fn a_silent_capture_fails_and_a_quiet_room_warns() {
    let c = Capture::start(48000, 44100, 1, 2).unwrap();
    let end = |heard, room_silent, advice: Option<&str>| CaptureEnd {
        heard,
        room_silent,
        advice: advice.map(str::to_string),
        seconds: "12".into(),
    };
    let e = c.finish(&end(false, true, None), "/s/x").unwrap_err();
    assert!(
        e.starts_with("capture was created (room 48000 Hz, call 44100 Hz) but delivered no audio in 12s, so /s/x holds nothing."),
        "{e}"
    );
    assert_eq!(c.finish(&end(true, false, None), "/s/x").unwrap(), [""; 0]);
    assert_eq!(
        c.finish(&end(true, true, Some("grant it")), "/s/x").unwrap(),
        ["the room track is silent — check the microphone grant.", "grant it"]
    );
}

/// The id in the metadata is the claimed directory's own name.
#[test]
fn the_metadata_carries_the_directorys_name() {
    let c = Capture::start(48000, 44100, 1, 2).unwrap();
    let dir = Claim::new("2026-09-02T0900", Some("Sync")).taken("/s").unwrap().won("/s");
    let m = c.meta(&dir, Some("Sync"), "a", "b", "1.5", vec![], "m", vec!["w".into()]);
    assert_eq!(m.id, "2026-09-02T0900-sync-02");
    assert_eq!((m.device_hz, m.mic_hz, m.channels, m.mic_channels), (44100, 48000, 2, 1));
    assert_eq!((m.name.as_deref(), m.duration_s.as_str()), (Some("Sync"), "1.5"));
    assert_eq!(m.warnings, ["w"]);
}

#[test]
fn samples_become_milliseconds() {
    let r = raw_record(Track::Call, 16, 40_007, "hi".into(), 7);
    assert_eq!((r.start_ms, r.end_ms, r.confidence), (1, 2500, 7));
}

#[test]
fn a_status_file_says_how_far_a_session_is() {
    assert_eq!(Status::Recording("01:05  no audio arriving".into()).file(), "recording 01:05  no audio arriving\n");
    assert_eq!(Status::Captured.file(), "captured\n");
    assert_eq!(Status::Failed("boom".into()).file(), "failed: boom\n");
}

#[test]
fn a_transcription_passes_through_its_stages() {
    let (s, status, phase) = transcribe_step(Stage::Waiting, Progress::Ready, true);
    assert_eq!(s, Stage::Transcribing);
    assert!(matches!(status, Some(Status::Transcribing)));
    assert_eq!(phase, Some(MeterPhase::Transcribing));
    let (quiet, _, _) = transcribe_step(s, Progress::Transcribed(0), true);
    assert_eq!(quiet, Stage::Writing);
    let (s, _, phase) = transcribe_step(s, Progress::Transcribed(3), true);
    assert_eq!((s, phase), (Stage::Separating, Some(MeterPhase::Diarizing)));
    let (s, status, _) = transcribe_step(s, Progress::Separated(false), true);
    assert_eq!(s, Stage::Writing);
    assert!(status.is_none());
    let (s, status, phase) = transcribe_step(s, Progress::Written, true);
    assert_eq!((s, phase), (Stage::Done, Some(MeterPhase::Done)));
    assert!(matches!(status, Some(Status::Done)));
    let (s, status, _) = transcribe_step(Stage::Transcribing, Progress::Broke("x".into()), true);
    assert_eq!(s, Stage::Failed);
    assert!(matches!(status, Some(Status::Failed(e)) if e == "x"));
}

fn tapped(mic_channels: u32, call_channels: u32) -> CaptureEvent {
    CaptureEvent::Tapped { mic_hz: 48000, call_hz: 44100, mic_channels, call_channels }
}

fn polled(sentinel: bool) -> CaptureEvent {
    CaptureEvent::Polled { interrupted: false, sentinel, deadline_passed: false }
}

fn heard(heard: bool) -> CaptureEvent {
    CaptureEvent::Heard(CaptureEnd {
        heard,
        room_silent: true,
        advice: None,
        seconds: "12".into(),
    })
}

fn stopped() -> CaptureRun {
    let mut run = CaptureRun::new();
    for e in [tapped(1, 2), CaptureEvent::Opened, polled(false), polled(true), CaptureEvent::Closed] {
        run = run.step(e, "/s/x").0;
    }
    assert_eq!(run.stage, CaptureStage::Finishing);
    run
}

#[test]
fn a_capture_is_run_from_the_claim_to_the_audio() {
    let (run, turn) = CaptureRun::new().step(tapped(1, 2), "/s/x");
    assert_eq!(run.stage, CaptureStage::Preparing);
    assert!(!turn.discard && turn.error.is_none());
    let (run, _) = run.step(CaptureEvent::Opened, "/s/x");
    assert_eq!(run.stage, CaptureStage::Recording);
    let (run, _) = run.step(CaptureEvent::Drained { room: 100, call: 130 }, "/s/x");
    assert_eq!(run.capture.frames, 130);
    let second = CaptureEvent::Second {
        seconds: 65,
        arriving: true,
        room_peak: "0.310".into(),
        call_peak: "0.870".into(),
    };
    let (run, turn) = run.step(second, "/s/x");
    assert_eq!(turn.status.unwrap().file(), "recording 01:05  room 0.310  call 0.870\n");
    assert_eq!(turn.phase, Some(MeterPhase::Capturing));
    let (run, turn) = run.step(polled(true), "/s/x");
    assert_eq!(run.stage, CaptureStage::Closing);
    assert!(turn.status.is_none() && turn.phase.is_none() && !turn.heeded);
    let (run, turn) = run.step(CaptureEvent::Closed, "/s/x");
    assert_eq!(turn.status.unwrap().file(), "finishing\n");
    assert_eq!(turn.phase, Some(MeterPhase::Done));
    assert!(turn.heeded);
    let (run, turn) = run.step(heard(true), "/s/x");
    assert!(turn.status.is_none());
    assert_eq!(run.warnings, ["the room track is silent — check the microphone grant."]);
    let (run, turn) = run.step(CaptureEvent::Saved, "/s/x");
    assert_eq!(run.stage, CaptureStage::Captured);
    assert_eq!(turn.status.unwrap().file(), "captured\n");
}

/// A claim that came to nothing goes; one that may hold a conversation stays.
#[test]
fn only_a_capture_that_never_started_is_discarded() {
    let (run, turn) = CaptureRun::new().step(tapped(0, 0), "/s/x");
    assert_eq!(run.stage, CaptureStage::Failed);
    assert!(turn.discard);
    assert_eq!(turn.error.as_deref(), Some("capture started with no channels"));
    let (_, turn) = CaptureRun::new().step(CaptureEvent::Broke("no model".into()), "/s/x");
    assert!(turn.discard);
    let (run, turn) = stopped().step(CaptureEvent::Broke("disk full".into()), "/s/x");
    assert_eq!(run.stage, CaptureStage::Failed);
    assert!(!turn.discard);
    assert_eq!(turn.error.as_deref(), Some("disk full"));
}

#[test]
fn a_capture_that_heard_nothing_fails_and_says_so() {
    let (run, turn) = stopped().step(heard(false), "/s/x");
    assert_eq!(run.stage, CaptureStage::Failed);
    assert_eq!(turn.status.unwrap().file(), "failed: no audio was captured\n");
    assert_eq!(turn.phase, Some(MeterPhase::Failed));
    assert!(!turn.discard);
    assert!(turn.error.unwrap().contains("delivered no audio in 12s, so /s/x holds nothing"));
    let (_, turn) = run.step(CaptureEvent::Saved, "/s/x");
    assert!(turn.status.is_none());
}

/// Where a scratch file cannot be closed, the status and the sentinel stay as they
/// were.
#[test]
fn a_capture_that_cannot_close_its_files_does_not_read_as_finishing() {
    let mut run = CaptureRun::new();
    for e in [tapped(1, 2), CaptureEvent::Opened, polled(true)] {
        run = run.step(e, "/s/x").0;
    }
    let (run, turn) = run.step(CaptureEvent::Broke("disk full".into()), "/s/x");
    assert_eq!(run.stage, CaptureStage::Failed);
    assert!(turn.status.is_none() && turn.phase.is_none());
    assert!(!turn.heeded && !turn.discard);
    assert_eq!(turn.error.as_deref(), Some("disk full"));
}
