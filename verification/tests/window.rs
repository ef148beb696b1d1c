use ambient::claim::Claim;
use ambient::meter::{self, Meter, MeterPhase};
use ambient::recording::tick;
use ambient::session::{Line, SessionMeta, Track};
use ambient::shelf::is_growing;
use ambient::state::{Declined, Live, Phase};
use ambient::window::{
    demote_to_accessory, describe, level, phase_payload, relative, stamp_of, Demotion, Detail,
    Holds, LiveShot, Moment,
};
use chrono::{DateTime, Local};
use std::sync::Arc;

const NOTHING: Holds = Holds { raw: false, document: false, audio: false, growing: false };

fn meta(id: &str, name: Option<&str>, warnings: &[&str]) -> SessionMeta {
    SessionMeta {
        id: id.into(),
        name: name.map(str::to_string),
        started_at: "2026-08-30T20:00:00+10:00".into(),
        ended_at: "2026-08-30T20:00:20+10:00".into(),
        duration_s: "20.0".into(),
        device_hz: 48000,
        mic_hz: 0,
        channels: 1,
        mic_channels: 1,
        apps: vec![],
        model: "m".into(),
        warnings: warnings.iter().map(|w| w.to_string()).collect(),
    }
}

fn heard(speaker: Option<&str>) -> Line {
    Line {
        track: Track::Room,
        start_ms: 0,
        end_ms: 2000,
        speaker: speaker.map(str::to_string),
        text: "hello".into(),
    }
}

/// When a session started, as its row says it.
fn moment(t: DateTime<Local>) -> Moment {
    Moment {
        days_ago: (Local::now().date_naive() - t.date_naive()).num_days(),
        clock: t.format("%H:%M").to_string(),
        weekday: t.format("%a %H:%M").to_string(),
        date: t.format("%-d %b %Y").to_string(),
    }
}

/// The row's second line is the whole of the sidebar's information, and
/// every part of it is derived rather than stored.
#[test]
fn a_transcribed_session_says_when_how_long_and_who() {
    let m = meta("2026-08-30T1412", None, &["the room track is silent"]);
    let holds = Holds { raw: true, ..NOTHING };
    let lines = [heard(Some("room-1"))];
    let d: Detail = describe("2026-08-30T1412", holds, Some((&m, 65)), &lines, None);
    assert_eq!(d.title, "2026-08-30T1412");
    assert!(d.has_transcript);
    assert!(!d.interrupted);
    assert!(d.subtitle.contains("01:05"), "duration: {}", d.subtitle);
    assert!(d.subtitle.contains("1 speaker"), "speakers: {}", d.subtitle);
    // `room-1` still has diarization's shape, so it is a label waiting for
    // a name — the badge the whole naming step hangs off.
    assert!(d.subtitle.contains("1 to name"), "unnamed: {}", d.subtitle);
    assert_eq!(d.warnings, vec!["the room track is silent".to_string()]);
}

/// Audio, no transcript, nothing writing: a process killed mid-recording.
#[test]
fn audio_without_a_transcript_reads_as_interrupted() {
    let holds = Holds { audio: true, growing: is_growing(Some(600)), ..NOTHING };
    let d = describe("2026-08-30T1500", holds, None, &[], None);
    assert!(d.interrupted, "subtitle was {}", d.subtitle);
    assert!(d.subtitle.contains("Interrupted"));
}

/// Mid-transcription, which is the state every healthy session passes
/// through for the minutes ASR and diarization take: audio, a `raw.jsonl`
/// created the instant the transcriber claimed the session, no growing
/// wav and not one transcript line.
#[test]
fn a_session_still_transcribing_is_not_interrupted() {
    let holds = Holds { audio: true, raw: true, ..NOTHING };
    let d = describe("2026-08-30T1600", holds, None, &[], None);
    assert!(
        !d.interrupted,
        "a session mid-transcription must not read as interrupted; subtitle was {}",
        d.subtitle
    );
    assert!(!d.subtitle.contains("Interrupted"), "{}", d.subtitle);
}

/// A run that reached its end wrote `transcript.md`. It heard nothing, and
/// that is a different fact from a capture that was killed.
#[test]
fn a_finished_recording_that_heard_nothing_is_not_interrupted() {
    let m = meta("2026-08-30T2000", None, &[]);
    let holds = Holds { audio: true, raw: true, document: true, growing: false };
    let d = describe("2026-08-30T2000", holds, Some((&m, 20)), &[], None);
    assert!(!d.interrupted, "subtitle was {}", d.subtitle);
    assert!(d.completed);
    assert!(!d.queued);
    assert!(
        d.subtitle.contains("no speech recognised"),
        "{}",
        d.subtitle
    );
}

/// Audio and metadata written, no `raw.jsonl` because no transcriber has
/// claimed it yet: it is waiting on the queue, and must say so.
#[test]
fn a_captured_session_awaiting_its_transcript_says_so() {
    let m = meta("2026-08-30T2000", None, &[]);
    let d = describe("2026-08-30T2000", Holds { audio: true, ..NOTHING }, Some((&m, 20)), &[], None);
    assert!(d.queued);
    assert!(!d.interrupted, "subtitle was {}", d.subtitle);
    assert!(!d.completed);
    assert!(
        d.subtitle.contains("waiting to transcribe"),
        "{}",
        d.subtitle
    );
}

/// An empty directory is not a corpse — nothing was captured — so it must
/// not be labelled as one.
#[test]
fn an_empty_directory_is_not_interrupted() {
    let d = describe("2026-08-30T1600", NOTHING, None, &[], None);
    assert!(!d.interrupted);
    assert!(d.subtitle.contains("no transcript yet"));
}

#[test]
fn a_named_session_is_titled_by_its_name() {
    let m = meta("2026-08-30T1700", Some("Export spec"), &[]);
    assert_eq!(describe("2026-08-30T1700", NOTHING, Some((&m, 60)), &[], None).title, "Export spec");
}

#[test]
fn a_row_lists_its_parts_in_order() {
    let m = meta("x", None, &[]);
    let holds = Holds { raw: true, document: true, audio: true, growing: false };
    let when = Moment {
        days_ago: 1,
        clock: "09:05".into(),
        weekday: "Tue 09:05".into(),
        date: "1 Sep 2026".into(),
    };
    let lines = [heard(Some("Priya")), heard(Some("room-2")), heard(None), heard(Some("Priya"))];
    let d = describe("x", holds, Some((&m, 3725)), &lines, Some(&when));
    assert_eq!(d.subtitle, "Yesterday 09:05 · 62:05 · 2 speakers · 1 to name");
}

/// Naming a speaker is an append and does not touch the directory's own time.
#[test]
fn the_stamp_moves_when_edits_are_appended() {
    let before = stamp_of(&[Some(100), None, Some(100), None, None]);
    assert_eq!(before, 100);
    assert!(stamp_of(&[Some(100), None, Some(105), None, None]) > before);
    assert_eq!(stamp_of(&[None, None]), 0);
}

fn shot(elapsed_s: u64, meter: MeterPhase, arriving: bool) -> LiveShot {
    LiveShot {
        id: "2026-08-30T1412".into(),
        dir: "/tmp/2026-08-30T1412".into(),
        app: Some("us.zoom.xos".into()),
        elapsed_s,
        room_milli: 310,
        call_milli: 870,
        audio_arriving: arriving,
        meter,
        stoppable: meter == MeterPhase::Capturing,
    }
}

/// The pinned row says what is being recorded, where it is going, and how
/// long it has been going for.
#[test]
fn the_live_row_reads_as_a_recording_in_progress() {
    let (title, subtitle) = shot(252, MeterPhase::Capturing, true).row_lines();
    assert_eq!(title, "● Recording — 04:12");
    assert_eq!(subtitle, "Capturing us.zoom.xos → 2026-08-30T1412");
}

/// A denied tap returns correctly-shaped zeros rather than an error, so "nothing
/// is arriving" is the only thing that separates it from a quiet room.
#[test]
fn a_silent_capture_says_so_in_the_row() {
    let (_, subtitle) = shot(9, MeterPhase::Capturing, false).row_lines();
    assert!(subtitle.ends_with("no audio arriving"), "{subtitle}");
}

/// Once the worker moves on, the clock stops being the news.
#[test]
fn the_row_follows_the_worker_not_the_phase() {
    let (title, _) = shot(252, MeterPhase::Transcribing, true).row_lines();
    assert_eq!(title, "● Transcribing…");
    let (title, _) = shot(252, MeterPhase::Diarizing, true).row_lines();
    assert_eq!(title, "● Separating voices…");
}

#[test]
fn a_recording_started_by_hand_says_so() {
    let by_hand = LiveShot { app: None, ..shot(1, MeterPhase::Done, true) };
    assert_eq!(by_hand.capturing_line(), "Started by hand → 2026-08-30T1412");
    assert_eq!(by_hand.row_lines().0, "● Finishing…");
    assert_eq!(
        shot(1, MeterPhase::Failed, false).row_lines().1,
        "Captured us.zoom.xos → 2026-08-30T1412"
    );
}

fn recording(app: Option<&str>) -> Phase {
    Phase::Recording {
        live: Live {
            dir: Arc::new(Claim::new("2026-09-02T0900", None).won("/s")),
            app: app.map(str::to_string),
            worker: 1,
        },
        declined: Declined::none(),
    }
}

/// The live view reads the per-interval peaks, not the cumulative ones and not
/// the filesystem.
#[test]
fn the_live_view_reads_the_shared_meter_and_nothing_else() {
    let phase = recording(Some("us.zoom.xos"));
    let live = phase.live().expect("a Recording owns a Live");

    // Exactly what the worker thread writes once a second.
    let mut meter = Meter::default();
    tick(&mut meter, 65_000, 310, 870, true);

    let shot = LiveShot::of(live, &meter, phase.kind());
    assert_eq!(shot.clock(), "01:05");
    assert_eq!(level(shot.room_milli), "0.31");
    assert_eq!(level(shot.call_milli), "0.87");
    assert!(
        shot.stoppable,
        "a Recording phase is the one Stop is legal in"
    );
    assert_eq!(shot.id, "2026-09-02T0900");
    assert_eq!(shot.dir, live.dir.path());

    // A mic that goes quiet falls back within a second.
    tick(&mut meter, 66_000, 0, 870, true);
    assert_eq!(LiveShot::of(live, &meter, phase.kind()).room_milli, 0);
}

/// Stop is the phase's business, the label is the meter's. A phase that
/// has left `Recording` must not offer a Stop that would do nothing.
#[test]
fn stop_is_offered_only_while_the_phase_is_recording() {
    let stopped = recording(None).stop(Ok(())).unwrap_or_else(|(_, e)| panic!("{e}"));
    let live = stopped.live().unwrap();
    assert!(!LiveShot::of(live, &Meter::default(), stopped.kind()).stoppable);
}

#[test]
fn relative_dates_read_like_dates() {
    let now = Local::now();
    assert!(relative(&moment(now)).starts_with("Today "));
    assert!(relative(&moment(now - chrono::Duration::days(1))).starts_with("Yesterday "));
    assert!(!relative(&moment(now - chrono::Duration::days(400))).contains("Today"));
}

#[test]
fn older_dates_read_as_weekdays_then_as_dates() {
    let m = |days_ago| Moment {
        days_ago,
        clock: "09:05".into(),
        weekday: "Tue 09:05".into(),
        date: "1 Sep 2026".into(),
    };
    for (days, text) in [
        (0, "Today 09:05"),
        (1, "Yesterday 09:05"),
        (2, "Tue 09:05"),
        (6, "Tue 09:05"),
        (7, "1 Sep 2026"),
        (-1, "1 Sep 2026"),
    ] {
        assert_eq!(relative(&m(days)), text);
    }
}

/// A level reads as JSON writes the same number, and never above one.
#[test]
fn levels_read_as_json_writes_them() {
    for milli in (0..=1001u32).chain([1100, 2000, 12_345, u32::MAX]) {
        let n = serde_json::Value::from((milli as f64 / 1000.0).min(1.0));
        assert_eq!(level(milli), serde_json::to_string(&n).unwrap());
    }
}

/// A level on the status line reads as two decimals of a single-precision number.
#[test]
fn meter_levels_read_as_two_decimals() {
    for milli in (0..=5000u32).chain([99_995, 1_000_005, u32::MAX]) {
        assert_eq!(meter::level(milli), format!("{:.2}", milli as f32 / 1000.0));
    }
}

#[test]
fn a_status_line_follows_the_phase() {
    let mut m = Meter::default();
    tick(&mut m, 65_999, 310, 870, true);
    assert_eq!(m.status_line(), "01:05 · room 0.31 · call 0.87");
    tick(&mut m, 65_999, 0, 0, false);
    assert_eq!(m.status_line(), "01:05  no audio arriving");
    for (p, line) in [
        (MeterPhase::Transcribing, "transcribing…"),
        (MeterPhase::Diarizing, "separating voices…"),
        (MeterPhase::Done, "done"),
        (MeterPhase::Failed, "failed"),
    ] {
        m.set_phase(p);
        assert_eq!(m.status_line(), line);
        assert_eq!(MeterPhase::from_u8(p.to_u8()), p);
    }
    assert_eq!(MeterPhase::from_u8(200), MeterPhase::Capturing);
}

#[test]
fn the_page_is_told_of_the_phase() {
    let parse = |s: &str| serde_json::from_str::<serde_json::Value>(s).unwrap();
    let mut m = Meter::default();
    tick(&mut m, 65_000, 310, 870, true);
    let v = parse(&phase_payload(&recording(Some("us.zoom.xos")), &m, Some("Transcribing a")));
    assert_eq!(v["kind"], "recording");
    assert_eq!(v["app"], "us.zoom.xos");
    assert_eq!(v["queue"], "Transcribing a");
    assert_eq!(v["live"]["room_level"], 0.31);
    assert_eq!(v["failure"], serde_json::Value::Null);
    let failed = recording(None).finished(Err("boom".into()), "09:00");
    let v = parse(&phase_payload(&failed, &m, None));
    assert_eq!(v["kind"], "failed");
    assert_eq!(v["live"], serde_json::Value::Null);
    assert_eq!(v["failure"]["error"], "boom");
    assert_eq!(v["failure"]["session"], "2026-09-02T0900");
}

#[test]
fn the_dock_icon_goes_only_when_nothing_needs_it() {
    assert!(matches!(demote_to_accessory(false, true, Some("w"), true), Demotion::Already));
    assert!(matches!(
        demote_to_accessory(true, true, None, true),
        Demotion::Stay(Some(m)) if m == "window: staying Regular — a modal panel is up"
    ));
    assert!(matches!(
        demote_to_accessory(true, false, Some("Settings"), true),
        Demotion::Stay(Some(m)) if m == "window: staying Regular — Settings is still visible"
    ));
    assert!(matches!(demote_to_accessory(true, false, Some("Settings"), false), Demotion::Stay(None)));
    assert!(matches!(demote_to_accessory(true, false, None, false), Demotion::Demote));
}
