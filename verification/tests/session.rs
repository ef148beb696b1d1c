use ambient::attribution::{
    diarize_session, name_speaker, speakers, unnamed_labels, DIARIZE_BY, USER_BY,
};
use ambient::bleed::{containment, dedup_bleed};
use ambient::claim::{
    claim_transcription, live_transcriber, lock_pid, signal_stop, slugify, stop_path, Claim, Link,
    LockStep, StopSignalled, STOP_FILE,
};
use ambient::diarize::Span;
use ambient::markdown::markdown;
use ambient::session::{Edit, Line, RawRecord, SessionMeta, Target, Track};
use ambient::shelf::{
    captured_awaiting_transcript, has_transcribed_words, is_growing, latest, list, live_session,
    stop_recording, sweep_audio, Entry, Scratch, SessionFacts, Shelved,
};
use ambient::transcript::{is_reverted, show_line, transcript, transcript_appended};

const DAY: u64 = 24 * 60 * 60;

/// A session as a recording leaves one: a transcript, some raw lines, and the
/// two tracks, this many seconds old.
fn shelved(with_transcript: bool, age: u64) -> Shelved {
    let raw = "{\"track\":\"room\",\"start_ms\":0,\"end_ms\":1000,\"text\":\"some words were said\",\"confidence\":0.9}\n";
    Shelved {
        is_symlink: false,
        has_transcript: with_transcript,
        has_words: has_transcribed_words(Some(raw)),
        track_ages: vec![Some(age), Some(age)],
    }
}

#[test]
fn keeping_audio_forever_deletes_nothing() {
    assert_eq!(sweep_audio(&[shelved(true, 0)], None), []);
}

#[test]
fn zero_days_removes_the_audio_and_keeps_the_words() {
    assert_eq!(sweep_audio(&[shelved(true, 0)], Some(0)), [(0, 0), (0, 1)]);
}

#[test]
fn audio_within_the_window_is_left_alone() {
    // Seven days of retention, judged one day after the file was written.
    assert_eq!(sweep_audio(&[shelved(true, DAY)], Some(7)), []);
    // ...and eight days after, it goes.
    assert_eq!(sweep_audio(&[shelved(true, 8 * DAY)], Some(7)).len(), 2);
    assert_eq!(sweep_audio(&[shelved(true, 7 * DAY)], Some(7)).len(), 2);
    assert_eq!(sweep_audio(&[shelved(true, 7 * DAY - 1)], Some(7)).len(), 0);
}

/// The one that would hurt most: a file-exists check would delete the audio of a
/// recording that produced no text — destroying the only copy precisely when
/// transcription failed.
#[test]
fn a_transcript_with_no_words_in_it_does_not_authorise_deleting_the_audio() {
    let silent = Shelved { has_words: has_transcribed_words(Some("")), ..shelved(true, 0) };
    assert_eq!(sweep_audio(&[silent], Some(0)), []);
    assert!(!has_transcribed_words(Some("\n  \n")));
    assert!(!has_transcribed_words(None));
}

#[test]
fn a_directory_that_is_not_a_session_is_left_alone() {
    let other = Shelved { has_words: has_transcribed_words(None), ..shelved(true, 0) };
    assert_eq!(sweep_audio(&[other], Some(0)), []);
    let link = Shelved { is_symlink: true, ..shelved(true, 0) };
    assert_eq!(sweep_audio(&[link], Some(0)), []);
}

/// A recording still being transcribed has no transcript yet, and its audio is
/// the only copy of what was said.
#[test]
fn a_session_without_a_transcript_is_never_swept() {
    assert_eq!(sweep_audio(&[shelved(false, 0)], Some(0)), []);
}

#[test]
fn a_track_whose_age_cannot_be_told_is_kept() {
    let s = Shelved { track_ages: vec![None, Some(1)], ..shelved(true, 0) };
    assert_eq!(sweep_audio(&[shelved(false, 9), s], Some(0)), [(1, 1)]);
}

/// Two recordings starting inside the same clock minute are handed two
/// directories.
#[test]
fn two_claims_in_one_clock_minute_yield_two_directories() {
    let first = Claim::new("2026-09-02T0900", None);
    assert_eq!(first.attempt(), "2026-09-02T0900");
    let first = first.won("/s");
    // The first directory is there, so the second claim moves on.
    let second = Claim::new("2026-09-02T0900", None).taken("/s").unwrap();
    assert_eq!(second.attempt(), format!("{}-02", first.id()));
    let second = second.won("/s");
    assert_ne!(first.path(), second.path());
    // The id every file inside will carry is the directory's own name.
    assert_eq!(second.path(), format!("/s/{}", second.id()));
}

#[test]
fn a_minute_holds_ninety_nine_sessions() {
    let mut c = Claim::new("2026-09-02T0900", Some("Team Sync"));
    for _ in 1..99 {
        c = c.taken("/s").unwrap();
    }
    assert_eq!(c.attempt(), "2026-09-02T0900-team-sync-99");
    let e = c.taken("/s").unwrap_err();
    assert_eq!(e, "/s already holds 99 sessions claimed as 2026-09-02T0900-team-sync");
}

/// The suffix is zero-padded because every listing here is a byte sort.
#[test]
fn a_padded_suffix_sorts_between_its_minute_and_the_next() {
    let entries: Vec<Entry> = [
        "2026-08-30T1406",
        "2026-08-30T1405-10",
        "2026-08-30T1405",
        "2026-08-30T1405-02",
    ]
    .iter()
    .map(|n| Entry { name: n.to_string(), is_dir: true })
    .collect();
    assert_eq!(
        list(&entries),
        [
            "2026-08-30T1405",
            "2026-08-30T1405-02",
            "2026-08-30T1405-10",
            "2026-08-30T1406",
        ]
    );
    assert_eq!(latest(&entries).unwrap(), "2026-08-30T1406");
}

/// `app.log` sorts after every `2…` session id, so a walk that took files would
/// hand back the log file as the newest session.
#[test]
fn list_ignores_files_in_the_sessions_folder() {
    let entries = [
        Entry { name: "2026-01-01T0900".into(), is_dir: true },
        Entry { name: "app.log".into(), is_dir: false },
        Entry { name: "zzz.txt".into(), is_dir: false },
    ];
    assert_eq!(list(&entries), ["2026-01-01T0900"]);
    assert_eq!(latest(&entries).unwrap(), "2026-01-01T0900");
    assert_eq!(latest(&[]), None);
}

/// A `StopSignalled` cannot be made without writing the sentinel, and the
/// sentinel lands in the claimed directory.
#[test]
fn signal_stop_writes_the_sentinel_into_the_claimed_directory() {
    let dir = Claim::new("2026-09-02T0900", Some("Team Sync")).won("/s");
    assert!(dir.id().ends_with("-team-sync"));
    let _witness: StopSignalled = signal_stop(&dir, Ok(())).unwrap();
    assert_eq!(stop_path(&dir), format!("{}/{STOP_FILE}", dir.path()));
    let e = signal_stop(&dir, Err("read-only".into())).unwrap_err();
    assert!(e.contains(&stop_path(&dir)) && e.contains("read-only"), "{e}");
}

#[test]
fn the_latest_session_is_the_last_by_name() {
    let entries: Vec<Entry> = ["2026-01-01T0900", "2026-03-04T1130", "2026-02-01T0900"]
        .iter()
        .map(|n| Entry { name: n.to_string(), is_dir: true })
        .collect();
    assert_eq!(latest(&entries).unwrap(), "2026-03-04T1130");
}

fn record(track: Track, start_ms: u64, end_ms: u64, text: &str) -> RawRecord {
    RawRecord { track, start_ms, end_ms, text: text.into(), confidence: 0.9f32.to_bits() }
}

fn raw() -> Vec<RawRecord> {
    vec![
        record(Track::Call, 0, 2000, "shall we start with the export spec"),
        record(Track::Room, 2100, 4000, "yes, go ahead"),
    ]
}

fn spoken_by(track: Track, start_ms: u64, name: &str, by: &str) -> Edit {
    Edit::Speaker {
        target: Target { track, start_ms },
        name: name.into(),
        by: by.into(),
        at: "2026-01-01T09:00:00+00:00".into(),
    }
}

fn unnamed(edits: &[Edit]) -> Vec<(String, String)> {
    unnamed_labels(&transcript(&raw(), edits, false))
}

#[test]
fn diarizations_own_labels_are_the_ones_offered_for_naming() {
    let unnamed = unnamed(&[
        spoken_by(Track::Call, 0, "call-1", DIARIZE_BY),
        spoken_by(Track::Room, 2100, "room-1", DIARIZE_BY),
    ]);
    assert_eq!(unnamed.len(), 2);
    assert_eq!(unnamed[0].0, "call-1");
    // The sample line is the point: `call-1` alone is unrecognisable.
    assert_eq!(unnamed[0].1, "shall we start with the export spec");
}

#[test]
fn a_person_with_a_name_is_no_longer_offered() {
    let unnamed = unnamed(&[
        spoken_by(Track::Call, 0, "call-1", DIARIZE_BY),
        spoken_by(Track::Room, 2100, "room-1", DIARIZE_BY),
        spoken_by(Track::Call, 0, "Priya", USER_BY),
    ]);
    assert_eq!(unnamed.len(), 1);
    assert_eq!(unnamed[0].0, "room-1");
}

/// The shape test must not eat a real name.
#[test]
fn a_name_that_merely_resembles_a_label_is_left_named() {
    assert!(unnamed(&[
        spoken_by(Track::Call, 0, "call-one", USER_BY),
        spoken_by(Track::Room, 2100, "roomba", USER_BY),
    ])
    .is_empty());
}

/// A re-run reverts last time's labels before it discovers there is nothing left
/// to read, which would unlabel everyone nobody had named by hand.
#[test]
fn diarizing_a_session_whose_audio_was_swept_refuses_rather_than_unlabelling() {
    let existing = [spoken_by(Track::Call, 0, "call-1", DIARIZE_BY)];
    let e = diarize_session("/s/x", &raw(), &existing, false, false, &[], &[], "now").unwrap_err();
    assert!(e.contains("no audio left"), "{e}");
    let e = diarize_session("/s/x", &[], &existing, true, true, &[], &[], "now").unwrap_err();
    assert_eq!(e, "/s/x has no transcript to attribute");
}

fn span(start: usize, end: usize, speaker: usize) -> Span {
    Span { start, end, speaker }
}

#[test]
fn a_second_run_replaces_the_labels_and_keeps_the_names() {
    let mut edits = vec![
        spoken_by(Track::Call, 0, "call-1", DIARIZE_BY),
        spoken_by(Track::Room, 2100, "room-1", DIARIZE_BY),
    ];
    let lines = transcript(&raw(), &edits, false);
    edits.extend(name_speaker(&lines, "call-1", "Priya", "later").unwrap());
    // 16 samples to the millisecond.
    let room = [span(2000 * 16, 5000 * 16, 1)];
    let call = [span(0, 2000 * 16, 0)];
    assert_eq!(speakers(&room), 2);
    let more = diarize_session("/s/x", &raw(), &edits, true, true, &room, &call, "now").unwrap();
    let reverts = more.iter().filter(|e| matches!(e, Edit::Revert { .. })).count();
    assert_eq!(reverts, 2);
    edits.extend(more);
    let lines = transcript(&raw(), &edits, false);
    assert_eq!(lines[0].speaker.as_deref(), Some("Priya"));
    assert_eq!(lines[1].speaker.as_deref(), Some("room-2"));
}

#[test]
fn naming_a_label_nobody_has_lists_the_ones_there_are() {
    let edits = [spoken_by(Track::Call, 0, "call-1", DIARIZE_BY)];
    let lines = transcript(&raw(), &edits, false);
    let e = name_speaker(&lines, "call-\"9", "Priya", "now").unwrap_err();
    assert_eq!(e, "no lines labelled \"call-\\\"9\" (available: call-1)");
    let e = name_speaker(&transcript(&raw(), &[], false), "call-1", "Priya", "now").unwrap_err();
    assert_eq!(
        e,
        "no lines labelled \"call-1\" (available: none — run `ambient diarize` first)"
    );
}

fn line(track: Track, start_ms: u64, end_ms: u64, text: &str) -> Line {
    Line {
        track,
        start_ms,
        end_ms,
        speaker: None,
        text: text.into(),
    }
}

/// Both strings are real: the same utterance as the mic and the tap each
/// transcribed it in the diarization end-to-end.
#[test]
fn the_microphone_overhearing_the_call_is_dropped() {
    let lines = vec![
        line(
            Track::Room,
            90,
            9480,
            "Right, let's start with the Transcoda backlog. It cleared overnight and the retry storm has not come back. So I think we can call that one closed for now.",
        ),
        line(
            Track::Call,
            60,
            9580,
            "Right, let's start with the Transcoda backlog. It cleared overnight and the retry-storm has not come back, so I think we can call that one closed for now.",
        ),
    ];
    let (kept, dropped) = dedup_bleed(&lines);
    assert_eq!(dropped, 1);
    assert_eq!(kept.len(), 1);
    assert_eq!(kept[0].track, Track::Call);
}

/// The one that matters: real cross-talk must survive. A dedup that eats
/// speech is worse than no dedup at all.
#[test]
fn genuine_cross_talk_is_kept() {
    let lines = vec![
        line(
            Track::Room,
            1000,
            5000,
            "Sorry, could you repeat the last part?",
        ),
        line(
            Track::Call,
            900,
            5200,
            "and then we shipped the chunking fix on Tuesday afternoon",
        ),
    ];
    let (kept, dropped) = dedup_bleed(&lines);
    assert_eq!(dropped, 0);
    assert_eq!(kept.len(), 2);
}

#[test]
fn the_same_words_at_a_different_time_are_kept() {
    let lines = vec![
        line(Track::Room, 60_000, 64_000, "let's start with the backlog"),
        line(Track::Call, 0, 4_000, "let's start with the backlog"),
    ];
    let (_, dropped) = dedup_bleed(&lines);
    assert_eq!(dropped, 0);
}

#[test]
fn a_room_only_session_keeps_everything() {
    let lines = vec![
        line(Track::Room, 0, 4_000, "morning all"),
        line(Track::Room, 5_000, 9_000, "shall we start"),
    ];
    let (kept, dropped) = dedup_bleed(&lines);
    assert_eq!(dropped, 0);
    assert_eq!(kept.len(), 2);
}

#[test]
fn containment_ignores_case_and_punctuation() {
    let ratio = |a: &str, b: &str| {
        let (shared, of) = containment(a, b);
        shared as f32 / of as f32
    };
    assert!((ratio("Retry-storm, gone!", "retry storm gone") - 1.0).abs() < 1e-6);
    assert!(ratio("completely different words here", "retry storm gone") < 0.2);
}

fn facts(name: &str) -> SessionFacts {
    SessionFacts {
        name: name.into(),
        has_meta: true,
        has_transcript: false,
        has_room: true,
        has_call: false,
        growing: false,
        transcriber: None,
    }
}

/// What is queued again at launch: captured, never transcribed, and not being
/// written by anyone.
#[test]
fn only_captured_untranscribed_sessions_are_awaiting_transcript() {
    let me = 4242;
    let folder = [
        // Captured, never transcribed: the one to queue again.
        facts("2026-09-02T0900"),
        // A transcriber started and died before the transcript.
        facts("2026-09-02T1000"),
        // Finished, audio swept.
        SessionFacts { has_transcript: true, has_room: false, ..facts("2026-09-02T1100") },
        // Finished, audio still present.
        SessionFacts { has_transcript: true, ..facts("2026-09-02T1130") },
        // Killed mid-capture: no metadata, so not ours to guess about.
        SessionFacts { has_meta: false, ..facts("2026-09-02T1200") },
        // Still being captured by another process.
        SessionFacts { growing: is_growing(Some(0)), ..facts("2026-09-02T1300") },
        // Being transcribed by a live process right now.
        SessionFacts {
            transcriber: live_transcriber(Some(&me.to_string()), true),
            ..facts("2026-09-02T1400")
        },
        // A transcriber that died holding the lock: the lock is stale.
        SessionFacts {
            transcriber: live_transcriber(Some("2147483646"), false),
            ..facts("2026-09-02T1500")
        },
    ];
    assert_eq!(
        captured_awaiting_transcript(&folder),
        ["2026-09-02T0900", "2026-09-02T1000", "2026-09-02T1500"]
    );
}

/// Two transcribers on one session would race to truncate `raw.jsonl`.
/// The lock refuses the second while the first is alive, and takes over
/// from one that died.
#[test]
fn the_transcription_lock_refuses_a_live_holder_and_replaces_a_dead_one() {
    let me: u32 = 4242;
    let LockStep::Held(first) = claim_transcription("/s/x", me, false, Link::Made, None) else {
        panic!("a lock that was made is held");
    };
    assert_eq!(first.path(), "/s/x/transcribing.lock");
    let holder = live_transcriber(Some("4242\n"), true);
    let LockStep::Refuse(refused) = claim_transcription("/s/x", me, false, Link::Exists, holder)
    else {
        panic!("a live holder is refused");
    };
    assert_eq!(refused, "/s/x is being transcribed by another process (pid 4242)");
    assert!(first.is_ours(Some("4242")));
    // A lock that was taken over is not ours to remove.
    assert!(!first.is_ours(Some("2147483646")));
    assert!(!first.is_ours(None));

    let holder = live_transcriber(Some("2147483646"), false);
    assert!(matches!(
        claim_transcription("/s/x", me, false, Link::Exists, holder),
        LockStep::ClearAndRetry
    ));
    assert!(matches!(
        claim_transcription("/s/x", me, true, Link::Made, None),
        LockStep::Held(l) if l.is_ours(Some(" 4242 "))
    ));
    assert!(matches!(
        claim_transcription("/s/x", me, true, Link::Exists, None),
        LockStep::ClearAndRefuse(e) if e == "/s/x was claimed by another transcriber"
    ));
    assert!(matches!(
        claim_transcription("/s/x", me, false, Link::Failed("no space".into()), None),
        LockStep::Refuse(e) if e == "creating /s/x/transcribing.lock: no space"
    ));
}

#[test]
fn a_lock_names_its_holder() {
    assert_eq!(lock_pid(Some(" 17\n")), Some(17));
    assert_eq!(lock_pid(Some("seventeen")), None);
    assert_eq!(lock_pid(Some("")), None);
    assert_eq!(lock_pid(Some("4294967296")), None);
    assert_eq!(lock_pid(None), None);
}

#[test]
fn slugs_hold_letters_digits_and_single_hyphens() {
    assert_eq!(slugify("Team Sync"), "team-sync");
    assert_eq!(slugify("  1:1 — Priya!! "), "1-1-priya");
    assert_eq!(slugify("日本"), "");
}

#[test]
fn the_live_session_is_the_last_that_grows() {
    let s = |n: &str, growing| Scratch { name: n.into(), growing };
    assert_eq!(live_session(&[s("b", true), s("c", false), s("a", true)]), Some(0));
    assert_eq!(live_session(&[s("b", false)]), None);
    assert!(is_growing(Some(9)) && !is_growing(Some(10)) && !is_growing(None));
}

#[test]
fn a_stop_needs_something_to_stop() {
    assert_eq!(
        stop_recording(None, None, "/s", false).unwrap_err(),
        "no recording in progress under /s"
    );
    assert_eq!(
        stop_recording(Some("/t"), None, "/s", false).unwrap_err(),
        "/t is not a session directory"
    );
    assert_eq!(stop_recording(None, Some("/s/x"), "/s", true).unwrap(), "/s/x");
}

#[test]
fn a_reverted_edit_is_as_if_it_had_not_been_made() {
    let repair = Edit::Repair {
        target: Target { track: Track::Room, start_ms: 2100 },
        from: "go".into(),
        to: "do go".into(),
        by: USER_BY.into(),
        at: "now".into(),
    };
    let revert = Edit::Revert { target_seq: 0, by: USER_BY.into(), at: "later".into() };
    let edited = transcript(&raw(), &[repair], false);
    assert_eq!(edited[1].text, "yes, do go ahead");
    let repair = Edit::Repair {
        target: Target { track: Track::Room, start_ms: 2100 },
        from: "go".into(),
        to: "do go".into(),
        by: USER_BY.into(),
        at: "now".into(),
    };
    let both = [repair, revert];
    assert!(is_reverted(&both, 0) && !is_reverted(&both, 1));
    assert_eq!(transcript(&raw(), &both, false)[1].text, "yes, go ahead");
    assert_eq!(transcript(&raw(), &both[..1], true)[1].text, "yes, go ahead");
}

#[test]
fn a_transcript_is_ordered_by_start_and_the_record_is_not() {
    let records = [
        record(Track::Room, 5000, 6000, "second"),
        record(Track::Call, 0, 1000, "first"),
        record(Track::Call, 5000, 5500, "third"),
    ];
    let texts = |ls: Vec<Line>| ls.into_iter().map(|l| l.text).collect::<Vec<_>>();
    assert_eq!(texts(transcript(&records, &[], false)), ["first", "second", "third"]);
    assert_eq!(texts(transcript_appended(&records, &[], false)), ["second", "first", "third"]);
    // What a reader has seen keeps its place when more is written.
    assert_eq!(texts(transcript_appended(&records[..2], &[], false)), ["second", "first"]);
}

#[test]
fn a_shown_line_says_when_who_and_what() {
    let mut l = line(Track::Call, 65_000, 66_000, "hello");
    assert_eq!(show_line(&l), "[01:05] call            hello");
    l.speaker = Some("Priya".into());
    assert_eq!(show_line(&l), "[01:05] call Priya      hello");
}

fn meta(name: Option<&str>) -> SessionMeta {
    SessionMeta {
        id: "2026-09-05-1200".into(),
        name: name.map(str::to_string),
        started_at: "2026-09-05T12:00:00+01:00".into(),
        ended_at: "2026-09-05T12:10:12+01:00".into(),
        duration_s: "612.5".into(),
        device_hz: 48000,
        mic_hz: 48000,
        channels: 1,
        mic_channels: 1,
        apps: vec!["us.zoom.xos".into(), "a\"b".into()],
        model: "parakeet".into(),
        warnings: vec![],
    }
}

#[test]
fn the_document_is_front_matter_then_lines() {
    let mut said = line(Track::Call, 65_000, 66_000, "  hello there ");
    said.speaker = Some("Priya".into());
    let lines = [
        said,
        line(Track::Room, 65_100, 66_000, "Hello there."),
        line(Track::Room, 70_000, 71_000, "morning"),
    ];
    assert_eq!(
        markdown(&lines, Some(&meta(Some("Q: \"why\"")))),
        "---\nid: \"2026-09-05-1200\"\nname: \"Q: \\\"why\\\"\"\n\
         started_at: \"2026-09-05T12:00:00+01:00\"\nended_at: \"2026-09-05T12:10:12+01:00\"\n\
         duration_s: 612.5\napps: [\"us.zoom.xos\", \"a\\\"b\"]\nmodel: \"parakeet\"\n\
         speakers: [\"Priya\"]\n---\n\n# Q: \"why\"\n\n\
         **[01:05] Priya** (call)\nhello there\n\n**[01:10] room**\nmorning\n\n\
         ---\n_1 room line(s) suppressed as call-track duplicates._\n"
    );
}

#[test]
fn a_document_without_speech_says_so() {
    assert_eq!(
        markdown(&[], None),
        "---\nspeakers: []\n---\n\n# Transcript\n\n_No speech was transcribed._\n"
    );
    assert!(markdown(&[], Some(&meta(None))).contains("# 2026-09-05-1200\n"));
}

/// Only an entry whose audio a sweep goes through has its folder tidied away.
#[test]
fn only_what_may_age_out_is_tidied() {
    assert!(shelved(true, 0).may_age_out(Some(7)));
    assert!(!shelved(true, 0).may_age_out(None));
    assert!(!shelved(false, 0).may_age_out(Some(0)));
}
