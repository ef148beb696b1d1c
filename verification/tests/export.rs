use ambient::export::{render, strip_first_heading, timestamp_srt, timestamp_vtt, Format};
use ambient::session::{transcript, Edit, Line, RawRecord, SessionMeta, Target, Track};

/// A room line (0-1500ms, "hello") named "Ana", and a call line (1500-4000ms,
/// "hi") with no speaker — the fixture every format test shares.
fn fixture() -> Vec<Line> {
    let raw = [
        RawRecord {
            track: Track::Room,
            start_ms: 0,
            end_ms: 1500,
            text: "hello".into(),
            confidence: 0.9f32.to_bits(),
        },
        RawRecord {
            track: Track::Call,
            start_ms: 1500,
            end_ms: 4000,
            text: "hi".into(),
            confidence: 0.9f32.to_bits(),
        },
    ];
    let edits = [Edit::Speaker {
        target: Target { track: Track::Room, start_ms: 0 },
        name: "Ana".into(),
        by: "test".into(),
        at: "2026-09-05T12:00:00Z".into(),
    }];
    transcript(&raw, &edits, false)
}

fn meta(name: Option<&str>) -> SessionMeta {
    SessionMeta {
        id: "2026-09-05-1200".into(),
        name: name.map(|s| s.to_string()),
        started_at: "2026-09-05T12:00:00+01:00".into(),
        ended_at: "2026-09-05T12:10:12+01:00".into(),
        duration_s: "612.5".into(),
        device_hz: 48000,
        mic_hz: 48000,
        channels: 1,
        mic_channels: 1,
        apps: vec![],
        model: "parakeet".into(),
        warnings: vec![],
    }
}

#[test]
fn srt_matches_the_pinned_string() {
    let got = render(Format::Srt, &fixture(), None, 0, "d");
    assert_eq!(
        got,
        "1\n00:00:00,000 --> 00:00:01,500\nAna: hello\n\n2\n00:00:01,500 --> 00:00:04,000\nhi\n"
    );
}

#[test]
fn vtt_starts_with_the_header_and_uses_dots() {
    let got = render(Format::Vtt, &fixture(), None, 0, "d");
    assert!(got.starts_with("WEBVTT\n\n"), "{got}");
    assert!(got.contains("00:00:00.000 --> 00:00:01.500"), "{got}");
}

#[test]
fn json_round_trips_the_two_lines() {
    let got = render(Format::Json, &fixture(), None, 0, "d");
    let value: serde_json::Value = serde_json::from_str(&got).unwrap();
    let lines = value.as_array().unwrap();
    assert_eq!(lines.len(), 2);
    assert_eq!(lines[0]["text"], "hello");
    assert_eq!(lines[0]["track"], "room");
    assert_eq!(lines[0]["start_ms"], 0);
    assert_eq!(lines[1]["text"], "hi");
}

#[test]
fn json_is_laid_out_two_to_the_indent() {
    assert_eq!(render(Format::Json, &[], None, 0, "d"), "[]");
    assert_eq!(
        render(Format::Json, &fixture(), None, 0, "d"),
        "[\n  {\n    \"track\": \"room\",\n    \"start_ms\": 0,\n    \"end_ms\": 1500,\n    \"speaker\": \"Ana\",\n    \"text\": \"hello\"\n  },\n  {\n    \"track\": \"call\",\n    \"start_ms\": 1500,\n    \"end_ms\": 4000,\n    \"speaker\": null,\n    \"text\": \"hi\"\n  }\n]"
    );
}

#[test]
fn an_unknown_format_names_all_six() {
    let err = "xml".parse::<Format>().unwrap_err();
    let message = format!("{err}");
    for name in ["markdown", "text", "json", "srt", "vtt", "assistant"] {
        assert!(message.contains(name), "{message}");
    }
}

#[test]
fn every_format_has_its_word_and_its_file() {
    for (word, format, file) in [
        ("markdown", Format::Markdown, "transcript.md"),
        ("text", Format::Text, "transcript.txt"),
        ("json", Format::Json, "transcript.json"),
        ("srt", Format::Srt, "transcript.srt"),
        ("vtt", Format::Vtt, "transcript.vtt"),
        ("assistant", Format::Assistant, "transcript.assistant.md"),
    ] {
        assert_eq!(word.parse::<Format>(), Ok(format));
        assert_eq!(format.file_name(), file);
    }
}

#[test]
fn text_has_a_blank_line_where_the_track_changes() {
    assert_eq!(render(Format::Text, &fixture(), None, 0, "d"), "Ana: hello\n\nhi\n");
}

#[test]
fn an_hour_is_an_hour() {
    assert_eq!(timestamp_srt(3_725_042), "01:02:05,042");
    assert_eq!(timestamp_vtt(360_000_000), "100:00:00.000");
}

#[test]
fn the_first_heading_and_all_before_it_goes() {
    assert_eq!(strip_first_heading("---\na\n---\n\n# Title\n\nbody\n# More\n"), "\nbody\n# More\n");
    assert_eq!(strip_first_heading("# Only"), "");
    assert_eq!(strip_first_heading("no heading\n#nor this\n"), "no heading\n#nor this\n");
}

#[test]
fn a_pasted_session_is_headed_by_its_name_and_length() {
    let m = meta(Some("Standup"));
    let got = render(Format::Assistant, &fixture(), Some(&m), 612, "d");
    assert!(
        got.starts_with("# Standup (2026-09-05T12:00:00+01:00, 10:12)\n\n**"),
        "{got}"
    );
    assert!(
        got.ends_with("Read live with the ambient MCP server: session id 2026-09-05-1200\n"),
        "{got}"
    );
    assert_eq!(got.matches("# ").count(), 1, "{got}");
    let m = meta(None);
    let got = render(Format::Assistant, &fixture(), Some(&m), 5, "d");
    assert!(got.starts_with("# 2026-09-05-1200 (2026-09-05T12:00:00+01:00, 00:05)\n\n"), "{got}");
    let got = render(Format::Assistant, &[], None, 0, "somewhere");
    assert!(got.starts_with("# somewhere\n\n"), "{got}");
    assert!(got.ends_with("session id somewhere\n"), "{got}");
}

#[test]
fn the_document_is_the_markdown() {
    let got = render(Format::Markdown, &fixture(), None, 0, "d");
    assert!(got.starts_with("---\n"), "{got}");
    assert!(got.contains("# Transcript\n\n"), "{got}");
    assert!(got.contains("hello") && got.contains("hi"), "{got}");
}

/// Only the formats that lay the room against the call look at how long a line is,
/// and they only where both speak.
#[test]
fn a_line_that_ends_before_it_starts_is_exported_all_the_same() {
    let line = |track: Track| Line {
        track,
        start_ms: 2000,
        end_ms: 1000,
        speaker: None,
        text: "hello".into(),
    };
    let both = [line(Track::Room), line(Track::Call)];
    assert_eq!(
        render(Format::Srt, &both[..1], None, 0, "d"),
        "1\n00:00:02,000 --> 00:00:01,000\nhello\n"
    );
    assert_eq!(render(Format::Text, &both, None, 0, "d"), "hello\n\nhello\n");
    assert!(render(Format::Markdown, &both[..1], None, 0, "d").contains("hello"));
    assert!(render(Format::Assistant, &both[1..], None, 0, "d").starts_with("# d\n\n"));
}
