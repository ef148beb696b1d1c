use ambient::api::{
    call, config_get, config_set, contained, delete_answer, devices_answer, doctor_answer,
    export_answer, methods, read, renamed_answer, session_dir, session_id, sessions, state, status,
    symlinked, unnamed_answer, ApiError, Call, Folder, Paths, Standing,
};
use ambient::attribution::{name_speaker, unnamed_labels, DIARIZE_BY};
use ambient::claim::{claim_transcription, live_transcriber, Link, LockStep};
use ambient::config::Config;
use ambient::doctor::{run, Check, ConfigFile, Facts};
use ambient::export::{render, Format};
use ambient::json::array_of_strings;
use ambient::roster::{add, remove};
use ambient::session::{Edit, Line, RawRecord, Target, Track};
use ambient::shelf::SessionFacts;
use ambient::transcript::transcript;
use serde_json::Value;

fn json(s: &str) -> Value {
    serde_json::from_str(s).unwrap()
}

fn folder(name: &str) -> Folder {
    Folder {
        facts: SessionFacts {
            name: name.into(),
            has_meta: true,
            has_transcript: true,
            has_room: false,
            has_call: false,
            growing: false,
            transcriber: None,
        },
        real: true,
    }
}

#[test]
fn methods_lists_the_three_methods() {
    let names: Vec<&str> = methods().iter().map(|m| m.name).collect();
    assert_eq!(names, ["sessions", "transcript", "status"]);
}

#[test]
fn status_counts_the_session_directories() {
    assert!(matches!(call("status", "{}"), Ok(Call::Status)));
    assert_eq!(
        json(&status(&[folder("2026-09-05-1200")])),
        json(r#"{"live": null, "awaiting_transcript": 0, "sessions": 1}"#)
    );
}

#[test]
fn status_counts_those_that_await_a_transcript() {
    let mut waiting = folder("a");
    waiting.facts.has_transcript = false;
    waiting.facts.has_call = true;
    let mut live = folder("b");
    live.facts.growing = true;
    assert_eq!(
        status(&[waiting, live]),
        r#"{"awaiting_transcript":1,"live":{"id":"b"},"sessions":2}"#
    );
}

#[test]
fn transcript_since_must_be_a_whole_number() {
    let err = call("transcript", r#"{"session": "x", "since": "1"}"#).unwrap_err();
    assert!(matches!(err, ApiError::InvalidParams(_)), "{err:?}");
}

#[test]
fn search_query_must_be_a_string() {
    let err = call("search", r#"{"query": 5}"#).unwrap_err();
    assert!(matches!(err, ApiError::InvalidParams(_)), "{err:?}");
}

#[test]
fn session_update_session_must_be_a_string() {
    let err = call("session.update", r#"{"session": 5, "name": "x"}"#).unwrap_err();
    assert!(matches!(err, ApiError::InvalidParams(_)), "{err:?}");
}

#[test]
fn session_delete_answers_the_documented_request_with_the_documented_shape() {
    let Ok(Call::SessionDelete { session }) =
        call("session.delete", r#"{"session": "2026-09-05-1200"}"#)
    else {
        panic!("the documented request is understood");
    };
    assert_eq!(
        json(&delete_answer(&session)),
        json(r#"{"session": "2026-09-05-1200", "deleted": true}"#)
    );
}

#[test]
fn session_delete_under_a_transcriber_lock_errors_and_leaves_the_directory() {
    let Ok(Call::SessionDelete { session }) =
        call("session.delete", r#"{"session": "2026-09-05-1200"}"#)
    else {
        panic!("the documented request is understood");
    };
    let none = Standing::Nothing;
    let dir = contained("/s", &session, true, Standing::File, none, none).unwrap();
    let holder = live_transcriber(Some("17"), true);
    let LockStep::Refuse(message) = claim_transcription(&dir, 18, false, Link::Exists, holder)
    else {
        panic!("a live holder is refused");
    };
    assert!(message.contains("being transcribed"), "{message}");
}

#[test]
fn export_answers_the_documented_request_with_the_documented_shape() {
    let raw = [RawRecord {
        track: Track::Room,
        start_ms: 5000,
        end_ms: 6000,
        text: "the budget review is at noon".into(),
        confidence: 0.9f32.to_bits(),
    }];
    let Ok(Call::Export { session, format, name }) =
        call("export", r#"{"session": "2026-09-05-1200", "format": "srt"}"#)
    else {
        panic!("the documented request is understood");
    };
    let lines = transcript(&raw, &[], false);
    let text = render(format, &lines, None, 0, "/s/2026-09-05-1200");
    assert_eq!(
        json(&export_answer(&session, &name, &text)),
        json(
            r#"{
                "session": "2026-09-05-1200",
                "format": "srt",
                "text": "1\n00:00:05,000 --> 00:00:06,000\nthe budget review is at noon\n"
            }"#
        )
    );
}

#[test]
fn an_unknown_method_is_invalid_params_naming_it() {
    match call("nope", "{}").unwrap_err() {
        ApiError::InvalidParams(m) => assert!(m.contains("nope"), "{m}"),
        other => panic!("expected InvalidParams, got {other:?}"),
    }
}

fn record(track: Track, start_ms: u64, end_ms: u64, text: &str) -> RawRecord {
    RawRecord { track, start_ms, end_ms, text: text.into(), confidence: 0.9f32.to_bits() }
}

/// Two lines, one per track, under the labels given.
fn labelled(call: &str, room: &str) -> Vec<Line> {
    let raw = [
        record(Track::Call, 0, 2000, "shall we start with the export spec"),
        record(Track::Room, 2100, 4000, "yes, go ahead"),
    ];
    let spoken = |track, start_ms, name: &str| Edit::Speaker {
        target: Target { track, start_ms },
        name: name.into(),
        by: DIARIZE_BY.into(),
        at: "2026-01-01T09:00:00+00:00".into(),
    };
    let edits = [spoken(Track::Call, 0, call), spoken(Track::Room, 2100, room)];
    transcript(&raw, &edits, false)
}

/// `diarize` flips off through `config.set` and shows up off through
/// `config.get`.
#[test]
fn config_set_answers_the_documented_request_with_the_documented_shape() {
    let Ok(Call::ConfigSet { key, value }) =
        call("config.set", r#"{"key": "diarize", "value": "off"}"#)
    else {
        panic!("the documented request is understood");
    };
    let mut c = Config::default();
    config_set(&mut c, &key, &value, Err("no number".into()), None).unwrap();
    assert!(matches!(call("config.get", "{}"), Ok(Call::ConfigGet)));
    let got = json(&config_get(&c, "0.5", &["Mic".into()], "/Users/x", &["Ana".into()], None));
    assert_eq!(got["diarize"], Value::Bool(false));
    let mut keys: Vec<&str> = got.as_object().unwrap().keys().map(String::as_str).collect();
    keys.sort();
    let mut want = [
        "apps",
        "input_device",
        "diarize",
        "threshold",
        "sessions_dir",
        "devices",
        "default_dir",
        "ask_before_recording",
        "audio_retention",
        "roster",
        "latest_session",
    ];
    want.sort();
    assert_eq!(keys, want);
    assert!(got["devices"].is_array());
    assert_eq!(got["audio_retention"], "7");
    assert_eq!(got["default_dir"], "/Users/x/Documents/Ambient");
    assert_eq!(got["threshold"], 0.5);
}

/// `config.set` of `sessions_dir` while a session is recording could not be done
/// now, and nothing is written.
#[test]
fn config_set_of_sessions_dir_refuses_while_a_session_is_recording() {
    let mut c = Config::default();
    let err = config_set(
        &mut c,
        "sessions_dir",
        "/tmp/elsewhere",
        Err("no number".into()),
        Some("/s/2026-09-05-1200"),
    )
    .unwrap_err();
    match err {
        ApiError::Failed(m) => assert!(m.contains("recording"), "{m}"),
        other => panic!("expected Failed, got {other:?}"),
    }
    assert_eq!(c.sessions_dir, None);
}

#[test]
fn config_set_of_an_unknown_key_is_invalid_params() {
    let mut c = Config::default();
    let err = config_set(&mut c, "nope", "x", Err("no number".into()), None).unwrap_err();
    assert!(matches!(err, ApiError::InvalidParams(_)), "{err:?}");
}

#[test]
fn roster_add_answers_the_documented_request_with_the_documented_shape() {
    let Ok(Call::RosterAdd { name }) = call("roster.add", r#"{"name": "Ana"}"#) else {
        panic!("the documented request is understood");
    };
    let mut names = Vec::new();
    add(&mut names, &name);
    assert_eq!(json(&array_of_strings(&names)), json(r#"["Ana"]"#));
    assert!(matches!(call("roster.list", "{}"), Ok(Call::RosterList)));
}

#[test]
fn roster_remove_answers_the_documented_request_with_the_documented_shape() {
    let mut names = vec!["Ana".to_string()];
    let Ok(Call::RosterRemove { name }) = call("roster.remove", r#"{"name": "Ana"}"#) else {
        panic!("the documented request is understood");
    };
    remove(&mut names, &name);
    assert_eq!(json(&array_of_strings(&names)), json("[]"));
}

#[test]
fn naming_a_speaker_answers_how_many_lines_it_took() {
    let Ok(Call::SpeakersName { session, label, name }) = call(
        "speakers.name",
        r#"{"session": "2026-09-05-1200", "label": "SPEAKER_00", "name": "Ana"}"#,
    ) else {
        panic!("the documented request is understood");
    };
    assert_eq!(session, "2026-09-05-1200");
    let edits = name_speaker(&labelled("SPEAKER_00", "SPEAKER_00"), &label, &name, "now").unwrap();
    assert_eq!(json(&renamed_answer(edits.len())), json(r#"{"renamed": 2}"#));
    assert!(matches!(
        call("speakers.undo", r#"{"session": "2026-09-05-1200"}"#),
        Ok(Call::SpeakersUndo { session }) if session == "2026-09-05-1200"
    ));
}

#[test]
fn speakers_unnamed_answers_the_documented_request_with_the_documented_shape() {
    assert!(matches!(
        call("speakers.unnamed", r#"{"session": "2026-09-05-1200"}"#),
        Ok(Call::SpeakersUnnamed { session }) if session == "2026-09-05-1200"
    ));
    let got = json(&unnamed_answer(&unnamed_labels(&labelled("call-1", "room-1"))));
    assert_eq!(
        got,
        json(
            r#"[
                {"label": "call-1", "sample": "shall we start with the export spec"},
                {"label": "room-1", "sample": "yes, go ahead"}
            ]"#
        )
    );
}

#[test]
fn devices_answers_the_documented_request_with_the_documented_shape() {
    assert!(matches!(call("devices", "{}"), Ok(Call::Devices)));
    let got = json(&devices_answer(&["MacBook \"Pro\" Microphone".into()]));
    assert!(got["devices"].is_array());
    assert_eq!(got["devices"][0], "MacBook \"Pro\" Microphone");
}

#[test]
fn doctor_answers_the_checks_doctor_run_reports() {
    assert!(matches!(call("doctor", "{}"), Ok(Call::Doctor)));
    let facts = Facts {
        models: Err("no models".into()),
        models_is_dir: false,
        asr_is_dir: false,
        vad_is_file: false,
        segmentation_is_file: false,
        embedding_is_file: false,
        config_file: "/t/config.json".into(),
        config: ConfigFile::Missing,
        sessions: "/t/sessions".into(),
        sessions_is_dir: true,
        sessions_readonly: false,
        shelf: Vec::new(),
        live: None,
        locks: Vec::new(),
    };
    let expected = run(&facts);
    let got = json(&doctor_answer(&expected));
    let checks = got.as_array().expect("doctor answers an array");
    assert_eq!(checks.len(), 10);
    for c in checks {
        let obj = c.as_object().expect("each check is an object");
        let mut keys: Vec<&str> = obj.keys().map(String::as_str).collect();
        keys.sort_unstable();
        assert_eq!(keys, ["detail", "name", "ok"]);
        assert!(obj["name"].is_string());
        assert!(obj["detail"].is_string());
        assert!(obj["ok"].is_boolean());
    }
    let got_names: Vec<&str> = checks.iter().map(|c| c["name"].as_str().unwrap()).collect();
    let expected_names: Vec<&str> = expected.iter().map(|c| c.name.as_str()).collect();
    assert_eq!(got_names, expected_names);
    let config = checks.iter().find(|c| c["name"] == "config").unwrap();
    assert_eq!(config["ok"], true);
    assert_eq!(config["detail"], "defaults");
    let writable = checks.iter().find(|c| c["name"] == "sessions/writable").unwrap();
    assert_eq!(writable["ok"], true);
    assert_eq!(writable["detail"], "/t/sessions");
    let checks = [Check { name: "models".into(), ok: false, detail: "no\nmodels".into() }];
    assert_eq!(
        json(&doctor_answer(&checks)),
        json(r#"[{"name": "models", "ok": false, "detail": "no\nmodels"}]"#)
    );
}

#[test]
fn every_argument_is_checked_for_its_type() {
    let refused = |m: &str, p: &str| match call(m, p) {
        Err(ApiError::InvalidParams(e)) => e,
        other => panic!("{m} {p}: {other:?}"),
    };
    assert_eq!(refused("transcript", "[]"), "`transcript` needs a string `session`");
    assert_eq!(refused("transcript", "{}"), "`session` must be a string");
    assert_eq!(
        refused("transcript", r#"{"session":"x","since":-1}"#),
        "`since` must be a whole number of lines"
    );
    assert_eq!(
        refused("transcript", r#"{"session":"x","verbatim":1}"#),
        "`verbatim` must be true or false"
    );
    assert_eq!(refused("search", "5"), "`search` needs a string `query`");
    assert_eq!(refused("search", "{}"), "`query` must be a string");
    assert_eq!(refused("search", r#"{"query":"a","limit":1.5}"#), "`limit` must be a whole number");
    assert_eq!(refused("session.update", "null"), "`session.update` needs a string `session`");
    assert_eq!(refused("session.delete", "[]"), "`session.delete` needs a string `session`");
    assert_eq!(refused("export", "[]"), "`export` needs a string `session`");
    assert_eq!(refused("export", r#"{"session":"x","format":5}"#), "`format` must be a string");
    let e = refused("export", r#"{"session":"x","format":"pdf"}"#);
    for f in ["markdown", "text", "json", "srt", "vtt", "assistant"] {
        assert!(e.contains(f), "{e}");
    }
    assert_eq!(refused("config.set", "[]"), "`config.set` needs a string `key` and `value`");
    assert_eq!(refused("config.set", r#"{"key":"diarize"}"#), "`value` must be a string");
    assert_eq!(
        refused("speakers.name", "[]"),
        "`speakers.name` needs `session`, `label` and `name`"
    );
    assert_eq!(refused("speakers.name", r#"{"session":"x"}"#), "`label` must be a string");
    assert_eq!(
        refused("speakers.name", r#"{"session":"x","label":"y"}"#),
        "`name` must be a string"
    );
    assert_eq!(refused("speakers.undo", "{}"), "`session` must be a string");
}

#[test]
fn arguments_left_out_have_their_defaults() {
    assert!(matches!(
        call("transcript", r#"{"session":"x"}"#),
        Ok(Call::Transcript { session, since: 0, verbatim: false }) if session == "x"
    ));
    assert!(matches!(
        call("transcript", r#"{"session":"x","since":7,"verbatim":true}"#),
        Ok(Call::Transcript { since: 7, verbatim: true, .. })
    ));
    assert!(matches!(
        call("search", r#"{"query":"budget"}"#),
        Ok(Call::Search { query, limit: 50 }) if query == "budget"
    ));
    assert!(matches!(
        call("search", r#"{"query":"the","limit":0}"#),
        Ok(Call::Search { limit: 0, .. })
    ));
    assert!(matches!(
        call("export", r#"{"session":"x"}"#),
        Ok(Call::Export { format: Format::Markdown, name, .. }) if name == "markdown"
    ));
    assert!(matches!(call("sessions", "null"), Ok(Call::Sessions)));
}

#[test]
fn a_session_id_is_one_name_beneath_the_root() {
    for id in ["2026-09-05-1200", "a b", "..."] {
        assert!(session_id(id), "{id}");
        assert_eq!(session_dir("/s", id, true).unwrap(), format!("/s/{id}"));
    }
    for id in ["", ".", "..", "../x", "a/b", "/etc"] {
        assert!(!session_id(id), "{id}");
        assert_eq!(
            session_dir("/s", id, true).unwrap_err(),
            format!("{id:?} is not a session id")
        );
    }
    assert_eq!(session_dir("/s", "x", false).unwrap_err(), "no session x");
}

#[test]
fn a_link_among_the_files_is_refused() {
    let (n, f, e) = (Standing::Nothing, Standing::File, Standing::Else);
    assert_eq!(symlinked("/s/x", f, f, n), None);
    assert_eq!(symlinked("/s/x", e, e, e).unwrap(), "refusing symlink /s/x/session.json");
    assert_eq!(symlinked("/s/x", f, e, e).unwrap(), "refusing symlink /s/x/raw.jsonl");
    assert_eq!(symlinked("/s/x", n, n, e).unwrap(), "refusing symlink /s/x/edits.jsonl");
    assert!(matches!(
        contained("/s", "x", true, n, e, n),
        Err(ApiError::Failed(m)) if m == "refusing symlink /s/x/raw.jsonl"
    ));
    assert!(matches!(contained("/s", "x", true, n, n, n), Ok(d) if d == "/s/x"));
    assert!(matches!(
        contained("/s", "x", false, n, n, n),
        Err(ApiError::Failed(m)) if m == "no session x"
    ));
}

#[test]
fn reading_on_shows_every_line_once() {
    let lines = labelled("call-1", "room-1");
    let first = json(&read("x", state(true, None, false), &lines[..1], 0));
    assert_eq!(first["state"], "live");
    assert_eq!(first["lines"].as_array().unwrap().len(), 1);
    let next = first["next"].as_u64().unwrap();
    let second = json(&read("x", state(false, Some(7), true), &lines, next));
    assert_eq!(
        second,
        json(
            r#"{"session":"x","state":"transcribing","next":2,"lines":[
                {"track":"room","start_ms":2100,"end_ms":4000,"speaker":"room-1","text":"yes, go ahead"}
            ]}"#
        )
    );
    let third = json(&read("x", state(false, None, true), &lines, u64::MAX));
    assert_eq!(third["state"], "done");
    assert_eq!(third["lines"], json("[]"));
    assert_eq!(state(false, None, false), "pending");
}

#[test]
fn the_sessions_root_may_be_given() {
    let mut paths = Paths {
        config_file: "/c.json".into(),
        roster_file: "/r.json".into(),
        sessions_root: Some("/s".into()),
    };
    assert_eq!(paths.root(Some("/configured"), Some("/Users/x")), "/s");
    paths.sessions_root = None;
    assert_eq!(paths.root(Some("/configured"), Some("/Users/x")), "/configured");
    assert_eq!(paths.root(None, Some("/Users/x")), "/Users/x/Documents/Ambient");
}

/// Sessions are listed newest first and only where they count; one with a link among
/// its files is listed with the refusal and nothing that it holds.
#[test]
fn sessions_are_listed_newest_first() {
    assert_eq!(sessions("/s", &[], &[], &[]), "[]");
    let mut link = folder("2026-09-06-1200");
    link.real = false;
    let mut stray = folder("notes");
    stray.facts.has_meta = false;
    let mut live = folder("2026-09-04-1200");
    live.facts.growing = true;
    live.facts.transcriber = Some(7);
    let folders = [folder("2026-09-03-1200"), link, live, stray, folder("2026-09-05-1200")];
    let fine = (Standing::File, Standing::Nothing, Standing::Nothing);
    let linked = (Standing::File, Standing::Else, Standing::Else);
    let standings = [fine, fine, linked, fine, fine];
    let summary = |id: &str| Some(format!("{{\"id\":\"{id}\"}}"));
    let summaries = [summary("3"), summary("6"), summary("4"), summary("n"), summary("5")];
    assert_eq!(
        sessions("/s", &folders, &standings, &summaries),
        "[{\"id\":\"5\"},\
         {\"dir\":\"/s/2026-09-04-1200\",\"duration_s\":null,\
         \"error\":\"refusing symlink /s/2026-09-04-1200/raw.jsonl\",\
         \"id\":\"2026-09-04-1200\",\"live\":true,\"name\":null,\"pinned\":false,\
         \"started_at\":null,\"tags\":[],\"transcribed\":true,\"transcribing\":true},\
         {\"id\":\"3\"}]"
    );
    let unread = [summary("3"), None, None, None, None];
    assert_eq!(sessions("/s", &folders, &[fine; 5], &unread), "[{\"id\":\"3\"}]");
}

/// The patch goes along with the session it is for, as it was sent.
#[test]
fn session_update_carries_its_patch() {
    let params = r#"{"session": "x", "name": "Standup", "add_tag": "1:1", "pinned": true}"#;
    match call("session.update", params) {
        Ok(Call::SessionUpdate { session, patch }) => {
            assert_eq!(session, "x");
            assert_eq!(patch, params);
        }
        other => panic!("{other:?}"),
    }
}
