use ambient::api::ApiError;
use ambient::settings::{
    answer, chosen_result, copied_result, escape_line_terminators, event_js, poll_diarize,
    reply_js, revealed_result, route_result, scope_result, sent_result, started_result,
    switch_scope, Action, Button, Events, Worker,
};

#[test]
fn switching_to_everything_stashes_the_apps_in_order_and_back_restores_them() {
    let mut apps = vec!["us.zoom.xos".to_string(), "com.apple.FaceTime".to_string()];
    let mut stash = Vec::new();

    switch_scope(&mut apps, &mut stash, true);
    assert!(apps.is_empty(), "everything empties the app list");
    assert_eq!(
        stash,
        vec!["us.zoom.xos".to_string(), "com.apple.FaceTime".to_string()]
    );

    switch_scope(&mut apps, &mut stash, false);
    assert_eq!(
        apps,
        vec!["us.zoom.xos".to_string(), "com.apple.FaceTime".to_string()]
    );
    assert!(stash.is_empty());
}

#[test]
fn events_before_init_are_held_and_delivered_in_order() {
    let mut events = Events::default();
    assert!(events.record("a", "1").is_none());
    assert!(events.record("b", "2").is_none());

    let delivered = events.open();
    assert_eq!(delivered, vec![event_js("a", "1"), event_js("b", "2")]);

    // An event emitted after `init` is not held: it comes straight back.
    let js = events.record("c", "3");
    assert_eq!(js, Some(event_js("c", "3")));

    // A second `init` finds nothing left to deliver.
    assert!(events.open().is_empty());
}

#[test]
fn reply_js_shapes_results_and_errors_and_escapes_line_terminators() {
    let ok = reply_js(1, Ok(r#"{"a":1}"#));
    assert!(ok.contains(r#""result":{"a":1}"#), "got {ok:?}");

    let invalid = reply_js(2, Err(&ApiError::InvalidParams("bad shape".into())));
    assert!(
        invalid.contains(r#""error":{"kind":"invalid_params","message":"bad shape"}"#),
        "got {invalid:?}"
    );

    let failed = reply_js(3, Err(&ApiError::Failed("could not read it".into())));
    assert!(
        failed.contains(r#""error":{"kind":"failed","message":"could not read it""#),
        "got {failed:?}"
    );

    // U+2028 is legal inside a JSON string and terminates a JS line;
    // `serde_json` does not escape it, so the reply helper must.
    let text = serde_json::to_string(&format!("a{}b", '\u{2028}')).unwrap();
    let with_separator = reply_js(4, Ok(&text));
    assert!(
        !with_separator.contains('\u{2028}'),
        "got {with_separator:?}"
    );
    assert!(with_separator.contains("\\u2028"), "got {with_separator:?}");
}

#[test]
fn both_line_terminators_are_escaped() {
    assert_eq!(escape_line_terminators("a\u{2028}b\u{2029}\u{2028}"), "a\\u2028b\\u2029\\u2028");
    assert_eq!(event_js("x\u{2029}", "{}"), "window.ambient.event(\"x\\u2029\", {});");
    assert_eq!(reply_js(9, Ok("{}")), "window.ambient.reply(9, {\"result\":{}});");
}

#[test]
fn requests_are_routed() {
    let a = |m: &str, p: Option<&str>| answer(m, p, false, "/s", None);
    assert!(matches!(a("init", None), Action::Init));
    assert!(matches!(
        a("capture.scope", Some(r#"{"everything":true}"#)),
        Action::Scope { everything: true }
    ));
    assert!(matches!(
        a("capture.scope", Some(r#"{"everything":"yes"}"#)),
        Action::Scope { everything: false }
    ));
    assert!(matches!(a("pick_app", None), Action::PickApp));
    assert!(matches!(a("pick_dir", None), Action::PickDir));
    assert!(matches!(answer("pick_dir", None, true, "/s", None), Action::RefuseDir));
    assert!(matches!(
        a("clipboard.write", Some(r#"{"text":"hi\n"}"#)),
        Action::Copy { text } if text == "hi\n"
    ));
    assert!(matches!(
        a("clipboard.write", Some("{}")),
        Action::Refuse(ApiError::InvalidParams(m)) if m == "text must be a string"
    ));
    assert!(matches!(a("reveal", None), Action::Reveal { target } if target == "/s"));
    assert!(matches!(
        a("reveal", Some(r#"{"session":"x"}"#)),
        Action::Reveal { target } if target == "/s/x"
    ));
    assert!(matches!(
        a("reveal", Some(r#"{"session":"../x"}"#)),
        Action::Refuse(ApiError::InvalidParams(m)) if m == "\"../x\" is not a session id"
    ));
    for (m, b) in [
        ("record.start", Button::StartRecording),
        ("record.this_call", Button::RecordThisCall),
        ("record.decline", Button::NotThisOne),
        ("record.stop", Button::StopRecording),
        ("dismiss", Button::DismissFailure),
    ] {
        assert!(matches!(a(m, None), Action::Press(x) if x == b));
    }
    assert!(matches!(a("config.get", None), Action::Api { params } if params == "{}"));
    assert!(matches!(a("search", Some("[1]")), Action::Api { params } if params == "[1]"));
}

#[test]
fn one_session_is_separated_at_a_time() {
    let p = Some(r#"{"session":"x"}"#);
    assert!(matches!(
        answer("diarize.start", p, false, "/s", None),
        Action::Separate { session, dir } if session == "x" && dir == "/s/x"
    ));
    assert!(matches!(
        answer("diarize.start", p, false, "/s", Some("y")),
        Action::Refuse(ApiError::Failed(m)) if m == "already separating y"
    ));
    assert!(matches!(
        answer("diarize.start", None, false, "/s", None),
        Action::Refuse(ApiError::InvalidParams(m)) if m == "`session` must be a string"
    ));
    assert!(matches!(
        answer("diarize.start", Some(r#"{"session":".."}"#), false, "/s", Some("y")),
        Action::Refuse(ApiError::InvalidParams(_))
    ));
}

#[test]
fn the_page_is_told_how_a_separation_ended() {
    assert_eq!(poll_diarize("x", &Worker::Busy), None);
    assert_eq!(
        poll_diarize("x", &Worker::Finished(Ok(3))).unwrap(),
        r#"{"error":null,"session":"x","state":"done"}"#
    );
    assert_eq!(
        poll_diarize("x", &Worker::Finished(Err("no \"audio\" left".into()))).unwrap(),
        r#"{"error":"no \"audio\" left","session":"x","state":"failed"}"#
    );
    assert_eq!(
        poll_diarize("x", &Worker::Gone).unwrap(),
        r#"{"error":"the diarize worker thread went away","session":"x","state":"failed"}"#
    );
}

#[test]
fn small_results_are_json() {
    assert_eq!(route_result("sessions"), r#"{"route":"sessions"}"#);
    assert_eq!(chosen_result(Some("us.zoom.xos")), r#"{"chosen":"us.zoom.xos"}"#);
    assert_eq!(chosen_result(None), r#"{"chosen":null}"#);
    assert_eq!(sent_result(true), r#"{"sent":true}"#);
}

/// What the page is answered where there is nothing to tell but that it was done.
#[test]
fn every_action_has_its_answer() {
    assert_eq!(copied_result(), r#"{"done":true}"#);
    assert_eq!(revealed_result(), "{}");
    assert_eq!(started_result(), r#"{"started":true}"#);
    assert_eq!(scope_result(Ok(())).unwrap(), "{}");
    match scope_result(Err("disk full".into())) {
        Err(ApiError::Failed(e)) => assert_eq!(e, "disk full"),
        other => panic!("{other:?}"),
    }
}
