use ambient::doctor::{run, Check, ConfigFile, Facts, Lock};
use ambient::shelf::SessionFacts;

fn find<'a>(checks: &'a [Check], name: &str) -> &'a Check {
    checks.iter().find(|c| c.name == name).unwrap_or_else(|| {
        panic!("no check named {name}");
    })
}

fn facts() -> Facts {
    Facts {
        models: Ok("/m".into()),
        models_is_dir: true,
        asr_is_dir: true,
        vad_is_file: true,
        segmentation_is_file: true,
        embedding_is_file: true,
        config_file: "/c".into(),
        config: ConfigFile::Valid,
        sessions: "/s".into(),
        sessions_is_dir: true,
        sessions_readonly: false,
        shelf: Vec::new(),
        live: None,
        locks: Vec::new(),
    }
}

fn awaiting(name: &str) -> SessionFacts {
    SessionFacts {
        name: name.into(),
        has_meta: true,
        has_transcript: false,
        has_room: true,
        has_call: false,
        growing: false,
        transcriber: None,
    }
}

#[test]
fn a_mixed_models_config_and_awaiting_session() {
    let f = Facts {
        asr_is_dir: false,
        vad_is_file: false,
        segmentation_is_file: false,
        shelf: vec![awaiting("2026-01-01T00-00-00")],
        ..facts()
    };
    let checks = run(&f);
    let names: Vec<&str> = checks.iter().map(|c| c.name.as_str()).collect();
    assert_eq!(
        names,
        vec![
            "models/root",
            "models/asr",
            "models/vad",
            "models/segmentation",
            "models/embedding",
            "config",
            "sessions/writable",
            "sessions/awaiting-transcript",
            "sessions/live",
            "sessions/stale-lock",
        ]
    );
    assert!(find(&checks, "models/root").ok);
    assert!(!find(&checks, "models/asr").ok);
    assert!(!find(&checks, "models/vad").ok);
    assert!(!find(&checks, "models/segmentation").ok);
    assert!(find(&checks, "models/embedding").ok);
    assert!(find(&checks, "config").ok);
    assert!(find(&checks, "sessions/writable").ok);
    let awaiting = find(&checks, "sessions/awaiting-transcript");
    assert!(awaiting.ok);
    assert_eq!(awaiting.detail, "1 session");
    let live = find(&checks, "sessions/live");
    assert!(live.ok);
    assert_eq!(live.detail, "none");
    assert!(find(&checks, "sessions/stale-lock").ok);
    assert_eq!(
        find(&checks, "models/vad").detail,
        "missing /m/silero_vad.onnx \u{2014} run ./fetch-models.sh"
    );
    assert_eq!(
        find(&checks, "models/embedding").detail,
        "/m/wespeaker_en_voxceleb_resnet34_LM.onnx"
    );
}

#[test]
fn b_no_models_root_still_runs_the_sessions_checks() {
    let checks = run(&Facts { models: Err("no models".into()), config: ConfigFile::Missing, ..facts() });
    let models_root = find(&checks, "models/root");
    assert!(!models_root.ok);
    assert!(
        models_root.detail.contains("no models"),
        "detail was: {}",
        models_root.detail
    );
    for name in [
        "models/asr",
        "models/vad",
        "models/segmentation",
        "models/embedding",
    ] {
        let c = find(&checks, name);
        assert!(!c.ok, "{name} should FAIL");
        assert_eq!(c.detail, "no models directory");
    }
    // Sessions checks still evaluated despite the models failure.
    assert_eq!(checks.len(), 10);
    assert!(find(&checks, "sessions/awaiting-transcript").ok);
    assert!(find(&checks, "sessions/live").ok);
    assert!(find(&checks, "sessions/stale-lock").ok);
}

#[test]
fn c_config_invalid_missing_and_a_directory() {
    let checks = run(&Facts { config: ConfigFile::Invalid("EOF".into()), ..facts() });
    let config = find(&checks, "config");
    assert!(!config.ok);
    assert!(
        config.detail.contains("not valid"),
        "detail was: {}",
        config.detail
    );
    let checks = run(&Facts { config: ConfigFile::Missing, ..facts() });
    let config = find(&checks, "config");
    assert!(config.ok);
    assert_eq!(config.detail, "defaults");
    let checks = run(&Facts { config: ConfigFile::Unreadable("is a directory".into()), ..facts() });
    let config = find(&checks, "config");
    assert!(!config.ok);
    assert!(
        config.detail.contains("could not be read"),
        "detail was: {}",
        config.detail
    );
}

#[test]
fn a_stale_lock_and_a_folder_that_cannot_be_written_are_named() {
    let f = Facts {
        models_is_dir: false,
        sessions_readonly: true,
        live: Some("/s/b".into()),
        shelf: vec![awaiting("a"), awaiting("b")],
        locks: vec![
            Lock { dir: "/s/a".into(), locked: true, transcriber: None },
            Lock { dir: "/s/b".into(), locked: true, transcriber: Some(7) },
            Lock { dir: "/s/c".into(), locked: false, transcriber: None },
            Lock { dir: "/s/d".into(), locked: true, transcriber: None },
        ],
        ..facts()
    };
    let checks = run(&f);
    assert_eq!(find(&checks, "models/root").detail, "/m is not a directory");
    assert_eq!(find(&checks, "sessions/writable").detail, "/s is not writable");
    assert_eq!(find(&checks, "sessions/awaiting-transcript").detail, "2 sessions");
    assert_eq!(find(&checks, "sessions/live").detail, "/s/b");
    let stale = find(&checks, "sessions/stale-lock");
    assert!(!stale.ok);
    assert_eq!(stale.detail, "/s/a, /s/d");
    let gone = run(&Facts { sessions_is_dir: false, ..facts() });
    assert_eq!(find(&gone, "sessions/writable").detail, "/s does not exist");
    assert!(!find(&gone, "sessions/writable").ok);
}
