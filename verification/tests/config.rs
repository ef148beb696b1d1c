use ambient::config::{config_path, flag, refuse_while_live, Config, Stored, DEFAULT_THRESHOLD};

/// What a value reads as as a 32-bit float.
fn number(value: &str) -> Result<u32, String> {
    value.parse::<f32>().map(f32::to_bits).map_err(|e| e.to_string())
}

fn set(c: &mut Config, key: &str, value: &str) -> Result<(), String> {
    c.set(key, value, number(value))
}

fn fields(c: &Config) -> (Vec<String>, Option<String>, bool, u32, Option<String>, bool, Option<u32>) {
    (
        c.apps.clone(),
        c.input_device.clone(),
        c.diarize,
        c.threshold,
        c.sessions_dir.clone(),
        c.ask_before_recording,
        c.audio_retention_days,
    )
}

#[test]
fn a_missing_file_is_an_ordinary_first_run() {
    let (c, warning) = Config::load_from(Stored::Missing, "/c");
    assert_eq!(fields(&c), fields(&Config::default()));
    assert_eq!(warning, None);
}

#[test]
fn an_unrecognised_boolean_is_refused_rather_than_read_as_no() {
    let mut c = Config {
        diarize: true,
        ..Config::default()
    };
    assert!(set(&mut c, "diarize", "maybe").is_err());
    assert!(c.diarize, "a rejected value must leave the setting alone");
    set(&mut c, "diarize", "off").unwrap();
    assert!(!c.diarize);
}

#[test]
fn a_corrupt_file_falls_back_rather_than_failing() {
    let why = serde_json::from_str::<serde_json::Value>("{ this is not json").unwrap_err().to_string();
    let (c, warning) = Config::load_from(Stored::Invalid(why), "/c");
    assert_eq!(fields(&c), fields(&Config::default()));
    assert!(warning.unwrap().starts_with("  WARNING: /c is not valid config (key must be a string"));
}

#[test]
fn an_unreadable_file_falls_back_and_says_so() {
    let (c, warning) = Config::load_from(Stored::Unreadable("denied".into()), "/c");
    assert_eq!(fields(&c), fields(&Config::default()));
    assert_eq!(
        warning.as_deref(),
        Some("  WARNING: /c could not be read (denied) \u{2014} using defaults")
    );
}

#[test]
fn default_clears_an_optional_setting() {
    let mut c = Config::default();
    set(&mut c, "input_device", "Iriun Webcam Audio").unwrap();
    assert!(c.input_device.is_some());
    set(&mut c, "input_device", "default").unwrap();
    assert_eq!(c.input_device, None);
}

#[test]
fn keeping_audio_forever_is_a_word_not_a_big_number() {
    let mut c = Config::default();
    set(&mut c, "audio_retention_days", "forever").unwrap();
    assert_eq!(c.audio_retention_days, None);
    set(&mut c, "audio_retention_days", "0").unwrap();
    assert_eq!(c.audio_retention_days, Some(0));
}

#[test]
fn moving_the_sessions_folder_mid_recording_is_refused() {
    let e = refuse_while_live("sessions_dir", Some("/x")).unwrap_err();
    assert!(e.contains("/x"), "{e}");
    // Nothing is recording, and every other setting is free to change
    // either way: only the folder the capture is writing into is at stake.
    assert!(refuse_while_live("sessions_dir", None).is_ok());
    assert!(refuse_while_live("diarize", Some("/x")).is_ok());
}

#[test]
fn an_unknown_key_is_refused_by_name() {
    let e = set(&mut Config::default(), "keep_audio", "true").unwrap_err();
    assert!(e.contains("keep_audio"), "{e}");
}

#[test]
fn the_defaults_are_cautious() {
    let c = Config::default();
    assert!(c.ask_before_recording && c.diarize);
    assert_eq!(c.audio_retention_days, Some(7));
    assert_eq!(f32::from_bits(DEFAULT_THRESHOLD), 0.5);
    assert_eq!(c.threshold, DEFAULT_THRESHOLD);
}

#[test]
fn every_key_sets_its_own_field() {
    let mut c = Config::default();
    set(&mut c, "apps", " com.apple.Safari ,, us.zoom.xos,").unwrap();
    set(&mut c, "threshold", "0.55").unwrap();
    set(&mut c, "sessions_dir", "/s").unwrap();
    set(&mut c, "ask_before_recording", "no").unwrap();
    assert_eq!(c.apps, ["com.apple.Safari", "us.zoom.xos"]);
    assert_eq!(f32::from_bits(c.threshold), 0.55);
    assert_eq!(c.sessions_dir.as_deref(), Some("/s"));
    assert!(!c.ask_before_recording);
    assert!(c.diarize);
    assert_eq!(set(&mut c, "threshold", "loud").unwrap_err(), "invalid float literal");
    assert_eq!(
        set(&mut c, "audio_retention_days", "-1").unwrap_err(),
        "invalid digit found in string"
    );
    assert_eq!(
        set(&mut c, "audio_retention_days", "4294967296").unwrap_err(),
        "number too large to fit in target type"
    );
    assert_eq!(c.audio_retention_days, Some(7));
}

#[test]
fn a_yes_or_no_is_one_of_eight_words() {
    for w in ["true", "yes", "on", "1"] {
        assert_eq!(flag(w), Ok(true));
    }
    for w in ["false", "no", "off", "0"] {
        assert_eq!(flag(w), Ok(false));
    }
    assert_eq!(
        flag("Yes\n").unwrap_err(),
        "\"Yes\\n\" is not a yes or no. Use true or false."
    );
}

#[test]
fn the_config_is_in_the_users_library_unless_it_is_named() {
    assert_eq!(config_path(Some("/tmp/c.json"), Some("/Users/a")), "/tmp/c.json");
    assert_eq!(
        config_path(None, Some("/Users/a")),
        "/Users/a/Library/Application Support/Ambient/config.json"
    );
    assert_eq!(config_path(None, None), "./Library/Application Support/Ambient/config.json");
}
