//! Settings that outlive a single run.
//!
//! Only settings with something behind them live here. A stored value that no
//! code reads is a promise the app does not keep.

use crate::attribution;
use crate::attribution::quote_debug;
use crate::json;
use crate::text;
use crate::text::{chars_of, part, path_beneath, same_str, string_of, trimmed};
use vstd::prelude::*;

verus! {

/// The bits of one half as a 32-bit float: the distance at which two voices stop
/// being the same person, unless it is set otherwise.
pub const DEFAULT_THRESHOLD: u32 = 0x3f00_0000;

#[derive(Debug)]
pub struct Config {
    /// Bundle IDs to tap. Empty means everything the Mac plays.
    pub apps: Vec<String>,
    /// Input device by name. Nothing follows the system default.
    pub input_device: Option<String>,
    /// Separate voices once the transcript exists.
    pub diarize: bool,
    /// How readily two utterances are called different people: the bits of a
    /// 32-bit float.
    pub threshold: u32,
    /// Where sessions are written. Nothing means `~/Documents/Ambient`.
    pub sessions_dir: Option<String>,
    /// Wait to be told before recording a call this app noticed. Defaults on: a
    /// recording nobody sanctioned is the behaviour that gets a tool banned.
    pub ask_before_recording: bool,
    /// Days to keep the track audio. Zero deletes it as soon as the transcript
    /// exists; nothing keeps it forever. The audio is the most sensitive artefact
    /// here and the least useful once the text exists.
    pub audio_retention_days: Option<u32>,
}

/// The settings as plain characters.
pub struct ConfigText {
    pub apps: Seq<Seq<char>>,
    pub input_device: Option<Seq<char>>,
    pub diarize: bool,
    pub threshold: u32,
    pub sessions_dir: Option<Seq<char>>,
    pub ask_before_recording: bool,
    pub audio_retention_days: Option<u32>,
}

impl View for Config {
    type V = ConfigText;

    open spec fn view(&self) -> ConfigText {
        ConfigText {
            apps: text::views(self.apps@),
            input_device: text::opt(self.input_device),
            diarize: self.diarize,
            threshold: self.threshold,
            sessions_dir: text::opt(self.sessions_dir),
            ask_before_recording: self.ask_before_recording,
            audio_retention_days: self.audio_retention_days,
        }
    }
}

/// What the settings are where nobody has set any.
pub open spec fn defaults() -> ConfigText {
    ConfigText {
        apps: Seq::empty(),
        input_device: None,
        diarize: true,
        threshold: DEFAULT_THRESHOLD,
        sessions_dir: None,
        ask_before_recording: true,
        audio_retention_days: Some(7),
    }
}

impl Default for Config {
    fn default() -> (r: Config)
        ensures
            r@ == defaults(),
    {
        let apps: Vec<String> = Vec::new();
        proof {
            assert(text::views(apps@) == Seq::<Seq<char>>::empty());
        }
        Config {
            apps,
            input_device: None,
            diarize: true,
            threshold: DEFAULT_THRESHOLD,
            sessions_dir: None,
            ask_before_recording: true,
            audio_retention_days: Some(7),
        }
    }
}

/// Where the config file is, unless it is named outright.
pub fn config_path(named: Option<&str>, user_home: Option<&str>) -> (r: String)
    ensures
        r@ == (match named {
            Some(p) => p@,
            None => text::beneath(
                match user_home {
                    Some(h) => h@,
                    None => "."@,
                },
                "Library/Application Support/Ambient/config.json"@,
            ),
        }),
{
    match named {
        Some(p) => p.to_owned(),
        None => {
            let home: &str = match user_home {
                Some(h) => h,
                None => ".",
            };
            path_beneath(home, "Library/Application Support/Ambient/config.json")
        },
    }
}

/// What became of reading the config file.
#[derive(Debug)]
pub enum Stored {
    Missing,
    Unreadable(String),
    Invalid(String),
    Parsed(Config),
}

/// What is said of a config file that could not be used.
pub open spec fn complaint(s: Stored, path: Seq<char>) -> Option<Seq<char>> {
    match s {
        Stored::Unreadable(e) => Some(
            "  WARNING: "@ + path + " could not be read ("@ + e@ + ") \u{2014} using defaults"@,
        ),
        Stored::Invalid(e) => Some(
            "  WARNING: "@ + path + " is not valid config ("@ + e@
                + ") \u{2014} using defaults. Delete it to start clean."@,
        ),
        _ => None,
    }
}

/// The words a boolean setting may be written as.
pub open spec fn flag_value(s: Seq<char>) -> Option<bool> {
    if s == "true"@ || s == "yes"@ || s == "on"@ || s == "1"@ {
        Some(true)
    } else if s == "false"@ || s == "no"@ || s == "off"@ || s == "0"@ {
        Some(false)
    } else {
        None
    }
}

/// Parse a boolean setting, refusing anything it does not recognise. Treating
/// every unrecognised word as no would silently turn a setting off and report
/// success.
pub fn flag(value: &str) -> (r: Result<bool, String>)
    ensures
        match r {
            Ok(b) => flag_value(value@) == Some(b),
            Err(e) => flag_value(value@) is None && e@ == attribution::debug_quoted(value@)
                + " is not a yes or no. Use true or false."@,
        },
{
    if same_str(value, "true") || same_str(value, "yes") || same_str(value, "on") || same_str(
        value,
        "1",
    ) {
        return Ok(true);
    }
    if same_str(value, "false") || same_str(value, "no") || same_str(value, "off") || same_str(
        value,
        "0",
    ) {
        return Ok(false);
    }
    let mut e: String = quote_debug(value);
    e.append(" is not a yes or no. Use true or false.");
    Err(e)
}

/// What `u32`'s parser says of a text that is no number it can hold.
pub uninterp spec fn refused_number(s: Seq<char>) -> Seq<char>;

/// `<u32 as FromStr>::from_str`: the decimal number a text is, with at most a
/// plus sign in front. What it says otherwise is named [`refused_number`].
#[verifier::external_body]
pub(crate) fn whole_number(s: &str) -> (r: Result<u32, String>)
    ensures
        r is Ok <==> text::u32_value(s@) is Some,
        r is Ok ==> text::u32_value(s@) == Some(r->Ok_0),
        r is Err ==> r->Err_0@ == refused_number(s@),
{
    s.parse::<u32>().map_err(|e| e.to_string())
}

/// The parts of a list that commas separate, trimmed, leaving out the empty ones.
/// `open` is what has been read of the part that is not closed yet.
pub open spec fn items(s: Seq<char>, open: Seq<char>) -> Seq<Seq<char>>
    decreases s.len(),
{
    if s.len() == 0 {
        item(open)
    } else if s[0] == ',' {
        item(open) + items(s.drop_first(), Seq::empty())
    } else {
        items(s.drop_first(), open.push(s[0]))
    }
}

pub open spec fn item(s: Seq<char>) -> Seq<Seq<char>> {
    let t = text::trim(s);
    if t.len() == 0 {
        Seq::empty()
    } else {
        seq![t]
    }
}

fn push_item(out: &mut Vec<String>, s: &[char])
    ensures
        text::views(final(out)@) == text::views(old(out)@) + item(s@),
{
    let ghost was = text::views(out@);
    let t: Vec<char> = trimmed(s);
    if t.len() > 0 {
        let x: String = string_of(t.as_slice());
        proof {
            assert(text::views(out@.push(x)) == was.push(x@));
            assert(was.push(x@) == was + seq![x@]);
        }
        out.push(x);
    } else {
        proof {
            assert(was + Seq::<Seq<char>>::empty() == was);
        }
    }
}

fn split_items(value: &str) -> (r: Vec<String>)
    ensures
        text::views(r@) == items(value@, Seq::empty()),
{
    let c: Vec<char> = chars_of(value);
    let mut out: Vec<String> = Vec::new();
    let mut from: usize = 0;
    let mut i: usize = 0;
    let ghost all = items(value@, Seq::empty());
    proof {
        assert(c@.skip(0) == c@);
        assert(c@.subrange(0, 0) == Seq::<char>::empty());
        assert(text::views(out@) == Seq::<Seq<char>>::empty());
        assert(Seq::<Seq<char>>::empty() + all == all);
    }
    while i < c.len()
        invariant
            from <= i <= c@.len(),
            text::views(out@) + items(c@.skip(i as int), c@.subrange(from as int, i as int)) == all,
        decreases c@.len() - i,
    {
        let ghost open = c@.subrange(from as int, i as int);
        let ghost rest = c@.skip(i as int);
        proof {
            assert(rest.drop_first() == c@.skip(i + 1));
            assert(rest[0] == c@[i as int]);
        }
        if c[i] == ',' {
            let p: Vec<char> = part(c.as_slice(), from, i);
            let ghost was = text::views(out@);
            push_item(&mut out, p.as_slice());
            from = i + 1;
            proof {
                assert(c@.subrange(i + 1, i + 1) == Seq::<char>::empty());
                let tail = items(c@.skip(i + 1), Seq::empty());
                assert(was + (item(open) + tail) == was + item(open) + tail);
            }
        } else {
            proof {
                assert(c@.subrange(from as int, i + 1) == open.push(c@[i as int]));
            }
        }
        i = i + 1;
    }
    proof {
        assert(c@.skip(i as int) == Seq::<char>::empty());
    }
    let p: Vec<char> = part(c.as_slice(), from, i);
    push_item(&mut out, p.as_slice());
    out
}

/// A setting that is a name, or nothing where it says so.
pub open spec fn named(value: Seq<char>) -> Option<Seq<char>> {
    if value.len() == 0 || value == "default"@ {
        None
    } else {
        Some(value)
    }
}

fn name_of(value: &str) -> (r: Option<String>)
    ensures
        text::opt(r) == named(value@),
{
    if value.is_empty() || same_str(value, "default") {
        None
    } else {
        Some(value.to_owned())
    }
}

/// What a list of settings reads when a key is not among them.
pub open spec fn unknown(key: Seq<char>) -> Seq<char> {
    "unknown setting "@ + attribution::debug_quoted(key)
        + ". Known: apps, input_device, diarize, threshold, sessions_dir, ask_before_recording, audio_retention_days"@
}

/// The settings after one was set, or why it was refused. `number` is what the
/// value reads as as a 32-bit float, its bits, or why it is none.
pub open spec fn setting(
    c: ConfigText,
    key: Seq<char>,
    value: Seq<char>,
    number: Result<u32, Seq<char>>,
) -> Result<ConfigText, Seq<char>> {
    if key == "apps"@ {
        Ok(ConfigText { apps: items(value, Seq::empty()), ..c })
    } else if key == "input_device"@ {
        Ok(ConfigText { input_device: named(value), ..c })
    } else if key == "diarize"@ {
        match flag_value(value) {
            Some(b) => Ok(ConfigText { diarize: b, ..c }),
            None => Err(
                attribution::debug_quoted(value) + " is not a yes or no. Use true or false."@,
            ),
        }
    } else if key == "threshold"@ {
        match number {
            Ok(bits) => Ok(ConfigText { threshold: bits, ..c }),
            Err(e) => Err(e),
        }
    } else if key == "sessions_dir"@ {
        Ok(ConfigText { sessions_dir: named(value), ..c })
    } else if key == "ask_before_recording"@ {
        match flag_value(value) {
            Some(b) => Ok(ConfigText { ask_before_recording: b, ..c }),
            None => Err(
                attribution::debug_quoted(value) + " is not a yes or no. Use true or false."@,
            ),
        }
    } else if key == "audio_retention_days"@ {
        if value == "forever"@ || value == "never"@ {
            Ok(ConfigText { audio_retention_days: None, ..c })
        } else {
            match text::u32_value(value) {
                Some(n) => Ok(ConfigText { audio_retention_days: Some(n), ..c }),
                None => Err(refused_number(value)),
            }
        }
    } else {
        Err(unknown(key))
    }
}

/// A number or the words of its refusal, as plain characters.
pub open spec fn number_text(n: Result<u32, String>) -> Result<u32, Seq<char>> {
    match n {
        Ok(b) => Ok(b),
        Err(e) => Err(e@),
    }
}

impl Config {
    /// The settings a stored config gives, and what to warn of. Never fails: a
    /// missing file is the ordinary first run, and losing a recording over a
    /// malformed preference would be absurd.
    pub fn load_from(stored: Stored, path: &str) -> (r: (Config, Option<String>))
        ensures
            r.0@ == (match stored {
                Stored::Parsed(c) => c@,
                _ => defaults(),
            }),
            text::opt(r.1) == complaint(stored, path@),
    {
        match stored {
            Stored::Parsed(c) => (c, None),
            Stored::Missing => (Config::default(), None),
            Stored::Unreadable(e) => {
                let mut w: String = "  WARNING: ".to_owned();
                w.append(path);
                w.append(" could not be read (");
                w.append(e.as_str());
                w.append(") \u{2014} using defaults");
                (Config::default(), Some(w))
            },
            Stored::Invalid(e) => {
                let mut w: String = "  WARNING: ".to_owned();
                w.append(path);
                w.append(" is not valid config (");
                w.append(e.as_str());
                w.append(") \u{2014} using defaults. Delete it to start clean.");
                (Config::default(), Some(w))
            },
        }
    }

    /// Set one field from a string. Listing the keys here rather than reflecting
    /// over the struct keeps the command line and the window honest about which
    /// settings actually exist. A refused value leaves everything alone.
    pub fn set(&mut self, key: &str, value: &str, number: Result<u32, String>) -> (r: Result<
        (),
        String,
    >)
        ensures
            match setting(old(self)@, key@, value@, number_text(number)) {
                Ok(c) => r is Ok && final(self)@ == c,
                Err(e) => r is Err && r->Err_0@ == e && final(self)@ == old(self)@,
            },
    {
        if same_str(key, "apps") {
            self.apps = split_items(value);
        } else if same_str(key, "input_device") {
            self.input_device = name_of(value);
        } else if same_str(key, "diarize") {
            match flag(value) {
                Ok(b) => {
                    self.diarize = b;
                },
                Err(e) => {
                    return Err(e);
                },
            }
        } else if same_str(key, "threshold") {
            match number {
                Ok(bits) => {
                    self.threshold = bits;
                },
                Err(e) => {
                    return Err(e);
                },
            }
        } else if same_str(key, "sessions_dir") {
            self.sessions_dir = name_of(value);
        } else if same_str(key, "ask_before_recording") {
            match flag(value) {
                Ok(b) => {
                    self.ask_before_recording = b;
                },
                Err(e) => {
                    return Err(e);
                },
            }
        } else if same_str(key, "audio_retention_days") {
            if same_str(value, "forever") || same_str(value, "never") {
                self.audio_retention_days = None;
            } else {
                match whole_number(value) {
                    Ok(n) => {
                        self.audio_retention_days = Some(n);
                    },
                    Err(e) => {
                        return Err(e);
                    },
                }
            }
        } else {
            let mut e: String = "unknown setting ".to_owned();
            e.append(quote_debug(key).as_str());
            e.append(
                ". Known: apps, input_device, diarize, threshold, sessions_dir, ask_before_recording, audio_retention_days",
            );
            return Err(e);
        }
        Ok(())
    }
}

/// A setting that is accepted changes no other setting.
pub proof fn one_setting_at_a_time(
    c: ConfigText,
    key: Seq<char>,
    value: Seq<char>,
    number: Result<u32, Seq<char>>,
)
    requires
        setting(c, key, value, number) is Ok,
    ensures
        ({
            let after = setting(c, key, value, number)->Ok_0;
            &&& key != "apps"@ ==> after.apps == c.apps
            &&& key != "input_device"@ ==> after.input_device == c.input_device
            &&& key != "diarize"@ ==> after.diarize == c.diarize
            &&& key != "threshold"@ ==> after.threshold == c.threshold
            &&& key != "sessions_dir"@ ==> after.sessions_dir == c.sessions_dir
            &&& key != "ask_before_recording"@ ==> after.ask_before_recording
                == c.ask_before_recording
            &&& key != "audio_retention_days"@ ==> after.audio_retention_days
                == c.audio_retention_days
        }),
{
}

/// Refuse a setting change that a running capture would make incoherent.
///
/// Only the sessions folder is at stake, and only while something is recording:
/// moving it then splits one conversation across two folders for nothing, since
/// the capture keeps writing into the directory it claimed at the start.
pub fn refuse_while_live(key: &str, live: Option<&str>) -> (r: Result<(), String>)
    ensures
        r is Err <==> key@ == "sessions_dir"@ && live is Some,
        r matches Err(e) ==> e@ == "a recording is in progress in "@ + live->0@
            + "; stop it before moving the sessions directory"@,
{
    if same_str(key, "sessions_dir") {
        if let Some(dir) = live {
            let mut e: String = "a recording is in progress in ".to_owned();
            e.append(dir);
            e.append("; stop it before moving the sessions directory");
            return Err(e);
        }
    }
    Ok(())
}

proof fn lemma_items(a: Seq<char>, b: Seq<char>, open: Seq<char>)
    ensures
        items(a + seq![','] + b, open) == items(a, open) + items(b, Seq::empty()),
    decreases a.len(),
{
    let s = a + seq![','] + b;
    if a.len() == 0 {
        assert(s.drop_first() == b);
    } else {
        assert(s.drop_first() == a.drop_first() + seq![','] + b);
        if a[0] == ',' {
            lemma_items(a.drop_first(), b, Seq::empty());
            assert(item(open) + (items(a.drop_first(), Seq::empty()) + items(b, Seq::empty()))
                == item(open) + items(a.drop_first(), Seq::empty()) + items(b, Seq::empty()));
        } else {
            lemma_items(a.drop_first(), b, open.push(a[0]));
        }
    }
}

proof fn lemma_one_item(s: Seq<char>, open: Seq<char>)
    requires
        !s.contains(','),
    ensures
        items(s, open) == item(open + s),
    decreases s.len(),
{
    if s.len() == 0 {
        assert(open + s == open);
    } else {
        let t = s.drop_first();
        assert(s.contains(s[0]));
        assert forall|i: int| 0 <= i < t.len() implies t[i] != ',' by {
            assert(s.contains(s[i + 1]));
        }
        lemma_one_item(t, open.push(s[0]));
        assert(open.push(s[0]) + t == open + s);
    }
}

/// A list is divided at every comma, and nowhere else; what stands between counts
/// without the white space around it, if anything is left.
pub proof fn commas_divide_a_list(a: Seq<char>, b: Seq<char>, one: Seq<char>)
    requires
        !one.contains(','),
    ensures
        items(a + seq![','] + b, Seq::empty()) == items(a, Seq::empty()) + items(b, Seq::empty()),
        text::trim(one).len() > 0 ==> items(one, Seq::empty()) == seq![text::trim(one)],
        text::trim(one).len() == 0 ==> items(one, Seq::empty()) == Seq::<Seq<char>>::empty(),
{
    lemma_items(a, b, Seq::empty());
    lemma_one_item(one, Seq::empty());
    assert(Seq::<char>::empty() + one == one);
}

/// A setting that is accepted is what was asked for.
pub proof fn an_accepted_setting_is_what_was_asked(
    c: ConfigText,
    value: Seq<char>,
    number: Result<u32, Seq<char>>,
    n: u32,
)
    ensures
        setting(c, "apps"@, value, number) matches Ok(d) && d.apps == items(value, Seq::empty()),
        setting(c, "input_device"@, value, number) matches Ok(d) && (d.input_device is None
            <==> value.len() == 0 || value == "default"@) && (d.input_device matches Some(v)
            ==> v == value),
        setting(c, "sessions_dir"@, value, number) matches Ok(d) && (d.sessions_dir is None
            <==> value.len() == 0 || value == "default"@) && (d.sessions_dir matches Some(v)
            ==> v == value),
        setting(c, "diarize"@, "true"@, number) matches Ok(d) && d.diarize,
        setting(c, "diarize"@, "false"@, number) matches Ok(d) && !d.diarize,
        setting(c, "ask_before_recording"@, "true"@, number) matches Ok(d)
            && d.ask_before_recording,
        setting(c, "ask_before_recording"@, "false"@, number) matches Ok(d)
            && !d.ask_before_recording,
        setting(c, "diarize"@, value, number) is Ok <==> setting(
            c,
            "ask_before_recording"@,
            value,
            number,
        ) is Ok,
        setting(c, "threshold"@, value, number) is Ok <==> number is Ok,
        number matches Ok(bits) ==> (setting(c, "threshold"@, value, number) matches Ok(d)
            && d.threshold == bits),
        setting(c, "audio_retention_days"@, "forever"@, number) matches Ok(d)
            && d.audio_retention_days is None,
        setting(c, "audio_retention_days"@, "never"@, number) matches Ok(d)
            && d.audio_retention_days is None,
        setting(c, "audio_retention_days"@, text::decimal(n as nat), number) matches Ok(d)
            && d.audio_retention_days == Some(n),
{
    reveal_strlit("apps");
    reveal_strlit("input_device");
    reveal_strlit("diarize");
    reveal_strlit("threshold");
    reveal_strlit("sessions_dir");
    reveal_strlit("ask_before_recording");
    reveal_strlit("audio_retention_days");
    reveal_strlit("true");
    reveal_strlit("yes");
    reveal_strlit("on");
    reveal_strlit("1");
    reveal_strlit("false");
    reveal_strlit("forever");
    reveal_strlit("never");
    assert("apps"@.len() == 4 && "input_device"@.len() == 12 && "diarize"@.len() == 7
        && "threshold"@.len() == 9 && "sessions_dir"@.len() == 12
        && "ask_before_recording"@.len() == 20 && "audio_retention_days"@.len() == 20);
    assert("input_device"@[0] == 'i' && "sessions_dir"@[0] == 's');
    assert("ask_before_recording"@[1] == 's' && "audio_retention_days"@[1] == 'u');
    assert("false"@.len() == 5 && "true"@.len() == 4 && "yes"@.len() == 3 && "on"@.len() == 2
        && "1"@.len() == 1);
    let d = text::decimal(n as nat);
    text::decimals_read_back(n as nat);
    assert('0' <= d[0] <= '9');
    assert("forever"@[0] == 'f');
    assert("never"@[0] == 'n');
}

} // verus!
