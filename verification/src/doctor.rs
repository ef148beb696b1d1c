//! What a person whose Ambient will not record runs first.
//!
//! Ten checks, always in the same order, each a function of facts gathered
//! beforehand.

use crate::recording;
use crate::recording::{asr_dir, embedding_file, segmentation_file, vad_file};
use crate::shelf;
use crate::shelf::{captured_awaiting_transcript, SessionFacts};
use crate::text;
use crate::text::{decimal_string, join};
use vstd::prelude::*;

verus! {

#[derive(Debug)]
pub struct Check {
    pub name: String,
    pub ok: bool,
    pub detail: String,
}

/// A check as plain characters.
pub struct CheckText {
    pub name: Seq<char>,
    pub ok: bool,
    pub detail: Seq<char>,
}

impl View for Check {
    type V = CheckText;

    open spec fn view(&self) -> CheckText {
        CheckText { name: self.name@, ok: self.ok, detail: self.detail@ }
    }
}

pub open spec fn check_texts(v: Seq<Check>) -> Seq<CheckText> {
    v.map_values(|c: Check| c@)
}

/// What became of reading and parsing the config file.
#[derive(Debug)]
pub enum ConfigFile {
    Valid,
    Invalid(String),
    Missing,
    Unreadable(String),
}

/// A session directory, whether it holds a transcription lock, and the live
/// process that lock names.
#[derive(Debug)]
pub struct Lock {
    pub dir: String,
    pub locked: bool,
    pub transcriber: Option<u32>,
}

/// Everything the checks look at.
#[derive(Debug)]
pub struct Facts {
    /// Where the models are, or why they were not found.
    pub models: Result<String, String>,
    pub models_is_dir: bool,
    pub asr_is_dir: bool,
    pub vad_is_file: bool,
    pub segmentation_is_file: bool,
    pub embedding_is_file: bool,
    pub config_file: String,
    pub config: ConfigFile,
    pub sessions: String,
    pub sessions_is_dir: bool,
    /// The sessions folder's permissions say that nothing can be written there.
    pub sessions_readonly: bool,
    pub shelf: Vec<SessionFacts>,
    /// The session being recorded right now.
    pub live: Option<String>,
    pub locks: Vec<Lock>,
}

fn check(name: &str, ok: bool, detail: &str) -> (c: Check)
    ensures
        c@ == (CheckText { name: name@, ok, detail: detail@ }),
{
    Check { name: name.to_owned(), ok, detail: detail.to_owned() }
}

/// A model below a resolved models root: fine with the path as detail, or wrong,
/// naming what to run to fix it.
pub open spec fn model_text(name: Seq<char>, path: Seq<char>, present: bool) -> CheckText {
    CheckText {
        name,
        ok: present,
        detail: if present {
            path
        } else {
            "missing "@ + path + " \u{2014} run ./fetch-models.sh"@
        },
    }
}

fn model_check(name: &str, path: &str, present: bool) -> (c: Check)
    ensures
        c@ == model_text(name@, path@, present),
{
    if present {
        check(name, true, path)
    } else {
        let mut d: String = "missing ".to_owned();
        d.append(path);
        d.append(" \u{2014} run ./fetch-models.sh");
        check(name, false, d.as_str())
    }
}

/// The root the models are looked for in, if there is one.
pub open spec fn root(f: Facts) -> Option<Seq<char>> {
    match f.models {
        Ok(p) => if f.models_is_dir {
            Some(p@)
        } else {
            None
        },
        Err(_) => None,
    }
}

pub open spec fn root_check(f: Facts) -> CheckText {
    match f.models {
        Ok(p) => if f.models_is_dir {
            CheckText { name: "models/root"@, ok: true, detail: p@ }
        } else {
            CheckText { name: "models/root"@, ok: false, detail: p@ + " is not a directory"@ }
        },
        Err(e) => CheckText { name: "models/root"@, ok: false, detail: e@ },
    }
}

/// The four models, in order; all of them wrong where there is no root.
pub open spec fn model_checks(f: Facts) -> Seq<CheckText> {
    match root(f) {
        Some(r) => seq![
            model_text("models/asr"@, recording::asr_path(r, None), f.asr_is_dir),
            model_text("models/vad"@, recording::vad_path(r), f.vad_is_file),
            model_text(
                "models/segmentation"@,
                recording::segmentation_path(r),
                f.segmentation_is_file,
            ),
            model_text("models/embedding"@, recording::embedding_path(r), f.embedding_is_file),
        ],
        None => seq![
            CheckText { name: "models/asr"@, ok: false, detail: "no models directory"@ },
            CheckText { name: "models/vad"@, ok: false, detail: "no models directory"@ },
            CheckText { name: "models/segmentation"@, ok: false, detail: "no models directory"@ },
            CheckText { name: "models/embedding"@, ok: false, detail: "no models directory"@ },
        ],
    }
}

pub open spec fn config_check(f: Facts) -> CheckText {
    match f.config {
        ConfigFile::Valid => CheckText { name: "config"@, ok: true, detail: f.config_file@ },
        ConfigFile::Invalid(e) => CheckText {
            name: "config"@,
            ok: false,
            detail: "not valid: "@ + e@,
        },
        ConfigFile::Missing => CheckText { name: "config"@, ok: true, detail: "defaults"@ },
        ConfigFile::Unreadable(e) => CheckText {
            name: "config"@,
            ok: false,
            detail: "could not be read: "@ + e@,
        },
    }
}

pub open spec fn writable_check(f: Facts) -> CheckText {
    if !f.sessions_is_dir {
        CheckText {
            name: "sessions/writable"@,
            ok: false,
            detail: f.sessions@ + " does not exist"@,
        }
    } else if f.sessions_readonly {
        CheckText {
            name: "sessions/writable"@,
            ok: false,
            detail: f.sessions@ + " is not writable"@,
        }
    } else {
        CheckText { name: "sessions/writable"@, ok: true, detail: f.sessions@ }
    }
}

/// A number of sessions, in words.
pub open spec fn sessions_text(n: nat) -> Seq<char> {
    if n == 0 {
        "none"@
    } else if n == 1 {
        "1 session"@
    } else {
        text::decimal(n) + " sessions"@
    }
}

pub open spec fn awaiting_check(f: Facts) -> CheckText {
    CheckText {
        name: "sessions/awaiting-transcript"@,
        ok: true,
        detail: sessions_text(shelf::awaiting(f.shelf@).len()),
    }
}

pub open spec fn live_check(f: Facts) -> CheckText {
    CheckText {
        name: "sessions/live"@,
        ok: true,
        detail: match f.live {
            Some(d) => d@,
            None => "none"@,
        },
    }
}

/// The directories whose lock no live process answers for, in order.
pub open spec fn stale(locks: Seq<Lock>) -> Seq<Seq<char>>
    decreases locks.len(),
{
    if locks.len() == 0 {
        Seq::empty()
    } else if locks.last().locked && locks.last().transcriber is None {
        stale(locks.drop_last()).push(locks.last().dir@)
    } else {
        stale(locks.drop_last())
    }
}

pub open spec fn stale_check(f: Facts) -> CheckText {
    let s = stale(f.locks@);
    if s.len() == 0 {
        CheckText { name: "sessions/stale-lock"@, ok: true, detail: "none"@ }
    } else {
        CheckText { name: "sessions/stale-lock"@, ok: false, detail: text::joined(s, ", "@) }
    }
}

/// The ten checks.
pub open spec fn checks(f: Facts) -> Seq<CheckText> {
    seq![root_check(f)] + model_checks(f) + seq![
        config_check(f),
        writable_check(f),
        awaiting_check(f),
        live_check(f),
        stale_check(f),
    ]
}

fn stale_dirs(locks: &Vec<Lock>) -> (r: Vec<String>)
    ensures
        text::views(r@) == stale(locks@),
{
    let mut out: Vec<String> = Vec::new();
    let mut i: usize = 0;
    proof {
        assert(locks@.take(0) == Seq::<Lock>::empty());
        assert(text::views(out@) == Seq::<Seq<char>>::empty());
    }
    while i < locks.len()
        invariant
            i <= locks@.len(),
            text::views(out@) == stale(locks@.take(i as int)),
        decreases locks@.len() - i,
    {
        proof {
            assert(locks@.take(i + 1).drop_last() == locks@.take(i as int));
            assert(locks@.take(i + 1).last() == locks@[i as int]);
        }
        if locks[i].locked && locks[i].transcriber.is_none() {
            let d: String = locks[i].dir.clone();
            proof {
                assert(text::views(out@.push(d)) == text::views(out@).push(d@));
            }
            out.push(d);
        }
        i = i + 1;
    }
    proof {
        assert(locks@.take(locks@.len() as int) == locks@);
    }
    out
}

fn check_root(f: &Facts) -> (c: Check)
    ensures
        c@ == root_check(*f),
{
    match &f.models {
        Ok(p) => {
            if f.models_is_dir {
                check("models/root", true, p.as_str())
            } else {
                let mut d: String = p.clone();
                d.append(" is not a directory");
                check("models/root", false, d.as_str())
            }
        },
        Err(e) => check("models/root", false, e.as_str()),
    }
}

fn check_models(f: &Facts) -> (r: Vec<Check>)
    ensures
        check_texts(r@) == model_checks(*f),
{
    let mut out: Vec<Check> = Vec::new();
    match &f.models {
        Ok(p) if f.models_is_dir => {
            let r: &str = p.as_str();
            out.push(model_check("models/asr", asr_dir(r, None).as_str(), f.asr_is_dir));
            out.push(model_check("models/vad", vad_file(r).as_str(), f.vad_is_file));
            out.push(
                model_check(
                    "models/segmentation",
                    segmentation_file(r).as_str(),
                    f.segmentation_is_file,
                ),
            );
            out.push(
                model_check("models/embedding", embedding_file(r).as_str(), f.embedding_is_file),
            );
        },
        _ => {
            out.push(check("models/asr", false, "no models directory"));
            out.push(check("models/vad", false, "no models directory"));
            out.push(check("models/segmentation", false, "no models directory"));
            out.push(check("models/embedding", false, "no models directory"));
        },
    }
    proof {
        assert(check_texts(out@) == model_checks(*f));
    }
    out
}

fn check_config(f: &Facts) -> (c: Check)
    ensures
        c@ == config_check(*f),
{
    match &f.config {
        ConfigFile::Valid => check("config", true, f.config_file.as_str()),
        ConfigFile::Invalid(e) => {
            let mut d: String = "not valid: ".to_owned();
            d.append(e.as_str());
            check("config", false, d.as_str())
        },
        ConfigFile::Missing => check("config", true, "defaults"),
        ConfigFile::Unreadable(e) => {
            let mut d: String = "could not be read: ".to_owned();
            d.append(e.as_str());
            check("config", false, d.as_str())
        },
    }
}

fn check_writable(f: &Facts) -> (c: Check)
    ensures
        c@ == writable_check(*f),
{
    let mut d: String = f.sessions.clone();
    if !f.sessions_is_dir {
        d.append(" does not exist");
    } else if f.sessions_readonly {
        d.append(" is not writable");
    }
    check("sessions/writable", f.sessions_is_dir && !f.sessions_readonly, d.as_str())
}

fn check_awaiting(f: &Facts) -> (c: Check)
    ensures
        c@ == awaiting_check(*f),
{
    let awaiting: Vec<String> = captured_awaiting_transcript(f.shelf.as_slice());
    proof {
        assert(shelf::awaiting(f.shelf@).len() == awaiting@.len());
    }
    if awaiting.len() == 0 {
        check("sessions/awaiting-transcript", true, "none")
    } else if awaiting.len() == 1 {
        check("sessions/awaiting-transcript", true, "1 session")
    } else {
        let mut n: String = decimal_string(awaiting.len() as u64);
        n.append(" sessions");
        check("sessions/awaiting-transcript", true, n.as_str())
    }
}

fn check_live(f: &Facts) -> (c: Check)
    ensures
        c@ == live_check(*f),
{
    match &f.live {
        Some(dir) => check("sessions/live", true, dir.as_str()),
        None => check("sessions/live", true, "none"),
    }
}

fn check_stale(f: &Facts) -> (c: Check)
    ensures
        c@ == stale_check(*f),
{
    let stale: Vec<String> = stale_dirs(&f.locks);
    proof {
        assert(self::stale(f.locks@).len() == stale@.len());
    }
    if stale.len() == 0 {
        check("sessions/stale-lock", true, "none")
    } else {
        check("sessions/stale-lock", false, join(stale.as_slice(), ", ").as_str())
    }
}

/// Run the ten checks. A failure never hides the checks after it.
pub fn run(f: &Facts) -> (r: Vec<Check>)
    ensures
        check_texts(r@) == checks(*f),
{
    let mut out: Vec<Check> = Vec::new();
    out.push(check_root(f));
    let mut models: Vec<Check> = check_models(f);
    let ghost four = models@;
    out.append(&mut models);
    out.push(check_config(f));
    out.push(check_writable(f));
    out.push(check_awaiting(f));
    out.push(check_live(f));
    out.push(check_stale(f));
    proof {
        assert(four.len() == check_texts(four).len());
        assert(forall|i: int| 0 <= i < four.len() ==> four[i]@ == #[trigger] check_texts(four)[i]);
        assert(check_texts(out@) == checks(*f));
    }
    out
}

/// There are always ten checks, under the same names in the same order, whatever
/// is wrong.
pub proof fn ten_checks_in_order(f: Facts)
    ensures
        checks(f).map_values(|c: CheckText| c.name) == seq![
            "models/root"@,
            "models/asr"@,
            "models/vad"@,
            "models/segmentation"@,
            "models/embedding"@,
            "config"@,
            "sessions/writable"@,
            "sessions/awaiting-transcript"@,
            "sessions/live"@,
            "sessions/stale-lock"@,
        ],
{
    assert(checks(f).map_values(|c: CheckText| c.name) =~= seq![
        "models/root"@,
        "models/asr"@,
        "models/vad"@,
        "models/segmentation"@,
        "models/embedding"@,
        "config"@,
        "sessions/writable"@,
        "sessions/awaiting-transcript"@,
        "sessions/live"@,
        "sessions/stale-lock"@,
    ]);
}

/// The stale locks are those nobody alive answers for, all of them, in order.
pub proof fn locks_nobody_answers_for_are_stale(locks: Seq<Lock>)
    ensures
        stale(locks) == locks.filter(|l: Lock| l.locked && l.transcriber is None).map_values(
            |l: Lock| l.dir@,
        ),
    decreases locks.len(),
{
    reveal(Seq::filter);
    let p = |l: Lock| l.locked && l.transcriber is None;
    let f = |l: Lock| l.dir@;
    if locks.len() > 0 {
        locks_nobody_answers_for_are_stale(locks.drop_last());
        let front = locks.drop_last().filter(p);
        assert(front.push(locks.last()).map_values(f) == front.map_values(f).push(
            locks.last().dir@,
        ));
    } else {
        assert(locks.map_values(f) == Seq::<Seq<char>>::empty());
    }
}

/// Each check is of its own fact: a model is fine exactly if there is a models
/// directory and it is in it, and so on for the settings, the folder and the locks.
pub proof fn each_check_is_of_its_own_fact(f: Facts)
    ensures
        ({
            let c = checks(f);
            let there = f.models is Ok && f.models_is_dir;
            &&& c.len() == 10
            &&& c[0].ok <==> there
            &&& c[1].ok <==> there && f.asr_is_dir
            &&& c[2].ok <==> there && f.vad_is_file
            &&& c[3].ok <==> there && f.segmentation_is_file
            &&& c[4].ok <==> there && f.embedding_is_file
            &&& c[5].ok <==> f.config is Valid || f.config is Missing
            &&& c[6].ok <==> f.sessions_is_dir && !f.sessions_readonly
            &&& c[7].ok
            &&& c[8].ok
            &&& c[9].ok <==> forall|i: int|
                0 <= i < f.locks@.len() ==> !((#[trigger] f.locks@[i]).locked
                    && f.locks@[i].transcriber is None)
        }),
{
    lemma_no_stale(f.locks@);
}

proof fn lemma_no_stale(locks: Seq<Lock>)
    ensures
        stale(locks).len() == 0 <==> forall|i: int|
            0 <= i < locks.len() ==> !((#[trigger] locks[i]).locked && locks[i].transcriber is None),
    decreases locks.len(),
{
    if locks.len() > 0 {
        let front = locks.drop_last();
        lemma_no_stale(front);
        assert(forall|i: int| 0 <= i < front.len() ==> front[i] == #[trigger] locks[i]);
        if stale(locks).len() == 0 {
            assert forall|i: int| 0 <= i < locks.len() implies !((#[trigger] locks[i]).locked
                && locks[i].transcriber is None) by {
                if i < front.len() {
                    assert(!(front[i].locked && front[i].transcriber is None));
                }
            }
        } else if forall|i: int|
            0 <= i < locks.len() ==> !((#[trigger] locks[i]).locked && locks[i].transcriber is None) {
            assert forall|i: int| 0 <= i < front.len() implies !((#[trigger] front[i]).locked
                && front[i].transcriber is None) by {
                assert(!(locks[i].locked && locks[i].transcriber is None));
            }
            let n = locks.len() - 1;
            assert(!(locks[n].locked && locks[n].transcriber is None));
        }
    }
}

} // verus!
