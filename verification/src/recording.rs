//! The life of a recording: where it goes, how a capture is run and ended, and
//! the stages a transcription passes through.

use crate::claim::SessionDir;
use crate::meter::{Meter, MeterPhase};
use crate::session;
use crate::session::{minutes, RawRecord, SessionMeta, Track};
use crate::text;
use crate::text::{decimal_string, join, path_beneath, path_name};
use vstd::prelude::*;

verus! {

/// Where sessions live. The environment wins over the stored setting so a
/// harness can point somewhere harmless without editing the user's settings;
/// otherwise it is a visible folder under the user's home.
pub open spec fn home_path(
    env: Option<Seq<char>>,
    configured: Option<Seq<char>>,
    user_home: Option<Seq<char>>,
) -> Seq<char> {
    match env {
        Some(p) => p,
        None => match configured {
            Some(p) => p,
            None => text::beneath(
                text::beneath(
                    match user_home {
                        Some(h) => h,
                        None => "."@,
                    },
                    "Documents"@,
                ),
                "Ambient"@,
            ),
        },
    }
}

pub fn home(env: Option<&str>, configured: Option<&str>, user_home: Option<&str>) -> (r: String)
    ensures
        r@ == home_path(text::opt_str(env), text::opt_str(configured), text::opt_str(user_home)),
{
    if let Some(p) = env {
        return p.to_owned();
    }
    if let Some(p) = configured {
        return p.to_owned();
    }
    let h: &str = match user_home {
        Some(h) => h,
        None => ".",
    };
    path_beneath(path_beneath(h, "Documents").as_str(), "Ambient")
}

/// How many directories above the executable are looked in.
pub const CLIMB: usize = 5;

/// Where a `models` directory may be: below the working directory, beside a
/// bundle's executable, and below each of the first few directories above it.
pub open spec fn candidates(above: Seq<Seq<char>>, k: nat) -> Seq<Seq<char>>
    decreases k,
{
    if k == 0 {
        if above.len() == 0 {
            seq!["models"@]
        } else {
            seq!["models"@, text::beneath(above[0], "../Resources/models"@)]
        }
    } else {
        candidates(above, (k - 1) as nat).push(text::beneath(above[k - 1], "models"@))
    }
}

pub open spec fn climbed(above: nat) -> nat {
    if above < CLIMB {
        above
    } else {
        CLIMB as nat
    }
}

/// The places to look for a `models` directory, given the directories above the
/// executable from the nearest up. Launched from a terminal the working
/// directory is the repository, but launched as a bundle it is `/`, so a
/// relative path alone would break the one launch that has the capture grant.
pub fn model_candidates(above: &[String]) -> (r: Vec<String>)
    ensures
        text::views(r@) == candidates(text::views(above@), climbed(above@.len())),
{
    let ghost dirs = text::views(above@);
    let mut out: Vec<String> = Vec::new();
    out.push("models".to_owned());
    if above.len() > 0 {
        out.push(path_beneath(above[0].as_str(), "../Resources/models"));
    }
    let n: usize = if above.len() < CLIMB {
        above.len()
    } else {
        CLIMB
    };
    let mut k: usize = 0;
    proof {
        assert(dirs.len() == above@.len());
        assert(text::views(out@) =~= candidates(dirs, 0));
    }
    while k < n
        invariant
            k <= n <= above@.len(),
            dirs == text::views(above@),
            text::views(out@) == candidates(dirs, k as nat),
        decreases n - k,
    {
        let p: String = path_beneath(above[k].as_str(), "models");
        proof {
            assert(dirs[k as int] == above@[k as int]@);
            assert(text::views(out@.push(p)) == text::views(out@).push(p@));
        }
        out.push(p);
        k = k + 1;
    }
    out
}

/// The first candidate that is a directory.
pub open spec fn first_dir(is_dir: Seq<bool>, i: int) -> bool {
    &&& 0 <= i < is_dir.len()
    &&& is_dir[i]
    &&& forall|j: int| 0 <= j < i ==> !#[trigger] is_dir[j]
}

/// Locate the `models` directory: the environment's word is taken as it is, and
/// otherwise the first candidate that is a directory.
pub fn models_root(env: Option<&str>, places: &[String], is_dir: &[bool]) -> (r: Result<
    String,
    String,
>)
    requires
        places@.len() == is_dir@.len(),
    ensures
        match r {
            Ok(p) => match env {
                Some(e) => p@ == e@,
                None => exists|i: int| #[trigger]
                    first_dir(is_dir@, i) && p@ == text::views(places@)[i],
            },
            Err(e) => env is None && (forall|i: int| 0 <= i < is_dir@.len() ==> !#[trigger] is_dir@[i])
                && e@ == "no models/ directory found (looked in "@ + text::joined(
                text::views(places@),
                ", "@,
            ) + "). Run ./fetch-models.sh, or set AMBIENT_MODELS."@,
        },
{
    if let Some(p) = env {
        return Ok(p.to_owned());
    }
    let mut i: usize = 0;
    while i < places.len()
        invariant
            env is None,
            i <= places@.len() == is_dir@.len(),
            forall|j: int| 0 <= j < i ==> !#[trigger] is_dir@[j],
        decreases places@.len() - i,
    {
        if is_dir[i] {
            proof {
                assert(first_dir(is_dir@, i as int));
                assert(text::views(places@)[i as int] == places@[i as int]@);
            }
            return Ok(places[i].clone());
        }
        i = i + 1;
    }
    let mut e: String = "no models/ directory found (looked in ".to_owned();
    e.append(join(places, ", ").as_str());
    e.append("). Run ./fetch-models.sh, or set AMBIENT_MODELS.");
    Err(e)
}

/// Where the recogniser's model is: the one asked for, or the shipped one.
pub open spec fn asr_path(models: Seq<char>, model_dir: Option<Seq<char>>) -> Seq<char> {
    match model_dir {
        Some(d) => d,
        None => text::beneath(models, "sherpa-onnx-nemo-parakeet-tdt-0.6b-v3-int8"@),
    }
}

pub open spec fn vad_path(models: Seq<char>) -> Seq<char> {
    text::beneath(models, "silero_vad.onnx"@)
}

pub fn asr_dir(models: &str, model_dir: Option<&str>) -> (r: String)
    ensures
        r@ == asr_path(models@, text::opt_str(model_dir)),
{
    match model_dir {
        Some(d) => d.to_owned(),
        None => path_beneath(models, "sherpa-onnx-nemo-parakeet-tdt-0.6b-v3-int8"),
    }
}

pub fn vad_file(models: &str) -> (r: String)
    ensures
        r@ == vad_path(models@),
{
    path_beneath(models, "silero_vad.onnx")
}

/// Where the model that tells voices apart in a window is.
pub open spec fn segmentation_path(models: Seq<char>) -> Seq<char> {
    text::beneath(models, "pyannote-segmentation-3.0/model.onnx"@)
}

/// Where the model that embeds a voice is.
pub open spec fn embedding_path(models: Seq<char>) -> Seq<char> {
    text::beneath(models, "wespeaker_en_voxceleb_resnet34_LM.onnx"@)
}

pub fn segmentation_file(models: &str) -> (r: String)
    ensures
        r@ == segmentation_path(models@),
{
    path_beneath(models, "pyannote-segmentation-3.0/model.onnx")
}

pub fn embedding_file(models: &str) -> (r: String)
    ensures
        r@ == embedding_path(models@),
{
    path_beneath(models, "wespeaker_en_voxceleb_resnet34_LM.onnx")
}

/// Where the recogniser's and the voice detector's models are, checked to exist.
/// The capture half checks so a missing model fails before the tap starts, and
/// the transcription half because it is the one that loads them.
pub fn model_paths(
    models: &str,
    model_dir: Option<&str>,
    asr_is_dir: bool,
    vad_is_file: bool,
) -> (r: Result<(String, String), String>)
    ensures
        ({
            let asr = asr_path(models@, text::opt_str(model_dir));
            let vad = vad_path(models@);
            match r {
                Ok(p) => asr_is_dir && vad_is_file && p.0@ == asr && p.1@ == vad,
                Err(e) => if !asr_is_dir {
                    e@ == "no ASR model at "@ + asr + " — run ./fetch-models.sh"@
                } else {
                    !vad_is_file && e@ == "no VAD model at "@ + vad
                },
            }
        }),
{
    let asr: String = asr_dir(models, model_dir);
    let vad: String = vad_file(models);
    if !asr_is_dir {
        let mut e: String = "no ASR model at ".to_owned();
        e.append(asr.as_str());
        e.append(" — run ./fetch-models.sh");
        return Err(e);
    }
    if !vad_is_file {
        let mut e: String = "no VAD model at ".to_owned();
        e.append(vad.as_str());
        return Err(e);
    }
    Ok((asr, vad))
}

/// What the status file of a session says.
#[derive(Debug)]
pub enum Status {
    Recording(String),
    Finishing,
    Captured,
    Transcribing,
    SeparatingVoices,
    Done,
    Failed(String),
}

/// What the status file of a session says, as plain characters.
pub enum StatusText {
    Recording(Seq<char>),
    Finishing,
    Captured,
    Transcribing,
    SeparatingVoices,
    Done,
    Failed(Seq<char>),
}

impl View for Status {
    type V = StatusText;

    open spec fn view(&self) -> StatusText {
        match self {
            Status::Recording(line) => StatusText::Recording(line@),
            Status::Finishing => StatusText::Finishing,
            Status::Captured => StatusText::Captured,
            Status::Transcribing => StatusText::Transcribing,
            Status::SeparatingVoices => StatusText::SeparatingVoices,
            Status::Done => StatusText::Done,
            Status::Failed(e) => StatusText::Failed(e@),
        }
    }
}

impl StatusText {
    /// The whole of the file.
    pub open spec fn file(self) -> Seq<char> {
        match self {
            StatusText::Recording(line) => "recording "@ + line + "\n"@,
            StatusText::Finishing => "finishing\n"@,
            StatusText::Captured => "captured\n"@,
            StatusText::Transcribing => "transcribing\n"@,
            StatusText::SeparatingVoices => "separating voices\n"@,
            StatusText::Done => "done\n"@,
            StatusText::Failed(e) => "failed: "@ + e + "\n"@,
        }
    }
}

impl Status {
    /// The whole of the status file.
    pub fn file(&self) -> (r: String)
        ensures
            r@ == self@.file(),
    {
        match self {
            Status::Recording(line) => {
                let mut out: String = "recording ".to_owned();
                out.append(line.as_str());
                out.append("\n");
                out
            },
            Status::Finishing => "finishing\n".to_owned(),
            Status::Captured => "captured\n".to_owned(),
            Status::Transcribing => "transcribing\n".to_owned(),
            Status::SeparatingVoices => "separating voices\n".to_owned(),
            Status::Done => "done\n".to_owned(),
            Status::Failed(e) => {
                let mut out: String = "failed: ".to_owned();
                out.append(e.as_str());
                out.append("\n");
                out
            },
        }
    }
}

/// Which apps a capture is limited to: those asked for, or with none asked for
/// the ones the settings name.
pub fn chosen_apps(asked: Vec<String>, configured: Vec<String>) -> (r: Vec<String>)
    ensures
        r@ == (if asked@.len() == 0 {
            configured@
        } else {
            asked@
        }),
{
    if asked.len() == 0 {
        configured
    } else {
        asked
    }
}

/// What a running capture does next.
#[derive(Debug, Clone, Copy, PartialEq, Eq, Structural)]
pub enum CaptureStep {
    /// Sleep a moment, then take what the tap has.
    Drain,
    /// Close the files and write the session.
    Finish,
}

/// A capture in progress.
#[derive(Debug, Clone, Copy)]
pub struct Capture {
    pub mic_hz: u32,
    pub call_hz: u32,
    pub mic_channels: u32,
    pub call_channels: u32,
    /// How many frames have been taken, counting the longer track each time.
    pub frames: u64,
}

/// What is known when a capture ends, beyond what it counted.
#[derive(Debug)]
pub struct CaptureEnd {
    /// Some audio really arrived on either track, not just inserted silence.
    pub heard: bool,
    /// The room track never rose above silence in the whole capture.
    pub room_silent: bool,
    /// What the tap's silence suggests, if it suggests anything.
    pub advice: Option<String>,
    /// How long the capture ran, in whole seconds.
    pub seconds: String,
}

/// What a silent capture fails with.
pub open spec fn silent_capture(
    mic_hz: u32,
    call_hz: u32,
    seconds: Seq<char>,
    dir: Seq<char>,
) -> Seq<char> {
    "capture was created (room "@ + text::decimal(mic_hz as nat) + " Hz, call "@ + text::decimal(
        call_hz as nat,
    ) + " Hz) but delivered no audio in "@ + seconds + "s, so "@ + dir
        + " holds nothing. This is the silent-capture failure: the recording was never running, whatever the level meter implied."@
}

/// The level line of a running capture.
pub open spec fn capture_line(
    seconds: nat,
    arriving: bool,
    room_peak: Seq<char>,
    call_peak: Seq<char>,
) -> Seq<char> {
    if arriving {
        session::clock(seconds) + "  room "@ + room_peak + "  call "@ + call_peak
    } else {
        session::clock(seconds) + "  no audio arriving"@
    }
}

/// What a capture that heard something still has to warn of.
pub open spec fn capture_warnings(room_silent: bool, advice: Option<Seq<char>>) -> Seq<Seq<char>> {
    let first = if room_silent {
        seq!["the room track is silent — check the microphone grant."@]
    } else {
        Seq::empty()
    };
    match advice {
        Some(a) => first.push(a),
        None => first,
    }
}

impl Capture {
    /// A capture over a tap that has started.
    pub fn start(mic_hz: u32, call_hz: u32, mic_channels: u32, call_channels: u32) -> (r: Result<
        Capture,
        String,
    >)
        ensures
            match r {
                Ok(c) => !(mic_channels == 0 && call_channels == 0) && c == (Capture {
                    mic_hz,
                    call_hz,
                    mic_channels,
                    call_channels,
                    frames: 0,
                }),
                Err(e) => mic_channels == 0 && call_channels == 0 && e@
                    == "capture started with no channels"@,
            },
    {
        if mic_channels == 0 && call_channels == 0 {
            return Err("capture started with no channels".to_owned());
        }
        Ok(Capture { mic_hz, call_hz, mic_channels, call_channels, frames: 0 })
    }

    /// Whether to go on: not once it was interrupted, asked to stop by the
    /// sentinel, or past its deadline.
    pub fn step(&self, interrupted: bool, sentinel: bool, deadline_passed: bool) -> (s: CaptureStep)
        ensures
            s == CaptureStep::Finish <==> interrupted || sentinel || deadline_passed,
    {
        if interrupted || sentinel || deadline_passed {
            CaptureStep::Finish
        } else {
            CaptureStep::Drain
        }
    }

    /// Count what the tap gave: the longer of the two tracks.
    pub fn drained(&mut self, room: usize, call: usize)
        requires
            old(self).frames + room <= u64::MAX,
            old(self).frames + call <= u64::MAX,
        ensures
            *final(self) == (Capture {
                frames: (old(self).frames + (if room > call {
                    room
                } else {
                    call
                })) as u64,
                ..*old(self)
            }),
    {
        let longer: usize = if room > call {
            room
        } else {
            call
        };
        self.frames = self.frames + longer as u64;
    }

    /// The level line of a running capture. It is written even when nothing is
    /// arriving: a silent tap is exactly the case somebody is staring at.
    pub fn line(&self, seconds: u64, arriving: bool, room_peak: &str, call_peak: &str) -> (r: String)
        ensures
            r@ == capture_line(seconds as nat, arriving, room_peak@, call_peak@),
    {
        let mut out: String = minutes(seconds);
        if arriving {
            out.append("  room ");
            out.append(room_peak);
            out.append("  call ");
            out.append(call_peak);
        } else {
            out.append("  no audio arriving");
        }
        out
    }

    /// The length of the recording: frames, and how many make a second. The two
    /// devices have their own rates, and frames are counted at the faster.
    pub fn duration(&self) -> (r: (u64, u32))
        ensures
            r.0 == self.frames,
            r.1 >= 1,
            r.1 >= self.mic_hz && r.1 >= self.call_hz,
            r.1 == self.mic_hz || r.1 == self.call_hz || r.1 == 1,
    {
        let faster: u32 = if self.mic_hz > self.call_hz {
            self.mic_hz
        } else {
            self.call_hz
        };
        (
            self.frames,
            if faster > 1 {
                faster
            } else {
                1
            },
        )
    }

    /// What the capture has to say when it is over: that nothing was captured at
    /// all, or what to warn of.
    pub fn finish(&self, end: &CaptureEnd, dir: &str) -> (r: Result<Vec<String>, String>)
        ensures
            match r {
                Ok(w) => end.heard && text::views(w@) == capture_warnings(
                    end.room_silent,
                    text::opt(end.advice),
                ),
                Err(e) => !end.heard && e@ == silent_capture(
                    self.mic_hz,
                    self.call_hz,
                    end.seconds@,
                    dir@,
                ),
            },
    {
        if !end.heard {
            let mut e: String = "capture was created (room ".to_owned();
            e.append(decimal_string(self.mic_hz as u64).as_str());
            e.append(" Hz, call ");
            e.append(decimal_string(self.call_hz as u64).as_str());
            e.append(" Hz) but delivered no audio in ");
            e.append(end.seconds.as_str());
            e.append("s, so ");
            e.append(dir);
            e.append(
                " holds nothing. This is the silent-capture failure: the recording was never running, whatever the level meter implied.",
            );
            return Err(e);
        }
        let mut out: Vec<String> = Vec::new();
        if end.room_silent {
            out.push("the room track is silent — check the microphone grant.".to_owned());
        }
        if let Some(a) = &end.advice {
            out.push(a.clone());
        }
        proof {
            assert(text::views(out@) =~= capture_warnings(
                end.room_silent,
                text::opt(end.advice),
            ));
        }
        Ok(out)
    }

    /// What `session.json` says of the capture. The id is the claimed
    /// directory's own name, whatever was asked for, and the model goes by the
    /// name of its directory.
    pub fn meta(
        &self,
        dir: &SessionDir,
        name: Option<&str>,
        started_at: &str,
        ended_at: &str,
        duration_s: &str,
        apps: Vec<String>,
        asr_dir: &str,
        warnings: Vec<String>,
    ) -> (m: SessionMeta)
        ensures
            m@ == (session::MetaText {
                id: dir.name(),
                name: text::opt_str(name),
                started_at: started_at@,
                ended_at: ended_at@,
                duration_s: duration_s@,
                device_hz: self.call_hz,
                mic_hz: self.mic_hz,
                channels: self.call_channels,
                mic_channels: self.mic_channels,
                apps: text::views(apps@),
                model: text::name_or_empty(asr_dir@),
                warnings: text::views(warnings@),
            }),
    {
        let model: String = match path_name(asr_dir) {
            Some(n) => n,
            None => String::new(),
        };
        let title: Option<String> = match name {
            Some(n) => Some(n.to_owned()),
            None => None,
        };
        SessionMeta {
            id: dir.id(),
            name: title,
            started_at: started_at.to_owned(),
            ended_at: ended_at.to_owned(),
            duration_s: duration_s.to_owned(),
            device_hz: self.call_hz,
            mic_hz: self.mic_hz,
            channels: self.call_channels,
            mic_channels: self.mic_channels,
            apps,
            model,
            warnings,
        }
    }
}

/// How far a capture has come.
#[derive(Debug, Clone, Copy, PartialEq, Eq, Structural)]
pub enum CaptureStage {
    /// The directory is claimed; nothing has been recorded.
    Preparing,
    /// The tap runs and the scratch files are open. From here on the directory
    /// may hold the only copy of a conversation.
    Recording,
    /// A reason to stop was seen; the scratch files are being closed.
    Closing,
    /// The tap is gone; what it gave is being written.
    Finishing,
    Captured,
    Failed,
}

/// What happened to a capture.
#[derive(Debug)]
pub enum CaptureEvent {
    /// The tap has started, at these rates and with this many channels.
    Tapped { mic_hz: u32, call_hz: u32, mic_channels: u32, call_channels: u32 },
    /// The scratch files are open.
    Opened,
    /// The reasons to stop were looked at.
    Polled { interrupted: bool, sentinel: bool, deadline_passed: bool },
    /// A second has passed since the last report.
    Second { seconds: u64, arriving: bool, room_peak: String, call_peak: String },
    /// The tap gave this many frames.
    Drained { room: usize, call: usize },
    /// Both scratch files are closed and the tap is gone.
    Closed,
    /// What the tap heard, over the whole capture.
    Heard(CaptureEnd),
    /// Both tracks and the metadata are written.
    Saved,
    /// Something failed.
    Broke(String),
}

/// What a capture asks for after an event.
#[derive(Debug)]
pub struct CaptureTurn {
    /// What to write to the status file.
    pub status: Option<Status>,
    /// What to show on the meter.
    pub phase: Option<MeterPhase>,
    /// Remove the directory: nothing was recorded into it.
    pub discard: bool,
    /// Remove the stop sentinel.
    pub heeded: bool,
    /// Why the capture failed.
    pub error: Option<String>,
}

/// A capture, from the claimed directory to the audio on disk.
#[derive(Debug)]
pub struct CaptureRun {
    pub stage: CaptureStage,
    pub capture: Capture,
    /// What the metadata will warn of.
    pub warnings: Vec<String>,
}

/// What a capture asks for, as plain characters.
pub struct TurnText {
    pub status: Option<StatusText>,
    pub phase: Option<MeterPhase>,
    pub discard: bool,
    pub heeded: bool,
    pub error: Option<Seq<char>>,
}

impl View for CaptureTurn {
    type V = TurnText;

    open spec fn view(&self) -> TurnText {
        TurnText {
            status: match self.status {
                Some(s) => Some(s@),
                None => None,
            },
            phase: self.phase,
            discard: self.discard,
            heeded: self.heeded,
            error: text::opt(self.error),
        }
    }
}

/// Nothing to do.
pub open spec fn no_turn() -> TurnText {
    TurnText { status: None, phase: None, discard: false, heeded: false, error: None }
}

/// A failure: the directory goes only where nothing was recorded into it. An
/// empty directory left behind is the cheaper mistake by a wide margin.
pub open spec fn failing(s: CaptureStage, why: Seq<char>) -> TurnText {
    TurnText { discard: s == CaptureStage::Preparing, error: Some(why), ..no_turn() }
}

/// What a capture asks for when an event finds it in a stage.
pub open spec fn capture_turn(run: CaptureRun, e: CaptureEvent, dir: Seq<char>) -> TurnText {
    match (run.stage, e) {
        (CaptureStage::Captured, _) => no_turn(),
        (CaptureStage::Failed, _) => no_turn(),
        (s, CaptureEvent::Broke(why)) => failing(s, why@),
        (CaptureStage::Preparing, CaptureEvent::Tapped { mic_channels, call_channels, .. }) => if mic_channels
            == 0 && call_channels == 0 {
            failing(CaptureStage::Preparing, "capture started with no channels"@)
        } else {
            no_turn()
        },
        (CaptureStage::Closing, CaptureEvent::Closed) => TurnText {
            status: Some(StatusText::Finishing),
            phase: Some(MeterPhase::Done),
            heeded: true,
            ..no_turn()
        },
        (
            CaptureStage::Recording,
            CaptureEvent::Second { seconds, arriving, room_peak, call_peak },
        ) => TurnText {
            status: Some(
                StatusText::Recording(
                    capture_line(seconds as nat, arriving, room_peak@, call_peak@),
                ),
            ),
            phase: Some(MeterPhase::Capturing),
            ..no_turn()
        },
        (CaptureStage::Finishing, CaptureEvent::Heard(end)) => if end.heard {
            no_turn()
        } else {
            TurnText {
                status: Some(StatusText::Failed("no audio was captured"@)),
                phase: Some(MeterPhase::Failed),
                ..failing(
                    CaptureStage::Finishing,
                    silent_capture(run.capture.mic_hz, run.capture.call_hz, end.seconds@, dir),
                )
            }
        },
        (CaptureStage::Finishing, CaptureEvent::Saved) => TurnText {
            status: Some(StatusText::Captured),
            ..no_turn()
        },
        _ => no_turn(),
    }
}

/// Which stage a capture is in after an event.
pub open spec fn capture_stage(run: CaptureRun, e: CaptureEvent) -> CaptureStage {
    match (run.stage, e) {
        (CaptureStage::Captured, _) => CaptureStage::Captured,
        (CaptureStage::Failed, _) => CaptureStage::Failed,
        (_, CaptureEvent::Broke(_)) => CaptureStage::Failed,
        (CaptureStage::Preparing, CaptureEvent::Tapped { mic_channels, call_channels, .. }) => if mic_channels
            == 0 && call_channels == 0 {
            CaptureStage::Failed
        } else {
            CaptureStage::Preparing
        },
        (CaptureStage::Preparing, CaptureEvent::Opened) => CaptureStage::Recording,
        (
            CaptureStage::Recording,
            CaptureEvent::Polled { interrupted, sentinel, deadline_passed },
        ) => if interrupted || sentinel || deadline_passed {
            CaptureStage::Closing
        } else {
            CaptureStage::Recording
        },
        (CaptureStage::Closing, CaptureEvent::Closed) => CaptureStage::Finishing,
        (CaptureStage::Finishing, CaptureEvent::Heard(end)) => if end.heard {
            CaptureStage::Finishing
        } else {
            CaptureStage::Failed
        },
        (CaptureStage::Finishing, CaptureEvent::Saved) => CaptureStage::Captured,
        (s, _) => s,
    }
}

/// What a capture has counted after an event.
pub open spec fn counted(run: CaptureRun, e: CaptureEvent) -> Capture {
    match (run.stage, e) {
        (
            CaptureStage::Preparing,
            CaptureEvent::Tapped { mic_hz, call_hz, mic_channels, call_channels },
        ) => if mic_channels == 0 && call_channels == 0 {
            run.capture
        } else {
            Capture { mic_hz, call_hz, mic_channels, call_channels, frames: 0 }
        },
        (CaptureStage::Recording, CaptureEvent::Drained { room, call }) => Capture {
            frames: (run.capture.frames + longer(room as int, call as int)) as u64,
            ..run.capture
        },
        _ => run.capture,
    }
}

pub open spec fn longer(a: int, b: int) -> int {
    if a > b {
        a
    } else {
        b
    }
}

/// What the metadata will warn of after an event.
pub open spec fn warned(run: CaptureRun, e: CaptureEvent) -> Seq<Seq<char>> {
    match (run.stage, e) {
        (CaptureStage::Finishing, CaptureEvent::Heard(end)) => if end.heard {
            capture_warnings(end.room_silent, text::opt(end.advice))
        } else {
            text::views(run.warnings@)
        },
        _ => text::views(run.warnings@),
    }
}

fn quiet() -> (t: CaptureTurn)
    ensures
        t@ == no_turn(),
{
    CaptureTurn { status: None, phase: None, discard: false, heeded: false, error: None }
}

impl CaptureRun {
    /// A capture into a directory just claimed.
    pub fn new() -> (r: CaptureRun)
        ensures
            r.stage == CaptureStage::Preparing,
            r.capture == (Capture {
                mic_hz: 0,
                call_hz: 0,
                mic_channels: 0,
                call_channels: 0,
                frames: 0,
            }),
            r.warnings@.len() == 0,
    {
        CaptureRun {
            stage: CaptureStage::Preparing,
            capture: Capture {
                mic_hz: 0,
                call_hz: 0,
                mic_channels: 0,
                call_channels: 0,
                frames: 0,
            },
            warnings: Vec::new(),
        }
    }

    /// The capture after an event, and what it asks for. The directory is only
    /// discarded while nothing has been recorded into it, and `captured` is only
    /// written once everything is on disk.
    pub fn step(self, e: CaptureEvent, dir: &str) -> (r: (CaptureRun, CaptureTurn))
        requires
            e matches CaptureEvent::Drained { room, call } ==> self.capture.frames + longer(
                room as int,
                call as int,
            ) <= u64::MAX,
        ensures
            r.0.stage == capture_stage(self, e),
            r.0.capture == counted(self, e),
            text::views(r.0.warnings@) == warned(self, e),
            r.1@ == capture_turn(self, e, dir@),
    {
        let stage: CaptureStage = self.stage;
        let capture: Capture = self.capture;
        let warnings: Vec<String> = self.warnings;
        if stage == CaptureStage::Captured || stage == CaptureStage::Failed {
            return (CaptureRun { stage, capture, warnings }, quiet());
        }
        match e {
            CaptureEvent::Broke(why) => {
                let turn: CaptureTurn = CaptureTurn {
                    discard: stage == CaptureStage::Preparing,
                    error: Some(why),
                    ..quiet()
                };
                (CaptureRun { stage: CaptureStage::Failed, capture, warnings }, turn)
            },
            CaptureEvent::Tapped { mic_hz, call_hz, mic_channels, call_channels } => {
                if stage != CaptureStage::Preparing {
                    return (CaptureRun { stage, capture, warnings }, quiet());
                }
                match Capture::start(mic_hz, call_hz, mic_channels, call_channels) {
                    Ok(c) => (CaptureRun { stage, capture: c, warnings }, quiet()),
                    Err(why) => {
                        let turn: CaptureTurn = CaptureTurn {
                            discard: true,
                            error: Some(why),
                            ..quiet()
                        };
                        (CaptureRun { stage: CaptureStage::Failed, capture, warnings }, turn)
                    },
                }
            },
            CaptureEvent::Opened => {
                let next: CaptureStage = if stage == CaptureStage::Preparing {
                    CaptureStage::Recording
                } else {
                    stage
                };
                (CaptureRun { stage: next, capture, warnings }, quiet())
            },
            CaptureEvent::Polled { interrupted, sentinel, deadline_passed } => {
                if stage != CaptureStage::Recording {
                    return (CaptureRun { stage, capture, warnings }, quiet());
                }
                let next: CaptureStage = match capture.step(interrupted, sentinel, deadline_passed) {
                    CaptureStep::Drain => stage,
                    CaptureStep::Finish => CaptureStage::Closing,
                };
                (CaptureRun { stage: next, capture, warnings }, quiet())
            },
            CaptureEvent::Closed => {
                if stage != CaptureStage::Closing {
                    return (CaptureRun { stage, capture, warnings }, quiet());
                }
                let turn: CaptureTurn = CaptureTurn {
                    status: Some(Status::Finishing),
                    phase: Some(MeterPhase::Done),
                    heeded: true,
                    ..quiet()
                };
                (CaptureRun { stage: CaptureStage::Finishing, capture, warnings }, turn)
            },
            CaptureEvent::Second { seconds, arriving, room_peak, call_peak } => {
                if stage != CaptureStage::Recording {
                    return (CaptureRun { stage, capture, warnings }, quiet());
                }
                let line: String = capture.line(
                    seconds,
                    arriving,
                    room_peak.as_str(),
                    call_peak.as_str(),
                );
                let turn: CaptureTurn = CaptureTurn {
                    status: Some(Status::Recording(line)),
                    phase: Some(MeterPhase::Capturing),
                    ..quiet()
                };
                (CaptureRun { stage, capture, warnings }, turn)
            },
            CaptureEvent::Drained { room, call } => {
                if stage != CaptureStage::Recording {
                    return (CaptureRun { stage, capture, warnings }, quiet());
                }
                let mut c: Capture = capture;
                c.drained(room, call);
                (CaptureRun { stage, capture: c, warnings }, quiet())
            },
            CaptureEvent::Heard(end) => {
                if stage != CaptureStage::Finishing {
                    return (CaptureRun { stage, capture, warnings }, quiet());
                }
                match capture.finish(&end, dir) {
                    Ok(w) => (CaptureRun { stage, capture, warnings: w }, quiet()),
                    Err(why) => {
                        let turn: CaptureTurn = CaptureTurn {
                            status: Some(Status::Failed("no audio was captured".to_owned())),
                            phase: Some(MeterPhase::Failed),
                            error: Some(why),
                            ..quiet()
                        };
                        (CaptureRun { stage: CaptureStage::Failed, capture, warnings }, turn)
                    },
                }
            },
            CaptureEvent::Saved => {
                if stage != CaptureStage::Finishing {
                    return (CaptureRun { stage, capture, warnings }, quiet());
                }
                let turn: CaptureTurn = CaptureTurn { status: Some(Status::Captured), ..quiet() };
                (CaptureRun { stage: CaptureStage::Captured, capture, warnings }, turn)
            },
        }
    }
}

/// Once a capture has started recording its directory is never discarded,
/// whatever happens: it may hold the only copy of a conversation.
pub proof fn a_recording_is_never_discarded(run: CaptureRun, e: CaptureEvent, dir: Seq<char>)
    requires
        run.stage != CaptureStage::Preparing,
    ensures
        !capture_turn(run, e, dir).discard,
        capture_stage(run, e) != CaptureStage::Preparing,
{
}

/// A capture that fails before it recorded anything leaves nothing behind, and
/// always says why.
pub proof fn a_failed_start_leaves_nothing(run: CaptureRun, e: CaptureEvent, dir: Seq<char>)
    requires
        run.stage != CaptureStage::Failed,
        capture_stage(run, e) == CaptureStage::Failed,
    ensures
        capture_turn(run, e, dir).error is Some,
        capture_turn(run, e, dir).discard == (run.stage == CaptureStage::Preparing),
{
}

/// A session only reads as finishing, and its stop sentinel only goes, once the
/// scratch files are closed: where closing them fails, both stay as they were.
pub proof fn finishing_means_closed(run: CaptureRun, e: CaptureEvent, dir: Seq<char>)
    ensures
        capture_turn(run, e, dir).status == Some(StatusText::Finishing) ==> run.stage
            == CaptureStage::Closing && e is Closed,
        capture_turn(run, e, dir).heeded ==> run.stage == CaptureStage::Closing && e is Closed,
        run.stage == CaptureStage::Closing && e is Broke ==> capture_turn(run, e, dir).status is None
            && !capture_turn(run, e, dir).heeded,
{
}

/// A session only reads as captured once its tracks and metadata are written.
pub proof fn captured_means_saved(run: CaptureRun, e: CaptureEvent, dir: Seq<char>)
    requires
        run.stage != CaptureStage::Captured,
    ensures
        capture_turn(run, e, dir).status == Some(StatusText::Captured) <==> capture_stage(run, e)
            == CaptureStage::Captured,
        capture_stage(run, e) == CaptureStage::Captured ==> run.stage == CaptureStage::Finishing
            && e is Saved,
{
}

/// What a tick of a running capture leaves on the meter.
pub fn tick(meter: &mut Meter, elapsed_ms: u64, room_milli: u32, call_milli: u32, arriving: bool)
    ensures
        *final(meter) == (Meter {
            elapsed_ms,
            room_peak_milli: room_milli,
            call_peak_milli: call_milli,
            audio_arriving: arriving,
            phase: MeterPhase::Capturing.number(),
        }),
{
    meter.elapsed_ms = elapsed_ms;
    meter.room_peak_milli = room_milli;
    meter.call_peak_milli = call_milli;
    meter.audio_arriving = arriving;
    meter.set_phase(MeterPhase::Capturing);
}

/// A decoded segment as a record: its samples at 16 kHz become milliseconds.
pub fn raw_record(track: Track, start: usize, end: usize, text: String, confidence: u32) -> (r:
    RawRecord)
    requires
        start * 1000 <= u64::MAX,
        end * 1000 <= u64::MAX,
    ensures
        r.track == track,
        r.start_ms == start as int * 1000 / 16000,
        r.end_ms == end as int * 1000 / 16000,
        r.text@ == text@,
        r.confidence == confidence,
{
    RawRecord {
        track,
        start_ms: start as u64 * 1000 / 16000,
        end_ms: end as u64 * 1000 / 16000,
        text,
        confidence,
    }
}

/// How far a transcription has come.
#[derive(Debug, Clone, Copy, PartialEq, Eq, Structural)]
pub enum Stage {
    /// Nothing has been written yet.
    Waiting,
    /// The lock is held and the tracks are being recognised.
    Transcribing,
    /// The words are on disk; speakers are being told apart.
    Separating,
    /// The document is being written.
    Writing,
    Done,
    Failed,
}

/// What happened to a transcription.
#[derive(Debug)]
pub enum Progress {
    /// The lock is held and the models are there.
    Ready,
    /// Both tracks were recognised, into this many lines.
    Transcribed(usize),
    /// Telling speakers apart is over, well or badly.
    Separated(bool),
    /// The document was written.
    Written,
    /// Something failed.
    Broke(String),
}

/// Where a stage goes when something happens. A failure to tell speakers apart
/// is not a failure: a transcript without speakers still beats losing the
/// recording to a model that failed to load.
pub open spec fn next_stage(s: Stage, p: Progress, diarize: bool) -> Stage {
    match (s, p) {
        (Stage::Done, _) => Stage::Done,
        (Stage::Failed, _) => Stage::Failed,
        (_, Progress::Broke(_)) => Stage::Failed,
        (Stage::Waiting, Progress::Ready) => Stage::Transcribing,
        (Stage::Transcribing, Progress::Transcribed(n)) => if diarize && n > 0 {
            Stage::Separating
        } else {
            Stage::Writing
        },
        (Stage::Separating, Progress::Separated(_)) => Stage::Writing,
        (Stage::Writing, Progress::Written) => Stage::Done,
        _ => s,
    }
}

/// What entering a stage writes to the status file.
pub open spec fn stage_status(s: Stage, why: Seq<char>) -> Option<StatusText> {
    match s {
        Stage::Waiting => None,
        Stage::Transcribing => Some(StatusText::Transcribing),
        Stage::Separating => Some(StatusText::SeparatingVoices),
        Stage::Writing => None,
        Stage::Done => Some(StatusText::Done),
        Stage::Failed => Some(StatusText::Failed(why)),
    }
}

/// What entering a stage shows on the meter.
pub open spec fn stage_phase(s: Stage) -> Option<MeterPhase> {
    match s {
        Stage::Waiting => None,
        Stage::Transcribing => Some(MeterPhase::Transcribing),
        Stage::Separating => Some(MeterPhase::Diarizing),
        Stage::Writing => None,
        Stage::Done => Some(MeterPhase::Done),
        Stage::Failed => Some(MeterPhase::Failed),
    }
}

/// Why a transcription failed, where it did.
pub open spec fn why(p: Progress) -> Seq<char> {
    match p {
        Progress::Broke(e) => e@,
        _ => Seq::empty(),
    }
}

/// The next stage of a transcription, with what to write to the status file and
/// show on the meter if it moved.
pub fn transcribe_step(s: Stage, p: Progress, diarize: bool) -> (r: (
    Stage,
    Option<Status>,
    Option<MeterPhase>,
))
    ensures
        r.0 == next_stage(s, p, diarize),
        r.0 == s ==> r.1 is None && r.2 is None,
        r.0 != s ==> (match r.1 {
            Some(x) => stage_status(r.0, why(p)) == Some(x@),
            None => stage_status(r.0, why(p)) is None,
        }),
        r.0 != s ==> r.2 == stage_phase(r.0),
{
    match s {
        Stage::Done => {
            return (s, None, None);
        },
        Stage::Failed => {
            return (s, None, None);
        },
        _ => {},
    }
    match p {
        Progress::Broke(e) => (Stage::Failed, Some(Status::Failed(e)), Some(MeterPhase::Failed)),
        Progress::Ready => match s {
            Stage::Waiting => (
                Stage::Transcribing,
                Some(Status::Transcribing),
                Some(MeterPhase::Transcribing),
            ),
            _ => (s, None, None),
        },
        Progress::Transcribed(n) => match s {
            Stage::Transcribing => if diarize && n > 0 {
                (Stage::Separating, Some(Status::SeparatingVoices), Some(MeterPhase::Diarizing))
            } else {
                (Stage::Writing, None, None)
            },
            _ => (s, None, None),
        },
        Progress::Separated(_) => match s {
            Stage::Separating => (Stage::Writing, None, None),
            _ => (s, None, None),
        },
        Progress::Written => match s {
            Stage::Writing => (Stage::Done, Some(Status::Done), Some(MeterPhase::Done)),
            _ => (s, None, None),
        },
    }
}

/// A transcription is only ever done once its document has been written.
pub proof fn done_means_written(s: Stage, p: Progress, diarize: bool)
    requires
        s != Stage::Done,
        next_stage(s, p, diarize) == Stage::Done,
    ensures
        s == Stage::Writing,
        p is Written,
{
}

/// Failing to tell speakers apart never fails a transcription.
pub proof fn separation_never_fails_a_transcript(well: bool, diarize: bool)
    ensures
        next_stage(Stage::Separating, Progress::Separated(well), diarize) == Stage::Writing,
{
}

/// Models are looked for below the working directory first, then beside the
/// executable, then below each directory above it in turn, no more than five.
pub proof fn models_are_looked_for_in_order(above: Seq<Seq<char>>, k: nat, i: int)
    requires
        k <= above.len(),
        0 <= i < k,
    ensures
        candidates(above, k).len() == k + 2,
        candidates(above, k)[0] == "models"@,
        candidates(above, k)[1] == text::beneath(above[0], "../Resources/models"@),
        candidates(above, k)[2 + i] == text::beneath(above[i], "models"@),
        candidates(Seq::<Seq<char>>::empty(), 0) == seq!["models"@],
        climbed(above.len()) <= 5,
        climbed(above.len()) <= above.len(),
        climbed(above.len()) == 5 || climbed(above.len()) == above.len(),
    decreases k,
{
    if k > 1 {
        models_are_looked_for_in_order(
            above,
            (k - 1) as nat,
            if i < k - 1 {
                i
            } else {
                0
            },
        );
    } else {
        assert(candidates(above, 0).len() == 2);
    }
}

/// A recording is as long as the longer of its tracks: what is drained counts by the
/// track that has more of it, and only while recording.
pub proof fn the_longer_track_counts(run: CaptureRun, room: usize, call: usize)
    requires
        run.capture.frames + room <= u64::MAX,
        run.capture.frames + call <= u64::MAX,
    ensures
        ({
            let now = counted(run, CaptureEvent::Drained { room, call });
            &&& run.stage == CaptureStage::Recording ==> now.frames >= run.capture.frames + room
                && now.frames >= run.capture.frames + call && (now.frames == run.capture.frames
                + room || now.frames == run.capture.frames + call)
            &&& run.stage != CaptureStage::Recording ==> now == run.capture
            &&& now.mic_hz == run.capture.mic_hz && now.call_hz == run.capture.call_hz
        }),
{
}

/// A capture goes on until it is told to stop, by any of the three ways; a
/// transcription is separated only if that was asked for and there is something to
/// separate, and what breaks is always a failure until it is over.
pub proof fn a_capture_goes_on_until_told(
    run: CaptureRun,
    interrupted: bool,
    sentinel: bool,
    deadline_passed: bool,
    s: Stage,
    n: usize,
    diarize: bool,
    e: String,
)
    ensures
        run.stage == CaptureStage::Recording ==> (capture_stage(
            run,
            CaptureEvent::Polled { interrupted, sentinel, deadline_passed },
        ) == CaptureStage::Closing <==> interrupted || sentinel || deadline_passed),
        next_stage(Stage::Transcribing, Progress::Transcribed(n), diarize) == Stage::Separating
            <==> diarize && n > 0,
        next_stage(s, Progress::Broke(e), diarize) == Stage::Failed <==> s != Stage::Done,
        s == Stage::Failed || s == Stage::Done ==> next_stage(s, Progress::Ready, diarize) == s,
{
}

/// Where sessions live is what the environment says, or else what was set, or else a
/// folder called Ambient.
pub proof fn the_environment_wins(
    env: Option<Seq<char>>,
    configured: Option<Seq<char>>,
    user_home: Option<Seq<char>>,
)
    ensures
        env matches Some(p) ==> home_path(env, configured, user_home) == p,
        env is None && configured is Some ==> home_path(env, configured, user_home)
            == configured->0,
        env is None && configured is None ==> text::file_name(
            home_path(env, configured, user_home),
        ) == Some("Ambient"@),
{
    reveal_strlit("Ambient");
    let below = text::beneath(
        match user_home {
            Some(h) => h,
            None => "."@,
        },
        "Documents"@,
    );
    assert("Ambient"@.len() == 7);
    assert(seq!['.'].len() == 1 && seq!['.', '.'].len() == 2);
    assert(!"Ambient"@.contains('/')) by {
        assert forall|i: int| 0 <= i < 7 implies "Ambient"@[i] != '/' by {}
    }
    text::a_path_names_its_last_part(below, "Ambient"@);
}

/// A running capture tells the time, then how loud the room is, then the call; one
/// that hears nothing says so. It warns of a silent room first, then of whatever else
/// it was advised of.
pub proof fn a_capture_tells_room_then_call(
    seconds: nat,
    room: Seq<char>,
    call: Seq<char>,
    room_silent: bool,
    advice: Option<Seq<char>>,
)
    ensures
        capture_line(seconds, true, room, call) == session::clock(seconds) + "  room "@ + room
            + "  call "@ + call,
        capture_line(seconds, false, room, call) == session::clock(seconds)
            + "  no audio arriving"@,
        capture_warnings(room_silent, advice).len() == (if room_silent {
            1int
        } else {
            0
        }) + (if advice is Some {
            1int
        } else {
            0
        }),
        advice matches Some(a) ==> capture_warnings(room_silent, advice).last() == a,
        room_silent ==> capture_warnings(room_silent, advice)[0]
            == "the room track is silent — check the microphone grant."@,
{
}

/// A tap with a channel on either track sets what is counted, from nothing; one with
/// none leaves it and fails the capture.
pub proof fn a_tap_sets_what_is_counted(
    run: CaptureRun,
    mic_hz: u32,
    call_hz: u32,
    mic_channels: u32,
    call_channels: u32,
)
    requires
        run.stage == CaptureStage::Preparing,
    ensures
        ({
            let e = CaptureEvent::Tapped { mic_hz, call_hz, mic_channels, call_channels };
            let now = counted(run, e);
            &&& mic_channels > 0 || call_channels > 0 ==> now.mic_hz == mic_hz && now.call_hz
                == call_hz && now.mic_channels == mic_channels && now.call_channels
                == call_channels && now.frames == 0 && capture_stage(run, e)
                == CaptureStage::Preparing
            &&& mic_channels == 0 && call_channels == 0 ==> now == run.capture && capture_stage(
                run,
                e,
            ) == CaptureStage::Failed
        }),
{
}

/// What a status file says is a word for each stage and ends its line; a recording's
/// holds its level line, a failure's what went wrong.
pub proof fn a_status_file_is_one_word_and_what_it_is_about(line: Seq<char>)
    ensures
        StatusText::Recording(line).file() == "recording "@ + line + "\n"@,
        StatusText::Failed(line).file() == "failed: "@ + line + "\n"@,
        StatusText::Transcribing.file() == "transcribing\n"@,
        StatusText::SeparatingVoices.file() == "separating voices\n"@,
        StatusText::Finishing.file() == "finishing\n"@,
        StatusText::Captured.file() == "captured\n"@,
        StatusText::Done.file() == "done\n"@,
{
}

} // verus!
