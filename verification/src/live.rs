//! Incremental transcription over disk-backed capture spools.
//!
//! The capture thread only appends native-rate mono PCM. A checkpoint and a
//! pending append journal make `raw.jsonl` a durable, append-only cursor even
//! when the process stops between writing a batch and advancing its offsets.

use crate::session::{RawRecord, Track};
use crate::text;
use crate::text::{decimal_string, join};
use crate::vad;
use crate::vad::Segment;
use vstd::prelude::*;

verus! {

pub const CADENCE_SECONDS: u64 = 10;

pub const MAX_CARRY_SECONDS: u64 = 30;

pub const STATE_FILE: &'static str = "live-asr.json";

pub const ROOM_SPOOL: &'static str = "room.live.pcm";

pub const CALL_SPOOL: &'static str = "call.live.pcm";

/// How far one track has been read.
#[derive(Debug, Clone, Copy, PartialEq, Eq, Structural)]
pub struct TrackState {
    /// Native samples consumed at cadence boundaries.
    pub read: u64,
    /// Start of speech held across the preceding boundary.
    pub carry: Option<u64>,
}

impl Default for TrackState {
    fn default() -> (t: Self)
        ensures
            t == (TrackState { read: 0, carry: None }),
    {
        TrackState { read: 0, carry: None }
    }
}

/// A batch of transcript lines that is on its way to disk, and where the tracks
/// stand once it is there.
#[derive(Debug)]
pub struct Pending {
    pub lines: Vec<String>,
    pub tracks: [TrackState; 2],
    pub complete: bool,
}

/// The checkpoint of a live transcription.
#[derive(Debug)]
pub struct State {
    pub version: u8,
    pub rates: [u32; 2],
    pub tracks: [TrackState; 2],
    /// The length of the durable transcript.
    pub raw_len: u64,
    pub complete: bool,
    pub pending: Option<Pending>,
}

impl State {
    pub fn new(rates: [u32; 2], raw_len: u64) -> (s: State)
        ensures
            s.version == 1,
            s.rates == rates,
            s.tracks@ == seq![
                TrackState { read: 0, carry: None },
                TrackState { read: 0, carry: None },
            ],
            s.raw_len == raw_len,
            !s.complete,
            s.pending is None,
    {
        State {
            version: 1,
            rates,
            tracks: [TrackState { read: 0, carry: None }, TrackState { read: 0, carry: None }],
            raw_len,
            complete: false,
            pending: None,
        }
    }
}

/// A stretch of one track to be decoded.
#[derive(Debug, Clone, Copy, PartialEq, Eq, Structural)]
pub struct Block {
    pub start: u64,
    pub end: u64,
    /// It ends where the recording does.
    pub final_tail: bool,
    /// It is as long as a block may be, so nothing is held across its end.
    pub force_boundary: bool,
}

pub open spec fn lesser(a: int, b: int) -> int {
    if a < b {
        a
    } else {
        b
    }
}

/// Where the next block starts: at speech held from before, or where reading
/// left off.
pub open spec fn block_start(track: TrackState) -> u64 {
    match track.carry {
        Some(c) => c,
        None => track.read,
    }
}

pub open spec fn block_end(track: TrackState, rate: u32, available: u64) -> int {
    lesser(
        lesser(
            track.read + rate * CADENCE_SECONDS,
            block_start(track) + rate * MAX_CARRY_SECONDS,
        ),
        available as int,
    )
}

/// A block is due: a whole cadence has arrived, or the recording is over and
/// something is unread or held.
pub open spec fn block_due(track: TrackState, rate: u32, available: u64, stopping: bool) -> bool {
    &&& stopping || available - track.read >= rate * CADENCE_SECONDS
    &&& track.read < available || track.carry is Some
    &&& block_start(track) < block_end(track, rate, available)
}

/// The next block of a track that has `available` native samples on disk.
pub fn next_block(track: TrackState, rate: u32, available: u64, stopping: bool) -> (r: Option<
    Block,
>)
    requires
        track.read + rate * CADENCE_SECONDS <= u64::MAX,
        block_start(track) + rate * MAX_CARRY_SECONDS <= u64::MAX,
    ensures
        r is Some <==> block_due(track, rate, available, stopping),
        r matches Some(b) ==> {
            &&& b.start == block_start(track)
            &&& b.end == block_end(track, rate, available)
            &&& b.final_tail == (stopping && b.end == available)
            &&& b.force_boundary == (b.end - b.start >= rate * MAX_CARRY_SECONDS)
        },
{
    let cadence: u64 = rate as u64 * CADENCE_SECONDS;
    let longest: u64 = rate as u64 * MAX_CARRY_SECONDS;
    let unread: u64 = if available > track.read {
        available - track.read
    } else {
        0
    };
    if !stopping && unread < cadence {
        return None;
    }
    if track.read >= available && track.carry.is_none() {
        return None;
    }
    let start: u64 = match track.carry {
        Some(c) => c,
        None => track.read,
    };
    let mut end: u64 = track.read + cadence;
    if start + longest < end {
        end = start + longest;
    }
    if available < end {
        end = available;
    }
    if start >= end {
        return None;
    }
    Some(
        Block {
            start,
            end,
            final_tail: stopping && end == available,
            force_boundary: end - start >= longest,
        },
    )
}

/// A track that is being read in order: nothing is read that is not there, and
/// what is held is less than the longest block.
pub open spec fn in_step(track: TrackState, rate: u32, available: u64) -> bool {
    &&& track.read <= available
    &&& track.carry matches Some(c) ==> c <= track.read && track.read - c < rate
        * MAX_CARRY_SECONDS
}

/// `value` samples at one rate as samples at another, at most what fits.
pub open spec fn scaled(value: u64, from: u32, to: u32) -> int {
    let product = value * to;
    (if product > u64::MAX {
        u64::MAX as int
    } else {
        product
    }) / from as int
}

pub fn scale(value: u64, from: u32, to: u32) -> (r: u64)
    requires
        from > 0,
    ensures
        r == scaled(value, from, to),
{
    proof {
        assert(0 <= value as int * to as int <= u64::MAX * u32::MAX) by (nonlinear_arith)
            requires
                0 <= value <= u64::MAX,
                0 <= to <= u32::MAX,
        ;
    }
    let product: u128 = value as u128 * to as u128;
    let top: u64 = if product > u64::MAX as u128 {
        u64::MAX
    } else {
        product as u64
    };
    top / from as u64
}

/// Whether a block's last turn is held over to the next block: it runs up to the
/// block's end and more audio is coming.
pub fn hold(turns: &[Segment], samples: usize, block: Block) -> (r: bool)
    ensures
        r == (!block.final_tail && !block.force_boundary && turns@.len() > 0 && samples
            - turns@.last().end <= vad::PAD),
{
    if block.final_tail || block.force_boundary || turns.len() == 0 {
        return false;
    }
    let last: usize = turns[turns.len() - 1].end;
    let rest: usize = if samples > last {
        samples - last
    } else {
        0
    };
    rest <= vad::PAD
}

pub open spec fn track_at(index: usize) -> Track {
    if index == 0 {
        Track::Room
    } else {
        Track::Call
    }
}

/// A decoded turn of a block as a record: its place in the block at 16 kHz
/// becomes a time in the recording.
pub fn block_record(
    index: usize,
    rate: u32,
    block: Block,
    seg: Segment,
    text: String,
    confidence: u32,
) -> (r: RawRecord)
    requires
        rate > 0,
        (block.start + scaled(seg.start as u64, 16000, rate)) * 1000 <= u64::MAX,
        (block.start + scaled(seg.end as u64, 16000, rate)) * 1000 <= u64::MAX,
    ensures
        r.track == track_at(index),
        r.start_ms == (block.start + scaled(seg.start as u64, 16000, rate)) * 1000 / rate as int,
        r.end_ms == (block.start + scaled(seg.end as u64, 16000, rate)) * 1000 / rate as int,
        r.text@ == text@,
        r.confidence == confidence,
{
    let start: u64 = block.start + scale(seg.start as u64, 16000, rate);
    let end: u64 = block.start + scale(seg.end as u64, 16000, rate);
    RawRecord {
        track: if index == 0 {
            Track::Room
        } else {
            Track::Call
        },
        start_ms: start * 1000 / rate as u64,
        end_ms: end * 1000 / rate as u64,
        text,
        confidence,
    }
}

/// Where a track stands after a block: everything up to its end is read, and a
/// turn held over starts the next one.
pub fn after_block(block: Block, rate: u32, held: Option<usize>) -> (t: TrackState)
    requires
        held matches Some(s) ==> block.start + scaled(s as u64, 16000, rate) <= u64::MAX,
    ensures
        t.read == block.end,
        match held {
            Some(s) => t.carry == Some((block.start + scaled(s as u64, 16000, rate)) as u64),
            None => t.carry is None,
        },
{
    let carry: Option<u64> = match held {
        Some(s) => Some(block.start + scale(s as u64, 16000, rate)),
        None => None,
    };
    TrackState { read: block.end, carry }
}

/// Reading never goes back and never skips: from a track in step, a block starts
/// no later than where reading left off, and ends no earlier.
pub proof fn blocks_leave_no_gap(track: TrackState, rate: u32, available: u64, stopping: bool)
    requires
        in_step(track, rate, available),
        block_due(track, rate, available, stopping),
    ensures
        block_start(track) <= track.read,
        track.read <= block_end(track, rate, available) <= available,
        block_end(track, rate, available) - block_start(track) <= rate * MAX_CARRY_SECONDS,
{
}

/// A track stays in step: whatever a block that need not be forced out holds
/// over, and with nothing held over after one that must.
pub proof fn reading_stays_in_step(
    track: TrackState,
    rate: u32,
    available: u64,
    stopping: bool,
    carry: Option<u64>,
)
    requires
        in_step(track, rate, available),
        block_due(track, rate, available, stopping),
        carry matches Some(c) ==> {
            &&& block_start(track) <= c <= block_end(track, rate, available)
            &&& block_end(track, rate, available) - block_start(track) < rate * MAX_CARRY_SECONDS
        },
    ensures
        in_step(
            TrackState { read: block_end(track, rate, available) as u64, carry },
            rate,
            available,
        ),
{
}

/// What a batch of lines puts on disk: each line and a newline after it.
pub open spec fn payload(lines: Seq<Seq<char>>) -> Seq<u8> {
    if lines.len() == 0 {
        Seq::empty()
    } else {
        vstd::utf8::encode_utf8(text::joined(lines, "\n"@) + "\n"@)
    }
}

/// The bytes of a batch of lines.
pub fn payload_bytes(lines: &[String]) -> (r: Vec<u8>)
    ensures
        r@ == payload(text::views(lines@)),
{
    proof {
        assert(text::views(lines@).len() == lines@.len());
    }
    if lines.len() == 0 {
        return Vec::new();
    }
    let mut s: String = join(lines, "\n");
    s.append("\n");
    let bytes: &[u8] = s.as_str().as_bytes();
    let mut out: Vec<u8> = Vec::new();
    let mut i: usize = 0;
    while i < bytes.len()
        invariant
            i <= bytes@.len(),
            out@ == bytes@.take(i as int),
        decreases bytes@.len() - i,
    {
        out.push(bytes[i]);
        i = i + 1;
        proof {
            assert(bytes@.take(i as int) == bytes@.take(i - 1).push(bytes@[i - 1]));
        }
    }
    proof {
        assert(bytes@.take(bytes@.len() as int) == bytes@);
    }
    out
}

/// A checkpoint with nothing pending: the pending batch is durable.
pub open spec fn settled(s: State) -> State {
    match s.pending {
        Some(p) => State {
            tracks: p.tracks,
            raw_len: (s.raw_len + payload(text::views(p.lines@)).len()) as u64,
            complete: p.complete,
            pending: None,
            ..s
        },
        None => s,
    }
}

/// What is still missing on disk of a pending batch, given what stands there
/// after the durable prefix; or why that cannot be.
pub open spec fn missing(s: State, file: Seq<u8>) -> Option<Seq<u8>> {
    match s.pending {
        None => Some(Seq::empty()),
        Some(p) => {
            let all = payload(text::views(p.lines@));
            let tail = file.skip(s.raw_len as int);
            if file.len() < s.raw_len || !tail.is_prefix_of(all) {
                None
            } else {
                Some(all.skip(tail.len() as int))
            }
        },
    }
}

/// Finish a pending batch: what to append to the transcript, and the checkpoint
/// to write once that is durable. What is on disk is only ever added to.
pub fn recover_pending(state: State, raw: &[u8], raw_path: &str) -> (r: Result<
    (State, Vec<u8>),
    String,
>)
    requires
        state.pending matches Some(p) ==> state.raw_len + payload(text::views(p.lines@)).len()
            <= u64::MAX,
    ensures
        match r {
            Ok(x) => missing(state, raw@) == Some(x.1@) && x.0 == settled(state),
            Err(e) => missing(state, raw@) is None && (if raw@.len() < state.raw_len {
                e@ == raw_path@ + " was truncated while live transcription was pending"@
            } else {
                e@ == raw_path@ + " changed after the durable live-transcription prefix"@
            }),
        },
{
    match state.pending {
        None => Ok((State { pending: None, ..state }, Vec::new())),
        Some(p) => {
            let all: Vec<u8> = payload_bytes(p.lines.as_slice());
            if (raw.len() as u64) < state.raw_len {
                let mut e: String = raw_path.to_owned();
                e.append(" was truncated while live transcription was pending");
                return Err(e);
            }
            let from: usize = state.raw_len as usize;
            let ghost tail = raw@.skip(from as int);
            let n: usize = raw.len() - from;
            let mut same: bool = n <= all.len();
            let mut i: usize = 0;
            while same && i < n
                invariant
                    from + n == raw@.len() <= usize::MAX,
                    tail == raw@.skip(from as int),
                    i <= n,
                    same ==> n <= all@.len(),
                    same ==> forall|j: int| 0 <= j < i ==> #[trigger] tail[j] == all@[j],
                    !same ==> !tail.is_prefix_of(all@),
                decreases n - i + if same {
                    1int
                } else {
                    0
                },
            {
                if raw[from + i] != all[i] {
                    proof {
                        assert(tail[i as int] != all@[i as int]);
                        if tail.is_prefix_of(all@) {
                            assert(tail == all@.subrange(0, tail.len() as int));
                            assert(all@.subrange(0, tail.len() as int)[i as int] == all@[i as int]);
                        }
                    }
                    same = false;
                } else {
                    i = i + 1;
                }
            }
            if !same {
                let mut e: String = raw_path.to_owned();
                e.append(" changed after the durable live-transcription prefix");
                return Err(e);
            }
            proof {
                assert(tail == all@.subrange(0, n as int));
            }
            let mut rest: Vec<u8> = Vec::new();
            let mut k: usize = n;
            while k < all.len()
                invariant
                    n <= k <= all@.len(),
                    rest@ == all@.subrange(n as int, k as int),
                decreases all@.len() - k,
            {
                rest.push(all[k]);
                k = k + 1;
            }
            proof {
                assert(all@.skip(n as int) == all@.subrange(n as int, all@.len() as int));
            }
            let next: State = State {
                version: state.version,
                rates: state.rates,
                tracks: p.tracks,
                raw_len: state.raw_len + all.len() as u64,
                complete: p.complete,
                pending: None,
            };
            Ok((next, rest))
        },
    }
}

/// Recovery is safe against a crash at any byte: however much of a batch reached
/// the disk, recovering appends exactly the rest, and the transcript is the
/// durable prefix followed by the whole batch.
pub proof fn recovery_is_crash_safe(state: State, prefix: Seq<u8>, written: int)
    requires
        state.pending is Some,
        prefix.len() == state.raw_len,
        0 <= written <= payload(text::views(state.pending->0.lines@)).len(),
    ensures
        ({
            let all = payload(text::views(state.pending->0.lines@));
            let on_disk = prefix + all.take(written);
            &&& missing(state, on_disk) is Some
            &&& on_disk + missing(state, on_disk)->0 == prefix + all
        }),
{
    let all = payload(text::views(state.pending->0.lines@));
    let on_disk = prefix + all.take(written);
    assert(on_disk.skip(state.raw_len as int) == all.take(written));
    assert(all.take(written) == all.subrange(0, written));
    assert(all.take(written).is_prefix_of(all));
    assert(on_disk + all.skip(written) == prefix + all);
}

/// Recovering twice is recovering once: with nothing pending there is nothing to
/// append and nothing to change.
pub proof fn recovery_is_idempotent(state: State, file: Seq<u8>)
    ensures
        settled(settled(state)) == settled(state),
        missing(settled(state), file) == Some(Seq::<u8>::empty()),
{
}

/// A batch put on its way: the checkpoint to make durable before the batch is
/// appended.
pub fn commit(state: State, lines: Vec<String>, tracks: [TrackState; 2], complete: bool) -> (s: State)
    ensures
        s == (State { pending: Some(Pending { lines, tracks, complete }), ..state }),
{
    State { pending: Some(Pending { lines, tracks, complete }), ..state }
}

/// What is wrong with a checkpoint that was read back, if anything.
pub open spec fn state_fault(state: State) -> Option<Seq<char>> {
    if state.version != 1 {
        Some(
            "unsupported live transcription state version "@ + text::decimal(
                state.version as nat,
            ),
        )
    } else if state.rates@[0] == 0 || state.rates@[1] == 0 {
        Some("live transcription state has a zero sample rate"@)
    } else {
        None
    }
}

/// A checkpoint read back is only used if it is one this version wrote, over
/// rates that can be divided by.
pub fn check_state(state: &State) -> (r: Result<(), String>)
    ensures
        match r {
            Ok(()) => state_fault(*state) is None,
            Err(e) => state_fault(*state) == Some(e@),
        },
{
    if state.version != 1 {
        let mut e: String = "unsupported live transcription state version ".to_owned();
        e.append(decimal_string(state.version as u64).as_str());
        return Err(e);
    }
    if state.rates[0] == 0 || state.rates[1] == 0 {
        return Err("live transcription state has a zero sample rate".to_owned());
    }
    Ok(())
}

/// Whether a live transcription may start over these rates, given the checkpoint
/// that is there already.
pub fn check_rates(rates: [u32; 2], existing: Option<&State>) -> (r: Result<(), String>)
    ensures
        match r {
            Ok(()) => rates@[0] != 0 && rates@[1] != 0 && (existing matches Some(s) ==> s.rates@[0]
                == rates@[0] && s.rates@[1] == rates@[1]),
            Err(e) => if rates@[0] == 0 || rates@[1] == 0 {
                e@ == "live transcription sample rates must be non-zero"@
            } else {
                (existing matches Some(s) && !(s.rates@[0] == rates@[0] && s.rates@[1] == rates@[1]))
                    && e@ == "live transcription sample rates changed across recovery"@
            },
        },
{
    if rates[0] == 0 || rates[1] == 0 {
        return Err("live transcription sample rates must be non-zero".to_owned());
    }
    if let Some(s) = existing {
        if s.rates[0] != rates[0] || s.rates[1] != rates[1] {
            return Err("live transcription sample rates changed across recovery".to_owned());
        }
    }
    Ok(())
}

/// What a worker that wants the one decoder does next.
#[derive(Debug, Clone, Copy, PartialEq, Eq, Structural)]
pub enum Lane {
    /// The decoder is its own.
    Take,
    /// It was asked to stop while another session held the decoder.
    GiveUp,
    /// Ask again in a moment.
    Wait,
}

/// Whether a worker gets the decoder: a free one is taken at once, and only a
/// worker that can be cancelled gives up waiting.
pub fn lane(free: bool, cancellable: bool, stop_requested: bool) -> (l: Lane)
    ensures
        l == (if free {
            Lane::Take
        } else if cancellable && stop_requested {
            Lane::GiveUp
        } else {
            Lane::Wait
        }),
{
    if free {
        Lane::Take
    } else if cancellable && stop_requested {
        Lane::GiveUp
    } else {
        Lane::Wait
    }
}

/// What a live worker does when it wakes.
#[derive(Debug, Clone, Copy, PartialEq, Eq, Structural)]
pub enum Wake {
    /// Stop here: the backlog is on disk and can be resumed.
    Leave,
    /// Go on decoding; the recording goes on too.
    Work,
    /// Go on decoding what is left; the recording is over.
    Drain,
}

/// A worker asked to stop leaves at once, unless it was started to finish what is
/// left.
pub fn on_wake(stop_requested: bool, drain_on_stop: bool, stopping: bool) -> (w: Wake)
    ensures
        w == (if stop_requested && !drain_on_stop {
            Wake::Leave
        } else if stop_requested || stopping {
            Wake::Drain
        } else {
            Wake::Work
        }),
{
    if stop_requested && !drain_on_stop {
        Wake::Leave
    } else if stop_requested || stopping {
        Wake::Drain
    } else {
        Wake::Work
    }
}

/// Everything on disk has been read and nothing is held over.
pub fn is_drained(state: &State, sizes: [u64; 2]) -> (r: bool)
    ensures
        r == forall|i: int|
            0 <= i < 2 ==> (#[trigger] state.tracks@[i]).read >= sizes@[i] && state.tracks@[i].carry is None,
{
    let a: TrackState = state.tracks[0];
    let b: TrackState = state.tracks[1];
    let r: bool = a.read >= sizes[0] && a.carry.is_none() && b.read >= sizes[1]
        && b.carry.is_none();
    proof {
        assert(state.tracks@[0] == a && state.tracks@[1] == b);
    }
    r
}

/// Whether a session's live transcription is complete, so that finalization may
/// skip decoding the whole tracks. A session without a checkpoint did not use the
/// live pipeline.
pub fn complete(checkpoint: Option<&State>) -> (r: Result<bool, String>)
    ensures
        match checkpoint {
            None => r == Ok::<bool, String>(false),
            Some(s) => match r {
                Ok(c) => state_fault(*s) is None && c == (s.complete),
                Err(e) => state_fault(*s) == Some(e@),
            },
        },
{
    match checkpoint {
        None => Ok(false),
        Some(s) => match check_state(s) {
            Ok(()) => Ok(s.complete),
            Err(e) => Err(e),
        },
    }
}

/// Whether an interrupted live worker has to be resumed once the capture has
/// closed its spools.
pub fn finish_existing(checkpoint: Option<&State>) -> (r: Result<bool, String>)
    ensures
        match checkpoint {
            None => r == Ok::<bool, String>(false),
            Some(s) => match r {
                Ok(c) => state_fault(*s) is None && c == (!s.complete),
                Err(e) => state_fault(*s) == Some(e@),
            },
        },
{
    match checkpoint {
        None => Ok(false),
        Some(s) => match complete(Some(s)) {
            Ok(c) => Ok(!c),
            Err(e) => Err(e),
        },
    }
}

/// A 16-bit sample as an unsigned number with the same bits.
pub open spec fn sample_bits(x: i16) -> int {
    if x >= 0 {
        x as int
    } else {
        x + 65536
    }
}

/// The first `k` samples as little-endian bytes.
pub open spec fn pcm(samples: Seq<i16>, k: nat) -> Seq<u8>
    decreases k,
{
    if k == 0 {
        Seq::empty()
    } else {
        pcm(samples, (k - 1) as nat).push((sample_bits(samples[k - 1]) % 256) as u8).push(
            (sample_bits(samples[k - 1]) / 256) as u8,
        )
    }
}

proof fn lemma_pcm_len(samples: Seq<i16>, k: nat)
    ensures
        pcm(samples, k).len() == 2 * k,
    decreases k,
{
    if k > 0 {
        lemma_pcm_len(samples, (k - 1) as nat);
    }
}

/// What mending a spool takes.
#[derive(Debug)]
pub struct Mend {
    /// How many bytes of the spool to keep: all but an orphan half sample.
    pub keep: u64,
    /// What to append after them.
    pub append: Vec<u8>,
}

/// Fill a missing spool tail from finalized native audio. The prefix is left
/// untouched because its offsets are already named by the durable checkpoint; a
/// failed two-byte sample write is not a published transcript byte, so only its
/// orphan byte is discarded.
pub fn repair_spool(bytes_on_disk: u64, samples: &[i16], path: &str) -> (r: Result<Mend, String>)
    requires
        samples@.len() <= u64::MAX / 2,
    ensures
        match r {
            Ok(m) => {
                &&& bytes_on_disk / 2 <= samples@.len()
                &&& m.keep == bytes_on_disk / 2 * 2
                &&& pcm(samples@, (bytes_on_disk / 2) as nat) + m.append@ == pcm(
                    samples@,
                    samples@.len(),
                )
            },
            Err(e) => bytes_on_disk / 2 > samples@.len() && e@ == path@
                + " is longer than finalized capture audio"@,
        },
{
    let written: u64 = bytes_on_disk / 2;
    if written > samples.len() as u64 {
        let mut e: String = path.to_owned();
        e.append(" is longer than finalized capture audio");
        return Err(e);
    }
    let mut append: Vec<u8> = Vec::new();
    let ghost front = pcm(samples@, written as nat);
    let mut k: usize = written as usize;
    proof {
        assert(front + Seq::<u8>::empty() == front);
    }
    while k < samples.len()
        invariant
            written <= k <= samples@.len(),
            front == pcm(samples@, written as nat),
            front + append@ == pcm(samples@, k as nat),
        decreases samples@.len() - k,
    {
        let x: i16 = samples[k];
        let bits: u32 = if x >= 0 {
            x as u32
        } else {
            (x as i32 + 65536) as u32
        };
        let low: u8 = (bits % 256) as u8;
        let high: u8 = (bits / 256) as u8;
        proof {
            assert(bits == sample_bits(x));
            assert(front + append@.push(low).push(high) == (front + append@).push(low).push(high));
        }
        append.push(low);
        append.push(high);
        k = k + 1;
    }
    Ok(Mend { keep: written * 2, append })
}

/// Mending rebuilds the spool exactly: whatever prefix of the audio is on disk,
/// even with half a sample after it, what is kept and what is appended are the
/// whole of it.
pub proof fn mending_rebuilds_exactly(samples: Seq<i16>, spool: Seq<u8>, append: Seq<u8>)
    requires
        spool.len() / 2 <= samples.len(),
        spool.take((spool.len() / 2 * 2) as int) == pcm(samples, spool.len() / 2),
        pcm(samples, spool.len() / 2) + append == pcm(samples, samples.len()),
    ensures
        spool.take((spool.len() / 2 * 2) as int) + append == pcm(samples, samples.len()),
        (spool.take((spool.len() / 2 * 2) as int) + append).len() == 2 * samples.len(),
{
    lemma_pcm_len(samples, samples.len());
}

/// Which retained native audio a track's spool is mended from: the first that is
/// there.
pub fn repair_from_native(track: Track, has_source: bool, has_native: bool) -> (r: Option<&'static str>)
    ensures
        match r {
            Some(n) => n@ == (match track {
                Track::Room => if has_source {
                    "room.source.wav"@
                } else {
                    "room.native.wav"@
                },
                Track::Call => if has_source {
                    "call.source.wav"@
                } else {
                    "call.native.wav"@
                },
            }) && (has_source || has_native),
            None => !has_source && !has_native,
        },
{
    if !has_source && !has_native {
        return None;
    }
    match track {
        Track::Room => if has_source {
            Some("room.source.wav")
        } else {
            Some("room.native.wav")
        },
        Track::Call => if has_source {
            Some("call.source.wav")
        } else {
            Some("call.native.wav")
        },
    }
}

/// A block starts with the speech held over, or where reading left off, and reaches
/// as far as it may: to the end of what has arrived, to the end of its cadence, or to
/// the longest a block can be, whichever comes first.
pub proof fn a_block_reaches_as_far_as_it_may(track: TrackState, rate: u32, available: u64)
    ensures
        track.carry matches Some(c) ==> block_start(track) == c,
        track.carry is None ==> block_start(track) == track.read,
        block_end(track, rate, available) <= available,
        block_end(track, rate, available) <= track.read + 10 * rate,
        block_end(track, rate, available) <= block_start(track) + 30 * rate,
        block_end(track, rate, available) == available || block_end(track, rate, available)
            == track.read + 10 * rate || block_end(track, rate, available) == block_start(track)
            + 30 * rate,
{
    assert(rate * CADENCE_SECONDS == 10 * rate) by (nonlinear_arith)
        requires
            CADENCE_SECONDS == 10,
    ;
    assert(rate * MAX_CARRY_SECONDS == 30 * rate) by (nonlinear_arith)
        requires
            MAX_CARRY_SECONDS == 30,
    ;
}

/// While a recording goes on a block waits for ten whole seconds; once it is over
/// nothing that was recorded or held is left unread.
pub proof fn nothing_is_left_unread_at_the_end(track: TrackState, rate: u32, available: u64)
    requires
        in_step(track, rate, available),
        rate > 0,
    ensures
        block_due(track, rate, available, false) ==> available - track.read >= 10 * rate,
        track.read < available ==> block_due(track, rate, available, true),
        track.carry matches Some(c) ==> (c < track.read ==> block_due(track, rate, available, true)),
        track.read == available && track.carry is None ==> !block_due(
            track,
            rate,
            available,
            true,
        ),
        available - track.read >= 10 * rate ==> block_due(track, rate, available, false),
{
    assert(rate * CADENCE_SECONDS == 10 * rate) by (nonlinear_arith)
        requires
            CADENCE_SECONDS == 10,
    ;
    assert(rate * MAX_CARRY_SECONDS == 30 * rate) by (nonlinear_arith)
        requires
            MAX_CARRY_SECONDS == 30,
    ;
}

/// Scaling keeps time: as many whole seconds at one rate are as many at the other,
/// and more samples are never fewer.
pub proof fn scaling_keeps_time(seconds: nat, value: u64, more: u64, from: u32, to: u32)
    requires
        from > 0,
        value <= more,
        seconds * from <= u64::MAX,
        seconds * from * to <= u64::MAX,
    ensures
        scaled((seconds * from) as u64, from, to) == seconds * to,
        scaled(value, from, to) <= scaled(more, from, to),
        scaled(0, from, to) == 0,
        more * from <= u64::MAX ==> scaled(more, from, from) == more,
{
    assert(seconds * from * to / from as int == seconds * to) by (nonlinear_arith)
        requires
            from > 0,
    ;
    assert(value * to <= more * to) by (nonlinear_arith)
        requires
            value <= more,
            to >= 0,
    ;
    assert(more * from / from as int == more) by (nonlinear_arith)
        requires
            from > 0,
    ;
    let a = if value * to > u64::MAX {
        u64::MAX as int
    } else {
        value * to
    };
    let b = if more * to > u64::MAX {
        u64::MAX as int
    } else {
        more * to
    };
    assert(a / from as int <= b / from as int) by (nonlinear_arith)
        requires
            from > 0,
            a <= b,
    ;
    assert(0int * to == 0);
    assert(0int / from as int == 0) by (nonlinear_arith)
        requires
            from > 0,
    ;
}

proof fn lemma_encode_glued(a: Seq<char>, b: Seq<char>)
    ensures
        vstd::utf8::encode_utf8(a + b) == vstd::utf8::encode_utf8(a) + vstd::utf8::encode_utf8(b),
    decreases a.len(),
{
    if a.len() == 0 {
        assert(a + b == b);
        assert(vstd::utf8::encode_utf8(a) == Seq::<u8>::empty());
    } else {
        lemma_encode_glued(a.drop_first(), b);
        assert((a + b).drop_first() == a.drop_first() + b);
        assert((a + b)[0] == a[0]);
        assert(vstd::utf8::encode_utf8(a + b) == vstd::utf8::encode_utf8(a)
            + vstd::utf8::encode_utf8(b));
    }
}

/// A batch on disk is its lines one after the other, each with a newline behind it.
pub proof fn every_line_is_put_on_disk(lines: Seq<Seq<char>>, l: Seq<char>)
    ensures
        payload(Seq::<Seq<char>>::empty()) == Seq::<u8>::empty(),
        payload(lines.push(l)) == payload(lines) + vstd::utf8::encode_utf8(l.push('\n')),
{
    reveal_strlit("\n");
    assert("\n"@ == seq!['\n']);
    let all = lines.push(l);
    assert(all.drop_last() == lines);
    if lines.len() == 0 {
        assert(text::joined(all, "\n"@) == l);
        assert(l + "\n"@ == l.push('\n'));
        assert(payload(lines) + vstd::utf8::encode_utf8(l.push('\n')) == vstd::utf8::encode_utf8(
            l.push('\n'),
        ));
    } else {
        let front = text::joined(lines, "\n"@) + "\n"@;
        assert(text::joined(all, "\n"@) + "\n"@ == front + l.push('\n'));
        lemma_encode_glued(front, l.push('\n'));
    }
}

/// What is on disk can be gone on from only if it is the durable part followed by a
/// beginning of the pending batch; what is then missing is the rest of the batch.
pub proof fn only_a_beginning_of_the_batch_can_be_gone_on_from(
    state: State,
    durable: Seq<u8>,
    tail: Seq<u8>,
)
    requires
        durable.len() == state.raw_len,
        state.pending is Some,
    ensures
        missing(state, durable + tail) is Some <==> exists|k: int|
            0 <= k <= payload(text::views(state.pending->0.lines@)).len() && tail == #[trigger] payload(
                text::views(state.pending->0.lines@),
            ).take(k),
        missing(state, durable + tail) matches Some(rest) ==> tail + rest == payload(
            text::views(state.pending->0.lines@),
        ),
        forall|file: Seq<u8>| file.len() < state.raw_len ==> #[trigger] missing(state, file) is None,
{
    let all = payload(text::views(state.pending->0.lines@));
    assert((durable + tail).skip(state.raw_len as int) == tail);
    if tail.is_prefix_of(all) {
        assert(tail == all.take(tail.len() as int));
        assert(tail + all.skip(tail.len() as int) == all);
    }
    if exists|k: int| 0 <= k <= all.len() && tail == #[trigger] all.take(k) {
        let k = choose|k: int| 0 <= k <= all.len() && tail == #[trigger] all.take(k);
        assert(tail.len() == k);
        assert(all.subrange(0, k) == all.take(k));
        assert(tail.is_prefix_of(all));
    }
}

/// A batch that is durable is counted, and its positions and whether it was the last
/// are what stands from then on; the rates stay.
pub proof fn a_durable_batch_is_counted(state: State)
    requires
        state.pending is Some,
        state.raw_len + payload(text::views(state.pending->0.lines@)).len() <= u64::MAX,
    ensures
        settled(state).raw_len == state.raw_len + payload(
            text::views(state.pending->0.lines@),
        ).len(),
        settled(state).tracks == state.pending->0.tracks,
        settled(state).complete == state.pending->0.complete,
        settled(state).pending is None,
        settled(state).rates == state.rates,
        settled(state).version == state.version,
{
}

/// Every sample is two bytes, the low one first, and reads back as itself.
pub proof fn samples_read_back(samples: Seq<i16>, k: nat, i: int)
    requires
        k <= samples.len(),
        0 <= i < k,
    ensures
        pcm(samples, k).len() == 2 * k,
        ({
            let n = pcm(samples, k)[2 * i] + 256 * pcm(samples, k)[2 * i + 1];
            samples[i] == (if n < 32768 {
                n
            } else {
                n - 65536
            })
        }),
    decreases k,
{
    let front = pcm(samples, (k - 1) as nat);
    let x = sample_bits(samples[k - 1]);
    assert(0 <= x < 65536);
    if k > 1 {
        samples_read_back(samples, (k - 1) as nat, if i < k - 1 {
            i
        } else {
            0
        });
    }
    assert(front.len() == 2 * (k - 1));
    if i < k - 1 {
        assert(pcm(samples, k)[2 * i] == front[2 * i]);
        assert(pcm(samples, k)[2 * i + 1] == front[2 * i + 1]);
    } else {
        assert(pcm(samples, k)[2 * i] == (x % 256) as u8);
        assert(pcm(samples, k)[2 * i + 1] == (x / 256) as u8);
    }
}

/// A block that is due has something in it.
pub proof fn a_block_that_is_due_is_not_empty(
    track: TrackState,
    rate: u32,
    available: u64,
    stopping: bool,
)
    requires
        block_due(track, rate, available, stopping),
    ensures
        block_start(track) < block_end(track, rate, available),
        track.read < available || track.carry is Some,
{
}

/// The room is the first of the two tracks and the call the second. A checkpoint can
/// be gone on from exactly if its version is known and both its rates are set.
pub proof fn a_sound_checkpoint_has_both_rates(state: State)
    ensures
        track_at(0) == Track::Room,
        track_at(1) == Track::Call,
        state_fault(state) is None <==> state.version == 1 && state.rates@[0] > 0 && state.rates@[1]
            > 0,
{
}

} // verus!
