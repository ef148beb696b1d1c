use ambient::live::{
    after_block, block_record, check_rates, check_state, commit, complete, finish_existing, hold,
    is_drained, lane, next_block, on_wake, payload_bytes, recover_pending, repair_from_native,
    repair_spool, scale, Lane, Pending, State, TrackState, Wake,
};
use ambient::session::Track;
use ambient::vad::{Segment, PAD};

const FRESH: TrackState = TrackState { read: 0, carry: None };

#[test]
fn boundary_speech_is_carried_but_forced_out_at_thirty_seconds() {
    let rate = 48_000;
    let b1 = next_block(FRESH, rate, 10 * rate as u64, false).unwrap();
    assert_eq!((b1.start, b1.end), (0, 480_000));
    let held = TrackState {
        read: b1.end,
        carry: Some(9 * rate as u64),
    };
    let b2 = next_block(held, rate, 20 * rate as u64, false).unwrap();
    assert!(!b2.force_boundary);
    let held = TrackState {
        read: b2.end,
        carry: Some(0),
    };
    let b3 = next_block(held, rate, 30 * rate as u64, false).unwrap();
    assert!(b3.force_boundary, "carry is bounded at thirty seconds");
}

#[test]
fn unequal_rates_keep_independent_offsets_and_flush_short_tails() {
    let room = next_block(FRESH, 48_000, 480_000, false).unwrap();
    let call = next_block(FRESH, 44_100, 441_000, false).unwrap();
    assert_eq!(room.end, 480_000);
    assert_eq!(call.end, 441_000);
    assert!(next_block(
        TrackState {
            read: room.end,
            carry: None
        },
        48_000,
        room.end + 1_000,
        false
    )
    .is_none());
    assert!(
        next_block(
            TrackState {
                read: room.end,
                carry: None
            },
            48_000,
            room.end + 1_000,
            true
        )
        .unwrap()
        .final_tail
    );
}

#[test]
fn stop_on_an_exact_cadence_flushes_held_speech() {
    let state = TrackState {
        read: 480_000,
        carry: Some(432_000),
    };
    let block = next_block(state, 48_000, 480_000, true).unwrap();
    assert_eq!((block.start, block.end), (432_000, 480_000));
    assert!(block.final_tail);
}

#[test]
fn pending_append_recovers_without_truncating_or_reordering_prefix() {
    let mut state = State::new([48_000, 44_100], 4);
    state.pending = Some(Pending {
        lines: vec!["one".into(), "two".into()],
        tracks: [
            TrackState {
                read: 10,
                carry: None,
            },
            FRESH,
        ],
        complete: false,
    });
    let mut raw = b"old\none\n".to_vec();
    let (state, append) = recover_pending(state, &raw, "raw.jsonl").unwrap();
    raw.extend(append);
    assert_eq!(String::from_utf8(raw).unwrap(), "old\none\ntwo\n");
    assert_eq!(state.tracks[0].read, 10);
    assert!(state.pending.is_none());
}

#[test]
fn recovering_again_appends_nothing() {
    let state = commit(
        State::new([48_000, 48_000], 0),
        vec!["a".into()],
        [FRESH, FRESH],
        true,
    );
    let (state, append) = recover_pending(state, b"", "raw.jsonl").unwrap();
    assert_eq!(append, b"a\n");
    assert_eq!(state.raw_len, 2);
    assert!(state.complete);
    let (state, append) = recover_pending(state, b"a\n", "raw.jsonl").unwrap();
    assert!(append.is_empty());
    assert!(state.complete);
}

#[test]
fn a_transcript_that_is_not_the_one_recorded_is_left_alone() {
    let pending = || {
        commit(State::new([48_000, 48_000], 4), vec!["one".into()], [FRESH, FRESH], false)
    };
    assert!(recover_pending(pending(), b"old", "raw.jsonl").is_err());
    assert!(recover_pending(pending(), b"old\nsomething else", "raw.jsonl").is_err());
    assert!(recover_pending(pending(), b"old\none\nmore\n", "raw.jsonl").is_err());
}

#[test]
fn spool_repair_drops_an_orphan_byte_and_rebuilds_exact_pcm() {
    let on_disk = [0x00u8, 0x80, 0xff];
    let mend = repair_spool(on_disk.len() as u64, &[i16::MIN, i16::MAX], "room.live.pcm").unwrap();
    let mut spool = on_disk[..mend.keep as usize].to_vec();
    spool.extend(&mend.append);
    assert_eq!(
        spool,
        [0x00, 0x80, 0xff, 0x7f],
        "authoritative native PCM replaces only the incomplete tail"
    );
}

#[test]
fn a_spool_longer_than_its_recording_is_refused() {
    assert!(repair_spool(6, &[1, 2], "room.live.pcm").is_err());
}

#[test]
fn overload_remains_disk_backed_until_the_worker_catches_up() {
    let track = TrackState {
        read: 10,
        carry: None,
    };
    let block = next_block(track, 1, 100, false).unwrap();
    assert_eq!((block.start, block.end), (10, 20));
    assert_eq!(100 - block.end, 80, "unread audio stays on disk");
}

#[test]
fn stop_cancels_a_live_worker_waiting_for_the_decoder() {
    assert_eq!(lane(false, true, true), Lane::GiveUp);
    assert_eq!(lane(false, true, false), Lane::Wait);
    assert_eq!(lane(false, false, true), Lane::Wait);
    assert_eq!(lane(true, true, true), Lane::Take);
}

#[test]
fn recovery_rejects_a_zero_sample_rate() {
    let mut state = State::new([48_000, 48_000], 0);
    state.rates[1] = 0;
    assert!(check_state(&state).unwrap_err().contains("zero sample rate"));
    assert!(complete(Some(&state)).is_err());
    state.version = 2;
    assert_eq!(
        check_state(&state).unwrap_err(),
        "unsupported live transcription state version 2"
    );
}

#[test]
fn rates_may_not_change_across_recovery() {
    let state = State::new([48_000, 44_100], 0);
    assert!(check_rates([48_000, 44_100], Some(&state)).is_ok());
    assert!(check_rates([48_000, 44_100], None).is_ok());
    assert!(check_rates([48_000, 48_000], Some(&state)).unwrap_err().contains("changed"));
    assert!(check_rates([0, 48_000], None).unwrap_err().contains("non-zero"));
}

#[test]
fn only_an_unfinished_checkpoint_is_resumed() {
    let mut state = State::new([48_000, 44_100], 0);
    assert_eq!(complete(None), Ok(false));
    assert_eq!(finish_existing(None), Ok(false));
    assert_eq!(finish_existing(Some(&state)), Ok(true));
    state.complete = true;
    assert_eq!(complete(Some(&state)), Ok(true));
    assert_eq!(finish_existing(Some(&state)), Ok(false));
}

#[test]
fn speech_near_the_edge_is_held_over_unless_it_is_the_end() {
    let block = next_block(FRESH, 16_000, 160_000, false).unwrap();
    let turn = Segment { start: 100_000, end: 160_000 - PAD };
    assert!(hold(&[turn], 160_000, block));
    assert!(!hold(&[Segment { start: 0, end: 160_000 - PAD - 1 }], 160_000, block));
    assert!(!hold(&[], 160_000, block));
    let tail = next_block(FRESH, 16_000, 160_000, true).unwrap();
    assert_eq!(hold(&[turn], 160_000, tail), !tail.final_tail);
    let after = after_block(block, 48_000, Some(100_000));
    assert_eq!((after.read, after.carry), (160_000, Some(300_000)));
    assert_eq!(after_block(block, 48_000, None).carry, None);
}

#[test]
fn a_block_record_is_timed_on_its_tracks_own_clock() {
    let track = TrackState { read: 480_000, carry: None };
    let block = next_block(track, 48_000, 960_000, false).unwrap();
    let r = block_record(1, 48_000, block, Segment { start: 16_000, end: 40_000 }, "x".into(), 7);
    assert_eq!((r.track, r.start_ms, r.end_ms), (Track::Call, 11_000, 12_500));
    assert_eq!(scale(16_000, 16_000, 44_100), 44_100);
}

#[test]
fn a_worker_leaves_or_drains_when_asked_to_stop() {
    assert_eq!(on_wake(true, false, false), Wake::Leave);
    assert_eq!(on_wake(true, true, false), Wake::Drain);
    assert_eq!(on_wake(false, true, true), Wake::Drain);
    assert_eq!(on_wake(false, false, false), Wake::Work);
    let mut state = State::new([48_000, 48_000], 0);
    state.tracks = [TrackState { read: 5, carry: None }, TrackState { read: 9, carry: Some(7) }];
    assert!(!is_drained(&state, [5, 9]));
    state.tracks[1].carry = None;
    assert!(is_drained(&state, [5, 9]));
    assert!(!is_drained(&state, [6, 9]));
}

#[test]
fn lines_are_written_one_to_a_line() {
    assert_eq!(payload_bytes(&[]), b"");
    assert_eq!(payload_bytes(&["\u{e9}".to_string(), "b".to_string()]), "\u{e9}\nb\n".as_bytes());
}

#[test]
fn a_spool_is_rebuilt_from_the_best_copy_there_is() {
    assert_eq!(repair_from_native(Track::Room, true, true), Some("room.source.wav"));
    assert_eq!(repair_from_native(Track::Call, false, true), Some("call.native.wav"));
    assert_eq!(repair_from_native(Track::Call, false, false), None);
}
