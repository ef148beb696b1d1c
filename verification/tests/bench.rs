use ambient::bench::{repeat, rtf, simulate_queue, BlockRow};

/// Seconds in the microseconds the library counts.
fn us(seconds: f64) -> u64 {
    (seconds * 1e6).round() as u64
}

fn row(index: usize, audio_s: f64, end_s: f64, prep_s: f64, decode_s: f64) -> BlockRow {
    BlockRow {
        index,
        audio: us(audio_s),
        end: us(end_s),
        prep: us(prep_s),
        decode: us(decode_s),
        turns: 1,
    }
}

#[test]
fn rtf_is_work_over_audio() {
    let (w, a) = rtf(us(1.5), us(30.0)).unwrap();
    assert_eq!(w as f64 / a as f64, 0.05);
    assert_eq!(rtf(us(1.0), us(0.0)), None);
}

/// Two 10 s blocks costing 2 s of work each: the worker is idle when each
/// one lands, so the lag is the work and nothing accumulates.
#[test]
fn a_worker_that_keeps_up_lags_by_one_block_of_work() {
    let rows = [row(0, 10.0, 10.0, 1.0, 1.0), row(1, 10.0, 20.0, 1.0, 1.0)];
    assert_eq!(simulate_queue(&rows, 1).max_lag, us(2.0));
    // Two tracks arrive together; the second waits out the first.
    assert_eq!(simulate_queue(&rows, 2).max_lag, us(4.0));
}

/// The same blocks at 12 s of work each: the first block's overrun is still
/// being paid off when the second lands.
#[test]
fn a_worker_that_falls_behind_carries_the_overrun_forward() {
    let rows = [row(0, 10.0, 10.0, 2.0, 10.0), row(1, 10.0, 20.0, 2.0, 10.0)];
    let lag = simulate_queue(&rows, 1);
    assert_eq!(lag.max_lag, us(14.0));
    assert_eq!(lag.final_lag, us(14.0));
}

/// Doubling the workload is the test for a bounded backlog: 12 s of work
/// per 10 s block adds 2 s every block and never stops adding it, while a
/// 2 s block costs the same lag however long the track runs.
#[test]
fn repeat_shows_whether_the_backlog_is_bounded() {
    let slow = [row(0, 10.0, 10.0, 2.0, 10.0), row(1, 10.0, 20.0, 2.0, 10.0)];
    let doubled = repeat(&slow, 2);
    assert_eq!(doubled.len(), 4);
    assert_eq!(
        doubled.iter().map(|r| r.end).collect::<Vec<_>>(),
        vec![us(10.0), us(20.0), us(30.0), us(40.0)]
    );
    assert_eq!(
        doubled.iter().map(|r| r.index).collect::<Vec<_>>(),
        vec![0, 1, 2, 3]
    );
    // Lags 12, 14, 16, 18 — the backlog is still growing at the end.
    assert_eq!(simulate_queue(&doubled, 1).max_lag, us(18.0));

    let fast = [row(0, 10.0, 10.0, 1.0, 1.0), row(1, 10.0, 20.0, 1.0, 1.0)];
    assert_eq!(simulate_queue(&repeat(&fast, 2), 1).max_lag, us(2.0));
}

#[test]
fn no_blocks_is_no_lag() {
    let lag = simulate_queue(&[], 1);
    assert_eq!(lag.max_lag, us(0.0));
    assert_eq!(lag.final_lag, us(0.0));
    assert!(repeat(&[], 2).is_empty());
}

#[test]
fn no_tracks_is_no_lag() {
    let rows = [row(0, 10.0, 10.0, 2.0, 10.0)];
    let lag = simulate_queue(&rows, 0);
    assert_eq!((lag.max_lag, lag.final_lag), (0, 0));
    assert_eq!(rows[0].work(), us(12.0));
}
