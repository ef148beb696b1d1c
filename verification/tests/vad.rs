use ambient::vad::{chunks, segments_from, trim_quiet, turns, Segment, Voicing, FRAME, PAD, SR};

const ON: f32 = 0.50;
const OFF: f32 = 0.35;

/// Frame levels in dB, laid out on the `FRAME` grid.
fn track(db: &[f32]) -> Vec<f32> {
    db.iter().map(|d| 10f32.powf(d / 20.0)).collect()
}

/// The level below which a frame is quiet, against the track's own loudest
/// content.
fn loud(rms: &[f32]) -> Vec<bool> {
    let mut sorted: Vec<f32> = rms.to_vec();
    sorted.sort_by(|a, b| a.total_cmp(b));
    let p90 = sorted[(sorted.len() as f32 * 0.9) as usize];
    let floor = (20.0 * p90.log10() - 15.0).max(-70.0);
    let floor = 10f32.powf(floor / 20.0);
    rms.iter().map(|r| *r >= floor).collect()
}

fn whole(frames: usize) -> Vec<Segment> {
    vec![Segment { start: 0, end: frames * FRAME }]
}

#[test]
fn a_turn_loses_its_quiet_lead_in() {
    let mut db = vec![-45.0; 80];
    db.extend(std::iter::repeat(-27.0).take(120));
    let segs = trim_quiet(&whole(200), &loud(&track(&db)));
    assert_eq!(segs.len(), 1);
    // Starts inside the speech, allowing for the re-applied margin.
    assert!(segs[0].start > 70 * FRAME, "start was {}", segs[0].start);
    assert_eq!(segs[0].end, 200 * FRAME);
}

#[test]
fn speech_throughout_is_left_alone() {
    let segs = trim_quiet(&whole(200), &loud(&track(&vec![-25.0; 200])));
    assert_eq!(segs.len(), 1);
    assert_eq!((segs[0].start, segs[0].end), (0, 200 * FRAME));
}

#[test]
fn a_quiet_recording_is_judged_against_itself() {
    let mut db = vec![-70.0; 80];
    db.extend(std::iter::repeat(-47.0).take(120));
    let segs = trim_quiet(&whole(200), &loud(&track(&db)));
    assert_eq!(segs.len(), 1, "the speech was thrown away");
    assert!(segs[0].start > 70 * FRAME, "start was {}", segs[0].start);
}

#[test]
fn a_noise_only_track_is_no_longer_rejected_here() {
    let segs = trim_quiet(&whole(200), &loud(&track(&vec![-45.0; 200])));
    assert_eq!(segs.len(), 1);
}

#[test]
fn a_turn_with_nothing_loud_in_it_goes() {
    assert_eq!(trim_quiet(&whole(20), &vec![false; 20]), []);
}

/// Frames on the production grid: each `(value, ms)` contributes as many
/// frames as that much audio would, rounding up.
fn probs(pattern: &[(f32, u32)]) -> Vec<f32> {
    pattern
        .iter()
        .flat_map(|&(v, ms)| {
            std::iter::repeat(v).take((ms as usize * SR / 1000).div_ceil(FRAME))
        })
        .collect()
}

/// Samples a probability array implies.
fn samples(p: &[f32]) -> usize {
    p.len() * FRAME
}

fn voicing(p: &[f32]) -> Vec<Voicing> {
    p.iter()
        .map(|&v| {
            let v = if v.is_finite() { v } else { 0.0 };
            if v >= ON {
                Voicing::On
            } else if v < OFF {
                Voicing::Off
            } else {
                Voicing::Between
            }
        })
        .collect()
}

fn run(p: &[f32]) -> Vec<Segment> {
    segments_from(&voicing(p), samples(p))
}

#[test]
fn silence_yields_nothing() {
    assert!(run(&probs(&[(0.0, 2000)])).is_empty());
}

#[test]
fn a_turn_is_padded_either_side() {
    let p = probs(&[(0.0, 1000), (1.0, 1000), (0.0, 1000)]);
    let lead = samples(&probs(&[(0.0, 1000)]));
    let speech_end = lead + samples(&probs(&[(1.0, 1000)]));
    let segs = run(&p);
    assert_eq!(segs.len(), 1, "{segs:?}");
    assert!(
        segs[0].start.abs_diff(lead - PAD) < FRAME,
        "start {} is not PAD_MS before {lead}",
        segs[0].start
    );
    assert!(
        segs[0].end.abs_diff(speech_end + PAD) < FRAME,
        "end {} is not PAD_MS after {speech_end}",
        segs[0].end
    );
}

#[test]
fn a_turn_shorter_than_min_speech_is_dropped() {
    assert!(run(&probs(&[(0.0, 500), (1.0, 100), (0.0, 1000)])).is_empty());
}

#[test]
fn a_gap_under_min_silence_does_not_split() {
    let segs = run(&probs(&[(1.0, 500), (0.0, 200), (1.0, 500)]));
    assert_eq!(segs.len(), 1, "{segs:?}");
}

#[test]
fn a_gap_over_min_silence_splits() {
    let segs = run(&probs(&[(1.0, 500), (0.0, 600), (1.0, 500)]));
    assert_eq!(segs.len(), 2, "{segs:?}");
}

#[test]
fn a_gap_of_exactly_min_silence_splits() {
    let segs = run(&probs(&[(1.0, 500), (0.0, 400), (1.0, 500)]));
    assert_eq!(segs.len(), 2, "{segs:?}");
}

#[test]
fn probabilities_below_on_never_open_a_turn() {
    assert!(run(&probs(&[(0.45, 1000)])).is_empty());
}

#[test]
fn a_turn_continues_through_probabilities_above_off() {
    let p = probs(&[(1.0, 500), (0.40, 1000)]);
    let segs = run(&p);
    assert_eq!(segs.len(), 1, "{segs:?}");
    assert_eq!(segs[0].end, samples(&p), "the 0.40 run is still the turn");
}

#[test]
fn a_turn_running_to_the_end_stops_at_the_last_sample() {
    let p = probs(&[(0.0, 500), (1.0, 1000)]);
    let segs = run(&p);
    assert_eq!(segs.len(), 1, "{segs:?}");
    assert_eq!(segs[0].end, samples(&p));

    // And never past the recording when it does not fill its last frame.
    let ragged = samples(&p) - 300;
    let segs = segments_from(&voicing(&p), ragged);
    assert_eq!(segs.len(), 1, "{segs:?}");
    assert_eq!(segs[0].end, ragged);
}

#[test]
fn a_non_finite_probability_reads_as_silence() {
    let p = probs(&[(1.0, 500), (f32::NAN, 1000), (0.0, 1000)]);
    let speech_end = samples(&probs(&[(1.0, 500)]));
    let segs = run(&p);
    assert_eq!(segs.len(), 1, "{segs:?}");
    assert_eq!(segs[0].end, speech_end + PAD);
}

#[test]
fn a_long_turn_is_cut_and_short_ones_are_merged() {
    let seg = Segment { start: 0, end: 100 * FRAME };
    let keys = vec![1u32; 100];
    let pieces = turns(&[seg], &keys, 1);
    assert_eq!(pieces[0].start, 0);
    assert_eq!(pieces.last().unwrap().end, 100 * FRAME);
    for w in pieces.windows(2) {
        assert_eq!(w[0].end, w[1].start);
    }
    for p in &pieces {
        assert!(p.end - p.start <= SR, "{p:?}");
    }
    let two = [Segment { start: 0, end: 4000 }, Segment { start: 8000, end: 12_000 }];
    assert_eq!(chunks(&two, 1), [Segment { start: 0, end: 12_000 }]);
    let apart = [Segment { start: 0, end: 4000 }, Segment { start: 14_000, end: 18_000 }];
    assert_eq!(chunks(&apart, 1), apart);
    assert_eq!(two[0].seconds(), (4000, SR));
}
