use ambient::assignment::{best_mapping, hungarian};
use ambient::der::{labels, parse_rttm, score, total, Der, Turn};

/// A turn in the 10 ms frames the scorer counts.
fn turn(speaker: &str, start_s: f64, end_s: f64) -> Turn {
    Turn {
        first: (start_s * 100.0).round() as usize,
        end: (end_s * 100.0).round() as usize,
        speaker: speaker.to_string(),
    }
}

/// The frames within a collar of a turn boundary.
fn collar(turns: &[Turn], seconds: f64) -> Vec<(usize, usize)> {
    let c = (seconds * 100.0).round() as usize;
    turns
        .iter()
        .flat_map(|t| [t.first, t.end])
        .map(|b| (b.saturating_sub(c), b + c))
        .collect()
}

fn seconds(frames: usize) -> f64 {
    frames as f64 / 100.0
}

fn rate(d: &Der) -> f64 {
    let (n, m) = d.rate();
    n as f64 / m as f64
}

fn close(actual: f64, expected: f64) -> bool {
    (actual - expected).abs() < 0.05
}

#[test]
fn parse_rttm_reads_a_speaker_line() {
    let rttm = parse_rttm("SPEAKER ES2004a 1 12.34 5.00 <NA> <NA> FEE013 <NA> <NA>");
    assert_eq!(rttm.error, None);
    let turns = rttm.turns;
    assert_eq!(turns.len(), 1);
    let start_s: f64 = turns[0].onset.parse().unwrap();
    let duration_s: f64 = turns[0].duration.parse().unwrap();
    assert!(close(start_s, 12.34));
    assert!(close(start_s + duration_s, 17.34));
    assert_eq!(turns[0].speaker, "FEE013");
}

#[test]
fn parse_rttm_skips_blanks_and_comments() {
    let text = ";; a comment\n\nSPEAKER ES2004a 1 0.00 1.00 <NA> <NA> A <NA> <NA>\n\n";
    let rttm = parse_rttm(text);
    assert_eq!(rttm.error, None);
    assert_eq!(rttm.turns.len(), 1);
    assert_eq!(rttm.turns[0].speaker, "A");
    assert_eq!(rttm.turns[0].line, 3);
}

#[test]
fn parse_rttm_rejects_a_non_speaker_line() {
    // An HTML error page saved as an RTTM must fail, not parse to nothing.
    let text = "<!DOCTYPE html>\n<html><body>404</body></html>\n";
    let err = parse_rttm(text).error.unwrap();
    assert!(err.contains("line 1"), "{err}");
}

#[test]
fn parse_rttm_rejects_a_short_line() {
    let text = "SPEAKER ES2004a 1 0.00 1.00 <NA> <NA> A <NA> <NA>\nSPEAKER ES2004a 1 2.00\n";
    let err = parse_rttm(text).error.unwrap();
    assert!(err.contains("line 2"), "{err}");
}

#[test]
fn identical_reference_and_hypothesis_score_zero() {
    let reference = vec![turn("A", 0.0, 10.0), turn("B", 10.0, 20.0)];
    let der = score(&reference, &reference, &[]).unwrap();
    assert_eq!(rate(&der), 0.0);
}

#[test]
fn empty_hypothesis_is_all_missed() {
    let der = score(&[turn("A", 0.0, 10.0)], &[], &[]).unwrap();
    assert!(close(seconds(der.missed), 10.0), "{:?}", der);
}

#[test]
fn empty_reference_is_an_error() {
    let err = score(&[], &[turn("A", 0.0, 4.0)], &[]).unwrap_err();
    assert!(err.contains("empty reference"), "{err}");
}

#[test]
fn labels_are_mapped_not_compared() {
    let reference = vec![turn("A", 0.0, 10.0), turn("B", 10.0, 20.0)];
    let hypothesis = vec![turn("X", 0.0, 10.0), turn("Y", 10.0, 20.0)];
    let der = score(&reference, &hypothesis, &[]).unwrap();
    assert_eq!(rate(&der), 0.0);
}

#[test]
fn merged_speakers_are_confusion() {
    let reference = vec![turn("A", 0.0, 10.0), turn("B", 10.0, 20.0)];
    let hypothesis = vec![turn("X", 0.0, 20.0)];
    let der = score(&reference, &hypothesis, &[]).unwrap();
    assert!(close(seconds(der.confusion), 10.0), "{:?}", der);
}

#[test]
fn over_clustering_uses_the_optimal_map() {
    // The optimal map is A->Y, B->X for 16 s correct. A greedy assignment
    // takes A->X first (9 s) and leaves B nothing, scoring 16 s confusion.
    let reference = vec![turn("A", 0.0, 17.0), turn("B", 17.0, 25.0)];
    let hypothesis = vec![
        turn("X", 0.0, 9.0),
        turn("Y", 9.0, 17.0),
        turn("X", 17.0, 25.0),
    ];
    let der = score(&reference, &hypothesis, &[]).unwrap();
    assert!(close(seconds(der.confusion), 9.0), "{:?}", der);
}

#[test]
fn many_hypothesis_labels_still_score() {
    let reference = vec![turn("A", 0.0, 10.0), turn("B", 10.0, 20.0)];
    let hypothesis: Vec<Turn> = (0..12)
        .map(|i| turn(&format!("H{i}"), f64::from(i), f64::from(i) + 1.0))
        .collect();
    let der = score(&reference, &hypothesis, &[]).unwrap();
    // One label maps to A and one to B, so 2 s is correct.
    assert!(close(seconds(der.confusion), 10.0), "{:?}", der);
    assert!(close(seconds(der.missed), 8.0), "{:?}", der);
    assert!(close(seconds(der.false_alarm), 0.0), "{:?}", der);
}

#[test]
fn collar_forgives_a_boundary_shift() {
    let reference = vec![turn("A", 0.0, 10.0)];
    let hypothesis = vec![turn("A", 0.2, 10.0)];
    let near = collar(&reference, 0.25);
    assert_eq!(rate(&score(&reference, &hypothesis, &near).unwrap()), 0.0);
    let uncollared = score(&reference, &hypothesis, &[]).unwrap();
    assert!(close(seconds(uncollared.missed), 0.2), "{:?}", uncollared);
}

#[test]
fn speech_over_silence_is_a_false_alarm() {
    let der = score(&[turn("A", 0.0, 5.0)], &[turn("X", 0.0, 8.0)], &[]).unwrap();
    assert_eq!((der.missed, der.false_alarm, der.confusion, der.reference), (0, 300, 0, 500));
    assert_eq!(der.rate(), (300, 500));
}

#[test]
fn speakers_are_listed_once_and_in_order() {
    let turns = [turn("b", 0.0, 1.0), turn("a", 1.0, 2.0), turn("b", 2.0, 3.0)];
    assert_eq!(labels(&turns), ["a", "b"]);
}

#[test]
fn meetings_are_summed_not_averaged() {
    let a = Der { missed: 10, false_alarm: 0, confusion: 0, reference: 10 };
    let b = Der { missed: 0, false_alarm: 5, confusion: 5, reference: 190 };
    assert_eq!(total(&[a, b]).rate(), (20, 200));
}

#[test]
fn the_cheapest_assignment_is_found() {
    let cost = vec![vec![4, 1, 3], vec![2, 0, 5], vec![3, 2, 2]];
    let a = hungarian(&cost);
    let paid: i64 = a.iter().enumerate().map(|(r, &c)| cost[r][c]).sum();
    assert_eq!(paid, 5);
}

#[test]
fn more_speakers_than_labels_leaves_some_unmapped() {
    let m = best_mapping(&[vec![5], vec![9], vec![1]], 3, 1);
    assert_eq!(m, [None, Some(0), None]);
}

/// Which side is called the truth decides only which kind an error is.
#[test]
fn exchanging_the_two_sides_swaps_missed_and_false_alarm() {
    let a = [turn("A", 0.0, 4.0), turn("B", 3.0, 7.0), turn("C", 8.0, 9.0)];
    let b = [turn("x", 0.0, 3.5), turn("y", 2.0, 5.0), turn("x", 5.0, 6.0), turn("z", 9.0, 12.0)];
    let there = score(&a, &b, &[]).unwrap();
    let back = score(&b, &a, &[]).unwrap();
    assert_eq!(back.missed, there.false_alarm);
    assert_eq!(back.false_alarm, there.missed);
    assert_eq!(back.confusion, there.confusion);
    assert_ne!(there.missed, there.false_alarm);
    assert!(there.confusion > 0);
}

/// Costs up to the limit are told apart to the last unit.
#[test]
fn the_largest_costs_are_assigned_best() {
    let l = ambient::assignment::COST_LIMIT;
    assert_eq!(l, (i64::MAX / 4 - 1) / 4);
    let cost = vec![vec![l, -l, l], vec![-l, l - 1, l], vec![l, -l, l - 1]];
    assert_eq!(hungarian(&cost), [1, 0, 2]);
    assert_eq!(hungarian(&[vec![l]]), [0]);
    assert_eq!(hungarian(&[vec![l, l], vec![l - 1, l]]), [1, 0]);
}
