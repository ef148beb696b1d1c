use ambient::diarize::{
    candidate, frame_samples, powerset, spans_from, speaker_spans, tally, valid_frames, windows,
    Clusters, Span, HOP, MIN_EMBED, N_CLASSES, N_LOCAL, SHIFT, WINDOW,
};

fn unit(v: &[f32]) -> Vec<f32> {
    let n = v.iter().map(|x| x * x).sum::<f32>().sqrt();
    v.iter().map(|x| x / n).collect()
}

/// A number that orders finite floats as they are ordered.
fn key(x: f32) -> u32 {
    if x.is_nan() {
        return u32::MAX;
    }
    let b = x.to_bits();
    if b >> 31 == 1 {
        !b
    } else {
        b | 0x8000_0000
    }
}

/// Average linkage over cosine distance, with the library choosing what merges.
fn cluster(embs: &[Vec<f32>], threshold: f32) -> Vec<usize> {
    let n = embs.len();
    let mut d: Vec<Vec<f32>> = embs
        .iter()
        .map(|a| embs.iter().map(|b| 1.0 - a.iter().zip(b).map(|(x, y)| x * y).sum::<f32>()).collect())
        .collect();
    let mut size = vec![1.0f32; n];
    let mut c = Clusters::new(n);
    loop {
        let keys: Vec<Vec<u32>> = d.iter().map(|r| r.iter().map(|x| key(*x)).collect()).collect();
        let Some((i, j)) = c.next(&keys, key(threshold)) else { break };
        for k in 0..n {
            if !c.active[k] || k == i || k == j {
                continue;
            }
            let nd = (size[i] * d[i][k] + size[j] * d[j][k]) / (size[i] + size[j]);
            d[i][k] = nd;
            d[k][i] = nd;
        }
        size[i] += size[j];
        c.merge(i, j);
    }
    c.labels()
}

#[test]
fn powerset_covers_every_pair_once() {
    assert_eq!(powerset(0).len(), 0);
    let sets: Vec<Vec<usize>> = (0..N_CLASSES).map(powerset).collect();
    let singles: Vec<_> = sets.iter().filter(|s| s.len() == 1).collect();
    let pairs: Vec<_> = sets.iter().filter(|s| s.len() == 2).collect();
    assert_eq!(singles.len(), N_LOCAL);
    assert_eq!(pairs.len(), 3);
}

#[test]
fn hop_lands_on_a_frame_boundary() {
    assert_eq!(HOP % SHIFT, 0);
}

#[test]
fn two_tight_groups_become_two_clusters() {
    let embs = vec![
        unit(&[1.0, 0.0, 0.02]),
        unit(&[0.98, 0.05, 0.0]),
        unit(&[0.0, 1.0, 0.03]),
        unit(&[0.02, 0.97, 0.0]),
    ];
    let labels = cluster(&embs, 0.5);
    assert_eq!(labels[0], labels[1]);
    assert_eq!(labels[2], labels[3]);
    assert_ne!(labels[0], labels[2]);
}

#[test]
fn one_voice_stays_one_cluster() {
    let embs = vec![
        unit(&[1.0, 0.0, 0.0]),
        unit(&[0.99, 0.03, 0.0]),
        unit(&[0.98, 0.0, 0.05]),
    ];
    let labels = cluster(&embs, 0.5);
    assert_eq!(labels, vec![0, 0, 0]);
}

#[test]
fn a_high_threshold_collapses_everything() {
    let embs = vec![unit(&[1.0, 0.0]), unit(&[0.0, 1.0])];
    assert_eq!(cluster(&embs, 1.5), vec![0, 0]);
}

#[test]
fn a_distance_that_is_no_number_never_merges() {
    let c = Clusters::new(2);
    let keys = vec![vec![0, u32::MAX], vec![u32::MAX, 0]];
    assert_eq!(c.next(&keys, u32::MAX), None);
}

#[test]
fn speakers_are_numbered_as_they_first_speak() {
    let mut c = Clusters::new(4);
    c.merge(1, 3);
    assert_eq!(c.labels(), [0, 1, 2, 1]);
    c.merge(0, 2);
    assert_eq!(c.owner, [0, 1, 0, 1]);
    assert_eq!(c.labels(), [0, 1, 0, 1]);
}

#[test]
fn windows_overlap_by_half_and_reach_the_end() {
    assert_eq!(windows(MIN_EMBED - 1), []);
    assert_eq!(windows(MIN_EMBED), [(0, MIN_EMBED)]);
    assert_eq!(windows(WINDOW), [(0, WINDOW)]);
    assert_eq!(
        windows(WINDOW + HOP + 1),
        [(0, WINDOW), (HOP, HOP + WINDOW), (2 * HOP, WINDOW + HOP + 1)]
    );
}

#[test]
fn padding_is_not_looked_at() {
    assert_eq!(valid_frames(0, 1000, 589), 3);
    assert_eq!(valid_frames(0, WINDOW, 589), 589);
}

#[test]
fn a_fragment_needs_a_second_of_audio() {
    let long = vec![4usize; 60];
    let got = candidate(&long, HOP, 1).unwrap();
    assert_eq!(got.len(), 60);
    assert_eq!((got[0], got[59]), (HOP / SHIFT, HOP / SHIFT + 59));
    assert_eq!(candidate(&long, 0, 2), None);
    assert_eq!(candidate(&long[..59], 0, 1), None);
}

#[test]
fn overlapping_windows_vote() {
    let cands = vec![vec![0, 1], vec![1, 2], vec![1]];
    let who = tally(&cands, &[0, 1, 1], 4);
    assert_eq!(who, [Some(0), Some(1), Some(1), None]);
    // As many votes each: the later speaker has it.
    assert_eq!(tally(&[vec![0], vec![0]], &[0, 1], 1), [Some(1)]);
    assert_eq!(tally(&[], &[], 2), [None, None]);
}

#[test]
fn frames_of_one_speaker_join_into_spans() {
    let who = [Some(0), Some(0), None, Some(1), Some(0), Some(0)];
    let got = spans_from(&who, 5 * SHIFT + 10);
    assert_eq!(
        got,
        [
            Span { start: 0, end: 540, speaker: 0 },
            Span { start: 810, end: 1080, speaker: 1 },
            Span { start: 1080, end: 1360, speaker: 0 },
        ]
    );
    assert_eq!(frame_samples(5, 1360), (1350, 1360));
    assert_eq!(
        speaker_spans(&[vec![0, 1], vec![1]], &[0, 0], 400),
        [Span { start: 0, end: 400, speaker: 0 }]
    );
}
