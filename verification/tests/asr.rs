use ambient::asr::{
    check_joiner, decodable, decoded_text, find_model, fits_whole, joined_text, parse_tokens,
    Decode, Splitter,
};
use ambient::vad::Segment;

fn finite(values: &[f32]) -> Vec<bool> {
    values.iter().map(|v| v.is_finite()).collect()
}

#[test]
fn check_joiner_rejects_an_output_too_short_to_index() {
    let err = check_joiner(&finite(&[0.0; 5]), 4, 2).unwrap_err();
    assert!(err.contains("expected at least 6"), "{err}");
}

#[test]
fn check_joiner_rejects_a_non_finite_output() {
    let err = check_joiner(&finite(&[0.0, f32::NAN, 0.0]), 2, 1).unwrap_err();
    assert!(err.contains("not finite"), "{err}");
}

#[test]
fn check_joiner_accepts_a_full_finite_output() {
    assert!(check_joiner(&finite(&[0.0; 6]), 4, 2).is_ok());
}

#[test]
fn parse_tokens_rejects_a_file_with_no_tokens() {
    for text in ["", "\n\n"] {
        let err = parse_tokens(text, "x/tokens.txt").unwrap_err();
        assert!(err.contains("x/tokens.txt is empty"), "{err}");
    }
}

/// The real file's layout: "<piece> <id>", where the piece may itself be a
/// space — so the id is split off the right, never the left.
#[test]
fn parse_tokens_reads_a_piece_that_is_a_space() {
    let toks = parse_tokens("<unk> 0\n\u{2581}the 1\n  2\n", "x/tokens.txt").unwrap();
    assert_eq!(toks, ["<unk>", "\u{2581}the", " "]);
}

#[test]
fn a_line_without_a_space_is_a_piece() {
    assert_eq!(parse_tokens("abc\r\n\u{2581}b 7", "t").unwrap(), ["abc", "\u{2581}b"]);
}

/// Whatever the model says, a decode leaves a frame after at most ten tokens.
#[test]
fn a_decode_that_never_advances_is_moved_on() {
    let mut d = Decode::start();
    let mut steps = 0;
    while d.goes_on(3) {
        assert!(d.step(1, 0, 0));
        steps += 1;
    }
    assert_eq!(steps, 30);
    assert_eq!(d.emitted.len(), 30);
    assert_eq!(d.t, 3);
}

#[test]
fn a_blank_moves_on_by_one_and_a_duration_by_itself() {
    let mut d = Decode::start();
    assert!(!d.step(0, 0, 0));
    assert_eq!((d.t, d.symbols), (1, 0));
    assert!(d.step(5, 0, 4));
    assert_eq!((d.t, d.symbols), (5, 0));
    assert!(!d.step(0, 0, 2));
    assert_eq!(d.t, 7);
    assert_eq!(d.emitted, [5]);
}

#[test]
fn pieces_become_words() {
    let tokens: Vec<String> =
        ["\u{2581}hel", "lo", "\u{2581}world", "."].iter().map(|s| s.to_string()).collect();
    assert_eq!(decoded_text(&tokens, &[0, 1, 2, 3]), "hello world.");
    assert_eq!(decoded_text(&tokens, &[]), "");
}

#[test]
fn a_fragment_under_a_tenth_of_a_second_is_not_decoded() {
    assert_eq!(decodable(Segment { start: 0, end: 1599 }, 16_000), None);
    assert_eq!(decodable(Segment { start: 0, end: 1600 }, 16_000), Some((0, 1600)));
    assert_eq!(decodable(Segment { start: 1000, end: 9000 }, 5000), Some((1000, 5000)));
    assert_eq!(decodable(Segment { start: 6000, end: 9000 }, 5000), None);
}

#[test]
fn pieces_that_decode_to_nothing_leave_no_trace() {
    let parts: Vec<String> = ["one", "", "two"].iter().map(|s| s.to_string()).collect();
    assert_eq!(joined_text(&parts), "one two");
}

#[test]
fn a_long_recording_is_cut_at_the_quietest_place_near_each_boundary() {
    let n = 1_100_000;
    assert!(fits_whole(512_000));
    assert!(!fits_whole(512_001));
    let mut s = Splitter::start();
    let w = s.windows(n).unwrap();
    assert_eq!(w[0], 448_000);
    assert_eq!(w[1], 448_800);
    assert_eq!(w.len(), 78);
    let mut keys = vec![9u32; w.len()];
    keys[3] = 1;
    keys[5] = 1;
    s.cut(n, &keys);
    assert_eq!(s.cuts, [0, 448_000 + 3 * 800 + 800]);
    // Nothing is known of any place: the boundary itself is cut at.
    let w = s.windows(n).unwrap();
    let at = s.pos;
    s.cut(n, &vec![u32::MAX; w.len()]);
    assert_eq!(s.cuts[2], at);
    assert!(s.windows(n).is_none());
    assert_eq!(s.finish(n), [0, 451_200, 931_200, 1_100_000]);
}

#[test]
fn the_first_model_by_name_is_used() {
    let names: Vec<String> = ["encoder.onnx", "encoder-a.onnx", "decoder.onnx", "encoder.txt"]
        .iter()
        .map(|s| s.to_string())
        .collect();
    assert_eq!(find_model(&names, "encoder", "/m").unwrap(), "/m/encoder-a.onnx");
    assert_eq!(find_model(&names, "joiner", "/m").unwrap_err(), "no joiner*.onnx in /m");
}
