use ambient::wer::{normalise, score, score_prefix, total, Wer};

fn rate(w: &Wer) -> f64 {
    let (n, d) = w.rate();
    n as f64 / d as f64
}

#[test]
fn identical_sequences_score_zero() {
    let words = normalise("the migration is scheduled for thursday morning");
    let wer = score(&words, &words);
    assert_eq!(wer.substitutions, 0);
    assert_eq!(wer.insertions, 0);
    assert_eq!(wer.deletions, 0);
    assert_eq!(wer.reference_words, 7);
    assert_eq!(rate(&wer), 0.0);
}

#[test]
fn one_substitution() {
    let wer = score(&normalise("a b c d"), &normalise("a x c d"));
    assert_eq!(wer.substitutions, 1);
    assert_eq!(wer.insertions, 0);
    assert_eq!(wer.deletions, 0);
    assert_eq!(rate(&wer), 0.25);
}

#[test]
fn one_insertion() {
    let wer = score(&normalise("a b c d"), &normalise("a b x c d"));
    assert_eq!(wer.substitutions, 0);
    assert_eq!(wer.insertions, 1);
    assert_eq!(wer.deletions, 0);
    assert_eq!(rate(&wer), 0.25);
}

#[test]
fn one_deletion() {
    let wer = score(&normalise("a b c d"), &normalise("a c d"));
    assert_eq!(wer.substitutions, 0);
    assert_eq!(wer.insertions, 0);
    assert_eq!(wer.deletions, 1);
    assert_eq!(rate(&wer), 0.25);
}

/// The counts must be a breakdown of one alignment, not three independent
/// guesses: a scorer that reports 2/1/1 for this would still sum to the
/// right distance while pointing at the wrong problem.
#[test]
fn the_three_counts_are_exact_together() {
    let wer = score(
        &normalise("the quick brown fox jumps over"),
        &normalise("the quick red fox leaps right over"),
    );
    assert_eq!(wer.substitutions, 2);
    assert_eq!(wer.insertions, 1);
    assert_eq!(wer.deletions, 0);
    assert_eq!(wer.reference_words, 6);
    assert_eq!(rate(&wer), 0.5);
}

#[test]
fn both_empty_is_perfect() {
    let wer = score(&[], &[]);
    assert_eq!(wer.reference_words, 0);
    assert_eq!(rate(&wer), 0.0);
}

#[test]
fn hypothesis_without_a_reference_is_wholly_wrong() {
    let wer = score(&[], &normalise("words from nowhere"));
    assert_eq!(wer.insertions, 3);
    assert_eq!(wer.reference_words, 0);
    assert_eq!(rate(&wer), 1.0);
}

#[test]
fn empty_hypothesis_loses_every_reference_word() {
    let wer = score(&normalise("a b c d"), &[]);
    assert_eq!(wer.deletions, 4);
    assert_eq!(rate(&wer), 1.0);
}

#[test]
fn normalise_strips_punctuation_and_case() {
    assert_eq!(
        normalise("Hello, world's END."),
        ["hello", "world's", "end"]
    );
}

#[test]
fn normalise_drops_words_that_are_only_punctuation() {
    assert_eq!(normalise("  yes -- no  "), ["yes", "no"]);
}

/// A hyphen is removed, not treated as a boundary: one word in, one out.
#[test]
fn normalise_keeps_a_hyphenated_word_whole() {
    assert_eq!(normalise("A WELL-KNOWN case"), ["a", "wellknown", "case"]);
}

#[test]
fn normalise_folds_the_typographic_apostrophe() {
    assert_eq!(normalise("world\u{2019}s"), normalise("world's"));
}

/// Letters outside ASCII are letters too, and one of them lowers to two
/// characters.
#[test]
fn normalise_lowers_letters_of_every_alphabet() {
    assert_eq!(normalise("\u{c9}T\u{c9} \u{130} 4\u{bd}"), ["\u{e9}t\u{e9}", "i\u{307}", "4\u{bd}"]);
}

#[test]
fn score_prefix_ignores_a_reference_tail_past_the_hypothesis() {
    let reference = normalise(
        "the quick brown fox jumps over the lazy dog and then a lot more that was never said",
    );
    let hypothesis = normalise("the quick brown fox jumps over the lazy dog");
    let wer = score_prefix(&reference, &hypothesis);
    assert_eq!(wer.substitutions, 0);
    assert_eq!(wer.insertions, 0);
    assert_eq!(wer.deletions, 0);
    assert_eq!(wer.reference_words, 9);
    assert_eq!(rate(&wer), 0.0);
}

#[test]
fn score_prefix_of_empty_hypothesis_is_the_empty_prefix() {
    let wer = score_prefix(&normalise("a b c d"), &[]);
    assert_eq!(wer.reference_words, 0);
    assert_eq!(rate(&wer), 0.0);
}

#[test]
fn score_prefix_of_an_unmatched_hypothesis_is_the_empty_prefix() {
    let wer = score_prefix(&normalise("a b c"), &normalise("x y z"));
    assert_eq!(wer.insertions, 3);
    assert_eq!(wer.reference_words, 0);
    assert_eq!(rate(&wer), 1.0);
}

#[test]
fn score_prefix_agrees_with_score_when_the_full_reference_is_best() {
    let reference = normalise("the quick brown fox jumps over");
    let hypothesis = normalise("the quick red fox leaps right over");
    assert_eq!(
        score_prefix(&reference, &hypothesis),
        score(&reference, &hypothesis)
    );
}

#[test]
fn the_distance_is_the_same_both_ways() {
    let a = normalise("we ship on tuesday after lunch");
    let b = normalise("we shipped it on tuesday lunch");
    let there = score(&a, &b);
    let back = score(&b, &a);
    assert_eq!(
        there.substitutions + there.insertions + there.deletions,
        back.substitutions + back.insertions + back.deletions
    );
    assert_eq!(there.substitutions + there.insertions + there.deletions, 3);
}

#[test]
fn a_prefix_never_scores_more_errors_than_the_whole() {
    let a = normalise("one two three four five six");
    let b = normalise("one two tree");
    let whole = score(&a, &b);
    let prefix = score_prefix(&a, &b);
    assert_eq!((whole.substitutions, whole.insertions, whole.deletions), (1, 0, 3));
    assert_eq!((prefix.substitutions, prefix.insertions, prefix.deletions), (0, 1, 0));
    assert_eq!(prefix.reference_words, 2);
}

#[test]
fn a_total_is_summed_not_averaged() {
    let long = score(&normalise("a b c d e f g h i"), &normalise("a b c d e f g h i"));
    let short = score(&normalise("a"), &normalise("x"));
    let all = total(&[long, short]);
    assert_eq!(all.rate(), (1, 10));
    assert_eq!(total(&[]).rate(), (0, 1));
}

/// Normalised text normalises to itself, and holds nothing but lower-case letters,
/// digits and apostrophes; either apostrophe gives the same words.
#[test]
fn normalising_twice_changes_nothing() {
    let text = "The World\u{2019}s  well-known -- 42nd\tO'Clock (TEST)!";
    let once = normalise(text);
    assert_eq!(once, ["the", "world's", "wellknown", "42nd", "o'clock", "test"]);
    assert_eq!(normalise(&once.join(" ")), once);
    assert_eq!(normalise(&text.replace('\u{2019}', "'")), once);
    assert!(once.len() <= text.split_whitespace().count());
}
