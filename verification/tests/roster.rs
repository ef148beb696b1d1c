use ambient::roster::{add, load, remove, save, Stored};

#[test]
fn a_missing_roster_is_empty_rather_than_an_error() {
    let (names, warning) = load(&Stored::Missing, "/r");
    assert!(names.is_empty());
    assert_eq!(warning, None);
}

#[test]
fn a_corrupt_roster_does_not_stop_the_app() {
    let (names, warning) = load(&Stored::Contents("not json at all".into()), "/r");
    assert!(names.is_empty());
    assert_eq!(
        warning.as_deref(),
        Some(
            "  WARNING: /r is not a valid roster (expected ident at line 1 column 2) \u{2014} treating it as empty"
        )
    );
}

#[test]
fn a_roster_that_cannot_be_read_is_empty() {
    let (names, warning) = load(&Stored::Unreadable("denied".into()), "/r");
    assert!(names.is_empty());
    assert_eq!(warning.as_deref(), Some("  WARNING: /r could not be read (denied)"));
}

#[test]
fn roster_it_round_trips_through_the_file() {
    let mut names = Vec::new();
    add(&mut names, "Priya");
    add(&mut names, "Marcus");
    let kept = save(&names);
    assert_eq!(kept, "[\n  \"Marcus\",\n  \"Priya\"\n]");
    assert_eq!(load(&Stored::Contents(kept), "/r").0, ["Marcus", "Priya"]);
}

#[test]
fn an_empty_roster_round_trips_too() {
    assert_eq!(save(&[]), "[]");
    let odd = vec!["O\"Brien\n\u{1}".to_string(), "\u{e9}\u{2028}".to_string()];
    assert_eq!(load(&Stored::Contents(save(&odd)), "/r").0, odd);
}

#[test]
fn the_same_person_is_not_added_twice() {
    let mut names = vec!["Priya".to_string()];
    assert!(!add(&mut names, "priya"));
    assert!(!add(&mut names, "  Priya  "));
    assert_eq!(names, ["Priya"]);
}

#[test]
fn a_blank_name_is_refused() {
    let mut names = Vec::new();
    assert!(!add(&mut names, "   "));
    assert!(names.is_empty());
}

#[test]
fn removing_someone_reports_whether_it_did_anything() {
    let mut names = vec!["Priya".to_string()];
    assert!(remove(&mut names, "PRIYA"));
    assert!(names.is_empty());
    assert!(!remove(&mut names, "Priya"));
}

#[test]
fn names_are_kept_in_order_whatever_their_case() {
    let mut names = Vec::new();
    for who in ["bob", "Zoe", "\u{c4}nne", "Al", "\u{e4}b"] {
        assert!(add(&mut names, who));
    }
    assert_eq!(names, ["Al", "bob", "Zoe", "\u{e4}b", "\u{c4}nne"]);
}

#[test]
fn a_list_out_of_order_is_sorted_when_somebody_joins() {
    let mut names = vec!["z".to_string(), "B".to_string(), "b2".to_string(), "a".to_string()];
    assert!(add(&mut names, "m"));
    assert_eq!(names, ["a", "B", "b2", "m", "z"]);
}
