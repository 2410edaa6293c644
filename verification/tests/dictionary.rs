use steno_core::{Dictionary, Translation, Translator};

fn dict(pairs: &[(&str, &str)]) -> Dictionary {
    Dictionary::from_map(pairs.iter().map(|(k, v)| (k.to_string(), v.to_string())).collect())
}

fn text(strokes: &[&str], t: &str) -> Translation {
    Translation::Text { strokes: strokes.iter().map(|s| s.to_string()).collect(), text: t.to_string() }
}

#[test]
fn single_stroke_matches_immediately() {
    let d = dict(&[("KAT", "cat")]);
    let mut tr = Translator::new();
    assert_eq!(tr.push(&d, "KAT".into()), vec![text(&["KAT"], "cat")]);
}

#[test]
fn unknown_stroke_reports_no_match() {
    let d = dict(&[("KAT", "cat")]);
    let mut tr = Translator::new();
    assert_eq!(tr.push(&d, "ZZ".into()), vec![Translation::NoMatch { stroke: "ZZ".into() }]);
}

#[test]
fn multi_stroke_entry_resolves_when_completed() {
    let d = dict(&[("KAT", "cat"), ("KAT/-S", "cats")]);
    let mut tr = Translator::new();
    assert_eq!(tr.push(&d, "KAT".into()), vec![]);
    assert_eq!(tr.pending(), &["KAT".to_string()]);
    assert_eq!(tr.push(&d, "-S".into()), vec![text(&["KAT", "-S"], "cats")]);
}

#[test]
fn prefix_then_non_extending_stroke_commits_shorter_match() {
    let d = dict(&[("KAT", "cat"), ("KAT/-S", "cats"), ("HAT", "hat")]);
    let mut tr = Translator::new();
    assert_eq!(tr.push(&d, "KAT".into()), vec![]);
    assert_eq!(tr.push(&d, "HAT".into()), vec![text(&["KAT"], "cat"), text(&["HAT"], "hat")]);
}

#[test]
fn flush_forces_pending_to_resolve() {
    let d = dict(&[("KAT", "cat"), ("KAT/-S", "cats")]);
    let mut tr = Translator::new();
    assert_eq!(tr.push(&d, "KAT".into()), vec![]);
    assert_eq!(tr.flush(&d), vec![text(&["KAT"], "cat")]);
    assert!(tr.pending().is_empty());
}

#[test]
fn flush_of_unmatched_prefix_reports_no_match() {
    let d = dict(&[("KA/KO", "kangaroo")]);
    let mut tr = Translator::new();
    assert_eq!(tr.push(&d, "KA".into()), vec![]);
    assert_eq!(tr.flush(&d), vec![Translation::NoMatch { stroke: "KA".into() }]);
}

#[test]
fn user_overlay_overrides_shipped_entry() {
    let base = dict(&[("KAT", "cat")]);
    let mut user = Vec::new();
    user.push(("KAT".to_string(), "kitty".to_string()));
    let merged = base.overlaid_with(&user);
    assert_eq!(merged.lookup("KAT"), Some("kitty"));
}

#[test]
fn overlay_keeps_entries_it_does_not_mention() {
    let base = dict(&[("KAT", "cat"), ("HAT", "hat")]);
    let merged = base.overlaid_with(&[("SAT".to_string(), "sat".to_string())]);
    assert_eq!(merged.lookup("HAT"), Some("hat"));
    assert_eq!(merged.lookup("SAT"), Some("sat"));
    assert_eq!(merged.len(), 3);
    assert_eq!(base.len(), 2);
}

#[test]
fn later_pairs_win_and_lengths_are_counted_in_strokes() {
    let d = dict(&[("KAT", "cat"), ("KAT", "kat"), ("A/B/C", "abc")]);
    assert_eq!(d.lookup("KAT"), Some("kat"));
    assert_eq!(d.len(), 2);
    assert_eq!(d.max_len(), 3);
    assert!(!d.is_empty());
    assert!(dict(&[]).is_empty());
    assert_eq!(dict(&[]).max_len(), 0);
}

#[test]
fn prefixes_must_end_at_a_stroke_boundary() {
    let d = dict(&[("KAT/-S", "cats")]);
    assert!(d.is_prefix("KAT/"));
    assert!(!d.is_prefix("KA/"));
    assert!(!d.is_prefix("KAT/-S/"));
}

#[test]
fn no_match_in_the_middle_of_a_buffer_is_reported_and_the_rest_resolves() {
    let d = dict(&[("KAT", "cat"), ("KAT/-S/-Z", "catsz"), ("HAT", "hat")]);
    let mut tr = Translator::new();
    assert_eq!(tr.push(&d, "KAT".into()), vec![]);
    assert_eq!(tr.push(&d, "-S".into()), vec![]);
    assert_eq!(tr.pending().len(), 2);
    assert_eq!(
        tr.push(&d, "HAT".into()),
        vec![text(&["KAT"], "cat"), Translation::NoMatch { stroke: "-S".into() }, text(&["HAT"], "hat")]
    );
    assert!(tr.pending().is_empty());
}

#[test]
fn clear_drops_pending_strokes() {
    let d = dict(&[("KAT/-S", "cats")]);
    let mut tr = Translator::new();
    assert_eq!(tr.push(&d, "KAT".into()), vec![]);
    tr.clear();
    assert!(tr.pending().is_empty());
    assert_eq!(tr.flush(&d), vec![]);
}

#[test]
fn longest_matching_prefix_is_committed_before_a_stroke_that_breaks_the_entry() {
    let d = dict(&[("A/B", "ab"), ("A/B/D", "abd")]);
    let mut tr = Translator::new();
    assert_eq!(tr.push(&d, "A".into()), vec![]);
    assert_eq!(tr.push(&d, "B".into()), vec![]);
    assert_eq!(tr.pending(), &["A".to_string(), "B".to_string()]);
    assert_eq!(
        tr.push(&d, "C".into()),
        vec![text(&["A", "B"], "ab"), Translation::NoMatch { stroke: "C".into() }]
    );
    assert!(tr.pending().is_empty());
}

#[test]
fn flush_commits_the_longest_matching_prefix_and_reports_the_rest() {
    let d = dict(&[("A", "a"), ("A/B", "ab"), ("A/B/C/D", "abcd")]);
    let mut tr = Translator::new();
    assert_eq!(tr.push(&d, "A".into()), vec![]);
    assert_eq!(tr.push(&d, "B".into()), vec![]);
    assert_eq!(tr.push(&d, "C".into()), vec![]);
    assert_eq!(
        tr.flush(&d),
        vec![text(&["A", "B"], "ab"), Translation::NoMatch { stroke: "C".into() }]
    );
}
