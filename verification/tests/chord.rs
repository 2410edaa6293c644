use std::collections::BTreeSet;
use steno_core::ChordAccumulator;

fn set(ids: &[&str]) -> BTreeSet<String> {
    ids.iter().map(|s| s.to_string()).collect()
}

fn as_set(chord: Option<Vec<String>>) -> Option<BTreeSet<String>> {
    chord.map(|keys| keys.into_iter().collect())
}

#[test]
fn simultaneous_chord_completes_on_full_release() {
    let mut c = ChordAccumulator::new();
    c.press("K-");
    c.press("A");
    c.press("-T");
    assert_eq!(as_set(c.release("K-")), None);
    assert_eq!(as_set(c.release("A")), None);
    assert_eq!(as_set(c.release("-T")), Some(set(&["K-", "A", "-T"])));
}

#[test]
fn staggered_presses_still_form_one_chord() {
    let mut c = ChordAccumulator::new();
    c.press("K-");
    c.press("P-");
    assert_eq!(as_set(c.release("K-")), None);
    c.press("A");
    assert_eq!(as_set(c.release("P-")), None);
    assert_eq!(as_set(c.release("A")), Some(set(&["K-", "P-", "A"])));
}

#[test]
fn next_chord_starts_fresh() {
    let mut c = ChordAccumulator::new();
    c.press("S-");
    assert_eq!(as_set(c.release("S-")), Some(set(&["S-"])));
    c.press("T-");
    assert_eq!(as_set(c.release("T-")), Some(set(&["T-"])));
}

#[test]
fn duplicate_press_is_idempotent() {
    let mut c = ChordAccumulator::new();
    c.press("S-");
    c.press("S-");
    assert_eq!(as_set(c.release("S-")), Some(set(&["S-"])));
}

#[test]
fn reset_discards_in_progress_chord() {
    let mut c = ChordAccumulator::new();
    c.press("S-");
    c.press("T-");
    c.reset();
    assert!(!c.is_active());
    assert!(c.held().is_empty());
    assert_eq!(as_set(c.release("S-")), None);
}

#[test]
fn releasing_a_key_never_pressed_is_ignored() {
    let mut c = ChordAccumulator::new();
    assert_eq!(c.release("S-"), None);
    assert!(!c.is_active());
    c.press("S-");
    assert_eq!(c.release("T-"), None);
    assert!(c.is_active());
    assert_eq!(c.held(), &["S-".to_string()]);
}

#[test]
fn building_keeps_released_keys_until_the_chord_ends() {
    let mut c = ChordAccumulator::new();
    c.press("S-");
    c.press("T-");
    assert_eq!(c.release("S-"), None);
    assert_eq!(c.held(), &["T-".to_string()]);
    assert_eq!(c.building().len(), 2);
    assert!(c.building().contains(&"S-".to_string()));
}

#[test]
fn chord_keys_come_out_in_sorted_order() {
    let mut c = ChordAccumulator::new();
    c.press("K-");
    c.press("A");
    c.press("-T");
    assert_eq!(c.held(), &["-T".to_string(), "A".to_string(), "K-".to_string()]);
    c.release("A");
    assert_eq!(c.held(), &["-T".to_string(), "K-".to_string()]);
    c.release("-T");
    let chord = c.release("K-");
    assert_eq!(chord, Some(set(&["K-", "A", "-T"]).into_iter().collect::<Vec<_>>()));
    assert_eq!(chord, Some(vec!["-T".to_string(), "A".to_string(), "K-".to_string()]));
}

#[test]
fn a_chord_is_in_progress_exactly_while_a_key_is_held() {
    let mut c = ChordAccumulator::new();
    let check = |c: &ChordAccumulator| {
        assert_eq!(c.is_active(), !c.held().is_empty());
        assert_eq!(c.is_active(), !c.building().is_empty());
        assert!(c.held().iter().all(|k| c.building().contains(k)));
    };
    check(&c);
    c.press("S-");
    check(&c);
    c.press("T-");
    check(&c);
    assert_eq!(c.release("S-"), None);
    check(&c);
    assert_eq!(c.release("Q"), None);
    check(&c);
    assert_eq!(c.release("T-"), Some(vec!["S-".to_string(), "T-".to_string()]));
    check(&c);
    assert_eq!(c.release("T-"), None);
    check(&c);
    c.press("A");
    c.reset();
    check(&c);
}
