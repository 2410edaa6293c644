use steno_core::{parse_stroke, parse_stroke_sequence, render_stroke, Bank, StenoKey};

fn order() -> Vec<StenoKey> {
    vec![
        StenoKey::new("S-", "S", Bank::Left),
        StenoKey::new("T-", "T", Bank::Left),
        StenoKey::new("K-", "K", Bank::Left),
        StenoKey::new("H-", "H", Bank::Left),
        StenoKey::new("A", "A", Bank::Mid),
        StenoKey::new("O", "O", Bank::Mid),
        StenoKey::new("E", "E", Bank::Mid),
        StenoKey::new("-P", "P", Bank::Right),
        StenoKey::new("-T", "T", Bank::Right),
    ]
}

fn set(ids: &[&str]) -> Vec<String> {
    ids.iter().map(|s| s.to_string()).collect()
}

#[test]
fn word_with_vowel_has_no_hyphen() {
    assert_eq!(render_stroke(&order(), &set(&["K-", "A", "-T"])), "KAT");
}

#[test]
fn no_vowel_inserts_hyphen_before_right_bank() {
    assert_eq!(render_stroke(&order(), &set(&["S-", "-T"])), "S-T");
}

#[test]
fn only_left_bank_no_hyphen() {
    assert_eq!(render_stroke(&order(), &set(&["S-", "T-", "H-"])), "STH");
}

#[test]
fn only_right_bank_gets_leading_hyphen() {
    assert_eq!(render_stroke(&order(), &set(&["-P", "-T"])), "-PT");
}

#[test]
fn only_vowel() {
    assert_eq!(render_stroke(&order(), &set(&["A"])), "A");
}

#[test]
fn keys_render_in_order_not_press_order() {
    assert_eq!(render_stroke(&order(), &set(&["-T", "A", "T-"])), "TAT");
}

#[test]
fn unknown_ids_are_ignored_and_nothing_renders_empty() {
    assert_eq!(render_stroke(&order(), &set(&["X", "A"])), "A");
    assert_eq!(render_stroke(&order(), &set(&[])), "");
}

fn parsed(stroke: &str) -> Option<Vec<String>> {
    parse_stroke(&order(), stroke)
}

#[test]
fn parses_a_stroke_with_a_vowel() {
    assert_eq!(parsed("KAT").as_deref(), Some(&["K-".into(), "A".into(), "-T".into()][..]));
}

#[test]
fn hyphen_sends_the_remainder_to_the_right_bank() {
    assert_eq!(parsed("S-T").as_deref(), Some(&["S-".into(), "-T".into()][..]));
}

#[test]
fn parses_a_right_bank_only_stroke() {
    assert_eq!(parsed("-PT").as_deref(), Some(&["-P".into(), "-T".into()][..]));
}

#[test]
fn parses_a_left_bank_only_stroke() {
    assert_eq!(parsed("STH").as_deref(), Some(&["S-".into(), "T-".into(), "H-".into()][..]));
}

#[test]
fn repeated_letter_resolves_by_position() {
    assert_eq!(parsed("TAT").as_deref(), Some(&["T-".into(), "A".into(), "-T".into()][..]));
}

#[test]
fn unknown_letter_fails_to_parse() {
    assert_eq!(parsed("KXT"), None);
}

#[test]
fn out_of_order_letters_fail_to_parse() {
    assert_eq!(parsed("AK"), None);
}

#[test]
fn the_empty_stroke_parses_to_no_keys() {
    assert_eq!(parsed(""), Some(Vec::new()));
}

#[test]
fn parses_a_multi_stroke_key() {
    assert_eq!(
        parse_stroke_sequence(&order(), "KAT/-T"),
        Some(vec![
            vec!["K-".to_string(), "A".to_string(), "-T".to_string()],
            vec!["-T".to_string()],
        ])
    );
}

#[test]
fn a_bad_stroke_fails_the_whole_sequence() {
    assert_eq!(parse_stroke_sequence(&order(), "KAT/XX"), None);
}

#[test]
fn render_and_parse_round_trip() {
    for ids in [
        vec!["K-", "A", "-T"],
        vec!["S-", "-T"],
        vec!["-P", "-T"],
        vec!["S-", "T-", "H-"],
        vec!["A"],
        vec!["T-", "A", "-T"],
    ] {
        let rendered = render_stroke(&order(), &set(&ids));
        assert_eq!(
            parsed(&rendered).as_deref(),
            Some(&ids.iter().map(|s| s.to_string()).collect::<Vec<_>>()[..]),
            "round trip failed for {rendered}"
        );
    }
}
