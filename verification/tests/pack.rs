use steno_core::{Bank, Layout, Pack, PackError, StenoKey};

fn layout() -> Layout {
    Layout::new(
        vec![StenoKey::new("S-", "S", Bank::Left), StenoKey::new("A", "A", Bank::Mid), StenoKey::new("-T", "T", Bank::Right)],
        vec![("KeyA".to_string(), "S-".to_string()), ("KeyC".to_string(), "A".to_string()), ("KeyP".to_string(), "-T".to_string())],
    )
}

fn build(dict_json: &str, user_json: Option<&str>) -> Result<Pack, PackError> {
    Pack::from_parts(
        "t".to_string(),
        "Test".to_string(),
        "xx".to_string(),
        String::new(),
        "*".to_string(),
        layout(),
        dict_json,
        user_json,
    )
}

#[test]
fn assembles_a_valid_pack() {
    let p = build(r#"{"SAT":"sat"}"#, None).unwrap();
    assert_eq!(p.code, "t");
    assert_eq!(p.undo_stroke, "*");
    assert_eq!(p.layout.order().len(), 3);
    assert_eq!(p.layout.steno_for("KeyC"), Some("A"));
    assert_eq!(p.dict.lookup("SAT"), Some("sat"));
}

#[test]
fn the_user_overlay_wins() {
    let p = build(r#"{"SAT":"sat"}"#, Some(r#"{"SAT":"seat"}"#)).unwrap();
    assert_eq!(p.dict.lookup("SAT"), Some("seat"));
}

#[test]
fn a_blank_overlay_is_ignored() {
    let p = build(r#"{"SAT":"sat"}"#, Some("  \n")).unwrap();
    assert_eq!(p.dict.lookup("SAT"), Some("sat"));
    assert_eq!(p.dict.len(), 1);
}

#[test]
fn malformed_json_is_reported_as_a_dictionary_error() {
    let err = build("{ not json", None).unwrap_err();
    assert!(matches!(err, PackError::Dict(_)));
    let err = build("{}", Some("[1, 2]")).unwrap_err();
    assert!(matches!(err, PackError::Dict(_)));
    let err = build(r#"{"SAT": 3}"#, None).unwrap_err();
    assert!(matches!(err, PackError::Dict(ref m) if !m.is_empty()));
}

#[test]
fn the_default_undo_stroke_is_the_star() {
    assert_eq!(steno_core::pack::default_undo(), "*");
}
