use steno_core::{Bank, Engine, EngineOutput, KeyEvent, Layout, Pack, StenoKey, Translation};

fn test_pack() -> Pack {
    let keys = vec![
        StenoKey::new("K-", "K", Bank::Left),
        StenoKey::new("H-", "H", Bank::Left),
        StenoKey::new("A", "A", Bank::Mid),
        StenoKey::new("*", "*", Bank::Mid),
        StenoKey::new("-T", "T", Bank::Right),
        StenoKey::new("-S", "S", Bank::Right),
    ];
    let map = [("KeyK", "K-"), ("KeyH", "H-"), ("KeyC", "A"), ("KeyG", "*"), ("KeyP", "-T"), ("KeyL", "-S")]
        .iter()
        .map(|(p, s)| (p.to_string(), s.to_string()))
        .collect();
    let dict = r#"{ "KAT": "cat", "HAT": "hat", "KAT/-S": "cats" }"#;
    Pack::from_parts(
        "t".to_string(),
        "Test".to_string(),
        "xx".to_string(),
        String::new(),
        "*".to_string(),
        Layout::new(keys, map),
        dict,
        None,
    )
    .unwrap()
}

fn chord(engine: &mut Engine, keys: &[&str]) -> EngineOutput {
    for k in keys {
        engine.on_key(&KeyEvent::down(k));
    }
    let mut last = EngineOutput::default();
    for k in keys {
        last = engine.on_key(&KeyEvent::up(k));
    }
    last
}

#[test]
fn chords_translate_to_text() {
    let mut e = Engine::new(test_pack());
    let out = chord(&mut e, &["KeyH", "KeyC", "KeyP"]);
    assert_eq!(out.stroke.as_deref(), Some("HAT"));
    assert_eq!(out.translations, vec![Translation::Text { strokes: vec!["HAT".into()], text: "hat".into() }]);
}

#[test]
fn unknown_chord_surfaces_no_match() {
    let mut e = Engine::new(test_pack());
    let out = chord(&mut e, &["KeyH", "KeyP"]);
    assert_eq!(out.stroke.as_deref(), Some("H-T"));
    assert_eq!(out.translations, vec![Translation::NoMatch { stroke: "H-T".into() }]);
}

#[test]
fn disabled_engine_passes_through() {
    let mut e = Engine::new(test_pack());
    e.set_enabled(false);
    let out = chord(&mut e, &["KeyK", "KeyC", "KeyP"]);
    assert!(out.stroke.is_none());
    assert!(out.translations.is_empty());
}

#[test]
fn undo_stroke_is_flagged() {
    let mut e = Engine::new(test_pack());
    let out = chord(&mut e, &["KeyG"]);
    assert_eq!(out.stroke.as_deref(), Some("*"));
    assert!(out.undo);
    assert!(out.translations.is_empty());
}

#[test]
fn multi_stroke_waits_then_resolves() {
    let mut e = Engine::new(test_pack());
    let first = chord(&mut e, &["KeyK", "KeyC", "KeyP"]);
    assert_eq!(first.stroke.as_deref(), Some("KAT"));
    assert!(first.translations.is_empty());
    let second = chord(&mut e, &["KeyL"]);
    assert_eq!(
        second.translations,
        vec![Translation::Text { strokes: vec!["KAT".into(), "-S".into()], text: "cats".into() }]
    );
}

#[test]
fn held_ids_reflect_current_chord_in_order() {
    let mut e = Engine::new(test_pack());
    e.on_key(&KeyEvent::down("KeyP"));
    e.on_key(&KeyEvent::down("KeyK"));
    e.on_key(&KeyEvent::down("KeyC"));
    assert_eq!(e.held_steno_ids(), vec!["K-", "A", "-T"]);
}

#[test]
fn keys_outside_the_layout_are_ignored() {
    let mut e = Engine::new(test_pack());
    let out = chord(&mut e, &["KeyZ"]);
    assert!(out.stroke.is_none());
    assert!(out.translations.is_empty());
    assert!(!out.undo);
    assert!(e.held_steno_ids().is_empty());
}

#[test]
fn undo_discards_pending_strokes() {
    let mut e = Engine::new(test_pack());
    chord(&mut e, &["KeyK", "KeyC", "KeyP"]);
    assert_eq!(e.pending(), &["KAT".to_string()]);
    let out = chord(&mut e, &["KeyG"]);
    assert!(out.undo);
    assert!(e.pending().is_empty());
}

#[test]
fn flush_resolves_what_the_engine_holds() {
    let mut e = Engine::new(test_pack());
    chord(&mut e, &["KeyK", "KeyC", "KeyP"]);
    assert_eq!(e.flush(), vec![Translation::Text { strokes: vec!["KAT".into()], text: "cat".into() }]);
    assert!(e.pending().is_empty());
}

#[test]
fn switching_packs_or_disabling_starts_clean() {
    let mut e = Engine::new(test_pack());
    chord(&mut e, &["KeyK", "KeyC", "KeyP"]);
    e.on_key(&KeyEvent::down("KeyH"));
    e.set_pack(test_pack());
    assert!(e.pending().is_empty());
    assert!(e.held_steno_ids().is_empty());
    assert_eq!(e.pack().code, "t");
    chord(&mut e, &["KeyK", "KeyC", "KeyP"]);
    e.set_enabled(false);
    assert!(!e.is_enabled());
    assert!(e.pending().is_empty());
    e.set_enabled(true);
    assert!(e.is_enabled());
}

#[test]
fn key_events_carry_their_direction() {
    let d = KeyEvent::down("KeyS");
    let u = KeyEvent::up("KeyS");
    assert!(d.pressed);
    assert!(!u.pressed);
    assert_eq!(d.physical, "KeyS");
    assert_eq!(u.physical, "KeyS");
}
