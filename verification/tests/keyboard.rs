use steno_core::keyboard::{physical_label, unrendered_keys};
use steno_core::{Bank, Layout, StenoKey};

#[test]
fn keys_show_their_glyphs() {
    assert_eq!(physical_label("KeyQ"), "Q");
    assert_eq!(physical_label("SemiColon"), ";");
    assert_eq!(physical_label("BackSlash"), "\\");
    assert_eq!(physical_label("Dot"), ".");
    assert_eq!(physical_label("Key"), "");
    assert_eq!(physical_label("Space"), "Space");
}

#[test]
fn keys_bound_only_off_the_drawing_are_reported_in_order() {
    let order = vec![
        StenoKey::new("S-", "S", Bank::Left),
        StenoKey::new("A", "A", Bank::Mid),
        StenoKey::new("-T", "T", Bank::Right),
        StenoKey::new("*", "*", Bank::Mid),
    ];
    let map = vec![
        ("KeyQ".to_string(), "S-".to_string()),
        ("F13".to_string(), "A".to_string()),
        ("F14".to_string(), "-T".to_string()),
        ("KeyP".to_string(), "-T".to_string()),
    ];
    let layout = Layout::new(order, map);
    let missing: Vec<&str> = unrendered_keys(&layout, &["KeyQ", "KeyP", "KeyA"]).iter().map(|k| k.id.as_str()).collect();
    assert_eq!(missing, vec!["A", "*"]);
}
