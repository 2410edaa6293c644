use steno_core::{Bank, Layout, StenoKey};

fn layout() -> Layout {
    let order = vec![StenoKey::new("S-", "S", Bank::Left), StenoKey::new("A", "A", Bank::Mid)];
    let mut map = Vec::new();
    map.push(("KeyQ".to_string(), "S-".to_string()));
    map.push(("KeyA".to_string(), "S-".to_string()));
    map.push(("KeyC".to_string(), "A".to_string()));
    Layout::new(order, map)
}

#[test]
fn maps_physical_to_steno() {
    let l = layout();
    assert_eq!(l.steno_for("KeyQ"), Some("S-"));
    assert_eq!(l.steno_for("KeyA"), Some("S-"));
    assert_eq!(l.steno_for("KeyC"), Some("A"));
    assert_eq!(l.steno_for("KeyZ"), None);
}

#[test]
fn recognizes_steno_keys() {
    let l = layout();
    assert!(l.is_steno_key("KeyQ"));
    assert!(!l.is_steno_key("Space"));
}

#[test]
fn reverse_lookup_finds_all_bindings() {
    let l = layout();
    let mut keys = l.physical_keys_for("S-");
    keys.sort();
    assert_eq!(keys, vec!["KeyA", "KeyQ"]);
}

#[test]
fn a_later_binding_of_the_same_physical_key_wins() {
    let order = vec![StenoKey::new("S-", "S", Bank::Left), StenoKey::new("A", "A", Bank::Mid)];
    let map = vec![("KeyQ".to_string(), "S-".to_string()), ("KeyQ".to_string(), "A".to_string())];
    let l = Layout::new(order, map);
    assert_eq!(l.steno_for("KeyQ"), Some("A"));
    assert!(l.physical_keys_for("S-").is_empty());
    assert_eq!(l.order().len(), 2);
}
