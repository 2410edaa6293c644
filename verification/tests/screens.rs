use steno_core::screens::{key_action, route_keyboard, spaced, KeyAction, LookupState, Mode, Screen, SettingsAction, ThemeMode};

#[test]
fn modes_say_where_text_goes() {
    assert_eq!(Mode::InApp.label(), "Type here");
    assert_eq!(Mode::SystemWide.label(), "Type into other apps");
}

#[test]
fn only_learning_and_practice_take_the_keyboard() {
    assert!(Screen::Learn.captures_keys());
    assert!(Screen::Practice.captures_keys());
    assert!(!Screen::Dictionary.captures_keys());
    assert!(!Screen::Settings.captures_keys());
    assert_eq!(Screen::default(), Screen::Learn);
    let labels: Vec<&str> = [Screen::Learn, Screen::Practice, Screen::Dictionary, Screen::Settings].iter().map(|s| s.label()).collect();
    assert_eq!(labels, vec!["Learn", "Practice", "Dictionary", "Settings"]);
}

#[test]
fn themes_have_names_and_dark_is_the_default() {
    assert_eq!(ThemeMode::Dark.label(), "Dark");
    assert_eq!(ThemeMode::Light.label(), "Light");
    assert_eq!(ThemeMode::default(), ThemeMode::Dark);
}

#[test]
fn spacing_follows_the_buffer_and_the_destination() {
    assert_eq!(spaced("cat", Mode::InApp, true), "cat");
    assert_eq!(spaced("cat", Mode::InApp, false), " cat");
    assert_eq!(spaced("cat", Mode::SystemWide, true), " cat");
    assert_eq!(spaced("a", Mode::SystemWide, false), "a");
    assert_eq!(spaced("か", Mode::InApp, false), "か");
    assert_eq!(spaced("", Mode::SystemWide, false), "");
}

#[test]
fn screens_start_with_nothing_asked_for() {
    let a = SettingsAction::default();
    assert!(a.select_pack.is_none() && !a.settings_changed && !a.reload_packs && !a.reset_progress);
    let l = LookupState::default();
    assert!(l.query.is_empty());
    assert!(l.selected.is_none());
}

#[test]
fn a_focused_text_field_keeps_the_keyboard() {
    for screen in [Screen::Learn, Screen::Practice, Screen::Dictionary, Screen::Settings] {
        assert!(!route_keyboard(true, true, screen, Mode::InApp).wants_keys);
        assert!(!route_keyboard(true, false, screen, Mode::SystemWide).wants_keys);
    }
}

#[test]
fn chording_drives_the_engine_on_learn_practice_and_onboarding() {
    assert!(route_keyboard(false, true, Screen::Learn, Mode::InApp).wants_keys);
    assert!(route_keyboard(false, true, Screen::Practice, Mode::InApp).wants_keys);
    assert!(!route_keyboard(false, true, Screen::Dictionary, Mode::InApp).wants_keys);
    assert!(!route_keyboard(false, true, Screen::Settings, Mode::InApp).wants_keys);
    assert!(route_keyboard(false, false, Screen::Settings, Mode::InApp).wants_keys);
}

#[test]
fn only_practice_in_system_wide_mode_after_onboarding_goes_system_wide() {
    assert!(route_keyboard(false, true, Screen::Practice, Mode::SystemWide).system_wide);
    assert!(route_keyboard(true, true, Screen::Practice, Mode::SystemWide).system_wide);
    assert!(!route_keyboard(false, false, Screen::Practice, Mode::SystemWide).system_wide);
    assert!(!route_keyboard(false, true, Screen::Practice, Mode::InApp).system_wide);
    assert!(!route_keyboard(false, true, Screen::Learn, Mode::SystemWide).system_wide);
}

#[test]
fn space_flushes_repeats_are_skipped_and_the_rest_is_fed() {
    assert_eq!(key_action(true, true, false), KeyAction::Flush);
    assert_eq!(key_action(true, true, true), KeyAction::Flush);
    assert_eq!(key_action(true, false, false), KeyAction::Feed);
    assert_eq!(key_action(false, true, true), KeyAction::Skip);
    assert_eq!(key_action(true, false, true), KeyAction::Skip);
    assert_eq!(key_action(false, true, false), KeyAction::Feed);
    assert_eq!(key_action(false, false, false), KeyAction::Feed);
}
