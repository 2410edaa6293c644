use steno_core::events::StenoEvent;
use steno_core::practice::{handle_events, PracticeAction, PracticeState, FEED_LEN};

#[test]
fn the_feed_pairs_each_stroke_with_what_it_produced() {
    let mut state = PracticeState::default();
    let events = vec![
        StenoEvent::Stroke("KAT".to_string()),
        StenoEvent::Text("cat".to_string()),
        StenoEvent::Stroke("XX".to_string()),
        StenoEvent::NoMatch("XX".to_string()),
        StenoEvent::Stroke("*".to_string()),
        StenoEvent::Undo,
        StenoEvent::Stroke("KAT".to_string()),
    ];
    handle_events(&mut state, &events);
    let lines: Vec<(String, Result<String, String>)> = state.feed.iter().map(|l| (l.stroke.clone(), l.result.clone())).collect();
    assert_eq!(
        lines,
        vec![
            ("KAT".to_string(), Ok("cat".to_string())),
            ("XX".to_string(), Err("XX".to_string())),
            ("*".to_string(), Ok("(undo)".to_string())),
            ("KAT".to_string(), Ok(String::new())),
        ]
    );
    assert_eq!(state.stats().strokes(), 4);
    assert_eq!(state.stats().correct(), 1);
    assert_eq!(state.stats().chars(), 3);
    assert!(state.is_started());
    assert_eq!(state.last_stroke(), "KAT");
}

#[test]
fn the_feed_keeps_only_the_latest_strokes() {
    let mut state = PracticeState::default();
    let events: Vec<StenoEvent> = (0..FEED_LEN + 3).map(|i| StenoEvent::Stroke(format!("S{i}"))).collect();
    handle_events(&mut state, &events);
    assert_eq!(state.feed.len(), FEED_LEN);
    assert_eq!(state.feed[0].stroke, "S3");
    assert_eq!(state.feed[FEED_LEN - 1].stroke, format!("S{}", FEED_LEN + 2));
}

#[test]
fn text_without_a_stroke_counts_but_leaves_the_feed_alone() {
    let mut state = PracticeState::default();
    handle_events(&mut state, &[StenoEvent::Text("hi".to_string()), StenoEvent::Undo]);
    assert!(state.feed.is_empty());
    assert_eq!(state.stats().correct(), 1);
    assert!(!state.is_started());
    assert_eq!(state.last_stroke(), "");
}

#[test]
fn clearing_starts_the_session_over() {
    let mut state = PracticeState::default();
    handle_events(&mut state, &[StenoEvent::Stroke("KAT".to_string())]);
    state.set_elapsed_ms(500);
    assert_eq!(state.stats().elapsed_ms(), 500);
    state.clear();
    assert!(state.feed.is_empty());
    assert_eq!(state.stats().strokes(), 0);
    assert_eq!(state.stats().elapsed_ms(), 0);
    assert!(!state.is_started());
    let action = PracticeAction::default();
    assert!(!action.clear && !action.undo && !action.settings_changed);
}
