use steno_core::events::StenoEvent;
use steno_core::learning::{example, handle_events, Feedback, LearnState};
use steno_core::progress::LessonProgress;
use steno_core::{Bank, Curriculum, Layout, Pack, StenoKey};

fn pack() -> Pack {
    let keys = vec![
        StenoKey::new("S-", "S", Bank::Left),
        StenoKey::new("T-", "T", Bank::Left),
        StenoKey::new("A", "A", Bank::Mid),
        StenoKey::new("-T", "T", Bank::Right),
    ];
    let map = keys.iter().enumerate().map(|(i, k)| (format!("Key{i}"), k.id.clone())).collect();
    Pack::from_parts(
        "p".to_string(),
        "P".to_string(),
        "xx".to_string(),
        String::new(),
        "*".to_string(),
        Layout::new(keys, map),
        r#"{"S": "s", "T": "t", "ST": "st", "SA": "sa", "TA": "ta", "SAT": "sat"}"#,
        None,
    )
    .unwrap()
}

fn text(t: &str) -> StenoEvent {
    StenoEvent::Text(t.to_string())
}

#[test]
fn nothing_happens_without_a_lesson() {
    let mut state = LearnState::default();
    let mut progress = LessonProgress::new();
    assert!(!handle_events(&mut state, &[StenoEvent::Stroke("S".to_string()), text("s")], "p", &mut progress));
    assert!(!state.is_drilling());
    assert!(!state.started);
    assert_eq!(state.stats.strokes(), 0);
}

#[test]
fn answering_every_item_finishes_the_lesson_once() {
    let c = Curriculum::derive(&pack());
    let first = c.get(0).expect("a first lesson");
    let items: Vec<String> = first.items.iter().map(|i| i.text.clone()).collect();
    assert_eq!(items, vec!["s", "t", "st"]);
    let mut state = LearnState::default();
    let mut progress = LessonProgress::new();
    state.start(&c, 0);
    assert!(state.is_drilling());
    assert_eq!(state.target_strokes(), vec!["S".to_string()]);
    assert!(!state.hint_visible(false));
    let events = vec![StenoEvent::Stroke("S".to_string()), text("s"), text("x"), text("t")];
    assert!(!handle_events(&mut state, &events, "p", &mut progress));
    assert!(matches!(state.feedback, Some(Feedback::Correct)));
    assert_eq!(state.stats.correct(), 2);
    assert_eq!(state.stats.incorrect(), 1);
    assert_eq!(state.stats.strokes(), 1);
    assert!(state.started);
    assert!(handle_events(&mut state, &[text("st")], "p", &mut progress));
    assert!(state.completed);
    assert!(!state.is_drilling());
    assert_eq!(progress.lessons_done("p"), 1);
    assert!(!handle_events(&mut state, &[text("st")], "p", &mut progress));
    assert_eq!(state.stats.correct(), 3);
}

#[test]
fn a_miss_is_shown_and_reveals_the_hint() {
    let c = Curriculum::derive(&pack());
    let mut state = LearnState::default();
    let mut progress = LessonProgress::new();
    state.start(&c, 0);
    handle_events(&mut state, &[StenoEvent::NoMatch("XX".to_string())], "p", &mut progress);
    assert!(matches!(&state.feedback, Some(Feedback::Wrong { got }) if got == "XX (no match)"));
    assert_eq!(state.stats.incorrect(), 1);
    handle_events(&mut state, &[text("nope")], "p", &mut progress);
    assert!(matches!(&state.feedback, Some(Feedback::Wrong { got }) if got == "nope"));
    assert!(state.hint_visible(false));
    handle_events(&mut state, &[StenoEvent::Undo], "p", &mut progress);
    assert!(state.feedback.is_none());
}

#[test]
fn skipping_the_last_item_finishes_the_lesson() {
    let c = Curriculum::derive(&pack());
    let mut state = LearnState::default();
    let mut progress = LessonProgress::new();
    state.start(&c, 1);
    assert_eq!(state.lesson_index, 1);
    let n = c.get(1).unwrap().len();
    for _ in 0..n - 1 {
        assert!(!state.skip("p", &mut progress));
    }
    assert!(state.skip("p", &mut progress));
    assert_eq!(progress.lessons_done("p"), 2);
    assert!(!state.skip("p", &mut progress));
    state.stop();
    assert!(state.drill.is_none());
    state.start(&c, 99);
    assert!(state.drill.is_none());
}

#[test]
fn the_walkthrough_demonstrates_a_chorded_word() {
    let p = pack();
    let c = Curriculum::derive(&p);
    let item = example(&p, &c).expect("something to show");
    assert_eq!(item.text, "st");
    assert_eq!(item.strokes, vec!["ST".to_string()]);
}

#[test]
fn without_a_chorded_word_any_chord_or_item_will_do() {
    let keys = vec![StenoKey::new("S-", "S", Bank::Left), StenoKey::new("T-", "T", Bank::Left), StenoKey::new("A", "A", Bank::Mid)];
    let map = keys.iter().enumerate().map(|(i, k)| (format!("Key{i}"), k.id.clone())).collect();
    let p = Pack::from_parts(
        "q".to_string(),
        "Q".to_string(),
        "xx".to_string(),
        String::new(),
        "*".to_string(),
        Layout::new(keys, map),
        r#"{"S": "s", "T": "t", "ST": "x", "A": "a"}"#,
        None,
    )
    .unwrap();
    let c = Curriculum::derive(&p);
    assert_eq!(example(&p, &c).map(|i| i.text), Some("x".to_string()));
    let empty = Curriculum::derive(&Pack::from_parts(
        "e".to_string(),
        "E".to_string(),
        "xx".to_string(),
        String::new(),
        "*".to_string(),
        Layout::new(Vec::new(), Vec::new()),
        "{}",
        None,
    )
    .unwrap());
    assert!(example(&p, &empty).is_none());
}

#[test]
fn a_stroke_with_no_entry_counts_against_the_item_and_reveals_the_chord() {
    let c = Curriculum::derive(&pack());
    let mut state = LearnState::default();
    let mut progress = LessonProgress::new();
    state.start(&c, 0);
    assert!(!state.hint_visible(false));
    assert!(!handle_events(&mut state, &[StenoEvent::NoMatch("H-T".to_string())], "p", &mut progress));
    let drill = state.drill.as_ref().expect("a drill");
    assert_eq!(drill.position(), 0);
    assert_eq!(drill.attempts_on_current(), 1);
    assert!(state.hint_visible(false));
    assert_eq!(state.stats.incorrect(), 1);
    assert_eq!(state.target_strokes(), vec!["S".to_string()]);
}

#[test]
fn escape_leaves_a_lesson_in_progress_only() {
    let c = Curriculum::derive(&pack());
    let mut state = LearnState::default();
    assert!(!state.escape());
    assert!(state.drill.is_none());
    state.start(&c, c.len() - 1);
    assert!(state.is_drilling());
    let mut progress = LessonProgress::new();
    handle_events(&mut state, &[StenoEvent::Stroke("S".to_string())], "p", &mut progress);
    assert!(state.escape());
    assert!(state.drill.is_none());
    assert_eq!(state.lesson_index, 0);
    assert!(!state.started);
    assert_eq!(state.stats.strokes(), 0);
}
