use steno_core::SessionStats;

#[test]
fn strokes_count_independently_of_items() {
    let mut s = SessionStats::new();
    s.record_stroke();
    s.record_stroke();
    s.record_item("cat", true);
    assert_eq!(s.strokes(), 2);
    assert_eq!(s.correct(), 1);
}

#[test]
fn reset_clears_everything() {
    let mut s = SessionStats::new();
    s.record_stroke();
    s.record_item("cat", true);
    s.set_elapsed_ms(1000);
    s.reset();
    assert_eq!(s, SessionStats::new());
}

#[test]
fn a_fresh_session_has_no_attempts() {
    let s = SessionStats::new();
    assert_eq!(s.attempts(), 0);
    assert_eq!(s.strokes(), 0);
    assert_eq!(s.elapsed_ms(), 0);
    assert_eq!(s.chars(), 0);
}

#[test]
fn attempts_count_right_and_wrong_answers() {
    let mut s = SessionStats::new();
    s.record_item("cat", true);
    s.record_item("cat", true);
    s.record_item("cat", false);
    s.record_item("cat", false);
    assert_eq!(s.attempts(), 4);
    assert_eq!(s.correct(), 2);
    assert_eq!(s.incorrect(), 2);
}

#[test]
fn only_correct_items_count_characters_and_kana_count_once() {
    let mut s = SessionStats::new();
    s.record_item("abcde", false);
    assert_eq!(s.chars(), 0);
    s.record_item("かきくけこ", true);
    assert_eq!(s.chars(), 5);
    s.set_elapsed_ms(60_000);
    assert_eq!(s.elapsed_ms(), 60_000);
}
