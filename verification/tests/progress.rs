use steno_core::progress::LessonProgress;

#[test]
fn progress_only_moves_forward() {
    let mut p = LessonProgress::new();
    p.mark_lesson_done("en-beginner", 3);
    p.mark_lesson_done("en-beginner", 1);
    assert_eq!(p.lessons_done("en-beginner"), 4);
}

#[test]
fn progress_is_tracked_per_pack() {
    let mut p = LessonProgress::new();
    p.mark_lesson_done("en-beginner", 0);
    assert_eq!(p.lessons_done("en-beginner"), 1);
    assert_eq!(p.lessons_done("ja-beginner"), 0);
}

#[test]
fn forgetting_a_pack_leaves_the_others() {
    let mut p = LessonProgress::from_records(vec![("a".to_string(), 2), ("b".to_string(), 5), ("a".to_string(), 3)]);
    assert_eq!(p.lessons_done("a"), 3);
    p.forget("a");
    assert_eq!(p.lessons_done("a"), 0);
    assert_eq!(p.lessons_done("b"), 5);
    assert_eq!(p.records().len(), 1);
    p.mark_lesson_done("a", 0);
    assert_eq!(p.lessons_done("a"), 1);
}
