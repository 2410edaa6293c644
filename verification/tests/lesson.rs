use std::collections::HashSet;
use steno_core::{
    parse_stroke_sequence, Bank, Curriculum, Drill, DrillOutcome, Layout, Lesson, LessonItem, Pack, ReverseIndex, StenoKey,
};

fn lesson(items: &[&str]) -> Lesson {
    Lesson {
        index: 0,
        new_keys: Vec::new(),
        items: items.iter().map(|t| LessonItem { text: t.to_string(), strokes: vec!["X".to_string()] }).collect(),
    }
}

fn key_list(ids: &[(&str, &str, Bank)]) -> Vec<StenoKey> {
    ids.iter().map(|(id, letter, bank)| StenoKey::new(id, letter, *bank)).collect()
}

fn pack_with(keys: Vec<StenoKey>, dict: &str) -> Pack {
    let map = keys.iter().enumerate().map(|(i, k)| (format!("Key{i}"), k.id.clone())).collect();
    Pack::from_parts(
        "t".to_string(),
        "Test".to_string(),
        "xx".to_string(),
        String::new(),
        "*".to_string(),
        Layout::new(keys, map),
        dict,
        None,
    )
    .expect("pack parses")
}

/// A small English-like pack.
fn small() -> Pack {
    let keys = key_list(&[
        ("S-", "S", Bank::Left),
        ("T-", "T", Bank::Left),
        ("K-", "K", Bank::Left),
        ("P-", "P", Bank::Left),
        ("W-", "W", Bank::Left),
        ("H-", "H", Bank::Left),
        ("R-", "R", Bank::Left),
        ("A", "A", Bank::Mid),
        ("O", "O", Bank::Mid),
        ("*", "*", Bank::Mid),
        ("E", "E", Bank::Mid),
        ("U", "U", Bank::Mid),
        ("-F", "F", Bank::Right),
        ("-R", "R", Bank::Right),
        ("-P", "P", Bank::Right),
        ("-B", "B", Bank::Right),
        ("-L", "L", Bank::Right),
        ("-G", "G", Bank::Right),
        ("-T", "T", Bank::Right),
        ("-S", "S", Bank::Right),
        ("-D", "D", Bank::Right),
        ("-Z", "Z", Bank::Right),
    ]);
    let dict = r#"{
        "S": "is", "T": "it", "KP": "example",
        "A": "a", "SA": "saw", "TO": "to",
        "KAT": "cat", "HAT": "hat", "WAS": "was", "PAT": "pat", "SAT": "sat",
        "KAT/-S": "cats", "STKPWHR": "z", "*": "undo",
        "XQ": "unparseable", "KA/KAT": "cat"
    }"#;
    pack_with(keys, dict)
}

/// A pack whose middle bank reaches far more than one lesson holds.
fn crowded() -> Pack {
    let keys = key_list(&[("S-", "S", Bank::Left), ("T-", "T", Bank::Left), ("A", "A", Bank::Mid), ("*", "*", Bank::Mid), ("-T", "T", Bank::Right)]);
    let strokes = ["A", "SA", "TA", "STA", "AT", "SAT", "TAT", "STAT"];
    let mut entries = Vec::new();
    for (i, a) in strokes.iter().enumerate() {
        entries.push(format!("\"{a}\": \"w{i}\""));
        for (j, b) in strokes.iter().enumerate() {
            entries.push(format!("\"{a}/{b}\": \"w{i}_{j}\""));
        }
    }
    pack_with(keys, &format!("{{{}}}", entries.join(",")))
}

fn ids_of(pack: &Pack, item: &LessonItem) -> Vec<String> {
    parse_stroke_sequence(pack.layout.order(), &item.strokes.join("/")).expect("lesson items always parse").into_iter().flatten().collect()
}

#[test]
fn keys_label_lists_the_new_letters() {
    let l = Lesson {
        index: 0,
        new_keys: vec![StenoKey::new("S-", "S", Bank::Left), StenoKey::new("T-", "T", Bank::Left)],
        items: Vec::new(),
    };
    assert_eq!(l.keys_label(), "S T");
    assert_eq!(l.title(), "Lesson 1");
}

#[test]
fn a_pack_with_an_empty_dictionary_yields_no_lessons() {
    let pack = Pack::from_parts(
        "t".to_string(),
        "T".to_string(),
        "xx".to_string(),
        String::new(),
        steno_core::pack::default_undo(),
        Layout::new(vec![StenoKey::new("S-", "S", Bank::Left)], vec![("KeyQ".to_string(), "S-".to_string())]),
        "{}",
        None,
    )
    .expect("pack parses");
    let c = Curriculum::derive(&pack);
    assert!(c.is_empty(), "expected no lessons, got {:?}", c.lessons());
}

#[test]
fn the_small_pack_gets_its_lessons_in_key_order() {
    let c = Curriculum::derive(&small());
    assert_eq!(c.len(), 3);
    let first = c.get(0).expect("a first lesson");
    assert_eq!(first.keys_label(), "S T K P");
    let texts: Vec<&str> = first.items.iter().map(|i| i.text.as_str()).collect();
    assert_eq!(texts, vec!["is", "it", "example"]);
    let second = c.get(1).expect("a second lesson");
    assert_eq!(second.keys_label(), "A O E U");
    assert!(second.new_keys.iter().all(|k| k.bank == Bank::Mid));
    let texts: Vec<&str> = second.items.iter().map(|i| i.text.as_str()).collect();
    assert_eq!(texts, vec!["a", "saw", "to"]);
    let third = c.get(2).expect("a third lesson");
    assert_eq!(third.keys_label(), "W H R F R P B L G T S");
    assert!(c.get(3).is_none());
    for (i, l) in c.lessons().iter().enumerate() {
        assert_eq!(l.index, i);
        assert_eq!(l.title(), format!("Lesson {}", i + 1));
    }
}

#[test]
fn small_lessons_never_need_an_untaught_key() {
    for pack in [small(), crowded()] {
        let c = Curriculum::derive(&pack);
        let mut taught: HashSet<String> = HashSet::new();
        for l in c.lessons() {
            taught.extend(l.new_keys.iter().map(|k| k.id.clone()));
            for item in &l.items {
                for id in ids_of(&pack, item) {
                    assert!(taught.contains(&id), "{} drills {:?} which needs untaught key {id}", l.title(), item.text);
                }
            }
        }
    }
}

#[test]
fn small_lessons_exercise_a_new_key() {
    for pack in [small(), crowded()] {
        let c = Curriculum::derive(&pack);
        for l in c.lessons().iter().filter(|l| !l.is_review()) {
            let new: HashSet<&str> = l.new_keys.iter().map(|k| k.id.as_str()).collect();
            assert!(l.items.iter().any(|item| ids_of(&pack, item).iter().any(|id| new.contains(id.as_str()))), "{} never uses a new key", l.title());
        }
    }
}

#[test]
fn every_drillable_word_of_a_small_pack_is_taught_once() {
    for pack in [small(), crowded()] {
        let c = Curriculum::derive(&pack);
        assert!(c.len() < 40);
        let mut seen = HashSet::new();
        for l in c.lessons() {
            assert!(!l.is_empty());
            assert!(l.len() <= 32, "{} has {} items", l.title(), l.len());
            for item in &l.items {
                assert!(seen.insert(item.text.clone()), "{} repeated", item.text);
            }
        }
        let index = ReverseIndex::build(&pack.dict);
        for entry in index.best_entries() {
            let drillable = !entry.text.is_empty()
                && entry.key() != pack.undo_stroke
                && parse_stroke_sequence(pack.layout.order(), &entry.key()).is_some();
            assert_eq!(seen.contains(&entry.text), drillable, "{} ({})", entry.text, entry.key());
        }
    }
}

#[test]
fn overflow_of_a_crowded_pack_becomes_review_lessons() {
    let c = Curriculum::derive(&crowded());
    let reviews: Vec<_> = c.lessons().iter().filter(|l| l.is_review()).collect();
    assert!(!reviews.is_empty(), "overflow should spill into review");
    for l in reviews {
        assert!(l.keys_label().is_empty());
        assert!(!l.is_empty());
        assert!(l.len() <= 16);
    }
}

#[test]
fn the_undo_key_is_never_a_lesson_key() {
    for pack in [small(), crowded()] {
        for l in Curriculum::derive(&pack).lessons() {
            assert!(!l.new_keys.iter().any(|k| k.id == pack.undo_stroke));
        }
    }
}

#[test]
fn items_carry_their_best_strokes() {
    let c = Curriculum::derive(&small());
    let item = c.lessons().iter().flat_map(|l| &l.items).find(|i| i.text == "cat").expect("'cat' is drilled somewhere");
    assert_eq!(item.strokes, vec!["KAT".to_string()]);
    let cats = c.lessons().iter().flat_map(|l| &l.items).find(|i| i.text == "cats").expect("'cats' is drilled");
    assert_eq!(cats.strokes, vec!["KAT".to_string(), "-S".to_string()]);
}

#[test]
fn correct_answer_advances() {
    let mut d = Drill::new(&lesson(&["cat", "hat"]));
    assert_eq!(d.current().map(|i| i.text.as_str()), Some("cat"));
    assert_eq!(d.submit("cat"), Some(DrillOutcome::Correct));
    assert_eq!(d.current().map(|i| i.text.as_str()), Some("hat"));
    assert_eq!(d.position(), 1);
}

#[test]
fn wrong_answer_stays_put_and_counts() {
    let mut d = Drill::new(&lesson(&["cat"]));
    assert_eq!(d.submit("hat"), Some(DrillOutcome::Wrong));
    assert_eq!(d.current().map(|i| i.text.as_str()), Some("cat"));
    assert_eq!(d.attempts_on_current(), 1);
}

#[test]
fn attempts_reset_on_the_next_item() {
    let mut d = Drill::new(&lesson(&["cat", "hat"]));
    d.submit("wrong");
    d.submit("cat");
    assert_eq!(d.attempts_on_current(), 0);
}

#[test]
fn surrounding_whitespace_is_ignored() {
    let mut d = Drill::new(&lesson(&["cat"]));
    assert_eq!(d.submit(" cat"), Some(DrillOutcome::Correct));
}

#[test]
fn inner_whitespace_still_counts() {
    let mut d = Drill::new(&lesson(&["ice cream"]));
    assert_eq!(d.submit("icecream"), Some(DrillOutcome::Wrong));
    assert_eq!(d.submit("\tice cream\n"), Some(DrillOutcome::Correct));
}

#[test]
fn finishing_the_last_item_completes_the_drill() {
    let mut d = Drill::new(&lesson(&["cat"]));
    assert!(!d.is_complete());
    assert_eq!(d.submit("cat"), Some(DrillOutcome::Correct));
    assert!(d.is_complete());
    assert_eq!(d.current(), None);
}

#[test]
fn submitting_after_completion_reports_nothing_to_answer() {
    let mut d = Drill::new(&lesson(&["cat"]));
    d.submit("cat");
    assert_eq!(d.submit("cat"), None);
}

#[test]
fn skip_moves_on_without_crediting() {
    let mut d = Drill::new(&lesson(&["cat", "hat"]));
    d.skip();
    assert_eq!(d.current().map(|i| i.text.as_str()), Some("hat"));
}

#[test]
fn skipping_past_the_end_is_harmless() {
    let mut d = Drill::new(&lesson(&["cat"]));
    d.skip();
    d.skip();
    assert!(d.is_complete());
    assert_eq!(d.position(), 1);
}

#[test]
fn restart_returns_to_the_first_item() {
    let mut d = Drill::new(&lesson(&["cat", "hat"]));
    d.submit("cat");
    d.submit("wrong");
    d.restart();
    assert_eq!(d.position(), 0);
    assert_eq!(d.attempts_on_current(), 0);
    assert_eq!(d.current().map(|i| i.text.as_str()), Some("cat"));
}

#[test]
fn an_empty_drill_is_immediately_complete() {
    let mut d = Drill::new(&lesson(&[]));
    assert!(d.is_complete());
    assert_eq!(d.submit("anything"), None);
}

#[test]
fn a_drill_copies_its_lesson() {
    let l = lesson(&["cat", "hat"]);
    let d = Drill::new(&l);
    assert_eq!(d.total(), 2);
    assert_eq!(d.current(), Some(&l.items[0]));
    let copy = l.items[1].clone();
    assert_eq!(copy, l.items[1]);
}

#[test]
fn a_miss_counts_against_the_current_item_only_while_drilling() {
    let mut d = Drill::new(&lesson(&["cat"]));
    d.miss();
    assert_eq!(d.position(), 0);
    assert_eq!(d.attempts_on_current(), 1);
    assert_eq!(d.submit("cat"), Some(DrillOutcome::Correct));
    d.miss();
    assert!(d.is_complete());
    assert_eq!(d.attempts_on_current(), 0);
}

#[test]
fn review_lessons_come_after_every_lesson_that_introduces_keys() {
    for pack in [small(), crowded()] {
        let c = Curriculum::derive(&pack);
        let first_review = c.lessons().iter().position(|l| l.is_review()).unwrap_or(c.len());
        assert!(c.lessons()[first_review..].iter().all(|l| l.is_review()));
        assert!(c.lessons()[..first_review].iter().all(|l| !l.new_keys.is_empty()));
    }
    let c = Curriculum::derive(&crowded());
    assert!(c.lessons().iter().any(|l| l.is_review()));
    assert!(!c.lessons()[0].is_review());
}

#[test]
fn lessons_of_a_crowded_pack_are_numbered_and_bounded() {
    let c = Curriculum::derive(&crowded());
    for (i, l) in c.lessons().iter().enumerate() {
        assert_eq!(l.index, i);
        assert!(!l.is_empty());
        assert!(l.len() <= 32);
    }
}

#[test]
fn the_curriculum_is_determined_by_the_pack() {
    let keys = || key_list(&[("S-", "S", Bank::Left), ("T-", "T", Bank::Left), ("A", "A", Bank::Mid), ("-T", "T", Bank::Right)]);
    let one = pack_with(keys(), r#"{"S": "s", "T": "t", "SA": "sa", "TA": "ta", "SAT": "sat", "TAT": "tat"}"#);
    let other = pack_with(keys(), r#"{"TAT": "tat", "SAT": "sat", "TA": "ta", "SA": "sa", "T": "t", "S": "s"}"#);
    let a = Curriculum::derive(&one);
    let b = Curriculum::derive(&other);
    assert!(!a.is_empty());
    assert_eq!(a.lessons(), b.lessons());
    assert_eq!(Curriculum::derive(&one).lessons(), a.lessons());
}
