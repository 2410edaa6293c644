use steno_core::{Dictionary, ReverseIndex};

fn dict(pairs: &[(&str, &str)]) -> Dictionary {
    Dictionary::from_map(pairs.iter().map(|(k, v)| (k.to_string(), v.to_string())).collect())
}

#[test]
fn finds_the_strokes_for_a_word() {
    let idx = ReverseIndex::build(&dict(&[("KAT", "cat"), ("HAT", "hat")]));
    assert_eq!(idx.strokes_for("cat"), Some(&["KAT".to_string()][..]));
    assert_eq!(idx.strokes_for("nothing"), None);
}

#[test]
fn splits_multi_stroke_entries() {
    let idx = ReverseIndex::build(&dict(&[("KAT/-S", "cats")]));
    assert_eq!(idx.strokes_for("cats"), Some(&["KAT".to_string(), "-S".to_string()][..]));
}

#[test]
fn prefers_the_fewest_strokes() {
    let idx = ReverseIndex::build(&dict(&[("K/A/T", "cat"), ("KAT", "cat")]));
    assert_eq!(idx.strokes_for("cat"), Some(&["KAT".to_string()][..]));
}

#[test]
fn prefers_the_shorter_stroke_when_counts_tie() {
    let idx = ReverseIndex::build(&dict(&[("KWAT", "cat"), ("KAT", "cat")]));
    assert_eq!(idx.strokes_for("cat"), Some(&["KAT".to_string()][..]));
}

#[test]
fn ties_break_deterministically() {
    let entries = [("KAT", "cat"), ("SAT", "cat"), ("PAT", "cat")];
    let first = ReverseIndex::build(&dict(&entries));
    let reversed: Vec<_> = entries.iter().rev().copied().collect();
    let second = ReverseIndex::build(&dict(&reversed));
    assert_eq!(first.strokes_for("cat"), second.strokes_for("cat"));
    assert_eq!(first.strokes_for("cat"), Some(&["KAT".to_string()][..]));
}

#[test]
fn search_matches_text_and_strokes() {
    let idx = ReverseIndex::build(&dict(&[("KAT", "cat"), ("HAT", "hat")]));
    assert_eq!(idx.search("cat", 10).len(), 1);
    assert_eq!(idx.search("KAT", 10)[0].text, "cat");
}

#[test]
fn search_ranks_exact_before_substring() {
    let idx = ReverseIndex::build(&dict(&[("KAT", "cat"), ("KAT/-S", "cats")]));
    let hits = idx.search("cat", 10);
    assert_eq!(hits[0].text, "cat");
    assert_eq!(hits[1].text, "cats");
}

#[test]
fn search_is_case_insensitive_on_text() {
    let idx = ReverseIndex::build(&dict(&[("KAT", "cat")]));
    assert_eq!(idx.search("CAT", 10)[0].text, "cat");
}

#[test]
fn empty_query_browses_alphabetically() {
    let idx = ReverseIndex::build(&dict(&[("HAT", "hat"), ("KAT", "cat")]));
    let hits = idx.search("", 10);
    assert_eq!(hits[0].text, "cat");
    assert_eq!(hits[1].text, "hat");
}

#[test]
fn best_entries_keeps_one_spelling_per_text() {
    let idx = ReverseIndex::build(&dict(&[("R", "r"), ("-R", "r"), ("KAT", "cat")]));
    let best: Vec<_> = idx.best_entries().iter().map(|e| e.key()).collect();
    assert_eq!(best, vec!["KAT", "R"]);
}

#[test]
fn search_respects_the_limit() {
    let idx = ReverseIndex::build(&dict(&[("KAT", "cat"), ("HAT", "hat"), ("SAT", "sat")]));
    assert_eq!(idx.search("", 2).len(), 2);
}

#[test]
fn entries_are_listed_by_text_then_key() {
    let idx = ReverseIndex::build(&dict(&[("SAT", "cat"), ("KAT", "cat"), ("HAT", "hat")]));
    let keys: Vec<String> = idx.entries().iter().map(|e| e.key()).collect();
    assert_eq!(keys, vec!["KAT", "SAT", "HAT"]);
    assert_eq!(idx.len(), 3);
    assert!(!idx.is_empty());
    assert!(ReverseIndex::build(&dict(&[])).is_empty());
}

#[test]
fn entry_for_picks_the_best_spelling() {
    let idx = ReverseIndex::build(&dict(&[("K/A/T", "cat"), ("KAT", "cat")]));
    let e = idx.entry_for("cat").expect("cat is in the index");
    assert_eq!(e.key(), "KAT");
    assert_eq!(e.strokes, vec!["KAT".to_string()]);
    assert!(idx.entry_for("dog").is_none());
}

#[test]
fn search_ranks_prefixes_between_exact_and_substring_matches() {
    let idx = ReverseIndex::build(&dict(&[("TKOG", "dog"), ("TKOGS", "dogs"), ("HOT/TKOG", "hotdog")]));
    let hits: Vec<&str> = idx.search("dog", 10).iter().map(|e| e.text.as_str()).collect();
    assert_eq!(hits, vec!["dog", "dogs", "hotdog"]);
    let by_stroke: Vec<&str> = idx.search("tkog", 10).iter().map(|e| e.text.as_str()).collect();
    assert_eq!(by_stroke, vec!["dog", "dogs", "hotdog"]);
    assert!(idx.search("zebra", 10).is_empty());
    assert_eq!(idx.search("  dog  ", 10).len(), 3);
}

#[test]
fn an_index_does_not_depend_on_the_order_pairs_arrive_in() {
    let pairs = [("K/A/T", "cat"), ("KAT", "cat"), ("SAT", "cat"), ("HAT", "hat"), ("TKOG", "dog")];
    let first = ReverseIndex::build(&dict(&pairs));
    let reversed: Vec<_> = pairs.iter().rev().copied().collect();
    let second = ReverseIndex::build(&dict(&reversed));
    assert_eq!(first.entries(), second.entries());
    let a: Vec<String> = first.best_entries().iter().map(|e| e.key()).collect();
    let b: Vec<String> = second.best_entries().iter().map(|e| e.key()).collect();
    assert_eq!(a, b);
    assert_eq!(a, vec!["KAT", "TKOG", "HAT"]);
}
