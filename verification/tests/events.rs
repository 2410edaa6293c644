use steno_core::events::{collect, push_translation, StenoEvent};
use steno_core::{EngineOutput, Translation};

fn names(events: &[StenoEvent]) -> Vec<String> {
    events
        .iter()
        .map(|e| match e {
            StenoEvent::Stroke(s) => format!("stroke {s}"),
            StenoEvent::Text(t) => format!("text {t}"),
            StenoEvent::NoMatch(s) => format!("nomatch {s}"),
            StenoEvent::Undo => "undo".to_string(),
        })
        .collect()
}

#[test]
fn an_output_becomes_stroke_undo_then_translations() {
    let out = EngineOutput {
        stroke: Some("HAT".to_string()),
        translations: vec![
            Translation::Text { strokes: vec!["KAT".to_string()], text: "cat".to_string() },
            Translation::NoMatch { stroke: "HAT".to_string() },
        ],
        undo: false,
    };
    let mut events = vec![StenoEvent::Undo];
    collect(out, &mut events);
    assert_eq!(names(&events), vec!["undo", "stroke HAT", "text cat", "nomatch HAT"]);
}

#[test]
fn an_undo_output_is_flagged_after_its_stroke() {
    let out = EngineOutput { stroke: Some("*".to_string()), translations: Vec::new(), undo: true };
    let mut events = Vec::new();
    collect(out, &mut events);
    assert_eq!(names(&events), vec!["stroke *", "undo"]);
}

#[test]
fn an_empty_output_adds_nothing() {
    let mut events = Vec::new();
    collect(EngineOutput::default(), &mut events);
    assert!(events.is_empty());
    push_translation(Translation::NoMatch { stroke: "X".to_string() }, &mut events);
    assert_eq!(names(&events), vec!["nomatch X"]);
}
