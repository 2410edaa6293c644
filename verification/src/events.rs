//! What an engine produced, as one flat list of events in the order it
//! happened, for screens that should never touch the engine itself.
use vstd::prelude::*;
use crate::dictionary::Translation;
use crate::engine::EngineOutput;

verus! {

/// Something the engine produced.
#[derive(Debug, Clone)]
pub enum StenoEvent {
    /// A chord was completed and rendered to this stroke.
    Stroke(String),
    /// A stroke (or run of strokes) translated to this text.
    Text(String),
    /// A stroke with no dictionary entry.
    NoMatch(String),
    /// The pack's undo chord.
    Undo,
}

/// The event a translation becomes.
pub open spec fn translation_event(t: Translation) -> StenoEvent {
    match t {
        Translation::Text { text, .. } => StenoEvent::Text(text),
        Translation::NoMatch { stroke } => StenoEvent::NoMatch(stroke),
    }
}

/// The events one engine output becomes: the stroke, then the undo, then
/// each translation in turn.
pub open spec fn output_events(out: EngineOutput) -> Seq<StenoEvent> {
    (match out.stroke {
        Some(s) => seq![StenoEvent::Stroke(s)],
        None => Seq::empty(),
    }) + (if out.undo { seq![StenoEvent::Undo] } else { Seq::empty() }) + events_of(out.translations@)
}

/// The events a list of translations becomes.
pub open spec fn events_of(ts: Seq<Translation>) -> Seq<StenoEvent> {
    ts.map_values(|t: Translation| translation_event(t))
}

/// Append the event a translation becomes.
pub fn push_translation(t: Translation, events: &mut Vec<StenoEvent>)
    ensures
        final(events)@ == old(events)@.push(translation_event(t)),
{
    match t {
        Translation::Text { text, .. } => events.push(StenoEvent::Text(text)),
        Translation::NoMatch { stroke } => events.push(StenoEvent::NoMatch(stroke)),
    }
}

/// Append the events one engine output becomes.
pub fn collect(out: EngineOutput, events: &mut Vec<StenoEvent>)
    ensures
        final(events)@ == old(events)@ + output_events(out),
{
    let ghost start = events@;
    let ghost whole = out;
    let EngineOutput { stroke, translations, undo } = out;
    if let Some(s) = stroke {
        events.push(StenoEvent::Stroke(s));
    }
    if undo {
        events.push(StenoEvent::Undo);
    }
    let ghost head = events@;
    let mut ts = translations;
    let ghost all = whole.translations@;
    assert(ts@ =~= all.skip(0));
    let count = ts.len();
    assert(all.len() == count);
    let mut i: usize = 0;
    while ts.len() > 0
        invariant
            i <= all.len(),
            all.len() <= usize::MAX,
            all == whole.translations@,
            ts@ == all.skip(i as int),
            events@ == head + events_of(all.take(i as int)),
        decreases ts.len(),
    {
        assert(ts@.len() == all.len() - i);
        let t = ts.remove(0);
        proof {
            assert(t == all[i as int]);
        }
        push_translation(t, events);
        i += 1;
        assert(ts@ =~= all.skip(i as int));
        assert(all.take(i as int) =~= all.take(i - 1).push(all[i - 1]));
        assert(events_of(all.take(i as int)) =~= events_of(all.take(i - 1)).push(translation_event(all[i - 1])));
    }
    assert(whole.translations@.take(i as int) =~= whole.translations@);
    assert(events@ =~= start + output_events(whole));
}

} // verus!
