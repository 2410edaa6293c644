//! Free practice: a live feed of recent strokes and what each produced, with
//! the session's counters. Time is the caller's: it learns from
//! [`PracticeState::is_started`] when the session began and hands the elapsed
//! time back.
use vstd::prelude::*;
use crate::events::StenoEvent;
use crate::stats::SessionStats;
use crate::text::owned;

verus! {

/// How many recent strokes the feed keeps.
pub const FEED_LEN: usize = 12;

/// One line of the feed: what was chorded and what it produced (`Err` holds
/// a stroke with no entry).
#[derive(Debug)]
pub struct FeedLine {
    pub stroke: String,
    pub result: Result<String, String>,
}

/// A feed line as character sequences.
pub open spec fn line_view(l: FeedLine) -> (Seq<char>, Result<Seq<char>, Seq<char>>) {
    (l.stroke@, match l.result {
        Ok(t) => Ok(t@),
        Err(s) => Err(s@),
    })
}

/// The views of a feed.
pub open spec fn feed_view(f: Seq<FeedLine>) -> Seq<(Seq<char>, Result<Seq<char>, Seq<char>>)> {
    f.map_values(|l: FeedLine| line_view(l))
}

/// The last line of a feed, if any, now showing `result`.
pub open spec fn with_last_result(
    f: Seq<(Seq<char>, Result<Seq<char>, Seq<char>>)>,
    result: Result<Seq<char>, Seq<char>>,
) -> Seq<(Seq<char>, Result<Seq<char>, Seq<char>>)> {
    if f.len() == 0 {
        f
    } else {
        f.update(f.len() - 1, (f.last().0, result))
    }
}

/// What one event does to the feed: a stroke opens a line (dropping the
/// oldest beyond `FEED_LEN`); text, no-match and undo fill in the last line.
pub open spec fn feed_step(f: Seq<(Seq<char>, Result<Seq<char>, Seq<char>>)>, e: StenoEvent) -> Seq<
    (Seq<char>, Result<Seq<char>, Seq<char>>),
> {
    match e {
        StenoEvent::Stroke(s) => {
            let g = f.push((s@, Ok(Seq::empty())));
            if g.len() > FEED_LEN {
                g.drop_first()
            } else {
                g
            }
        },
        StenoEvent::Text(t) => with_last_result(f, Ok(t@)),
        StenoEvent::NoMatch(s) => with_last_result(f, Err(s@)),
        StenoEvent::Undo => with_last_result(f, Ok("(undo)"@)),
    }
}

/// The feed after a run of events.
pub open spec fn feed_after(f: Seq<(Seq<char>, Result<Seq<char>, Seq<char>>)>, es: Seq<StenoEvent>) -> Seq<
    (Seq<char>, Result<Seq<char>, Seq<char>>),
>
    decreases es.len(),
{
    if es.len() == 0 {
        f
    } else {
        feed_step(feed_after(f, es.drop_last()), es.last())
    }
}

/// How many strokes a run of events holds.
pub open spec fn stroke_events(es: Seq<StenoEvent>) -> nat
    decreases es.len(),
{
    if es.len() == 0 {
        0
    } else {
        stroke_events(es.drop_last()) + if es.last() is Stroke { 1nat } else { 0nat }
    }
}

/// How many texts a run of events holds.
pub open spec fn text_events(es: Seq<StenoEvent>) -> nat
    decreases es.len(),
{
    if es.len() == 0 {
        0
    } else {
        text_events(es.drop_last()) + if es.last() is Text { 1nat } else { 0nat }
    }
}

/// How many characters the texts of a run of events hold.
pub open spec fn text_chars(es: Seq<StenoEvent>) -> nat
    decreases es.len(),
{
    if es.len() == 0 {
        0
    } else {
        text_chars(es.drop_last()) + match es.last() {
            StenoEvent::Text(t) => t@.len(),
            _ => 0,
        }
    }
}

/// The last stroke of a run of events, or `before` when it holds none.
pub open spec fn last_stroke_of(before: Seq<char>, es: Seq<StenoEvent>) -> Seq<char>
    decreases es.len(),
{
    if es.len() == 0 {
        before
    } else {
        match es.last() {
            StenoEvent::Stroke(s) => s@,
            _ => last_stroke_of(before, es.drop_last()),
        }
    }
}

/// The Practice screen's state.
#[derive(Debug)]
pub struct PracticeState {
    pub feed: Vec<FeedLine>,
    stats: SessionStats,
    started: bool,
    last_stroke: String,
}

/// What the user asked for on one frame.
#[derive(Debug)]
pub struct PracticeAction {
    pub clear: bool,
    pub undo: bool,
    pub settings_changed: bool,
}

impl Default for PracticeAction {
    fn default() -> (a: PracticeAction)
        ensures
            !a.clear && !a.undo && !a.settings_changed,
    {
        PracticeAction { clear: false, undo: false, settings_changed: false }
    }
}

impl Default for PracticeState {
    fn default() -> (s: PracticeState)
        ensures
            s.spec_feed().len() == 0,
            s.spec_stats().spec_strokes() == 0,
            s.spec_stats().spec_correct() == 0,
            s.spec_stats().spec_incorrect() == 0,
            s.spec_stats().spec_chars() == 0,
            s.spec_stats().spec_elapsed_ms() == 0,
            !s.spec_started(),
            s.spec_last_stroke().len() == 0,
    {
        PracticeState { feed: Vec::new(), stats: SessionStats::new(), started: false, last_stroke: String::new() }
    }
}

impl PracticeState {
    /// The feed, oldest line first.
    pub closed spec fn spec_feed(&self) -> Seq<FeedLine> {
        self.feed@
    }

    pub closed spec fn spec_stats(&self) -> SessionStats {
        self.stats
    }

    /// Whether a stroke has been chorded since the session began.
    pub closed spec fn spec_started(&self) -> bool {
        self.started
    }

    pub closed spec fn spec_last_stroke(&self) -> Seq<char> {
        self.last_stroke@
    }

    /// Start over: an empty feed, fresh counters, not started.
    pub fn clear(&mut self)
        ensures
            final(self).spec_feed().len() == 0,
            final(self).spec_stats().spec_strokes() == 0,
            final(self).spec_stats().spec_correct() == 0,
            final(self).spec_stats().spec_incorrect() == 0,
            final(self).spec_stats().spec_chars() == 0,
            final(self).spec_stats().spec_elapsed_ms() == 0,
            !final(self).spec_started(),
            final(self).spec_last_stroke().len() == 0,
    {
        self.feed.clear();
        self.stats = SessionStats::new();
        self.started = false;
        self.last_stroke = String::new();
    }

    pub fn stats(&self) -> (s: &SessionStats)
        ensures
            *s == self.spec_stats(),
    {
        &self.stats
    }

    pub fn is_started(&self) -> (b: bool)
        ensures
            b == self.spec_started(),
    {
        self.started
    }

    pub fn last_stroke(&self) -> (s: &str)
        ensures
            s@ == self.spec_last_stroke(),
    {
        self.last_stroke.as_str()
    }

    /// Record the time elapsed since the session started.
    pub fn set_elapsed_ms(&mut self, ms: u64)
        ensures
            final(self).spec_feed() == old(self).spec_feed(),
            final(self).spec_stats().spec_elapsed_ms() == ms,
            final(self).spec_stats().spec_strokes() == old(self).spec_stats().spec_strokes(),
            final(self).spec_stats().spec_correct() == old(self).spec_stats().spec_correct(),
            final(self).spec_stats().spec_incorrect() == old(self).spec_stats().spec_incorrect(),
            final(self).spec_stats().spec_chars() == old(self).spec_stats().spec_chars(),
            final(self).spec_started() == old(self).spec_started(),
            final(self).spec_last_stroke() == old(self).spec_last_stroke(),
    {
        self.stats.set_elapsed_ms(ms);
    }
}

/// Set the result of the last feed line, if there is one.
fn fill_last(feed: &mut Vec<FeedLine>, result: Result<String, String>)
    ensures
        feed_view(final(feed)@) == with_last_result(feed_view(old(feed)@), match result {
            Ok(t) => Ok(t@),
            Err(s) => Err(s@),
        }),
{
    let ghost before = feed_view(feed@);
    if feed.len() > 0 {
        let mut last = feed.pop().unwrap();
        last.result = result;
        feed.push(last);
        assert(feed_view(feed@) =~= with_last_result(before, match result {
            Ok(t) => Ok(t@),
            Err(s) => Err(s@),
        }));
    }
}

/// Feed one frame's events into the Practice screen: every stroke counts and
/// opens a feed line, every text counts as correct output and fills in the
/// line, a stroke with no entry or an undo fills it in too.
pub fn handle_events(state: &mut PracticeState, events: &[StenoEvent])
    requires
        old(state).spec_stats().spec_strokes() + stroke_events(events@) <= usize::MAX,
        old(state).spec_stats().spec_correct() + old(state).spec_stats().spec_incorrect() + text_events(events@)
            < usize::MAX,
        old(state).spec_stats().spec_chars() + text_chars(events@) <= usize::MAX,
    ensures
        feed_view(final(state).spec_feed()) == feed_after(feed_view(old(state).spec_feed()), events@),
        final(state).spec_stats().spec_strokes() == old(state).spec_stats().spec_strokes() + stroke_events(events@),
        final(state).spec_stats().spec_correct() == old(state).spec_stats().spec_correct() + text_events(events@),
        final(state).spec_stats().spec_incorrect() == old(state).spec_stats().spec_incorrect(),
        final(state).spec_stats().spec_chars() == old(state).spec_stats().spec_chars() + text_chars(events@),
        final(state).spec_stats().spec_elapsed_ms() == old(state).spec_stats().spec_elapsed_ms(),
        final(state).spec_started() == (old(state).spec_started() || stroke_events(events@) > 0),
        final(state).spec_last_stroke() == last_stroke_of(old(state).spec_last_stroke(), events@),
{
    let ghost s0 = *state;
    let mut i: usize = 0;
    while i < events.len()
        invariant
            i <= events.len(),
            s0.spec_stats().spec_strokes() + stroke_events(events@) <= usize::MAX,
            s0.spec_stats().spec_correct() + s0.spec_stats().spec_incorrect() + text_events(events@) < usize::MAX,
            s0.spec_stats().spec_chars() + text_chars(events@) <= usize::MAX,
            feed_view(state.feed@) == feed_after(feed_view(s0.feed@), events@.take(i as int)),
            state.spec_stats().spec_strokes() == s0.spec_stats().spec_strokes() + stroke_events(events@.take(i as int)),
            state.spec_stats().spec_correct() == s0.spec_stats().spec_correct() + text_events(events@.take(i as int)),
            state.spec_stats().spec_incorrect() == s0.spec_stats().spec_incorrect(),
            state.spec_stats().spec_chars() == s0.spec_stats().spec_chars() + text_chars(events@.take(i as int)),
            state.spec_stats().spec_elapsed_ms() == s0.spec_stats().spec_elapsed_ms(),
            state.spec_started() == (s0.spec_started() || stroke_events(events@.take(i as int)) > 0),
            state.spec_last_stroke() == last_stroke_of(s0.spec_last_stroke(), events@.take(i as int)),
        decreases events.len() - i,
    {
        let ghost pre = events@.take(i as int);
        let ghost next = events@.take(i + 1);
        assert(next.drop_last() =~= pre);
        assert(next.last() == events@[i as int]);
        proof {
            lemma_counts_grow(events@, i as int + 1);
        }
        match &events[i] {
            StenoEvent::Stroke(stroke) => {
                self_record_stroke(state);
                state.started = true;
                state.last_stroke = stroke.clone();
                let ghost before = feed_view(state.feed@);
                state.feed.push(FeedLine { stroke: stroke.clone(), result: Ok(String::new()) });
                if state.feed.len() > FEED_LEN {
                    state.feed.remove(0);
                }
                assert(feed_view(state.feed@) =~= feed_step(before, events@[i as int]));
            },
            StenoEvent::Text(text) => {
                state.stats.record_item(text.as_str(), true);
                fill_last(&mut state.feed, Ok(text.clone()));
            },
            StenoEvent::NoMatch(stroke) => {
                fill_last(&mut state.feed, Err(stroke.clone()));
            },
            StenoEvent::Undo => {
                let undone = owned("(undo)");
                fill_last(&mut state.feed, Ok(undone));
            },
        }
        i += 1;
    }
    assert(events@.take(events.len() as int) =~= events@);
}

fn self_record_stroke(state: &mut PracticeState)
    requires
        old(state).spec_stats().spec_strokes() < usize::MAX,
    ensures
        final(state).spec_feed() == old(state).spec_feed(),
        final(state).spec_started() == old(state).spec_started(),
        final(state).spec_last_stroke() == old(state).spec_last_stroke(),
        final(state).spec_stats().spec_strokes() == old(state).spec_stats().spec_strokes() + 1,
        final(state).spec_stats().spec_correct() == old(state).spec_stats().spec_correct(),
        final(state).spec_stats().spec_incorrect() == old(state).spec_stats().spec_incorrect(),
        final(state).spec_stats().spec_chars() == old(state).spec_stats().spec_chars(),
        final(state).spec_stats().spec_elapsed_ms() == old(state).spec_stats().spec_elapsed_ms(),
{
    state.stats.record_stroke();
}

proof fn lemma_counts_grow(es: Seq<StenoEvent>, n: int)
    requires
        0 <= n <= es.len(),
    ensures
        stroke_events(es.take(n)) <= stroke_events(es),
        text_events(es.take(n)) <= text_events(es),
        text_chars(es.take(n)) <= text_chars(es),
    decreases es.len() - n,
{
    if n < es.len() {
        lemma_counts_grow(es, n + 1);
        assert(es.take(n + 1).drop_last() =~= es.take(n));
    } else {
        assert(es.take(n) =~= es);
    }
}

} // verus!
