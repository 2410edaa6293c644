//! The Learn screen's state: which lesson is being drilled, how the session
//! is going, and what the last answer earned. Time is the caller's: it learns
//! from `started` when the session began and hands the elapsed time to
//! `stats`.
use vstd::prelude::*;
use crate::events::StenoEvent;
use crate::lesson::{item_views, Curriculum, Drill, DrillOutcome, ItemView, LessonItem, lesson_views};
use crate::pack::Pack;
use crate::progression::all_items;
use crate::stroke::{parse_stroke, parsed, StenoKey};
use crate::practice::{stroke_events, text_chars, text_events};
use crate::progress::LessonProgress;
use crate::stats::SessionStats;
use crate::text::{chars_of, push_text, trimmed};

verus! {

/// What the most recent answer earned, shown until the next one.
#[derive(Debug)]
pub enum Feedback {
    Correct,
    /// What was written instead.
    Wrong { got: String },
}

/// A feedback as character sequences.
pub enum FeedbackView {
    Correct,
    Wrong(Seq<char>),
}

pub open spec fn feedback_view(f: Option<Feedback>) -> Option<FeedbackView> {
    match f {
        None => None,
        Some(Feedback::Correct) => Some(FeedbackView::Correct),
        Some(Feedback::Wrong { got }) => Some(FeedbackView::Wrong(got@)),
    }
}

/// The Learn screen's state.
#[derive(Debug)]
pub struct LearnState {
    /// The drill in progress, if a lesson was started.
    pub drill: Option<Drill>,
    /// The lesson being drilled.
    pub lesson_index: usize,
    pub stats: SessionStats,
    /// Whether a stroke has been chorded since the lesson started.
    pub started: bool,
    pub feedback: Option<Feedback>,
    /// Set when the final item is answered, so a summary can be shown.
    pub completed: bool,
}

impl Default for LearnState {
    fn default() -> (s: LearnState)
        ensures
            s.drill is None,
            s.lesson_index == 0,
            s.stats.spec_strokes() == 0 && s.stats.spec_correct() == 0 && s.stats.spec_incorrect() == 0
                && s.stats.spec_chars() == 0 && s.stats.spec_elapsed_ms() == 0,
            !s.started,
            s.feedback is None,
            !s.completed,
    {
        LearnState {
            drill: None,
            lesson_index: 0,
            stats: SessionStats::new(),
            started: false,
            feedback: None,
            completed: false,
        }
    }
}

/// The part of the Learn screen's state a batch of events changes.
pub struct LearnView {
    pub items: Seq<ItemView>,
    pub at: nat,
    pub attempts: nat,
    pub strokes: nat,
    pub correct: nat,
    pub incorrect: nat,
    pub chars: nat,
    pub started: bool,
    pub feedback: Option<FeedbackView>,
    pub completed: bool,
    /// The lesson was finished by this batch.
    pub finished: bool,
}

/// The view of a state whose drill is `d`.
pub open spec fn learn_view(d: Drill, s: LearnState, finished: bool) -> LearnView {
    LearnView {
        items: d.spec_items(),
        at: d.spec_at(),
        attempts: d.spec_attempts(),
        strokes: s.stats.spec_strokes(),
        correct: s.stats.spec_correct(),
        incorrect: s.stats.spec_incorrect(),
        chars: s.stats.spec_chars(),
        started: s.started,
        feedback: feedback_view(s.feedback),
        completed: s.completed,
        finished,
    }
}

/// What one event does while drilling. A stroke counts and starts the
/// session. A text is the answer to the current item: right, it moves on;
/// wrong, it stays and is shown; the answer that finishes the lesson marks it
/// finished (once). A stroke with no entry is a wrong answer the dictionary
/// could not even name: it counts against the current item like any other
/// and is shown. An undo clears the feedback. Nothing is answered once
/// the drill is over.
pub open spec fn learn_step(v: LearnView, e: StenoEvent) -> LearnView {
    match e {
        StenoEvent::Stroke(_) => LearnView { started: true, strokes: v.strokes + 1, ..v },
        StenoEvent::Text(t) => if v.at >= v.items.len() {
            v
        } else {
            let w = if trimmed(t@) == v.items[v.at as int].text {
                LearnView {
                    at: v.at + 1,
                    attempts: 0,
                    correct: v.correct + 1,
                    chars: v.chars + t@.len(),
                    feedback: Some(FeedbackView::Correct),
                    ..v
                }
            } else {
                LearnView {
                    attempts: v.attempts + 1,
                    incorrect: v.incorrect + 1,
                    feedback: Some(FeedbackView::Wrong(t@)),
                    ..v
                }
            };
            if w.at >= w.items.len() && !w.completed {
                LearnView { completed: true, finished: true, ..w }
            } else {
                w
            }
        },
        StenoEvent::NoMatch(s) => LearnView {
            attempts: if v.at < v.items.len() { v.attempts + 1 } else { v.attempts },
            incorrect: v.incorrect + 1,
            feedback: Some(FeedbackView::Wrong(s@ + " (no match)"@)),
            ..v
        },
        StenoEvent::Undo => LearnView { feedback: None, ..v },
    }
}

/// The view after a run of events.
pub open spec fn learn_after(v: LearnView, es: Seq<StenoEvent>) -> LearnView
    decreases es.len(),
{
    if es.len() == 0 {
        v
    } else {
        learn_step(learn_after(v, es.drop_last()), es.last())
    }
}

/// How many strokes without an entry a run of events holds.
pub open spec fn no_match_events(es: Seq<StenoEvent>) -> nat
    decreases es.len(),
{
    if es.len() == 0 {
        0
    } else {
        no_match_events(es.drop_last()) + if es.last() is NoMatch { 1nat } else { 0nat }
    }
}

proof fn lemma_counts_grow(es: Seq<StenoEvent>, n: int)
    requires
        0 <= n <= es.len(),
    ensures
        stroke_events(es.take(n)) <= stroke_events(es),
        text_events(es.take(n)) + no_match_events(es.take(n)) <= text_events(es) + no_match_events(es),
        text_events(es.take(n)) <= text_events(es),
        text_chars(es.take(n)) <= text_chars(es),
    decreases es.len() - n,
{
    if n < es.len() {
        lemma_counts_grow(es, n + 1);
        assert(es.take(n + 1).drop_last() =~= es.take(n));
    } else {
        assert(es.take(n) =~= es);
    }
}

proof fn lemma_learn_bounds(v: LearnView, es: Seq<StenoEvent>)
    ensures
        learn_after(v, es).strokes == v.strokes + stroke_events(es),
        learn_after(v, es).correct + learn_after(v, es).incorrect <= v.correct + v.incorrect + text_events(es)
            + no_match_events(es),
        learn_after(v, es).chars <= v.chars + text_chars(es),
        learn_after(v, es).attempts <= v.attempts + text_events(es) + no_match_events(es),
    decreases es.len(),
{
    if es.len() > 0 {
        lemma_learn_bounds(v, es.drop_last());
    }
}

impl LearnState {
    /// Begin lesson `index`, discarding any run in progress; nothing happens
    /// when the curriculum has no such lesson.
    pub fn start(&mut self, curriculum: &Curriculum, index: usize)
        ensures
            index >= curriculum.spec_lessons().len() ==> *final(self) == *old(self),
            index < curriculum.spec_lessons().len() ==> ({
                &&& final(self).drill matches Some(d) && d.spec_items() == curriculum.spec_lessons()[index as int].items
                    && d.spec_at() == 0 && d.spec_attempts() == 0
                &&& final(self).lesson_index == index
                &&& final(self).stats.spec_strokes() == 0 && final(self).stats.spec_correct() == 0
                    && final(self).stats.spec_incorrect() == 0 && final(self).stats.spec_chars() == 0
                    && final(self).stats.spec_elapsed_ms() == 0
                &&& !final(self).started
                &&& final(self).feedback is None
                &&& !final(self).completed
            }),
    {
        let lesson = match curriculum.get(index) {
            Some(l) => l,
            None => {
                return;
            },
        };
        self.drill = Some(Drill::new(lesson));
        self.lesson_index = index;
        self.stats = SessionStats::new();
        self.started = false;
        self.feedback = None;
        self.completed = false;
    }

    /// Leave the lesson.
    pub fn stop(&mut self)
        ensures
            final(self).drill is None,
            final(self).feedback is None,
            !final(self).completed,
            final(self).lesson_index == old(self).lesson_index,
            final(self).stats == old(self).stats,
            final(self).started == old(self).started,
    {
        self.drill = None;
        self.feedback = None;
        self.completed = false;
    }

    /// A lesson is being drilled and is not finished yet.
    pub fn is_drilling(&self) -> (b: bool)
        ensures
            b == (self.drill is Some && !self.completed),
    {
        self.drill.is_some() && !self.completed
    }

    /// Escape leaves a lesson being drilled and forgets everything about it;
    /// otherwise nothing changes. Returns whether it left.
    pub fn escape(&mut self) -> (left: bool)
        ensures
            left == (old(self).drill is Some && !old(self).completed),
            left ==> ({
                &&& final(self).drill is None
                &&& final(self).lesson_index == 0
                &&& final(self).stats.spec_strokes() == 0 && final(self).stats.spec_correct() == 0
                    && final(self).stats.spec_incorrect() == 0 && final(self).stats.spec_chars() == 0
                    && final(self).stats.spec_elapsed_ms() == 0
                &&& !final(self).started
                &&& final(self).feedback is None
                &&& !final(self).completed
            }),
            !left ==> *final(self) == *old(self),
    {
        if self.is_drilling() {
            *self = LearnState::default();
            true
        } else {
            false
        }
    }

    /// The strokes the learner should be chording, for a keyboard hint.
    pub fn target_strokes(&self) -> (r: Vec<String>)
        ensures
            match self.drill {
                Some(d) if d.spec_at() < d.spec_items().len() => crate::text::views(r@) == d.spec_items()[d.spec_at() as int].strokes,
                _ => r@.len() == 0,
            },
    {
        match &self.drill {
            Some(d) => match d.current() {
                Some(item) => crate::lesson::clone_strings(item.strokes.as_slice()),
                None => Vec::new(),
            },
            None => Vec::new(),
        }
    }

    /// Whether the hint shows: always when the learner asked for hints, and
    /// after any mistake on the current item.
    pub fn hint_visible(&self, show_hints: bool) -> (b: bool)
        ensures
            b == (show_hints || (self.drill matches Some(d) && d.spec_attempts() > 0)),
    {
        if show_hints {
            return true;
        }
        match &self.drill {
            Some(d) => d.attempts_on_current() > 0,
            None => false,
        }
    }

    /// Give up on the current item. The skip that finishes the lesson marks
    /// it finished in `progress` (once) and reports `true`.
    pub fn skip(&mut self, pack_code: &str, progress: &mut LessonProgress) -> (changed: bool)
        requires
            old(self).lesson_index < usize::MAX,
        ensures
            old(self).drill is None ==> !changed && *final(self) == *old(self) && *final(progress) == *old(progress),
            old(self).drill matches Some(d) ==> ({
                let newly = d.spec_at() < d.spec_items().len() && d.spec_at() + 1 >= d.spec_items().len()
                    && !old(self).completed;
                let newly_done = d.spec_at() >= d.spec_items().len() && !old(self).completed;
                &&& final(self).drill matches Some(d2) && d2.spec_items() == d.spec_items() && (if d.spec_at()
                    < d.spec_items().len() {
                    d2.spec_at() == d.spec_at() + 1 && d2.spec_attempts() == 0
                } else {
                    d2 == d
                })
                &&& final(self).feedback is None
                &&& changed == (newly || newly_done)
                &&& final(self).completed == (old(self).completed || changed)
                &&& final(self).lesson_index == old(self).lesson_index
                &&& final(self).stats == old(self).stats
                &&& final(self).started == old(self).started
                &&& changed ==> final(progress).done(pack_code@) == if old(progress).done(pack_code@)
                    > old(self).lesson_index + 1 {
                    old(progress).done(pack_code@)
                } else {
                    (old(self).lesson_index + 1) as nat
                }
                &&& forall|c: Seq<char>|
                    (!changed || c != pack_code@) ==> #[trigger] final(progress).done(c) == old(progress).done(c)
            }),
    {
        let mut drill = match self.drill.take() {
            Some(d) => d,
            None => {
                return false;
            },
        };
        drill.skip();
        self.feedback = None;
        let mut changed = false;
        if drill.is_complete() && !self.completed {
            self.completed = true;
            progress.mark_lesson_done(pack_code, self.lesson_index);
            changed = true;
        }
        self.drill = Some(drill);
        changed
    }
}

/// Feed one frame's events into the drill. Returns `true` when the lesson
/// was finished by them, after marking it finished in `progress`. Without a
/// drill nothing happens.
pub fn handle_events(state: &mut LearnState, events: &[StenoEvent], pack_code: &str, progress: &mut LessonProgress) -> (changed: bool)
    requires
        old(state).drill matches Some(d) ==> ({
            &&& old(state).stats.spec_strokes() + stroke_events(events@) <= usize::MAX
            &&& old(state).stats.spec_correct() + old(state).stats.spec_incorrect() + text_events(events@)
                + no_match_events(events@) < usize::MAX
            &&& old(state).stats.spec_chars() + text_chars(events@) <= usize::MAX
            &&& d.spec_attempts() + text_events(events@) + no_match_events(events@) < usize::MAX
            &&& old(state).lesson_index < usize::MAX
        }),
    ensures
        old(state).drill is None ==> !changed && *final(state) == *old(state) && *final(progress) == *old(progress),
        old(state).drill matches Some(d) ==> ({
            let after = learn_after(learn_view(d, *old(state), false), events@);
            &&& final(state).drill matches Some(d2) && learn_view(d2, *final(state), changed) == after
            &&& final(state).lesson_index == old(state).lesson_index
            &&& final(state).stats.spec_elapsed_ms() == old(state).stats.spec_elapsed_ms()
            &&& changed ==> final(progress).done(pack_code@) == if old(progress).done(pack_code@) > old(
                state,
            ).lesson_index + 1 {
                old(progress).done(pack_code@)
            } else {
                (old(state).lesson_index + 1) as nat
            }
            &&& forall|c: Seq<char>| (!changed || c != pack_code@) ==> #[trigger] final(progress).done(c) == old(progress).done(c)
        }),
{
    let mut drill = match state.drill.take() {
        Some(d) => d,
        None => {
            return false;
        },
    };
    let ghost s0 = *old(state);
    let ghost d0 = drill;
    let ghost p0 = *progress;
    let ghost v0 = learn_view(d0, s0, false);
    proof {
        lemma_learn_bounds(v0, events@);
    }
    let mut changed = false;
    let mut i: usize = 0;
    while i < events.len()
        invariant
            i <= events.len(),
            v0 == learn_view(d0, s0, false),
            s0.stats.spec_strokes() + stroke_events(events@) <= usize::MAX,
            s0.stats.spec_correct() + s0.stats.spec_incorrect() + text_events(events@) + no_match_events(events@)
                < usize::MAX,
            s0.stats.spec_chars() + text_chars(events@) <= usize::MAX,
            d0.spec_attempts() + text_events(events@) + no_match_events(events@) < usize::MAX,
            s0.lesson_index < usize::MAX,
            learn_view(drill, *state, changed) == learn_after(v0, events@.take(i as int)),
            state.lesson_index == s0.lesson_index,
            state.stats.spec_elapsed_ms() == s0.stats.spec_elapsed_ms(),
            changed ==> progress.done(pack_code@) == if p0.done(pack_code@) > s0.lesson_index + 1 {
                p0.done(pack_code@)
            } else {
                (s0.lesson_index + 1) as nat
            },
            forall|c: Seq<char>| (!changed || c != pack_code@) ==> #[trigger] progress.done(c) == p0.done(c),
            changed ==> state.completed,
        decreases events.len() - i,
    {
        let ghost pre = events@.take(i as int);
        assert(events@.take(i + 1).drop_last() =~= pre);
        assert(events@.take(i + 1).last() == events@[i as int]);
        proof {
            lemma_counts_grow(events@, i + 1);
            lemma_learn_bounds(v0, pre);
        }
        match &events[i] {
            StenoEvent::Stroke(_) => {
                state.started = true;
                state.stats.record_stroke();
            },
            StenoEvent::Text(text) => {
                let ghost dv = drill;
                match drill.submit(text.as_str()) {
                    None => {},
                    Some(outcome) => {
                        match outcome {
                            DrillOutcome::Correct => {
                                state.stats.record_item(text.as_str(), true);
                                state.feedback = Some(Feedback::Correct);
                            },
                            DrillOutcome::Wrong => {
                                state.stats.record_item(text.as_str(), false);
                                state.feedback = Some(Feedback::Wrong { got: text.clone() });
                            },
                        }
                        if drill.is_complete() && !state.completed {
                            state.completed = true;
                            progress.mark_lesson_done(pack_code, state.lesson_index);
                            changed = true;
                        }
                    },
                }
            },
            StenoEvent::NoMatch(stroke) => {
                drill.miss();
                state.stats.record_item("", false);
                let mut got = stroke.clone();
                push_text(&mut got, " (no match)");
                state.feedback = Some(Feedback::Wrong { got });
            },
            StenoEvent::Undo => {
                state.feedback = None;
            },
        }
        i += 1;
    }
    assert(events@.take(events.len() as int) =~= events@);
    state.drill = Some(drill);
    changed
}

/// A single stroke that chords two keys or more.
pub open spec fn is_chord(order: Seq<StenoKey>, item: ItemView) -> bool {
    item.strokes.len() == 1 && (parsed(order, item.strokes[0]) matches Some(ids) && ids.len() >= 2)
}

/// More than one character: a word rather than a letter or a kana.
pub open spec fn is_word(item: ItemView) -> bool {
    item.text.len() > 1
}

/// What an example must be at each level of preference: a chorded word,
/// then any chord, then anything.
pub open spec fn fits(order: Seq<StenoKey>, item: ItemView, level: int) -> bool {
    if level == 0 {
        is_chord(order, item) && is_word(item)
    } else if level == 1 {
        is_chord(order, item)
    } else {
        true
    }
}

/// The first item that fits the given level of preference.
pub open spec fn first_fitting(order: Seq<StenoKey>, items: Seq<ItemView>, level: int) -> Option<ItemView>
    decreases items.len(),
{
    if items.len() == 0 {
        None
    } else if fits(order, items[0], level) {
        Some(items[0])
    } else {
        first_fitting(order, items.drop_first(), level)
    }
}

/// The item a first-run walkthrough demonstrates: the first chorded word of
/// the curriculum, else its first chord, else its first item.
pub open spec fn example_of(order: Seq<StenoKey>, items: Seq<ItemView>) -> Option<ItemView> {
    match first_fitting(order, items, 0) {
        Some(x) => Some(x),
        None => match first_fitting(order, items, 1) {
            Some(x) => Some(x),
            None => first_fitting(order, items, 2),
        },
    }
}

fn fits_exec(order: &[StenoKey], item: &LessonItem, level: u8) -> (b: bool)
    ensures
        b == fits(order@, item.view_item(), level as int),
{
    if level >= 2 {
        return true;
    }
    let chord = if item.strokes.len() == 1 {
        match parse_stroke(order, item.strokes[0].as_str()) {
            Some(ids) => ids.len() >= 2,
            None => false,
        }
    } else {
        false
    };
    proof {
        if item.strokes@.len() == 1 {
            assert(item.view_item().strokes[0] == item.strokes@[0]@);
        }
    }
    if level == 1 {
        chord
    } else {
        chord && chars_of(item.text.as_str()).len() > 1
    }
}

fn first_fitting_exec<'a>(order: &[StenoKey], items: &[&'a LessonItem], level: u8) -> (r: Option<&'a LessonItem>)
    ensures
        match r {
            Some(it) => first_fitting(order@, items@.map_values(|i: &LessonItem| i.view_item()), level as int) == Some(
                it.view_item(),
            ),
            None => first_fitting(order@, items@.map_values(|i: &LessonItem| i.view_item()), level as int) is None,
        },
{
    let ghost all = items@.map_values(|i: &LessonItem| i.view_item());
    assert(all.skip(0) =~= all);
    let mut k: usize = 0;
    while k < items.len()
        invariant
            k <= items.len(),
            all == items@.map_values(|i: &LessonItem| i.view_item()),
            first_fitting(order@, all, level as int) == first_fitting(order@, all.skip(k as int), level as int),
        decreases items.len() - k,
    {
        let ghost rest = all.skip(k as int);
        assert(rest[0] == items@[k as int].view_item());
        assert(rest.drop_first() =~= all.skip(k + 1));
        if fits_exec(order, items[k], level) {
            return Some(items[k]);
        }
        k += 1;
    }
    assert(all.skip(k as int) =~= Seq::<ItemView>::empty());
    None
}

/// Pick the item a first-run walkthrough demonstrates "hold these keys
/// together" with. It should be a chord, and preferably a real word; each
/// preference falls back to the next, so an unusual pack still gets
/// something to show.
pub fn example(pack: &Pack, curriculum: &Curriculum) -> (r: Option<LessonItem>)
    ensures
        match r {
            Some(it) => example_of(pack.layout.spec_order(), all_items(curriculum.spec_lessons())) == Some(it.view_item()),
            None => example_of(pack.layout.spec_order(), all_items(curriculum.spec_lessons())) is None,
        },
{
    let order = pack.layout.order();
    let lessons = curriculum.lessons();
    let ghost lv = lesson_views(lessons@);
    let mut items: Vec<&LessonItem> = Vec::new();
    let mut i: usize = 0;
    while i < lessons.len()
        invariant
            i <= lessons.len(),
            lv == lesson_views(lessons@),
            items@.map_values(|x: &LessonItem| x.view_item()) == all_items(lv.take(i as int)),
        decreases lessons.len() - i,
    {
        let ghost before = items@.map_values(|x: &LessonItem| x.view_item());
        let mut j: usize = 0;
        while j < lessons[i].items.len()
            invariant
                i < lessons.len(),
                j <= lessons@[i as int].items@.len(),
                items@.map_values(|x: &LessonItem| x.view_item()) == before + item_views(lessons@[i as int].items@.take(j as int)),
            decreases lessons@[i as int].items@.len() - j,
        {
            let ghost prev = items@.map_values(|x: &LessonItem| x.view_item());
            items.push(&lessons[i].items[j]);
            assert(items@.map_values(|x: &LessonItem| x.view_item()) =~= prev.push(lessons@[i as int].items@[j as int].view_item()));
            assert(item_views(lessons@[i as int].items@.take(j + 1)) =~= item_views(lessons@[i as int].items@.take(j as int)).push(
                lessons@[i as int].items@[j as int].view_item(),
            ));
            j += 1;
        }
        assert(lessons@[i as int].items@.take(j as int) =~= lessons@[i as int].items@);
        assert(lv.take(i + 1).drop_last() =~= lv.take(i as int));
        assert(lv.take(i + 1).last() == lessons@[i as int].view_lesson());
        i += 1;
    }
    assert(lv.take(lessons.len() as int) =~= lv);
    let found = match first_fitting_exec(order, items.as_slice(), 0) {
        Some(it) => Some(it),
        None => match first_fitting_exec(order, items.as_slice(), 1) {
            Some(it) => Some(it),
            None => first_fitting_exec(order, items.as_slice(), 2),
        },
    };
    match found {
        Some(it) => Some(it.clone()),
        None => None,
    }
}

} // verus!
