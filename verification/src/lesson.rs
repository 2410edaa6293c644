//! Lessons: a progression derived from a pack, and the drill that runs it.
//!
//! Curricula are generated, not authored: keys are introduced a few at a time
//! in the layout's order, and each lesson drills the dictionary entries that
//! the keys taught so far can reach and that use a key just introduced.
use vstd::prelude::*;
use crate::layout::clone_keys;
use crate::pack::Pack;
use crate::reverse::{best_in, indexes, listed, Entry, ReverseIndex};
use crate::stroke::{parse_all, parse_stroke_sequence, Bank, StenoKey};
use crate::text::{contains_text, lemma_lex_asymmetric, lemma_lex_irreflexive, lemma_lex_total, lemma_lex_transitive, lex_less, lex_lt, join_strokes, split_strokes, owned, push_decimal, push_text, same_chars, same_text, trim_chars, trimmed, views, chars_of, decimal, join_spaced};
use crate::stroke::id_set;

verus! {

/// One thing to type in a drill, with the strokes that produce it.
#[derive(Debug, PartialEq, Eq)]
pub struct LessonItem {
    pub text: String,
    pub strokes: Vec<String>,
}

impl Clone for LessonItem {
    fn clone(&self) -> (r: Self)
        ensures
            r.text@ == self.text@,
            views(r.strokes@) == views(self.strokes@),
    {
        LessonItem { text: self.text.clone(), strokes: clone_strings(self.strokes.as_slice()) }
    }
}

/// Copies of a list of strings.
pub fn clone_strings(v: &[String]) -> (r: Vec<String>)
    ensures
        views(r@) == views(v@),
{
    let mut r: Vec<String> = Vec::new();
    let mut i: usize = 0;
    while i < v.len()
        invariant
            i <= v.len(),
            views(r@) == views(v@.take(i as int)),
        decreases v.len() - i,
    {
        let ghost old_r = r@;
        let c = v[i].clone();
        r.push(c);
        assert(views(r@) =~= views(old_r).push(v@[i as int]@));
        assert(views(v@.take(i + 1)) =~= views(v@.take(i as int)).push(v@[i as int]@));
        i += 1;
    }
    assert(v@.take(v.len() as int) =~= v@);
    r
}

/// What an item is: its text and its strokes.
pub struct ItemView {
    pub text: Seq<char>,
    pub strokes: Seq<Seq<char>>,
}

impl LessonItem {
    pub open spec fn view_item(&self) -> ItemView {
        ItemView { text: self.text@, strokes: views(self.strokes@) }
    }
}

/// The views of a list of items.
pub open spec fn item_views(v: Seq<LessonItem>) -> Seq<ItemView> {
    v.map_values(|i: LessonItem| i.view_item())
}

/// A single step of the progression.
#[derive(Debug, PartialEq, Eq)]
pub struct Lesson {
    /// Zero-based position in the curriculum.
    pub index: usize,
    /// The steno keys this lesson teaches.
    pub new_keys: Vec<StenoKey>,
    /// What to drill, easiest first.
    pub items: Vec<LessonItem>,
}

/// The letters of a key list.
pub open spec fn key_letters(keys: Seq<StenoKey>) -> Seq<Seq<char>> {
    keys.map_values(|k: StenoKey| k.letter@)
}

impl Lesson {
    /// `"Lesson "` and the one-based position.
    pub fn title(&self) -> (t: String)
        requires
            self.index < usize::MAX,
        ensures
            t@ == seq!['L', 'e', 's', 's', 'o', 'n', ' '] + decimal(self.index as nat + 1),
    {
        let mut t = owned("Lesson ");
        proof {
            reveal_strlit("Lesson ");
        }
        push_decimal(&mut t, self.index + 1);
        t
    }

    /// A lesson that introduces no keys: practice of vocabulary that overflowed
    /// an earlier lesson.
    pub fn is_review(&self) -> (b: bool)
        ensures
            b == (self.new_keys@.len() == 0),
    {
        self.new_keys.len() == 0
    }

    /// The new keys' letters separated by spaces, e.g. `"S T K P"`.
    pub fn keys_label(&self) -> (s: String)
        ensures
            s@ == join_spaced(key_letters(self.new_keys@)),
    {
        let mut s = String::new();
        let mut i: usize = 0;
        while i < self.new_keys.len()
            invariant
                i <= self.new_keys.len(),
                s@ == join_spaced(key_letters(self.new_keys@.take(i as int))),
            decreases self.new_keys.len() - i,
        {
            let ghost before = s@;
            let ghost t = key_letters(self.new_keys@.take(i + 1));
            assert(t.drop_last() =~= key_letters(self.new_keys@.take(i as int)));
            if i > 0 {
                push_text(&mut s, " ");
                proof {
                    reveal_strlit(" ");
                }
            }
            push_text(&mut s, self.new_keys[i].letter.as_str());
            if i == 0 {
                assert(s@ =~= t[0]);
            } else {
                assert(s@ =~= before + seq![' '] + t.last());
            }
            i += 1;
        }
        assert(self.new_keys@.take(self.new_keys.len() as int) =~= self.new_keys@);
        s
    }

    pub fn len(&self) -> (n: usize)
        ensures
            n == self.items@.len(),
    {
        self.items.len()
    }

    pub fn is_empty(&self) -> (b: bool)
        ensures
            b == (self.items@.len() == 0),
    {
        self.items.len() == 0
    }
}

/// What a submitted answer was worth.
#[derive(Debug, Clone, Copy, PartialEq, Eq, Structural)]
pub enum DrillOutcome {
    Correct,
    Wrong,
}

/// A run through one lesson's items: position and attempts on the current
/// item.
#[derive(Debug)]
pub struct Drill {
    items: Vec<LessonItem>,
    at: usize,
    attempts: usize,
}

impl Drill {
    #[verifier::type_invariant]
    spec fn wf(self) -> bool {
        self.at <= self.items@.len()
    }

    /// The items of the drill.
    pub closed spec fn spec_items(&self) -> Seq<ItemView> {
        item_views(self.items@)
    }

    /// How many items are done.
    pub closed spec fn spec_at(&self) -> nat {
        self.at as nat
    }

    /// Wrong answers on the current item.
    pub closed spec fn spec_attempts(&self) -> nat {
        self.attempts as nat
    }

    pub fn new(lesson: &Lesson) -> (d: Drill)
        ensures
            d.spec_items() == item_views(lesson.items@),
            d.spec_at() == 0,
            d.spec_attempts() == 0,
    {
        let mut items: Vec<LessonItem> = Vec::new();
        let mut i: usize = 0;
        while i < lesson.items.len()
            invariant
                i <= lesson.items.len(),
                item_views(items@) == item_views(lesson.items@.take(i as int)),
            decreases lesson.items.len() - i,
        {
            let ghost old_items = items@;
            let c = lesson.items[i].clone();
            items.push(c);
            assert(item_views(items@) =~= item_views(old_items).push(lesson.items@[i as int].view_item()));
            assert(item_views(lesson.items@.take(i + 1)) =~= item_views(lesson.items@.take(i as int)).push(lesson.items@[i as int].view_item()));
            i += 1;
        }
        assert(lesson.items@.take(lesson.items.len() as int) =~= lesson.items@);
        Drill { items, at: 0, attempts: 0 }
    }

    /// The item being drilled, or `None` once the drill is finished.
    pub fn current(&self) -> (r: Option<&LessonItem>)
        ensures
            match r {
                Some(item) => self.spec_at() < self.spec_items().len() && item.view_item() == self.spec_items()[self.spec_at() as int],
                None => self.spec_at() >= self.spec_items().len(),
            },
    {
        if self.at < self.items.len() {
            Some(&self.items[self.at])
        } else {
            None
        }
    }

    /// Judge translated text against the current target, ignoring white
    /// space around it. A right answer moves on; a wrong one stays and is
    /// counted. `None` when the drill is already finished.
    pub fn submit(&mut self, text: &str) -> (r: Option<DrillOutcome>)
        requires
            old(self).spec_attempts() < usize::MAX,
        ensures
            final(self).spec_items() == old(self).spec_items(),
            old(self).spec_at() >= old(self).spec_items().len() ==> r is None && *final(self) == *old(self),
            old(self).spec_at() < old(self).spec_items().len() ==> ({
                let target = old(self).spec_items()[old(self).spec_at() as int].text;
                if trimmed(text@) == target {
                    &&& r == Some(DrillOutcome::Correct)
                    &&& final(self).spec_at() == old(self).spec_at() + 1
                    &&& final(self).spec_attempts() == 0
                } else {
                    &&& r == Some(DrillOutcome::Wrong)
                    &&& final(self).spec_at() == old(self).spec_at()
                    &&& final(self).spec_attempts() == old(self).spec_attempts() + 1
                }
            }),
    {
        proof {
            use_type_invariant(&*self);
        }
        if self.at >= self.items.len() {
            return None;
        }
        let answer = trim_chars(text);
        let target = chars_of(self.items[self.at].text.as_str());
        if same_chars(answer.as_slice(), target.as_slice()) {
            self.at = self.at + 1;
            self.attempts = 0;
            Some(DrillOutcome::Correct)
        } else {
            self.attempts = self.attempts + 1;
            Some(DrillOutcome::Wrong)
        }
    }

    /// Count a chord the dictionary could not name as a wrong attempt on the
    /// current item. Nothing changes once the drill is finished.
    pub fn miss(&mut self)
        requires
            old(self).spec_attempts() < usize::MAX,
        ensures
            final(self).spec_items() == old(self).spec_items(),
            final(self).spec_at() == old(self).spec_at(),
            final(self).spec_attempts() == if old(self).spec_at() < old(self).spec_items().len() {
                old(self).spec_attempts() + 1
            } else {
                old(self).spec_attempts()
            },
    {
        proof {
            use_type_invariant(&*self);
        }
        if self.at < self.items.len() {
            self.attempts = self.attempts + 1;
        }
    }

    /// Give up on the current item and move on.
    pub fn skip(&mut self)
        ensures
            final(self).spec_items() == old(self).spec_items(),
            old(self).spec_at() < old(self).spec_items().len() ==> final(self).spec_at() == old(self).spec_at() + 1
                && final(self).spec_attempts() == 0,
            old(self).spec_at() >= old(self).spec_items().len() ==> *final(self) == *old(self),
    {
        proof {
            use_type_invariant(&*self);
        }
        if self.at < self.items.len() {
            self.at = self.at + 1;
            self.attempts = 0;
        }
    }

    /// Wrong answers on the current item; a UI reveals the hint once this is
    /// non-zero.
    pub fn attempts_on_current(&self) -> (n: usize)
        ensures
            n == self.spec_attempts(),
    {
        self.attempts
    }

    /// How many items are done.
    pub fn position(&self) -> (n: usize)
        ensures
            n == self.spec_at(),
    {
        self.at
    }

    pub fn total(&self) -> (n: usize)
        ensures
            n == self.spec_items().len(),
    {
        self.items.len()
    }

    pub fn is_complete(&self) -> (b: bool)
        ensures
            b == (self.spec_at() >= self.spec_items().len()),
    {
        self.at >= self.items.len()
    }

    /// Back to the first item.
    pub fn restart(&mut self)
        ensures
            final(self).spec_items() == old(self).spec_items(),
            final(self).spec_at() == 0,
            final(self).spec_attempts() == 0,
    {
        self.at = 0;
        self.attempts = 0;
    }
}

/// How many keys a lesson introduces at once.
pub const CHUNK: usize = 4;
/// A chunk reaching fewer items than this is carried into the next lesson.
pub const MIN_ITEMS: usize = 3;
/// The most items one selection drills; the rest spill into later lessons.
pub const MAX_ITEMS: usize = 16;
/// Review lessons are added only while the curriculum is shorter than this.
pub const MAX_LESSONS: usize = 40;

/// A lesson's contents.
pub struct LessonView {
    pub index: int,
    pub new_keys: Seq<StenoKey>,
    pub items: Seq<ItemView>,
}

impl Lesson {
    pub open spec fn view_lesson(&self) -> LessonView {
        LessonView { index: self.index as int, new_keys: self.new_keys@, items: item_views(self.items@) }
    }
}

/// The views of a list of lessons.
pub open spec fn lesson_views(v: Seq<Lesson>) -> Seq<LessonView> {
    v.map_values(|l: Lesson| l.view_lesson())
}

/// A dictionary entry that can be drilled: its text, its strokes and the
/// steno key ids they use.
pub struct CandView {
    pub text: Seq<char>,
    pub strokes: Seq<Seq<char>>,
    pub keys: Set<Seq<char>>,
}

/// A candidate may be drilled now: its text is not drilled yet, every key it
/// needs is introduced, and (when `new` is given) it uses one of the new keys.
pub open spec fn eligible(c: CandView, introduced: Set<Seq<char>>, new: Option<Set<Seq<char>>>, used: Set<Seq<char>>) -> bool {
    &&& !used.contains(c.text)
    &&& c.keys.subset_of(introduced)
    &&& match new {
        Some(ids) => shares_key(c.keys, ids),
        None => true,
    }
}

/// Some key is in both sets.
pub open spec fn shares_key(a: Set<Seq<char>>, b: Set<Seq<char>>) -> bool {
    exists|k: Seq<char>| #[trigger] a.contains(k) && b.contains(k)
}

/// The eligible candidates, in order.
pub open spec fn eligible_seq(
    cands: Seq<CandView>,
    introduced: Set<Seq<char>>,
    new: Option<Set<Seq<char>>>,
    used: Set<Seq<char>>,
) -> Seq<CandView>
    decreases cands.len(),
{
    if cands.len() == 0 {
        Seq::empty()
    } else {
        eligible_seq(cands.drop_last(), introduced, new, used) + if eligible(cands.last(), introduced, new, used) {
            seq![cands.last()]
        } else {
            Seq::empty()
        }
    }
}

/// A candidate as a drill item.
pub open spec fn to_item(c: CandView) -> ItemView {
    ItemView { text: c.text, strokes: c.strokes }
}

/// At most `n` of `s`.
pub open spec fn at_most<T>(s: Seq<T>, n: int) -> Seq<T> {
    if s.len() > n {
        s.take(n)
    } else {
        s
    }
}

/// What one lesson drills: the first eligible candidates, at most
/// `MAX_ITEMS` of them.
pub open spec fn select_spec(
    cands: Seq<CandView>,
    introduced: Set<Seq<char>>,
    new: Option<Set<Seq<char>>>,
    used: Set<Seq<char>>,
) -> Seq<ItemView> {
    at_most(eligible_seq(cands, introduced, new, used), MAX_ITEMS as int).map_values(|c: CandView| to_item(c))
}

/// The ids of a key list.
pub open spec fn ids_of(keys: Seq<StenoKey>) -> Set<Seq<char>> {
    keys.map_values(|k: StenoKey| k.id@).to_set()
}

/// The texts of a list of items.
pub open spec fn texts_of(items: Seq<ItemView>) -> Set<Seq<char>> {
    items.map_values(|i: ItemView| i.text).to_set()
}

/// The keys of `order` in bank `b`, except the undo key.
pub open spec fn bank_keys(order: Seq<StenoKey>, b: Bank, undo: Seq<char>) -> Seq<StenoKey>
    decreases order.len(),
{
    if order.len() == 0 {
        Seq::empty()
    } else {
        bank_keys(order.drop_last(), b, undo) + if order.last().bank == b && order.last().id@ != undo {
            seq![order.last()]
        } else {
            Seq::empty()
        }
    }
}

/// `s` cut into consecutive pieces of `CHUNK` keys, the last maybe shorter.
pub open spec fn chunked(s: Seq<StenoKey>) -> Seq<Seq<StenoKey>>
    decreases s.len(),
{
    if s.len() == 0 {
        Seq::empty()
    } else if s.len() <= CHUNK {
        seq![s]
    } else {
        seq![s.take(CHUNK as int)] + chunked(s.skip(CHUNK as int))
    }
}

/// The groups of keys successive lessons introduce: the first group of
/// left-hand keys, then the whole middle bank (it joins the hands, so it
/// makes words reachable early), then the other left-hand groups, then the
/// right-hand groups.
pub open spec fn chunks_spec(order: Seq<StenoKey>, undo: Seq<char>) -> Seq<Seq<StenoKey>> {
    let left = bank_keys(order, Bank::Left, undo);
    let mid = bank_keys(order, Bank::Mid, undo);
    let right = bank_keys(order, Bank::Right, undo);
    let groups = chunked(left);
    (if groups.len() > 0 { seq![groups[0]] } else { Seq::empty() }) + (if mid.len() > 0 {
        seq![mid]
    } else {
        Seq::empty()
    }) + (if groups.len() > 0 { groups.drop_first() } else { Seq::empty() }) + chunked(right)
}

/// The state of curriculum generation between chunks.
#[verifier::ext_equal]
pub struct Progress {
    pub lessons: Seq<LessonView>,
    pub introduced: Set<Seq<char>>,
    pub used: Set<Seq<char>>,
    pub pending: Seq<StenoKey>,
}

/// Introduce one chunk: it joins the keys awaiting a lesson, and becomes a
/// lesson (with them) when it reaches enough items.
pub open spec fn chunk_step(cands: Seq<CandView>, st: Progress, chunk: Seq<StenoKey>) -> Progress {
    let introduced = st.introduced.union(ids_of(chunk));
    let pending = st.pending + chunk;
    let items = select_spec(cands, introduced, Some(ids_of(pending)), st.used);
    if items.len() < MIN_ITEMS {
        Progress { lessons: st.lessons, introduced, used: st.used, pending }
    } else {
        Progress {
            lessons: st.lessons.push(LessonView { index: st.lessons.len() as int, new_keys: pending, items }),
            introduced,
            used: st.used.union(texts_of(items)),
            pending: Seq::empty(),
        }
    }
}

/// All chunks introduced in turn.
pub open spec fn run_chunks(cands: Seq<CandView>, chunks: Seq<Seq<StenoKey>>, st: Progress) -> Progress
    decreases chunks.len(),
{
    if chunks.len() == 0 {
        st
    } else {
        chunk_step(cands, run_chunks(cands, chunks.drop_last(), st), chunks.last())
    }
}

/// Keys left over after the last chunk join the last lesson (or make the
/// first one) together with whatever they reach.
pub open spec fn fold_in(cands: Seq<CandView>, st: Progress) -> Progress {
    if st.pending.len() == 0 {
        st
    } else {
        let items = select_spec(cands, st.introduced, Some(ids_of(st.pending)), st.used);
        if items.len() == 0 {
            st
        } else {
            let used = st.used.union(texts_of(items));
            let lessons = if st.lessons.len() > 0 {
                let last = st.lessons.last();
                st.lessons.update(
                    st.lessons.len() - 1,
                    LessonView { index: last.index, new_keys: last.new_keys + st.pending, items: last.items + items },
                )
            } else {
                seq![LessonView { index: 0, new_keys: st.pending, items }]
            };
            Progress { lessons, introduced: st.introduced, used, pending: Seq::empty() }
        }
    }
}

/// Review lessons for whatever is still untaught, while the curriculum is
/// short of `MAX_LESSONS`.
pub open spec fn reviews(cands: Seq<CandView>, st: Progress) -> Progress
    decreases MAX_LESSONS - st.lessons.len(),
{
    if st.lessons.len() >= MAX_LESSONS {
        st
    } else {
        let items = select_spec(cands, st.introduced, None, st.used);
        if items.len() == 0 {
            st
        } else {
            reviews(
                cands,
                Progress {
                    lessons: st.lessons.push(LessonView { index: st.lessons.len() as int, new_keys: Seq::empty(), items }),
                    introduced: st.introduced,
                    used: st.used.union(texts_of(items)),
                    pending: st.pending,
                },
            )
        }
    }
}

/// The curriculum for a candidate list and key order. The undo key counts
/// as available from the start, though it is never taught.
pub open spec fn curriculum_spec(cands: Seq<CandView>, order: Seq<StenoKey>, undo: Seq<char>) -> Seq<LessonView> {
    let start = Progress { lessons: Seq::empty(), introduced: set![undo], used: Set::empty(), pending: Seq::empty() };
    reviews(cands, fold_in(cands, run_chunks(cands, chunks_spec(order, undo), start))).lessons
}

/// The contents of a list of key lists.
pub open spec fn chunk_views(v: Seq<Vec<StenoKey>>) -> Seq<Seq<StenoKey>> {
    v.map_values(|c: Vec<StenoKey>| c@)
}

fn bank_of(order: &[StenoKey], b: Bank, undo: &str) -> (r: Vec<StenoKey>)
    ensures
        r@ == bank_keys(order@, b, undo@),
{
    let mut r: Vec<StenoKey> = Vec::new();
    let mut i: usize = 0;
    while i < order.len()
        invariant
            i <= order.len(),
            r@ == bank_keys(order@.take(i as int), b, undo@),
        decreases order.len() - i,
    {
        assert(order@.take(i + 1).drop_last() =~= order@.take(i as int));
        assert(order@.take(i + 1).last() == order@[i as int]);
        if order[i].bank == b && !same_text(order[i].id.as_str(), undo) {
            r.push(order[i].clone());
            assert(r@ =~= bank_keys(order@.take(i + 1), b, undo@));
        } else {
            assert(r@ =~= bank_keys(order@.take(i + 1), b, undo@));
        }
        i += 1;
    }
    assert(order@.take(order.len() as int) =~= order@);
    r
}

fn chunk_keys(s: &[StenoKey]) -> (r: Vec<Vec<StenoKey>>)
    ensures
        chunk_views(r@) == chunked(s@),
{
    let mut r: Vec<Vec<StenoKey>> = Vec::new();
    let mut i: usize = 0;
    assert(s@.skip(0) =~= s@);
    assert(chunk_views(r@) + chunked(s@) =~= chunked(s@));
    while i < s.len()
        invariant
            i <= s.len(),
            chunk_views(r@) + chunked(s@.skip(i as int)) == chunked(s@),
        decreases s.len() - i,
    {
        let ghost t = s@.skip(i as int);
        let ghost before = chunk_views(r@);
        let end = if s.len() - i <= CHUNK { s.len() } else { i + CHUNK };
        let mut piece: Vec<StenoKey> = Vec::new();
        let mut j: usize = i;
        while j < end
            invariant
                i <= j <= end <= s.len(),
                piece@ == s@.subrange(i as int, j as int),
            decreases end - j,
        {
            piece.push(s[j].clone());
            assert(piece@ =~= s@.subrange(i as int, j + 1));
            j += 1;
        }
        r.push(piece);
        assert(chunk_views(r@) =~= before.push(s@.subrange(i as int, end as int)));
        if s.len() - i <= CHUNK {
            assert(t =~= s@.subrange(i as int, end as int));
            assert(s@.skip(end as int) =~= Seq::<StenoKey>::empty());
        } else {
            assert(t.take(CHUNK as int) =~= s@.subrange(i as int, end as int));
            assert(t.skip(CHUNK as int) =~= s@.skip(end as int));
        }
        assert(before + chunked(t) =~= chunk_views(r@) + chunked(s@.skip(end as int)));
        i = end;
    }
    assert(s@.skip(i as int) =~= Seq::<StenoKey>::empty());
    assert(chunk_views(r@) + Seq::<Seq<StenoKey>>::empty() =~= chunk_views(r@));
    r
}

/// Split the layout into the key groups successive lessons introduce.
fn key_chunks(order: &[StenoKey], undo_stroke: &str) -> (r: Vec<Vec<StenoKey>>)
    ensures
        chunk_views(r@) == chunks_spec(order@, undo_stroke@),
{
    let left = bank_of(order, Bank::Left, undo_stroke);
    let mid = bank_of(order, Bank::Mid, undo_stroke);
    let right = bank_of(order, Bank::Right, undo_stroke);
    let groups = chunk_keys(left.as_slice());
    let mut r: Vec<Vec<StenoKey>> = Vec::new();
    let mut k: usize = 0;
    if groups.len() > 0 {
        r.push(clone_keys(groups[0].as_slice()));
        k = 1;
    }
    assert(chunk_views(r@) =~= if chunk_views(groups@).len() > 0 { seq![chunk_views(groups@)[0]] } else { Seq::empty() });
    if mid.len() > 0 {
        let ghost before = chunk_views(r@);
        r.push(mid);
        assert(chunk_views(r@) =~= before + seq![bank_keys(order@, Bank::Mid, undo_stroke@)]);
    }
    let ghost head = chunk_views(r@);
    while k < groups.len()
        invariant
            k <= groups.len(),
            groups.len() > 0 ==> k >= 1,
            groups.len() == 0 ==> k == 0,
            chunk_views(r@) == head + chunk_views(groups@).subrange(if groups.len() > 0 { 1 } else { 0 }, k as int),
        decreases groups.len() - k,
    {
        let ghost before = chunk_views(r@);
        let c = clone_keys(groups[k].as_slice());
        r.push(c);
        assert(chunk_views(r@) =~= before.push(groups@[k as int]@));
        assert(chunk_views(r@) =~= head + chunk_views(groups@).subrange(if groups.len() > 0 { 1 } else { 0 }, k + 1));
        k += 1;
    }
    let rights = chunk_keys(right.as_slice());
    let ghost mid_part = chunk_views(r@);
    let mut m: usize = 0;
    while m < rights.len()
        invariant
            m <= rights.len(),
            chunk_views(r@) == mid_part + chunk_views(rights@).take(m as int),
        decreases rights.len() - m,
    {
        let ghost before = chunk_views(r@);
        let c = clone_keys(rights[m].as_slice());
        r.push(c);
        assert(chunk_views(r@) =~= before.push(rights@[m as int]@));
        assert(chunk_views(r@) =~= mid_part + chunk_views(rights@).take(m + 1));
        m += 1;
    }
    proof {
        let g = chunk_views(groups@);
        if g.len() > 0 {
            assert(g.subrange(1, g.len() as int) =~= g.drop_first());
        } else {
            assert(g.subrange(0, 0) =~= Seq::<Seq<StenoKey>>::empty());
        }
        assert(chunk_views(rights@).take(rights.len() as int) =~= chunk_views(rights@));
        assert(chunk_views(r@) =~= chunks_spec(order@, undo_stroke@));
    }
    r
}

proof fn lemma_eligible_append(a: Seq<CandView>, b: Seq<CandView>, introduced: Set<Seq<char>>, new: Option<Set<Seq<char>>>, used: Set<Seq<char>>)
    ensures
        eligible_seq(a + b, introduced, new, used) == eligible_seq(a, introduced, new, used) + eligible_seq(b, introduced, new, used),
    decreases b.len(),
{
    if b.len() == 0 {
        assert(a + b =~= a);
        assert(eligible_seq(a, introduced, new, used) + eligible_seq(b, introduced, new, used) =~= eligible_seq(a, introduced, new, used));
    } else {
        assert((a + b).drop_last() =~= a + b.drop_last());
        assert((a + b).last() == b.last());
        lemma_eligible_append(a, b.drop_last(), introduced, new, used);
    }
}

/// A dictionary entry that survived parsing, with the steno keys it needs.
struct Candidate {
    text: String,
    strokes: Vec<String>,
    keys: Vec<String>,
}

impl Candidate {
    spec fn view_cand(&self) -> CandView {
        CandView { text: self.text@, strokes: views(self.strokes@), keys: id_set(self.keys@) }
    }
}

spec fn cand_views(v: Seq<Candidate>) -> Seq<CandView> {
    v.map_values(|c: Candidate| c.view_cand())
}

/// The ids of an optional key list.
pub open spec fn opt_ids(new: Option<&[StenoKey]>) -> Option<Set<Seq<char>>> {
    match new {
        Some(k) => Some(ids_of(k@)),
        None => None,
    }
}

fn has_key_id(keys: &[StenoKey], id: &str) -> (b: bool)
    ensures
        b == ids_of(keys@).contains(id@),
{
    let mut i: usize = 0;
    while i < keys.len()
        invariant
            i <= keys.len(),
            forall|j: int| 0 <= j < i ==> #[trigger] keys@[j].id@ != id@,
        decreases keys.len() - i,
    {
        if same_text(keys[i].id.as_str(), id) {
            assert(keys@.map_values(|k: StenoKey| k.id@)[i as int] == id@);
            return true;
        }
        i += 1;
    }
    proof {
        if ids_of(keys@).contains(id@) {
            let ks = keys@.map_values(|k: StenoKey| k.id@);
            let j = choose|j: int| 0 <= j < ks.len() && #[trigger] ks[j] == id@;
            assert(keys@[j].id@ == id@);
        }
    }
    false
}

fn is_eligible(c: &Candidate, introduced: &[String], new: Option<&[StenoKey]>, used: &[String]) -> (b: bool)
    ensures
        b == eligible(c.view_cand(), id_set(introduced@), opt_ids(new), id_set(used@)),
{
    if contains_text(used, c.text.as_str()) {
        assert(id_set(used@).contains(c.text@));
        return false;
    }
    assert(!id_set(used@).contains(c.text@));
    let mut i: usize = 0;
    while i < c.keys.len()
        invariant
            i <= c.keys.len(),
            forall|j: int| 0 <= j < i ==> id_set(introduced@).contains(#[trigger] c.keys@[j]@),
        decreases c.keys.len() - i,
    {
        if !contains_text(introduced, c.keys[i].as_str()) {
            assert(id_set(c.keys@).contains(c.keys@[i as int]@)) by {
                assert(views(c.keys@)[i as int] == c.keys@[i as int]@);
            }
            return false;
        }
        i += 1;
    }
    assert(id_set(c.keys@).subset_of(id_set(introduced@))) by {
        assert forall|k: Seq<char>| id_set(c.keys@).contains(k) implies id_set(introduced@).contains(k) by {
            let j = choose|j: int| 0 <= j < views(c.keys@).len() && views(c.keys@)[j] == k;
            assert(c.keys@[j]@ == k);
        }
    }
    match new {
        None => true,
        Some(keys) => {
            let mut i: usize = 0;
            while i < c.keys.len()
                invariant
                    i <= c.keys.len(),
                    new == Some(keys),
                    !id_set(used@).contains(c.text@),
                    id_set(c.keys@).subset_of(id_set(introduced@)),
                    forall|j: int| 0 <= j < i ==> !ids_of(keys@).contains(#[trigger] c.keys@[j]@),
                decreases c.keys.len() - i,
            {
                if has_key_id(keys, c.keys[i].as_str()) {
                    assert(id_set(c.keys@).contains(c.keys@[i as int]@)) by {
                        assert(views(c.keys@)[i as int] == c.keys@[i as int]@);
                    }
                    assert(c.view_cand().keys.contains(c.keys@[i as int]@) && ids_of(keys@).contains(c.keys@[i as int]@));
                    assert(!id_set(used@).contains(c.view_cand().text));
                    assert(c.view_cand().keys.subset_of(id_set(introduced@)));
                    assert(opt_ids(new) == Some(ids_of(keys@)));
                    assert(shares_key(c.view_cand().keys, ids_of(keys@)));
                    return true;
                }
                i += 1;
            }
            proof {
                assert forall|k: Seq<char>| !(#[trigger] id_set(c.keys@).contains(k) && ids_of(keys@).contains(k)) by {
                    if id_set(c.keys@).contains(k) {
                        let j = choose|j: int| 0 <= j < views(c.keys@).len() && views(c.keys@)[j] == k;
                        assert(c.keys@[j]@ == k);
                    }
                }
            }
            false
        },
    }
}

/// Entries reachable with `introduced` that are not drilled yet, at most
/// `MAX_ITEMS` of them; with `new`, only those exercising one of its keys.
fn select(cands: &[Candidate], introduced: &[String], new: Option<&[StenoKey]>, used: &[String]) -> (r: Vec<LessonItem>)
    ensures
        item_views(r@) == select_spec(cand_views(cands@), id_set(introduced@), opt_ids(new), id_set(used@)),
{
    let ghost cv = cand_views(cands@);
    let ghost (i_set, n_set, u_set) = (id_set(introduced@), opt_ids(new), id_set(used@));
    let mut out: Vec<LessonItem> = Vec::new();
    let mut i: usize = 0;
    while i < cands.len() && out.len() < MAX_ITEMS
        invariant
            i <= cands.len(),
            cv == cand_views(cands@),
            i_set == id_set(introduced@),
            n_set == opt_ids(new),
            u_set == id_set(used@),
            out@.len() <= MAX_ITEMS,
            eligible_seq(cv.take(i as int), i_set, n_set, u_set).len() == out@.len(),
            item_views(out@) == eligible_seq(cv.take(i as int), i_set, n_set, u_set).map_values(|c: CandView| to_item(c)),
        decreases cands.len() - i,
    {
        assert(cv.take(i + 1).drop_last() =~= cv.take(i as int));
        assert(cv.take(i + 1).last() == cands@[i as int].view_cand());
        let ghost before = item_views(out@);
        if is_eligible(&cands[i], introduced, new, used) {
            let item = LessonItem { text: cands[i].text.clone(), strokes: crate::lesson::clone_strings(cands[i].strokes.as_slice()) };
            out.push(item);
            assert(item_views(out@) =~= before.push(to_item(cands@[i as int].view_cand())));
            assert(item_views(out@) =~= eligible_seq(cv.take(i + 1), i_set, n_set, u_set).map_values(|c: CandView| to_item(c)));
        } else {
            assert(eligible_seq(cv.take(i + 1), i_set, n_set, u_set) =~= eligible_seq(cv.take(i as int), i_set, n_set, u_set));
        }
        i += 1;
    }
    proof {
        let e = eligible_seq(cv, i_set, n_set, u_set);
        let ei = eligible_seq(cv.take(i as int), i_set, n_set, u_set);
        assert(cv.take(i as int) + cv.skip(i as int) =~= cv);
        lemma_eligible_append(cv.take(i as int), cv.skip(i as int), i_set, n_set, u_set);
        if i == cands.len() {
            assert(cv.skip(i as int) =~= Seq::<CandView>::empty());
            assert(e =~= ei);
            assert(at_most(e, MAX_ITEMS as int) == e);
        } else {
            assert(ei.len() == MAX_ITEMS);
            assert(at_most(e, MAX_ITEMS as int) =~= ei) by {
                if e.len() > MAX_ITEMS {
                    assert(e.take(MAX_ITEMS as int) =~= ei);
                }
            }
        }
        assert(item_views(out@) =~= select_spec(cv, i_set, n_set, u_set));
    }
    out
}

/// All ids of a parsed key, stroke after stroke.
pub open spec fn flatten(ps: Seq<Seq<Seq<char>>>) -> Seq<Seq<char>>
    decreases ps.len(),
{
    if ps.len() == 0 {
        Seq::empty()
    } else {
        flatten(ps.drop_last()) + ps.last()
    }
}

/// The key ids an entry's strokes spell in this layout, if they parse.
pub open spec fn entry_ids(order: Seq<StenoKey>, e: Entry) -> Option<Seq<Seq<char>>> {
    match parse_all(order, split_strokes(e.spec_key())) {
        Some(ps) => Some(flatten(ps)),
        None => None,
    }
}

/// An entry can be drilled: it has text, it is not the undo stroke, and its
/// strokes parse into at least one key of the layout.
pub open spec fn drillable(order: Seq<StenoKey>, undo: Seq<char>, e: Entry) -> bool {
    &&& e.text@.len() > 0
    &&& e.spec_key() != undo
    &&& entry_ids(order, e) matches Some(ids) && ids.len() > 0
}

/// An entry as a candidate.
pub open spec fn cand_of(order: Seq<StenoKey>, e: Entry) -> CandView {
    CandView { text: e.text@, strokes: views(e.strokes@), keys: entry_ids(order, e)->0.to_set() }
}

/// Cheaper candidates are drilled first: fewer strokes, then a shorter key,
/// then the alphabetically earlier text.
pub open spec fn cost_lt(a: CandView, b: CandView) -> bool {
    let (ka, kb) = (join_strokes(a.strokes).len(), join_strokes(b.strokes).len());
    ||| a.strokes.len() < b.strokes.len()
    ||| a.strokes.len() == b.strokes.len() && ka < kb
    ||| a.strokes.len() == b.strokes.len() && ka == kb && lex_lt(a.text, b.text)
}

/// `cs` is the candidate list of the index `all`: one candidate for each
/// best spelling that can be drilled, cheapest first.
pub open spec fn candidate_list(order: Seq<StenoKey>, undo: Seq<char>, all: Seq<Entry>, cs: Seq<CandView>) -> bool {
    &&& by_cost(cs)
    &&& from_best(order, undo, all, cs)
    &&& covers_best(order, undo, all, cs)
}

/// Each candidate costs less than the ones after it.
pub open spec fn by_cost(cs: Seq<CandView>) -> bool {
    forall|i: int, j: int| 0 <= i < j < cs.len() ==> cost_lt(#[trigger] cs[i], #[trigger] cs[j])
}

/// Each candidate comes from a best spelling that can be drilled.
pub open spec fn from_best(order: Seq<StenoKey>, undo: Seq<char>, all: Seq<Entry>, cs: Seq<CandView>) -> bool {
    forall|i: int| 0 <= i < cs.len() ==> #[trigger] comes_from(order, undo, all, cs[i])
}

/// `c` is the candidate of a best spelling that can be drilled.
pub open spec fn comes_from(order: Seq<StenoKey>, undo: Seq<char>, all: Seq<Entry>, c: CandView) -> bool {
    exists|e: Entry| best_in(all, e) && drillable(order, undo, e) && c == #[trigger] cand_of(order, e)
}

/// Each best spelling that can be drilled has its candidate.
pub open spec fn covers_best(order: Seq<StenoKey>, undo: Seq<char>, all: Seq<Entry>, cs: Seq<CandView>) -> bool {
    forall|e: Entry| best_in(all, e) && drillable(order, undo, e) ==> #[trigger] cs.contains(cand_of(order, e))
}

pub(crate) proof fn lemma_cost_order(a: CandView, b: CandView, c: CandView)
    ensures
        a.text != b.text ==> cost_lt(a, b) || cost_lt(b, a),
        !(cost_lt(a, b) && cost_lt(b, a)),
        cost_lt(a, b) && cost_lt(b, c) ==> cost_lt(a, c),
        !cost_lt(a, a),
{
    lemma_lex_total(a.text, b.text);
    lemma_lex_asymmetric(a.text, b.text);
    lemma_lex_irreflexive(a.text);
    if cost_lt(a, b) && cost_lt(b, c) && a.strokes.len() == b.strokes.len() && b.strokes.len() == c.strokes.len()
        && join_strokes(a.strokes).len() == join_strokes(b.strokes).len() && join_strokes(b.strokes).len()
        == join_strokes(c.strokes).len() {
        lemma_lex_transitive(a.text, b.text, c.text);
    }
}

fn cost_less(a: &Candidate, b: &Candidate) -> (r: bool)
    ensures
        r == cost_lt(a.view_cand(), b.view_cand()),
{
    if a.strokes.len() != b.strokes.len() {
        return a.strokes.len() < b.strokes.len();
    }
    let ka = chars_of(crate::text::join_slash(a.strokes.as_slice()).as_str()).len();
    let kb = chars_of(crate::text::join_slash(b.strokes.as_slice()).as_str()).len();
    if ka != kb {
        return ka < kb;
    }
    let ta = chars_of(a.text.as_str());
    let tb = chars_of(b.text.as_str());
    lex_less(ta.as_slice(), tb.as_slice())
}

/// Insert a candidate with a new text into a list sorted by cost.
fn insert_by_cost(v: &mut Vec<Candidate>, c: Candidate)
    requires
        forall|i: int, j: int| 0 <= i < j < old(v)@.len() ==> cost_lt(#[trigger] cand_views(old(v)@)[i], #[trigger] cand_views(old(v)@)[j]),
        forall|i: int| 0 <= i < old(v)@.len() ==> #[trigger] cand_views(old(v)@)[i].text != c.view_cand().text,
    ensures
        forall|i: int, j: int| 0 <= i < j < final(v)@.len() ==> cost_lt(#[trigger] cand_views(final(v)@)[i], #[trigger] cand_views(final(v)@)[j]),
        forall|x: CandView| #[trigger] cand_views(final(v)@).contains(x) <==> cand_views(old(v)@).contains(x) || x == c.view_cand(),
{
    let ghost cv = c.view_cand();
    let mut p: usize = 0;
    while p < v.len() && !cost_less(&c, &v[p])
        invariant
            p <= v.len(),
            cv == c.view_cand(),
            forall|i: int| 0 <= i < p ==> cost_lt(#[trigger] cand_views(v@)[i], cv),
            forall|i: int| 0 <= i < v@.len() ==> #[trigger] cand_views(v@)[i].text != cv.text,
        decreases v.len() - p,
    {
        proof {
            lemma_cost_order(cand_views(v@)[p as int], cv, cv);
        }
        p += 1;
    }
    let ghost before = cand_views(v@);
    assert(p < before.len() ==> cost_lt(cv, before[p as int]));
    v.insert(p, c);
    proof {
        let after = cand_views(v@);
        assert(after =~= before.insert(p as int, cv));
        assert forall|i: int, j: int| 0 <= i < j < after.len() implies cost_lt(#[trigger] after[i], #[trigger] after[j]) by {
            if j < p {
            } else if j == p {
            } else if i > p {
                assert(after[i] == before[i - 1] && after[j] == before[j - 1]);
            } else if i == p {
                assert(after[j] == before[j - 1]);
                if j - 1 > p {
                    lemma_cost_order(cv, before[p as int], before[j - 1]);
                }
            } else {
                assert(after[j] == before[j - 1]);
                if j - 1 > p {
                    lemma_cost_order(cv, before[p as int], before[j - 1]);
                }
                lemma_cost_order(before[i], cv, before[j - 1]);
            }
        }
        assert forall|x: CandView| #[trigger] after.contains(x) <==> before.contains(x) || x == cv by {
            if after.contains(x) {
                let k = choose|k: int| 0 <= k < after.len() && after[k] == x;
                if k < p {
                    assert(before[k] == x);
                } else if k > p {
                    assert(before[k - 1] == x);
                }
            }
            if before.contains(x) {
                let k = choose|k: int| 0 <= k < before.len() && before[k] == x;
                if k < p {
                    assert(after[k] == x);
                } else {
                    assert(after[k + 1] == x);
                }
            }
            if x == cv {
                assert(after[p as int] == x);
            }
        }
    }
}

fn flatten_ids(ps: Vec<Vec<String>>) -> (r: Vec<String>)
    ensures
        views(r@) == flatten(ps@.map_values(|x: Vec<String>| views(x@))),
{
    let ghost pv = ps@.map_values(|x: Vec<String>| views(x@));
    let mut r: Vec<String> = Vec::new();
    let mut i: usize = 0;
    while i < ps.len()
        invariant
            i <= ps.len(),
            pv == ps@.map_values(|x: Vec<String>| views(x@)),
            views(r@) == flatten(pv.take(i as int)),
        decreases ps.len() - i,
    {
        assert(pv.take(i + 1).drop_last() =~= pv.take(i as int));
        assert(pv.take(i + 1).last() == views(ps@[i as int]@));
        let mut j: usize = 0;
        let ghost before = views(r@);
        while j < ps[i].len()
            invariant
                i < ps.len(),
                j <= ps@[i as int]@.len(),
                views(r@) == before + views(ps@[i as int]@.take(j as int)),
            decreases ps@[i as int]@.len() - j,
        {
            let ghost old_r = views(r@);
            let c = ps[i][j].clone();
            r.push(c);
            assert(views(r@) =~= old_r.push(ps@[i as int]@[j as int]@));
            assert(views(ps@[i as int]@.take(j + 1)) =~= views(ps@[i as int]@.take(j as int)).push(ps@[i as int]@[j as int]@));
            j += 1;
        }
        assert(ps@[i as int]@.take(j as int) =~= ps@[i as int]@);
        i += 1;
    }
    assert(pv.take(ps.len() as int) =~= pv);
    r
}

/// One candidate per distinct text that can be drilled, cheapest first.
fn candidates(pack: &Pack) -> (r: Vec<Candidate>)
    ensures
        exists|all: Seq<Entry>| indexes(pack.dict@, all) && candidate_list(
            pack.layout.spec_order(),
            pack.undo_stroke@,
            all,
            cand_views(r@),
        ),
{
    let order = pack.layout.order();
    let index = ReverseIndex::build(&pack.dict);
    let ghost all = index.spec_all();
    let best = index.best_entries();
    let ghost ord = order@;
    let ghost undo = pack.undo_stroke@;
    let mut out: Vec<Candidate> = Vec::new();
    let mut n: usize = 0;
    while n < best.len()
        invariant
            n <= best.len(),
            ord == order@,
            ord == pack.layout.spec_order(),
            undo == pack.undo_stroke@,
            forall|k: int, l: int| 0 <= k < l < best@.len() ==> (*#[trigger] best@[k]).text@ != (*#[trigger] best@[l]).text@,
            forall|i: int, j: int| 0 <= i < j < out@.len() ==> cost_lt(#[trigger] cand_views(out@)[i], #[trigger] cand_views(out@)[j]),
            forall|x: CandView| #[trigger] cand_views(out@).contains(x) ==> exists|k: int| 0 <= k < n && drillable(ord, undo, *best@[k]) && x == #[trigger] cand_of(ord, *best@[k]),
            forall|k: int| 0 <= k < n && drillable(ord, undo, *best@[k]) ==> #[trigger] cand_views(out@).contains(cand_of(ord, *best@[k])),
        decreases best.len() - n,
    {
        let e = best[n];
        let ghost ev = *e;
        let key = e.key();
        if !e.text.as_str().is_empty() && !same_text(key.as_str(), pack.undo_stroke.as_str()) {
            match parse_stroke_sequence(order, key.as_str()) {
                Some(ps) => {
                    let keys = flatten_ids(ps);
                    if keys.len() > 0 {
                        let c = Candidate { text: e.text.clone(), strokes: clone_strings(e.strokes.as_slice()), keys };
                        assert(drillable(ord, undo, ev));
                        assert(c.view_cand() == cand_of(ord, ev)) by {
                            assert(c.view_cand().keys =~= cand_of(ord, ev).keys);
                        }
                        proof {
                            assert forall|i: int| 0 <= i < out@.len() implies #[trigger] cand_views(out@)[i].text != c.view_cand().text by {
                                let x = cand_views(out@)[i];
                                assert(cand_views(out@).contains(x));
                                let k = choose|k: int| 0 <= k < n && drillable(ord, undo, *best@[k]) && x == #[trigger] cand_of(ord, *best@[k]);
                            }
                        }
                        let ghost before = cand_views(out@);
                        insert_by_cost(&mut out, c);
                        proof {
                            assert forall|x: CandView| #[trigger] cand_views(out@).contains(x) implies exists|k: int| 0 <= k < n + 1 && drillable(ord, undo, *best@[k]) && x == #[trigger] cand_of(ord, *best@[k]) by {
                                if before.contains(x) {
                                    let k = choose|k: int| 0 <= k < n && drillable(ord, undo, *best@[k]) && x == #[trigger] cand_of(ord, *best@[k]);
                                } else {
                                    assert(x == cand_of(ord, *best@[n as int]));
                                }
                            }
                        }
                    } else {
                        assert(!drillable(ord, undo, ev));
                    }
                },
                None => {
                    assert(!drillable(ord, undo, ev));
                },
            }
        } else {
            assert(!drillable(ord, undo, ev));
        }
        n += 1;
    }
    proof {
        let cs = cand_views(out@);
        assert(from_best(ord, undo, all, cs)) by {
            assert forall|i: int| 0 <= i < cs.len() implies #[trigger] comes_from(ord, undo, all, cs[i]) by {
                let x = cs[i];
                assert(cs.contains(x));
                let k = choose|k: int| 0 <= k < n && drillable(ord, undo, *best@[k]) && x == #[trigger] cand_of(ord, *best@[k]);
                let e = *best@[k];
                assert(best_in(all, e));
                assert(drillable(ord, undo, e));
                assert(cs[i] == cand_of(ord, e));
            }
        }
        assert forall|e: Entry| best_in(all, e) && drillable(ord, undo, e) implies #[trigger] cs.contains(cand_of(ord, e)) by {
            let i = choose|i: int| 0 <= i < all.len() && all[i] == e && crate::reverse::is_best(all, i);
            assert(listed(best@, all[i]));
            let k = choose|k: int| 0 <= k < best@.len() && *best@[k] == e;
            assert(drillable(ord, undo, *best@[k]));
            assert(cand_views(out@).contains(cand_of(ord, *best@[k])));
        }
        assert(covers_best(ord, undo, all, cs));
        assert(by_cost(cs));
        assert(indexes(pack.dict@, all));
        assert(candidate_list(ord, undo, all, cand_views(out@)));
    }
    out
}

/// The exec state of curriculum generation as a `Progress`.
spec fn progress_of(lessons: Seq<Lesson>, introduced: Seq<String>, used: Seq<String>, pending: Seq<StenoKey>) -> Progress {
    Progress { lessons: lesson_views(lessons), introduced: id_set(introduced), used: id_set(used), pending }
}

/// Add the ids of `keys` to a set of ids.
fn add_ids(ids: &mut Vec<String>, keys: &[StenoKey])
    ensures
        id_set(final(ids)@) == id_set(old(ids)@).union(ids_of(keys@)),
{
    let ghost start = id_set(ids@);
    let mut i: usize = 0;
    while i < keys.len()
        invariant
            i <= keys.len(),
            id_set(ids@) == start.union(ids_of(keys@.take(i as int))),
        decreases keys.len() - i,
    {
        let ghost before = ids@;
        ids.push(keys[i].id.clone());
        proof {
            assert(views(ids@) =~= views(before).push(keys@[i as int].id@));
            assert(keys@.take(i + 1).map_values(|k: StenoKey| k.id@) =~= keys@.take(i as int).map_values(|k: StenoKey| k.id@).push(keys@[i as int].id@));
            assert(id_set(ids@) =~= start.union(ids_of(keys@.take(i + 1)))) by {
                vstd::seq_lib::seq_to_set_distributes_over_add::<Seq<char>>(views(before), seq![keys@[i as int].id@]);
                vstd::seq_lib::seq_to_set_distributes_over_add::<Seq<char>>(keys@.take(i as int).map_values(|k: StenoKey| k.id@), seq![keys@[i as int].id@]);
                assert(views(before) + seq![keys@[i as int].id@] =~= views(ids@));
                assert(keys@.take(i as int).map_values(|k: StenoKey| k.id@) + seq![keys@[i as int].id@] =~= keys@.take(i + 1).map_values(|k: StenoKey| k.id@));
            }
        }
        i += 1;
    }
    assert(keys@.take(keys.len() as int) =~= keys@);
}

/// Add the texts of `items` to a set of texts.
fn add_texts(texts: &mut Vec<String>, items: &[LessonItem])
    ensures
        id_set(final(texts)@) == id_set(old(texts)@).union(texts_of(item_views(items@))),
{
    let ghost start = id_set(texts@);
    let mut i: usize = 0;
    while i < items.len()
        invariant
            i <= items.len(),
            id_set(texts@) == start.union(texts_of(item_views(items@.take(i as int)))),
        decreases items.len() - i,
    {
        let ghost before = texts@;
        texts.push(items[i].text.clone());
        proof {
            let t = items@[i as int].text@;
            let a = item_views(items@.take(i as int)).map_values(|x: ItemView| x.text);
            let b = item_views(items@.take(i + 1)).map_values(|x: ItemView| x.text);
            assert(b =~= a + seq![t]);
            assert(views(texts@) =~= views(before) + seq![t]);
            vstd::seq_lib::seq_to_set_distributes_over_add::<Seq<char>>(views(before), seq![t]);
            vstd::seq_lib::seq_to_set_distributes_over_add::<Seq<char>>(a, seq![t]);
            assert(id_set(texts@) =~= start.union(texts_of(item_views(items@.take(i + 1)))));
        }
        i += 1;
    }
    assert(items@.take(items.len() as int) =~= items@);
}

/// Append copies of `keys`.
fn append_keys(dst: &mut Vec<StenoKey>, keys: &[StenoKey])
    ensures
        final(dst)@ == old(dst)@ + keys@,
{
    let ghost start = dst@;
    let mut i: usize = 0;
    while i < keys.len()
        invariant
            i <= keys.len(),
            dst@ == start + keys@.take(i as int),
        decreases keys.len() - i,
    {
        dst.push(keys[i].clone());
        assert(dst@ =~= start + keys@.take(i + 1));
        i += 1;
    }
    assert(keys@.take(keys.len() as int) =~= keys@);
}

/// Introduce one chunk of keys, and make a lesson of the keys awaiting one
/// when they reach enough items.
fn introduce_chunk(
    cands: &[Candidate],
    lessons: &mut Vec<Lesson>,
    introduced: &mut Vec<String>,
    used: &mut Vec<String>,
    pending: &mut Vec<StenoKey>,
    chunk: &[StenoKey],
)
    ensures
        progress_of(final(lessons)@, final(introduced)@, final(used)@, final(pending)@) == chunk_step(
            cand_views(cands@),
            progress_of(old(lessons)@, old(introduced)@, old(used)@, old(pending)@),
            chunk@,
        ),
{
    let ghost st = progress_of(lessons@, introduced@, used@, pending@);
    add_ids(introduced, chunk);
    append_keys(pending, chunk);
    let items = select(cands, introduced.as_slice(), Some(pending.as_slice()), used.as_slice());
    if items.len() < MIN_ITEMS {
        assert(progress_of(lessons@, introduced@, used@, pending@) =~= chunk_step(cand_views(cands@), st, chunk@));
        return;
    }
    add_texts(used, items.as_slice());
    let mut keys: Vec<StenoKey> = Vec::new();
    std::mem::swap(&mut keys, pending);
    let index = lessons.len();
    let ghost before = lesson_views(lessons@);
    let ghost lv = LessonView { index: index as int, new_keys: keys@, items: item_views(items@) };
    let lesson = Lesson { index, new_keys: keys, items };
    assert(lesson.view_lesson() == lv);
    lessons.push(lesson);
    proof {
        assert(lesson_views(lessons@) =~= before.push(lv));
        assert(pending@ =~= Seq::<StenoKey>::empty());
        assert(progress_of(lessons@, introduced@, used@, pending@) =~= chunk_step(cand_views(cands@), st, chunk@));
    }
}

/// Fold the keys left after the last chunk into the last lesson.
fn fold_remaining(
    cands: &[Candidate],
    lessons: &mut Vec<Lesson>,
    introduced: &Vec<String>,
    used: &mut Vec<String>,
    pending: &mut Vec<StenoKey>,
)
    ensures
        progress_of(final(lessons)@, introduced@, final(used)@, final(pending)@) == fold_in(
            cand_views(cands@),
            progress_of(old(lessons)@, introduced@, old(used)@, old(pending)@),
        ),
{
    let ghost st = progress_of(lessons@, introduced@, used@, pending@);
    if pending.len() == 0 {
        return;
    }
    let items = select(cands, introduced.as_slice(), Some(pending.as_slice()), used.as_slice());
    if items.len() == 0 {
        return;
    }
    add_texts(used, items.as_slice());
    let mut keys: Vec<StenoKey> = Vec::new();
    std::mem::swap(&mut keys, pending);
    let ghost before = lesson_views(lessons@);
    let ghost its = item_views(items@);
    if lessons.len() > 0 {
        let ghost lessons0 = lessons@;
        let popped = lessons.pop();
        let mut last = popped.unwrap();
        let ghost lv0 = last.view_lesson();
        assert(lv0 == before.last());
        let mut ks = keys;
        last.new_keys.append(&mut ks);
        let mut items = items;
        last.items.append(&mut items);
        assert(item_views(last.items@) =~= lv0.items + its);
        let ghost lv = last.view_lesson();
        lessons.push(last);
        proof {
            assert(lessons@.drop_last() =~= lessons0.drop_last());
            assert(lesson_views(lessons@) =~= before.update(before.len() - 1, lv));
            assert(progress_of(lessons@, introduced@, used@, pending@) =~= fold_in(cand_views(cands@), st));
        }
    } else {
        let lesson = Lesson { index: 0, new_keys: keys, items };
        let ghost lv = lesson.view_lesson();
        lessons.push(lesson);
        proof {
            assert(lesson_views(lessons@) =~= seq![lv]);
            assert(progress_of(lessons@, introduced@, used@, pending@) =~= fold_in(cand_views(cands@), st));
        }
    }
}

/// The full progression for a pack.
#[derive(Debug)]
pub struct Curriculum {
    lessons: Vec<Lesson>,
}

impl Curriculum {
    /// The lessons, in order.
    pub closed spec fn spec_lessons(&self) -> Seq<LessonView> {
        lesson_views(self.lessons@)
    }

    /// The progression for `pack`: chunks of keys in the layout's order,
    /// each becoming a lesson once it reaches enough entries, the rest folded
    /// into the last lesson, then review lessons for what overflowed.
    pub fn derive(pack: &Pack) -> (c: Curriculum)
        ensures
            exists|all: Seq<Entry>, cs: Seq<CandView>|
                indexes(pack.dict@, all) && candidate_list(pack.layout.spec_order(), pack.undo_stroke@, all, cs)
                    && c.spec_lessons() == curriculum_spec(cs, pack.layout.spec_order(), pack.undo_stroke@),
    {
        let order = pack.layout.order();
        let cands = candidates(pack);
        let chunks = key_chunks(order, pack.undo_stroke.as_str());
        let ghost cv = cand_views(cands@);
        let ghost ord = order@;
        let ghost undo = pack.undo_stroke@;
        let ghost cks = chunk_views(chunks@);
        let mut lessons: Vec<Lesson> = Vec::new();
        let mut introduced: Vec<String> = Vec::new();
        introduced.push(pack.undo_stroke.clone());
        let mut used: Vec<String> = Vec::new();
        let mut pending: Vec<StenoKey> = Vec::new();
        let ghost start = Progress { lessons: Seq::empty(), introduced: set![undo], used: Set::empty(), pending: Seq::empty() };
        proof {
            assert(views(introduced@) =~= seq![undo]);
            assert(seq![undo].to_set() =~= set![undo]) by {
                assert(seq![undo][0] == undo);
            }
            assert(views(used@) =~= Seq::<Seq<char>>::empty());
            assert(progress_of(lessons@, introduced@, used@, pending@) =~= start);
        }
        let mut i: usize = 0;
        while i < chunks.len()
            invariant
                i <= chunks.len(),
                cv == cand_views(cands@),
                cks == chunk_views(chunks@),
                progress_of(lessons@, introduced@, used@, pending@) == run_chunks(cv, cks.take(i as int), start),
            decreases chunks.len() - i,
        {
            assert(cks.take(i + 1).drop_last() =~= cks.take(i as int));
            introduce_chunk(cands.as_slice(), &mut lessons, &mut introduced, &mut used, &mut pending, chunks[i].as_slice());
            i += 1;
        }
        assert(cks.take(chunks.len() as int) =~= cks);
        fold_remaining(cands.as_slice(), &mut lessons, &introduced, &mut used, &mut pending);
        let ghost folded = progress_of(lessons@, introduced@, used@, pending@);
        while lessons.len() < MAX_LESSONS
            invariant
                cv == cand_views(cands@),
                reviews(cv, progress_of(lessons@, introduced@, used@, pending@)) == reviews(cv, folded),
            ensures
                reviews(cv, progress_of(lessons@, introduced@, used@, pending@)) == progress_of(lessons@, introduced@, used@, pending@),
            decreases MAX_LESSONS - lessons.len(),
        {
            let ghost st = progress_of(lessons@, introduced@, used@, pending@);
            let items = select(cands.as_slice(), introduced.as_slice(), None, used.as_slice());
            if items.len() == 0 {
                assert(select_spec(cv, st.introduced, None, st.used).len() == 0);
                break;
            }
            add_texts(&mut used, items.as_slice());
            let index = lessons.len();
            let ghost before = lesson_views(lessons@);
            let ghost lv = LessonView { index: index as int, new_keys: Seq::empty(), items: item_views(items@) };
            let lesson = Lesson { index, new_keys: Vec::new(), items };
            assert(lesson.view_lesson() =~= lv);
            lessons.push(lesson);
            proof {
                assert(lesson_views(lessons@) =~= before.push(lv));
                let next = Progress { lessons: st.lessons.push(lv), introduced: st.introduced, used: st.used.union(texts_of(lv.items)), pending: st.pending };
                assert(progress_of(lessons@, introduced@, used@, pending@) =~= next);
            }
        }
        proof {
            let all = choose|all: Seq<Entry>| indexes(pack.dict@, all) && candidate_list(ord, undo, all, cv);
            assert(lesson_views(lessons@) == curriculum_spec(cv, ord, undo));
        }
        Curriculum { lessons }
    }

    pub fn lessons(&self) -> (r: &[Lesson])
        ensures
            lesson_views(r@) == self.spec_lessons(),
    {
        self.lessons.as_slice()
    }

    pub fn get(&self, index: usize) -> (r: Option<&Lesson>)
        ensures
            match r {
                Some(l) => index < self.spec_lessons().len() && l.view_lesson() == self.spec_lessons()[index as int],
                None => index >= self.spec_lessons().len(),
            },
    {
        if index < self.lessons.len() {
            Some(&self.lessons[index])
        } else {
            None
        }
    }

    pub fn len(&self) -> (n: usize)
        ensures
            n == self.spec_lessons().len(),
    {
        self.lessons.len()
    }

    pub fn is_empty(&self) -> (b: bool)
        ensures
            b == (self.spec_lessons().len() == 0),
    {
        self.lessons.len() == 0
    }
}

} // verus!
