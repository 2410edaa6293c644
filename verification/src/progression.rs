//! What every curriculum keeps: the laws of the progression that
//! [`crate::lesson::Curriculum::derive`] builds, proved over
//! [`crate::lesson::curriculum_spec`].
use vstd::prelude::*;
use crate::lesson::{
    at_most, bank_keys, by_cost, cand_of, candidate_list, comes_from, cost_lt, covers_best, curriculum_spec, drillable, flatten,
    lemma_cost_order, chunked, chunks_spec, chunk_step, fold_in, reviews, run_chunks, eligible, eligible_seq, select_spec, shares_key, to_item, texts_of, ids_of, CandView, ItemView,
    LessonView, Progress, CHUNK, MAX_ITEMS, MAX_LESSONS, MIN_ITEMS,
};
use crate::reverse::{best_in, better, indexes, is_best, law_index_depends_only_on_the_dictionary, Entry};
use crate::stroke::{parse_all, parse_from, parsed, Bank, StenoKey};
use crate::text::{lemma_lex_asymmetric, lemma_lex_irreflexive, split_strokes, views};

verus! {

/// No two candidates share a text.
pub open spec fn distinct_texts(cs: Seq<CandView>) -> bool {
    forall|i: int, j: int| 0 <= i < j < cs.len() ==> #[trigger] cs[i].text != #[trigger] cs[j].text
}

/// No two items share a text.
pub open spec fn distinct_items(items: Seq<ItemView>) -> bool {
    forall|i: int, j: int| 0 <= i < j < items.len() ==> #[trigger] items[i].text != #[trigger] items[j].text
}

/// `item` is what a candidate of `cs` drills, and that candidate was
/// eligible then.
pub open spec fn picked(
    cs: Seq<CandView>,
    item: ItemView,
    introduced: Set<Seq<char>>,
    new: Option<Set<Seq<char>>>,
    used: Set<Seq<char>>,
) -> bool {
    exists|c: CandView| #[trigger] cs.contains(c) && eligible(c, introduced, new, used) && item == to_item(c)
}

proof fn lemma_eligible_members(
    cs: Seq<CandView>,
    introduced: Set<Seq<char>>,
    new: Option<Set<Seq<char>>>,
    used: Set<Seq<char>>,
)
    ensures
        forall|k: int|
            0 <= k < eligible_seq(cs, introduced, new, used).len() ==> cs.contains(
                #[trigger] eligible_seq(cs, introduced, new, used)[k],
            ) && eligible(eligible_seq(cs, introduced, new, used)[k], introduced, new, used),
        distinct_texts(cs) ==> distinct_texts(eligible_seq(cs, introduced, new, used)),
    decreases cs.len(),
{
    if cs.len() > 0 {
        let a = cs.drop_last();
        lemma_eligible_members(a, introduced, new, used);
        let ea = eligible_seq(a, introduced, new, used);
        let e = eligible_seq(cs, introduced, new, used);
        assert forall|k: int| 0 <= k < e.len() implies cs.contains(#[trigger] e[k]) && eligible(e[k], introduced, new, used) by {
            if k < ea.len() {
                assert(e[k] == ea[k]);
                assert(a.contains(ea[k]));
                let j = choose|j: int| 0 <= j < a.len() && a[j] == ea[k];
                assert(cs[j] == e[k]);
            } else {
                assert(e[k] == cs.last());
                assert(cs[cs.len() - 1] == e[k]);
            }
        }
        if distinct_texts(cs) {
            assert(distinct_texts(a)) by {
                assert forall|i: int, j: int| 0 <= i < j < a.len() implies #[trigger] a[i].text != #[trigger] a[j].text by {
                    assert(a[i] == cs[i] && a[j] == cs[j]);
                }
            }
            assert forall|i: int, j: int| 0 <= i < j < e.len() implies #[trigger] e[i].text != #[trigger] e[j].text by {
                if j < ea.len() {
                    assert(e[i] == ea[i] && e[j] == ea[j]);
                } else {
                    assert(e[i] == ea[i]);
                    assert(a.contains(ea[i]));
                    let m = choose|m: int| 0 <= m < a.len() && a[m] == ea[i];
                    assert(cs[m] == e[i]);
                    assert(e[j] == cs[cs.len() - 1]);
                }
            }
        }
    }
}

/// What a selection gives: at most `MAX_ITEMS` items, each picked from an
/// eligible candidate, with distinct texts when the candidates have them.
proof fn lemma_select(
    cs: Seq<CandView>,
    introduced: Set<Seq<char>>,
    new: Option<Set<Seq<char>>>,
    used: Set<Seq<char>>,
)
    ensures
        select_spec(cs, introduced, new, used).len() <= MAX_ITEMS,
        forall|k: int|
            0 <= k < select_spec(cs, introduced, new, used).len() ==> picked(
                cs,
                #[trigger] select_spec(cs, introduced, new, used)[k],
                introduced,
                new,
                used,
            ),
        distinct_texts(cs) ==> distinct_items(select_spec(cs, introduced, new, used)),
        select_spec(cs, introduced, new, used).len() == 0 ==> forall|c: CandView| #[trigger] cs.contains(c) ==> !eligible(c, introduced, new, used),
{
    lemma_eligible_members(cs, introduced, new, used);
    let e = eligible_seq(cs, introduced, new, used);
    let t = at_most(e, MAX_ITEMS as int);
    let items = select_spec(cs, introduced, new, used);
    assert(t.len() <= e.len());
    assert forall|k: int| 0 <= k < t.len() implies #[trigger] t[k] == e[k] by {}
    assert forall|k: int| 0 <= k < items.len() implies picked(cs, #[trigger] items[k], introduced, new, used) by {
        assert(items[k] == to_item(t[k]));
        assert(t[k] == e[k]);
        assert(cs.contains(e[k]));
    }
    if distinct_texts(cs) {
        assert forall|i: int, j: int| 0 <= i < j < items.len() implies #[trigger] items[i].text != #[trigger] items[j].text by {
            assert(items[i] == to_item(t[i]) && items[j] == to_item(t[j]));
            assert(t[i] == e[i] && t[j] == e[j]);
        }
    }
    if items.len() == 0 {
        assert forall|c: CandView| #[trigger] cs.contains(c) implies !eligible(c, introduced, new, used) by {
            if eligible(c, introduced, new, used) {
                lemma_eligible_found(cs, introduced, new, used, c);
            }
        }
    }
}

proof fn lemma_eligible_found(
    cs: Seq<CandView>,
    introduced: Set<Seq<char>>,
    new: Option<Set<Seq<char>>>,
    used: Set<Seq<char>>,
    c: CandView,
)
    requires
        cs.contains(c),
        eligible(c, introduced, new, used),
    ensures
        eligible_seq(cs, introduced, new, used).len() > 0,
    decreases cs.len(),
{
    let a = cs.drop_last();
    if cs.last() != c {
        let j = choose|j: int| 0 <= j < cs.len() && cs[j] == c;
        assert(a[j] == c);
        lemma_eligible_found(a, introduced, new, used, c);
    }
}

/// The ids taught by the first `n` lessons.
pub open spec fn taught(ls: Seq<LessonView>, n: int) -> Set<Seq<char>>
    decreases n,
{
    if n <= 0 {
        Set::empty()
    } else {
        taught(ls, n - 1).union(ids_of(ls[n - 1].new_keys))
    }
}

/// Every item of every lesson, lesson after lesson.
pub open spec fn all_items(ls: Seq<LessonView>) -> Seq<ItemView>
    decreases ls.len(),
{
    if ls.len() == 0 {
        Seq::empty()
    } else {
        all_items(ls.drop_last()) + ls.last().items
    }
}

/// `item` drills a candidate of `cs` whose keys are all among `keys`.
pub open spec fn reachable_with(cs: Seq<CandView>, item: ItemView, keys: Set<Seq<char>>) -> bool {
    exists|c: CandView| #[trigger] cs.contains(c) && item == to_item(c) && c.keys.subset_of(keys)
}

/// Every item of `items` is reachable with `keys`.
pub open spec fn all_reachable(cs: Seq<CandView>, items: Seq<ItemView>, keys: Set<Seq<char>>) -> bool {
    forall|k: int| 0 <= k < items.len() ==> reachable_with(cs, #[trigger] items[k], keys)
}

/// `item` drills a candidate of `cs` that uses one of `ids`.
pub open spec fn uses_one_of(cs: Seq<CandView>, item: ItemView, ids: Set<Seq<char>>) -> bool {
    exists|c: CandView| #[trigger] cs.contains(c) && item == to_item(c) && shares_key(c.keys, ids)
}

/// Some item of `items` uses one of `ids`.
pub open spec fn exercises(cs: Seq<CandView>, items: Seq<ItemView>, ids: Set<Seq<char>>) -> bool {
    exists|k: int| 0 <= k < items.len() && uses_one_of(cs, #[trigger] items[k], ids)
}

/// None of `keys` is the undo key.
pub open spec fn no_undo(keys: Seq<StenoKey>, undo: Seq<char>) -> bool {
    forall|k: int| 0 <= k < keys.len() ==> (#[trigger] keys[k]).id@ != undo
}

/// What holds of the progression at every step, with lessons of at most
/// `cap` items.
pub open spec fn well_built(cs: Seq<CandView>, undo: Seq<char>, st: Progress, cap: int) -> bool {
    let ls = st.lessons;
    &&& forall|p: int| 0 <= p < ls.len() ==> (#[trigger] ls[p]).index == p
    &&& forall|p: int| 0 <= p < ls.len() ==> 0 < (#[trigger] ls[p]).items.len() <= cap
    &&& forall|p: int| 0 <= p < ls.len() ==> no_undo((#[trigger] ls[p]).new_keys, undo)
    &&& forall|p: int| 0 <= p < ls.len() ==> all_reachable(cs, (#[trigger] ls[p]).items, taught(ls, p + 1).insert(undo))
    &&& forall|p: int| 0 <= p < ls.len() && (#[trigger] ls[p]).new_keys.len() > 0 ==> exercises(cs, ls[p].items, ids_of(ls[p].new_keys))
    &&& st.introduced == taught(ls, ls.len() as int).union(ids_of(st.pending)).insert(undo)
    &&& no_undo(st.pending, undo)
    &&& st.used == texts_of(all_items(ls))
    &&& distinct_texts(cs) ==> distinct_items(all_items(ls))
}

proof fn lemma_taught_prefix(ls: Seq<LessonView>, ls2: Seq<LessonView>, n: int)
    requires
        0 <= n <= ls.len(),
        n <= ls2.len(),
        forall|q: int| 0 <= q < n ==> (#[trigger] ls2[q]).new_keys == ls[q].new_keys,
    ensures
        taught(ls2, n) == taught(ls, n),
    decreases n,
{
    if n > 0 {
        lemma_taught_prefix(ls, ls2, n - 1);
        assert(ls2[n - 1].new_keys == ls[n - 1].new_keys);
    }
}

proof fn lemma_taught_mono(ls: Seq<LessonView>, p: int, q: int)
    requires
        0 <= p <= q,
    ensures
        taught(ls, p).subset_of(taught(ls, q)),
    decreases q - p,
{
    if p < q {
        lemma_taught_mono(ls, p, q - 1);
    }
}

proof fn lemma_ids_add(a: Seq<StenoKey>, b: Seq<StenoKey>)
    ensures
        ids_of(a + b) == ids_of(a).union(ids_of(b)),
{
    let f = |k: StenoKey| k.id@;
    assert((a + b).map_values(f) =~= a.map_values(f) + b.map_values(f));
    vstd::seq_lib::seq_to_set_distributes_over_add::<Seq<char>>(a.map_values(f), b.map_values(f));
}

proof fn lemma_texts_add(a: Seq<ItemView>, b: Seq<ItemView>)
    ensures
        texts_of(a + b) == texts_of(a).union(texts_of(b)),
{
    let f = |i: ItemView| i.text;
    assert((a + b).map_values(f) =~= a.map_values(f) + b.map_values(f));
    vstd::seq_lib::seq_to_set_distributes_over_add::<Seq<char>>(a.map_values(f), b.map_values(f));
}

proof fn lemma_text_in(items: Seq<ItemView>, k: int)
    requires
        0 <= k < items.len(),
    ensures
        texts_of(items).contains(items[k].text),
{
    assert(items.map_values(|i: ItemView| i.text)[k] == items[k].text);
}

/// Appending items whose texts are new and distinct keeps the texts
/// distinct.
proof fn lemma_distinct_append(a: Seq<ItemView>, b: Seq<ItemView>)
    requires
        distinct_items(a),
        distinct_items(b),
        forall|k: int| 0 <= k < b.len() ==> !texts_of(a).contains(#[trigger] b[k].text),
    ensures
        distinct_items(a + b),
{
    let s = a + b;
    assert forall|i: int, j: int| 0 <= i < j < s.len() implies #[trigger] s[i].text != #[trigger] s[j].text by {
        if j < a.len() {
            assert(s[i] == a[i] && s[j] == a[j]);
        } else if i >= a.len() {
            assert(s[i] == b[i - a.len()] && s[j] == b[j - a.len()]);
        } else {
            assert(s[i] == a[i] && s[j] == b[j - a.len()]);
            lemma_text_in(a, i);
        }
    }
}

/// Pushing a lesson of fresh, reachable items keeps the invariant.
proof fn lemma_push_lesson(cs: Seq<CandView>, undo: Seq<char>, st: Progress, cap: int, st2: Progress)
    requires
        well_built(cs, undo, st, cap),
        st2.lessons.len() == st.lessons.len() + 1,
        st2.lessons.drop_last() == st.lessons,
        ({
            let l = st2.lessons.last();
            &&& l.index == st.lessons.len()
            &&& 0 < l.items.len() <= cap
            &&& no_undo(l.new_keys, undo)
            &&& all_reachable(cs, l.items, taught(st.lessons, st.lessons.len() as int).union(ids_of(l.new_keys)).insert(undo))
            &&& l.new_keys.len() > 0 ==> exercises(cs, l.items, ids_of(l.new_keys))
            &&& forall|k: int| 0 <= k < l.items.len() ==> !st.used.contains(#[trigger] l.items[k].text)
            &&& distinct_texts(cs) ==> distinct_items(l.items)
        }),
        st2.introduced == taught(st.lessons, st.lessons.len() as int).union(ids_of(st2.lessons.last().new_keys)).union(ids_of(st2.pending)).insert(undo),
        no_undo(st2.pending, undo),
        st2.used == st.used.union(texts_of(st2.lessons.last().items)),
    ensures
        well_built(cs, undo, st2, cap),
{
    let ls = st.lessons;
    let ls2 = st2.lessons;
    let n = ls.len() as int;
    let l = ls2.last();
    assert forall|q: int| 0 <= q < n implies (#[trigger] ls2[q]).new_keys == ls[q].new_keys by {
        assert(ls2[q] == ls2.drop_last()[q]);
    }
    lemma_taught_prefix(ls, ls2, n);
    assert(taught(ls2, n + 1) == taught(ls, n).union(ids_of(l.new_keys)));
    assert forall|p: int| 0 <= p < ls2.len() implies all_reachable(cs, (#[trigger] ls2[p]).items, taught(ls2, p + 1).insert(undo)) by {
        if p < n {
            assert(ls2[p] == ls2.drop_last()[p]);
            lemma_taught_prefix(ls, ls2, p + 1);
        }
    }
    assert forall|p: int| 0 <= p < ls2.len() implies (#[trigger] ls2[p]).index == p && 0 < ls2[p].items.len() <= cap && no_undo(ls2[p].new_keys, undo)
        && (ls2[p].new_keys.len() > 0 ==> exercises(cs, ls2[p].items, ids_of(ls2[p].new_keys))) by {
        if p < n {
            assert(ls2[p] == ls2.drop_last()[p]);
        }
    }
    assert(all_items(ls2) == all_items(ls) + l.items);
    lemma_texts_add(all_items(ls), l.items);
    if distinct_texts(cs) {
        lemma_distinct_append(all_items(ls), l.items);
    }
    assert(st2.introduced == taught(ls2, ls2.len() as int).union(ids_of(st2.pending)).insert(undo));
}

/// Introducing a chunk keeps the invariant.
proof fn lemma_chunk_step(cs: Seq<CandView>, undo: Seq<char>, st: Progress, chunk: Seq<StenoKey>)
    requires
        well_built(cs, undo, st, MAX_ITEMS as int),
        no_undo(chunk, undo),
    ensures
        well_built(cs, undo, chunk_step(cs, st, chunk), MAX_ITEMS as int),
{
    let ls = st.lessons;
    let n = ls.len() as int;
    let introduced = st.introduced.union(ids_of(chunk));
    let pending = st.pending + chunk;
    let new = Some(ids_of(pending));
    let items = select_spec(cs, introduced, new, st.used);
    lemma_ids_add(st.pending, chunk);
    lemma_select(cs, introduced, new, st.used);
    assert(no_undo(pending, undo)) by {
        assert forall|k: int| 0 <= k < pending.len() implies (#[trigger] pending[k]).id@ != undo by {
            if k < st.pending.len() {
                assert(pending[k] == st.pending[k]);
            } else {
                assert(pending[k] == chunk[k - st.pending.len()]);
            }
        }
    }
    assert(introduced =~= taught(ls, n).union(ids_of(pending)).insert(undo));
    if items.len() >= MIN_ITEMS {
        let st2 = chunk_step(cs, st, chunk);
        let l = st2.lessons.last();
        assert(st2.lessons.drop_last() =~= ls);
        assert(l.new_keys == pending && l.items == items);
        assert(all_reachable(cs, items, introduced)) by {
            assert forall|k: int| 0 <= k < items.len() implies reachable_with(cs, #[trigger] items[k], introduced) by {
                assert(picked(cs, items[k], introduced, new, st.used));
                let c = choose|c: CandView| #[trigger] cs.contains(c) && eligible(c, introduced, new, st.used) && items[k] == to_item(c);
            }
        }
        assert(exercises(cs, items, ids_of(pending))) by {
            assert(picked(cs, items[0], introduced, new, st.used));
            let c = choose|c: CandView| #[trigger] cs.contains(c) && eligible(c, introduced, new, st.used) && items[0] == to_item(c);
            assert(uses_one_of(cs, items[0], ids_of(pending)));
        }
        assert forall|k: int| 0 <= k < items.len() implies !st.used.contains(#[trigger] items[k].text) by {
            assert(picked(cs, items[k], introduced, new, st.used));
        }
        assert(ids_of(Seq::<StenoKey>::empty()) =~= Set::<Seq<char>>::empty());
        assert(no_undo(Seq::<StenoKey>::empty(), undo));
        assert(st2.introduced =~= taught(ls, n).union(ids_of(l.new_keys)).union(ids_of(st2.pending)).insert(undo));
        lemma_push_lesson(cs, undo, st, MAX_ITEMS as int, st2);
    }
}

proof fn lemma_run_chunks(cs: Seq<CandView>, undo: Seq<char>, chunks: Seq<Seq<StenoKey>>, st: Progress)
    requires
        well_built(cs, undo, st, MAX_ITEMS as int),
        forall|i: int| 0 <= i < chunks.len() ==> no_undo(#[trigger] chunks[i], undo),
    ensures
        well_built(cs, undo, run_chunks(cs, chunks, st), MAX_ITEMS as int),
    decreases chunks.len(),
{
    if chunks.len() > 0 {
        let a = chunks.drop_last();
        assert forall|i: int| 0 <= i < a.len() implies no_undo(#[trigger] a[i], undo) by {
            assert(a[i] == chunks[i]);
        }
        lemma_run_chunks(cs, undo, a, st);
        assert(no_undo(chunks[chunks.len() - 1], undo));
        lemma_chunk_step(cs, undo, run_chunks(cs, a, st), chunks.last());
    }
}

/// Keys still awaiting a lesson reach nothing more: none of them is used by
/// a candidate that could be drilled.
pub open spec fn pending_spent(cs: Seq<CandView>, st: Progress) -> bool {
    st.pending.len() == 0 || forall|c: CandView| #[trigger] cs.contains(c) ==> !eligible(
        c,
        st.introduced,
        Some(ids_of(st.pending)),
        st.used,
    )
}

proof fn lemma_reachable_more(cs: Seq<CandView>, items: Seq<ItemView>, a: Set<Seq<char>>, b: Set<Seq<char>>)
    requires
        all_reachable(cs, items, a),
        a.subset_of(b),
    ensures
        all_reachable(cs, items, b),
{
    assert forall|k: int| 0 <= k < items.len() implies reachable_with(cs, #[trigger] items[k], b) by {
        assert(reachable_with(cs, items[k], a));
        let c = choose|c: CandView| #[trigger] cs.contains(c) && items[k] == to_item(c) && c.keys.subset_of(a);
    }
}

proof fn lemma_fold_in(cs: Seq<CandView>, undo: Seq<char>, st: Progress)
    requires
        well_built(cs, undo, st, MAX_ITEMS as int),
    ensures
        well_built(cs, undo, fold_in(cs, st), 2 * MAX_ITEMS),
        pending_spent(cs, fold_in(cs, st)),
{
    let ls = st.lessons;
    let n = ls.len() as int;
    let new = Some(ids_of(st.pending));
    let items = select_spec(cs, st.introduced, new, st.used);
    lemma_select(cs, st.introduced, new, st.used);
    if st.pending.len() > 0 && items.len() > 0 {
        let st2 = fold_in(cs, st);
        assert(all_reachable(cs, items, st.introduced)) by {
            assert forall|k: int| 0 <= k < items.len() implies reachable_with(cs, #[trigger] items[k], st.introduced) by {
                assert(picked(cs, items[k], st.introduced, new, st.used));
                let c = choose|c: CandView| #[trigger] cs.contains(c) && eligible(c, st.introduced, new, st.used) && items[k] == to_item(c);
            }
        }
        assert(uses_one_of(cs, items[0], ids_of(st.pending))) by {
            assert(picked(cs, items[0], st.introduced, new, st.used));
            let c = choose|c: CandView| #[trigger] cs.contains(c) && eligible(c, st.introduced, new, st.used) && items[0] == to_item(c);
        }
        assert forall|k: int| 0 <= k < items.len() implies !st.used.contains(#[trigger] items[k].text) by {
            assert(picked(cs, items[k], st.introduced, new, st.used));
        }
        assert(ids_of(Seq::<StenoKey>::empty()) =~= Set::<Seq<char>>::empty());
        assert(no_undo(Seq::<StenoKey>::empty(), undo));
        if n > 0 {
            let last = ls.last();
            let l2 = LessonView { index: last.index, new_keys: last.new_keys + st.pending, items: last.items + items };
            let ls2 = ls.update(n - 1, l2);
            assert(st2.lessons == ls2);
            lemma_ids_add(last.new_keys, st.pending);
            assert forall|q: int| 0 <= q < n - 1 implies (#[trigger] ls2[q]).new_keys == ls[q].new_keys by {}
            lemma_taught_prefix(ls, ls2, n - 1);
            assert(taught(ls2, n) == taught(ls, n).union(ids_of(st.pending)));
            assert(ls[n - 1] == last);
            assert(all_reachable(cs, l2.items, taught(ls2, n).insert(undo))) by {
                lemma_reachable_more(cs, last.items, taught(ls, n).insert(undo), taught(ls2, n).insert(undo));
                lemma_reachable_more(cs, items, st.introduced, taught(ls2, n).insert(undo));
                assert forall|k: int| 0 <= k < l2.items.len() implies reachable_with(cs, #[trigger] l2.items[k], taught(ls2, n).insert(undo)) by {
                    if k < last.items.len() {
                        assert(l2.items[k] == last.items[k]);
                    } else {
                        assert(l2.items[k] == items[k - last.items.len()]);
                    }
                }
            }
            assert(exercises(cs, l2.items, ids_of(l2.new_keys))) by {
                assert(l2.items[last.items.len() as int] == items[0]);
                let c = choose|c: CandView| #[trigger] cs.contains(c) && items[0] == to_item(c) && shares_key(c.keys, ids_of(st.pending));
                assert(uses_one_of(cs, l2.items[last.items.len() as int], ids_of(l2.new_keys)));
            }
            assert(no_undo(l2.new_keys, undo)) by {
                assert(no_undo(last.new_keys, undo));
                assert forall|k: int| 0 <= k < l2.new_keys.len() implies (#[trigger] l2.new_keys[k]).id@ != undo by {
                    if k < last.new_keys.len() {
                        assert(l2.new_keys[k] == last.new_keys[k]);
                    } else {
                        assert(l2.new_keys[k] == st.pending[k - last.new_keys.len()]);
                    }
                }
            }
            assert forall|p: int| 0 <= p < ls2.len() implies all_reachable(cs, (#[trigger] ls2[p]).items, taught(ls2, p + 1).insert(undo)) by {
                if p < n - 1 {
                    assert(ls2[p] == ls[p]);
                    lemma_taught_prefix(ls, ls2, p + 1);
                }
            }
            assert forall|p: int| 0 <= p < ls2.len() implies (#[trigger] ls2[p]).index == p && 0 < ls2[p].items.len() <= 2 * MAX_ITEMS
                && no_undo(ls2[p].new_keys, undo) && (ls2[p].new_keys.len() > 0 ==> exercises(cs, ls2[p].items, ids_of(ls2[p].new_keys))) by {
                if p < n - 1 {
                    assert(ls2[p] == ls[p]);
                }
            }
            assert(ls2.drop_last() =~= ls.drop_last());
            assert(all_items(ls2) =~= all_items(ls) + items);
            lemma_texts_add(all_items(ls), items);
            if distinct_texts(cs) {
                lemma_distinct_append(all_items(ls), items);
            }
            assert(st2.introduced =~= taught(ls2, n).union(ids_of(st2.pending)).insert(undo));
        } else {
            assert(st.introduced =~= taught(ls, n).union(ids_of(st.pending)).insert(undo));
            assert(st2.lessons.drop_last() =~= ls);
            assert(st2.introduced =~= taught(ls, n).union(ids_of(st2.lessons.last().new_keys)).union(ids_of(st2.pending)).insert(undo));
            lemma_push_lesson(cs, undo, st, 2 * MAX_ITEMS, st2);
        }
    }
}

proof fn lemma_reviews(cs: Seq<CandView>, undo: Seq<char>, st: Progress)
    requires
        well_built(cs, undo, st, 2 * MAX_ITEMS),
        pending_spent(cs, st),
    ensures
        well_built(cs, undo, reviews(cs, st), 2 * MAX_ITEMS),
        reviews(cs, st).lessons.len() < MAX_LESSONS ==> forall|c: CandView| #[trigger] cs.contains(c) ==> !eligible(
            c,
            reviews(cs, st).introduced,
            None,
            reviews(cs, st).used,
        ),
        reviews(cs, st).introduced == st.introduced,
        st.lessons.len() <= reviews(cs, st).lessons.len(),
        forall|p: int| 0 <= p < st.lessons.len() ==> #[trigger] reviews(cs, st).lessons[p] == st.lessons[p],
        forall|p: int| st.lessons.len() <= p < reviews(cs, st).lessons.len() ==> (#[trigger] reviews(cs, st).lessons[p]).new_keys.len() == 0,
    decreases MAX_LESSONS - st.lessons.len(),
{
    let ls = st.lessons;
    let n = ls.len() as int;
    if n < MAX_LESSONS {
        let items = select_spec(cs, st.introduced, None, st.used);
        lemma_select(cs, st.introduced, None, st.used);
        if items.len() > 0 {
            let l = LessonView { index: n, new_keys: Seq::empty(), items };
            let st2 = Progress { lessons: ls.push(l), introduced: st.introduced, used: st.used.union(texts_of(items)), pending: st.pending };
            assert(ids_of(Seq::<StenoKey>::empty()) =~= Set::<Seq<char>>::empty());
            assert(all_reachable(cs, items, taught(ls, n).union(ids_of(l.new_keys)).insert(undo))) by {
                assert forall|k: int| 0 <= k < items.len() implies reachable_with(cs, #[trigger] items[k], taught(ls, n).union(ids_of(l.new_keys)).insert(undo)) by {
                    assert(picked(cs, items[k], st.introduced, None, st.used));
                    let c = choose|c: CandView| #[trigger] cs.contains(c) && eligible(c, st.introduced, None, st.used) && items[k] == to_item(c);
                    if st.pending.len() > 0 {
                        assert(!eligible(c, st.introduced, Some(ids_of(st.pending)), st.used));
                        assert forall|x: Seq<char>| c.keys.contains(x) implies taught(ls, n).union(ids_of(l.new_keys)).insert(undo).contains(x) by {
                            if ids_of(st.pending).contains(x) {
                                assert(shares_key(c.keys, ids_of(st.pending)));
                            }
                        }
                    } else {
                        assert(ids_of(st.pending) =~= Set::<Seq<char>>::empty());
                    }
                }
            }
            assert forall|k: int| 0 <= k < items.len() implies !st.used.contains(#[trigger] items[k].text) by {
                assert(picked(cs, items[k], st.introduced, None, st.used));
            }
            assert(st2.lessons.drop_last() =~= ls);
            assert(st2.introduced =~= taught(ls, n).union(ids_of(st2.lessons.last().new_keys)).union(ids_of(st2.pending)).insert(undo));
            lemma_push_lesson(cs, undo, st, 2 * MAX_ITEMS, st2);
            assert(pending_spent(cs, st2));
            lemma_reviews(cs, undo, st2);
            let r = reviews(cs, st2);
            assert forall|p: int| 0 <= p < n implies #[trigger] r.lessons[p] == ls[p] by {
                assert(r.lessons[p] == st2.lessons[p]);
            }
            assert forall|p: int| n <= p < r.lessons.len() implies (#[trigger] r.lessons[p]).new_keys.len() == 0 by {
                if p == n {
                    assert(r.lessons[p] == st2.lessons[p]);
                }
            }
        }
    }
}

/// The ids of all the keys of a list of chunks.
pub open spec fn chunk_ids(chunks: Seq<Seq<StenoKey>>) -> Set<Seq<char>>
    decreases chunks.len(),
{
    if chunks.len() == 0 {
        Set::empty()
    } else {
        chunk_ids(chunks.drop_last()).union(ids_of(chunks.last()))
    }
}

proof fn lemma_chunk_ids_add(a: Seq<Seq<StenoKey>>, b: Seq<Seq<StenoKey>>)
    ensures
        chunk_ids(a + b) == chunk_ids(a).union(chunk_ids(b)),
    decreases b.len(),
{
    if b.len() == 0 {
        assert(a + b =~= a);
    } else {
        assert((a + b).drop_last() =~= a + b.drop_last());
        lemma_chunk_ids_add(a, b.drop_last());
    }
}

proof fn lemma_chunk_ids_one(x: Seq<StenoKey>)
    ensures
        chunk_ids(seq![x]) == ids_of(x),
{
    assert(seq![x].drop_last() =~= Seq::<Seq<StenoKey>>::empty());
    assert(seq![x].last() == x);
    assert(chunk_ids(Seq::<Seq<StenoKey>>::empty()) == Set::<Seq<char>>::empty());
    assert(chunk_ids(seq![x]) =~= ids_of(x));
}

proof fn lemma_chunked(s: Seq<StenoKey>, undo: Seq<char>)
    ensures
        chunk_ids(chunked(s)) == ids_of(s),
        no_undo(s, undo) ==> forall|i: int| 0 <= i < chunked(s).len() ==> no_undo(#[trigger] chunked(s)[i], undo),
    decreases s.len(),
{
    if s.len() == 0 {
        assert(ids_of(s) =~= Set::<Seq<char>>::empty());
    } else if s.len() <= CHUNK {
        assert(chunked(s) =~= seq![s]);
        lemma_chunk_ids_one(s);
    } else {
        let h = s.take(CHUNK as int);
        let t = s.skip(CHUNK as int);
        lemma_chunked(t, undo);
        lemma_chunk_ids_add(seq![h], chunked(t));
        lemma_chunk_ids_one(h);
        assert(h + t =~= s);
        lemma_ids_add(h, t);
        if no_undo(s, undo) {
            assert(no_undo(t, undo)) by {
                assert forall|k: int| 0 <= k < t.len() implies (#[trigger] t[k]).id@ != undo by {
                    assert(t[k] == s[k + CHUNK]);
                }
            }
            assert forall|i: int| 0 <= i < chunked(s).len() implies no_undo(#[trigger] chunked(s)[i], undo) by {
                if i == 0 {
                    assert(chunked(s)[0] == h);
                    assert forall|k: int| 0 <= k < h.len() implies (#[trigger] h[k]).id@ != undo by {
                        assert(h[k] == s[k]);
                    }
                } else {
                    assert(chunked(s)[i] == chunked(t)[i - 1]);
                }
            }
        }
    }
}

proof fn lemma_bank_keys(order: Seq<StenoKey>, b: Bank, undo: Seq<char>)
    ensures
        no_undo(bank_keys(order, b, undo), undo),
        forall|k: int| 0 <= k < order.len() && (#[trigger] order[k]).bank == b && order[k].id@ != undo ==> ids_of(
            bank_keys(order, b, undo),
        ).contains(order[k].id@),
    decreases order.len(),
{
    if order.len() > 0 {
        let a = order.drop_last();
        lemma_bank_keys(a, b, undo);
        let ba = bank_keys(a, b, undo);
        let bk = bank_keys(order, b, undo);
        let extra = if order.last().bank == b && order.last().id@ != undo { seq![order.last()] } else { Seq::empty() };
        assert(bk == ba + extra);
        lemma_ids_add(ba, extra);
        assert forall|k: int| 0 <= k < bk.len() implies (#[trigger] bk[k]).id@ != undo by {
            if k < ba.len() {
                assert(bk[k] == ba[k]);
            } else {
                assert(bk[k] == extra[k - ba.len()]);
            }
        }
        assert forall|k: int| 0 <= k < order.len() && (#[trigger] order[k]).bank == b && order[k].id@ != undo implies ids_of(bk).contains(order[k].id@) by {
            if k < a.len() {
                assert(a[k] == order[k]);
            } else {
                assert(extra.map_values(|x: StenoKey| x.id@)[0] == order[k].id@);
            }
        }
    }
}

/// The chunks of a layout never hold the undo key, and together they hold
/// every other key.
proof fn lemma_chunks(order: Seq<StenoKey>, undo: Seq<char>)
    ensures
        forall|i: int| 0 <= i < chunks_spec(order, undo).len() ==> no_undo(#[trigger] chunks_spec(order, undo)[i], undo),
        forall|k: int| 0 <= k < order.len() && (#[trigger] order[k]).id@ != undo ==> chunk_ids(chunks_spec(order, undo)).contains(order[k].id@),
{
    let left = bank_keys(order, Bank::Left, undo);
    let mid = bank_keys(order, Bank::Mid, undo);
    let right = bank_keys(order, Bank::Right, undo);
    lemma_bank_keys(order, Bank::Left, undo);
    lemma_bank_keys(order, Bank::Mid, undo);
    lemma_bank_keys(order, Bank::Right, undo);
    lemma_chunked(left, undo);
    lemma_chunked(right, undo);
    let groups = chunked(left);
    let p1: Seq<Seq<StenoKey>> = if groups.len() > 0 { seq![groups[0]] } else { Seq::empty() };
    let p2: Seq<Seq<StenoKey>> = if mid.len() > 0 { seq![mid] } else { Seq::empty() };
    let p3: Seq<Seq<StenoKey>> = if groups.len() > 0 { groups.drop_first() } else { Seq::empty() };
    let p4 = chunked(right);
    let all = chunks_spec(order, undo);
    assert(all == p1 + p2 + p3 + p4);
    assert(p1 + p3 =~= groups);
    if groups.len() > 0 {
        lemma_chunk_ids_one(groups[0]);
    }
    lemma_chunk_ids_add(p1, p3);
    lemma_chunk_ids_add(p1, p2);
    lemma_chunk_ids_add(p1 + p2, p3);
    lemma_chunk_ids_add(p1 + p2 + p3, p4);
    assert(chunk_ids(p2) == ids_of(mid)) by {
        if mid.len() > 0 {
            lemma_chunk_ids_one(mid);
        } else {
            assert(ids_of(mid) =~= Set::<Seq<char>>::empty());
        }
    }
    assert(chunk_ids(all) =~= ids_of(left).union(ids_of(mid)).union(ids_of(right)));
    assert forall|i: int| 0 <= i < all.len() implies no_undo(#[trigger] all[i], undo) by {
        if i < p1.len() {
            assert(all[i] == groups[0]);
        } else if i < p1.len() + p2.len() {
            assert(all[i] == mid);
        } else if i < p1.len() + p2.len() + p3.len() {
            assert(all[i] == groups[i - p2.len()]);
        } else {
            assert(all[i] == p4[i - p1.len() - p2.len() - p3.len()]);
        }
    }
    assert forall|k: int| 0 <= k < order.len() && (#[trigger] order[k]).id@ != undo implies chunk_ids(all).contains(order[k].id@) by {
        match order[k].bank {
            Bank::Left => {},
            Bank::Mid => {},
            Bank::Right => {},
        }
    }
}

proof fn lemma_run_introduced(cs: Seq<CandView>, chunks: Seq<Seq<StenoKey>>, st: Progress)
    ensures
        run_chunks(cs, chunks, st).introduced == st.introduced.union(chunk_ids(chunks)),
    decreases chunks.len(),
{
    if chunks.len() > 0 {
        lemma_run_introduced(cs, chunks.drop_last(), st);
    }
}

/// The state curriculum generation starts from: nothing taught, nothing
/// drilled, and the undo key available.
pub open spec fn start_progress(undo: Seq<char>) -> Progress {
    Progress { lessons: Seq::empty(), introduced: set![undo], used: Set::empty(), pending: Seq::empty() }
}

/// The state curriculum generation ends in.
pub open spec fn final_progress(cs: Seq<CandView>, order: Seq<StenoKey>, undo: Seq<char>) -> Progress {
    reviews(cs, fold_in(cs, run_chunks(cs, chunks_spec(order, undo), start_progress(undo))))
}

proof fn lemma_curriculum(cs: Seq<CandView>, order: Seq<StenoKey>, undo: Seq<char>)
    ensures
        final_progress(cs, order, undo).lessons == curriculum_spec(cs, order, undo),
        well_built(cs, undo, final_progress(cs, order, undo), 2 * MAX_ITEMS),
        final_progress(cs, order, undo).lessons.len() < MAX_LESSONS ==> forall|c: CandView| #[trigger] cs.contains(c) ==> !eligible(
            c,
            final_progress(cs, order, undo).introduced,
            None,
            final_progress(cs, order, undo).used,
        ),
        ids_of(order).subset_of(final_progress(cs, order, undo).introduced),
        ({
            let folded = fold_in(cs, run_chunks(cs, chunks_spec(order, undo), start_progress(undo)));
            &&& folded.lessons.len() <= final_progress(cs, order, undo).lessons.len()
            &&& forall|p: int| 0 <= p < folded.lessons.len() ==> #[trigger] final_progress(cs, order, undo).lessons[p] == folded.lessons[p]
            &&& forall|p: int| folded.lessons.len() <= p < final_progress(cs, order, undo).lessons.len()
                ==> (#[trigger] final_progress(cs, order, undo).lessons[p]).new_keys.len() == 0
        }),
{
    let st0 = start_progress(undo);
    let ls0 = st0.lessons;
    assert(taught(ls0, 0) == Set::<Seq<char>>::empty());
    assert(ids_of(Seq::<StenoKey>::empty()) =~= Set::<Seq<char>>::empty());
    assert(st0.introduced =~= taught(ls0, 0).union(ids_of(st0.pending)).insert(undo));
    assert(all_items(ls0) == Seq::<ItemView>::empty());
    assert(texts_of(Seq::<ItemView>::empty()) =~= Set::<Seq<char>>::empty());
    assert(well_built(cs, undo, st0, MAX_ITEMS as int));
    let chunks = chunks_spec(order, undo);
    lemma_chunks(order, undo);
    lemma_run_chunks(cs, undo, chunks, st0);
    let ran = run_chunks(cs, chunks, st0);
    lemma_run_introduced(cs, chunks, st0);
    lemma_fold_in(cs, undo, ran);
    let folded = fold_in(cs, ran);
    lemma_reviews(cs, undo, folded);
    let fp = final_progress(cs, order, undo);
    assert(fp.introduced == ran.introduced);
    assert forall|x: Seq<char>| ids_of(order).contains(x) implies fp.introduced.contains(x) by {
        let f = |k: StenoKey| k.id@;
        let j = choose|j: int| 0 <= j < order.map_values(f).len() && order.map_values(f)[j] == x;
        assert(order[j].id@ == x);
    }
}

/// Every lesson of `ls` introduces at least one key.
pub open spec fn all_introduce(ls: Seq<LessonView>) -> bool {
    forall|p: int| 0 <= p < ls.len() ==> (#[trigger] ls[p]).new_keys.len() > 0
}

proof fn lemma_chunked_nonempty(s: Seq<StenoKey>)
    ensures
        forall|i: int| 0 <= i < chunked(s).len() ==> (#[trigger] chunked(s)[i]).len() > 0,
    decreases s.len(),
{
    if s.len() > CHUNK {
        lemma_chunked_nonempty(s.skip(CHUNK as int));
        let t = chunked(s.skip(CHUNK as int));
        assert forall|i: int| 0 <= i < chunked(s).len() implies (#[trigger] chunked(s)[i]).len() > 0 by {
            if i > 0 {
                assert(chunked(s)[i] == t[i - 1]);
            }
        }
    }
}

/// No chunk of a layout is empty.
proof fn lemma_chunks_nonempty(order: Seq<StenoKey>, undo: Seq<char>)
    ensures
        forall|i: int| 0 <= i < chunks_spec(order, undo).len() ==> (#[trigger] chunks_spec(order, undo)[i]).len() > 0,
{
    let left = bank_keys(order, Bank::Left, undo);
    let mid = bank_keys(order, Bank::Mid, undo);
    let right = bank_keys(order, Bank::Right, undo);
    lemma_chunked_nonempty(left);
    lemma_chunked_nonempty(right);
    let groups = chunked(left);
    let p1: Seq<Seq<StenoKey>> = if groups.len() > 0 { seq![groups[0]] } else { Seq::empty() };
    let p2: Seq<Seq<StenoKey>> = if mid.len() > 0 { seq![mid] } else { Seq::empty() };
    let p3: Seq<Seq<StenoKey>> = if groups.len() > 0 { groups.drop_first() } else { Seq::empty() };
    let p4 = chunked(right);
    let all = chunks_spec(order, undo);
    assert(all == p1 + p2 + p3 + p4);
    assert forall|i: int| 0 <= i < all.len() implies (#[trigger] all[i]).len() > 0 by {
        if i < p1.len() {
            assert(all[i] == groups[0]);
        } else if i < p1.len() + p2.len() {
            assert(all[i] == mid);
        } else if i < p1.len() + p2.len() + p3.len() {
            assert(all[i] == groups[i - p2.len()]);
        } else {
            assert(all[i] == p4[i - p1.len() - p2.len() - p3.len()]);
        }
    }
}

/// Introducing non-empty chunks only adds lessons that introduce keys.
proof fn lemma_run_introduces(cs: Seq<CandView>, chunks: Seq<Seq<StenoKey>>, st: Progress)
    requires
        all_introduce(st.lessons),
        forall|i: int| 0 <= i < chunks.len() ==> (#[trigger] chunks[i]).len() > 0,
    ensures
        all_introduce(run_chunks(cs, chunks, st).lessons),
    decreases chunks.len(),
{
    if chunks.len() > 0 {
        let a = chunks.drop_last();
        assert forall|i: int| 0 <= i < a.len() implies (#[trigger] a[i]).len() > 0 by {
            assert(a[i] == chunks[i]);
        }
        lemma_run_introduces(cs, a, st);
        let prev = run_chunks(cs, a, st);
        let last = chunks.last();
        assert(last.len() > 0);
        let next = chunk_step(cs, prev, last);
        assert forall|p: int| 0 <= p < next.lessons.len() implies (#[trigger] next.lessons[p]).new_keys.len() > 0 by {
            if p < prev.lessons.len() {
                assert(next.lessons[p] == prev.lessons[p]);
            } else {
                assert(next.lessons[p].new_keys == prev.pending + last);
            }
        }
    }
}

/// Folding the last keys in keeps every lesson introducing keys.
proof fn lemma_fold_in_introduces(cs: Seq<CandView>, st: Progress)
    requires
        all_introduce(st.lessons),
    ensures
        all_introduce(fold_in(cs, st).lessons),
{
    let f = fold_in(cs, st);
    assert forall|p: int| 0 <= p < f.lessons.len() implies (#[trigger] f.lessons[p]).new_keys.len() > 0 by {
        if st.pending.len() > 0 && st.lessons.len() > 0 && p < st.lessons.len() - 1 {
            assert(f.lessons[p] == st.lessons[p]);
        } else if st.pending.len() > 0 && st.lessons.len() > 0 && p == st.lessons.len() - 1 {
            let items = select_spec(cs, st.introduced, Some(ids_of(st.pending)), st.used);
            if items.len() > 0 {
                assert(f.lessons[p].new_keys == st.lessons.last().new_keys + st.pending);
            }
        }
    }
}

/// Review lessons come last: once a lesson introduces no key, no later
/// lesson does either.
pub proof fn law_review_lessons_come_last(cs: Seq<CandView>, order: Seq<StenoKey>, undo: Seq<char>)
    ensures
        forall|p: int, q: int|
            0 <= p < q < curriculum_spec(cs, order, undo).len() && (#[trigger] curriculum_spec(cs, order, undo)[p]).new_keys.len() == 0
                ==> (#[trigger] curriculum_spec(cs, order, undo)[q]).new_keys.len() == 0,
{
    let st0 = start_progress(undo);
    assert(all_introduce(st0.lessons));
    let chunks = chunks_spec(order, undo);
    lemma_chunks_nonempty(order, undo);
    lemma_run_introduces(cs, chunks, st0);
    let ran = run_chunks(cs, chunks, st0);
    lemma_fold_in_introduces(cs, ran);
    let folded = fold_in(cs, ran);
    lemma_curriculum(cs, order, undo);
    let ls = curriculum_spec(cs, order, undo);
    assert forall|p: int, q: int|
        0 <= p < q < ls.len() && (#[trigger] ls[p]).new_keys.len() == 0 implies (#[trigger] ls[q]).new_keys.len() == 0 by {
        if p < folded.lessons.len() {
            assert(ls[p] == folded.lessons[p]);
        }
    }
}

/// A lesson's index is its position in the curriculum.
pub proof fn law_lessons_are_numbered(cs: Seq<CandView>, order: Seq<StenoKey>, undo: Seq<char>)
    ensures
        forall|p: int| 0 <= p < curriculum_spec(cs, order, undo).len() ==> (#[trigger] curriculum_spec(cs, order, undo)[p]).index == p,
{
    lemma_curriculum(cs, order, undo);
}

/// Every lesson drills something, and no lesson drills more than twice
/// `MAX_ITEMS` (only the lesson that absorbs the last keys can exceed
/// `MAX_ITEMS`).
pub proof fn law_lessons_are_never_empty_or_overlong(cs: Seq<CandView>, order: Seq<StenoKey>, undo: Seq<char>)
    ensures
        forall|p: int| 0 <= p < curriculum_spec(cs, order, undo).len() ==> 0 < (#[trigger] curriculum_spec(cs, order, undo)[p]).items.len()
            <= 2 * MAX_ITEMS,
{
    lemma_curriculum(cs, order, undo);
}

/// The undo key is never taught as lesson material.
pub proof fn law_undo_key_is_never_taught(cs: Seq<CandView>, order: Seq<StenoKey>, undo: Seq<char>)
    ensures
        forall|p: int, k: int|
            0 <= p < curriculum_spec(cs, order, undo).len() && 0 <= k < curriculum_spec(cs, order, undo)[p].new_keys.len()
                ==> (#[trigger] curriculum_spec(cs, order, undo)[p].new_keys[k]).id@ != undo,
{
    lemma_curriculum(cs, order, undo);
    let ls = curriculum_spec(cs, order, undo);
    assert forall|p: int, k: int| 0 <= p < ls.len() && 0 <= k < ls[p].new_keys.len() implies (#[trigger] ls[p].new_keys[k]).id@ != undo by {
        assert(no_undo(ls[p].new_keys, undo));
    }
}

/// A lesson only drills entries whose keys were all taught by it or by an
/// earlier lesson (the undo key aside, which is available from the start).
pub proof fn law_items_need_only_taught_keys(cs: Seq<CandView>, order: Seq<StenoKey>, undo: Seq<char>)
    ensures
        forall|p: int, k: int|
            0 <= p < curriculum_spec(cs, order, undo).len() && 0 <= k < curriculum_spec(cs, order, undo)[p].items.len()
                ==> reachable_with(
                cs,
                #[trigger] curriculum_spec(cs, order, undo)[p].items[k],
                taught(curriculum_spec(cs, order, undo), p + 1).insert(undo),
            ),
{
    lemma_curriculum(cs, order, undo);
    let ls = curriculum_spec(cs, order, undo);
    assert forall|p: int, k: int| 0 <= p < ls.len() && 0 <= k < ls[p].items.len() implies reachable_with(
        cs,
        #[trigger] ls[p].items[k],
        taught(ls, p + 1).insert(undo),
    ) by {
        assert(all_reachable(cs, ls[p].items, taught(ls, p + 1).insert(undo)));
    }
}

/// A lesson that introduces keys drills at least one entry that uses one of
/// them.
pub proof fn law_new_keys_are_exercised(cs: Seq<CandView>, order: Seq<StenoKey>, undo: Seq<char>)
    ensures
        forall|p: int|
            0 <= p < curriculum_spec(cs, order, undo).len() && (#[trigger] curriculum_spec(cs, order, undo)[p]).new_keys.len() > 0
                ==> exercises(cs, curriculum_spec(cs, order, undo)[p].items, ids_of(curriculum_spec(cs, order, undo)[p].new_keys)),
{
    lemma_curriculum(cs, order, undo);
}

/// No text is drilled twice in a curriculum, when no two candidates share a
/// text.
pub proof fn law_no_text_is_drilled_twice(cs: Seq<CandView>, order: Seq<StenoKey>, undo: Seq<char>)
    requires
        distinct_texts(cs),
    ensures
        distinct_items(all_items(curriculum_spec(cs, order, undo))),
{
    lemma_curriculum(cs, order, undo);
}

/// Unless the curriculum hit `MAX_LESSONS`, every candidate spelled with the
/// layout's keys is drilled somewhere.
pub proof fn law_everything_reachable_is_drilled(cs: Seq<CandView>, order: Seq<StenoKey>, undo: Seq<char>, c: CandView)
    requires
        curriculum_spec(cs, order, undo).len() < MAX_LESSONS,
        cs.contains(c),
        c.keys.subset_of(ids_of(order)),
    ensures
        texts_of(all_items(curriculum_spec(cs, order, undo))).contains(c.text),
{
    lemma_curriculum(cs, order, undo);
}

/// Without candidates there are no lessons.
pub proof fn law_nothing_to_drill_means_no_lessons(order: Seq<StenoKey>, undo: Seq<char>)
    ensures
        curriculum_spec(Seq::empty(), order, undo).len() == 0,
{
    let cs = Seq::<CandView>::empty();
    lemma_curriculum(cs, order, undo);
    let ls = curriculum_spec(cs, order, undo);
    if ls.len() > 0 {
        assert(all_reachable(cs, ls[0].items, taught(ls, 1).insert(undo)));
        assert(reachable_with(cs, ls[0].items[0], taught(ls, 1).insert(undo)));
    }
}

proof fn lemma_parse_ids(order: Seq<StenoKey>, rest: Seq<char>, past: bool)
    ensures
        parse_from(order, rest, past) matches Some(ids) ==> forall|k: int| 0 <= k < ids.len() ==> ids_of(order).contains(#[trigger] ids[k]),
    decreases order.len(),
{
    if rest.len() > 0 && order.len() > 0 {
        let k0 = order[0];
        let strip = !past && rest[0] == '-';
        let past2 = past || strip;
        let rest2 = if strip { rest.drop_first() } else { rest };
        let tail = order.drop_first();
        lemma_parse_ids(tail, rest2, past2);
        lemma_parse_ids(tail, rest2.skip(k0.letter@.len() as int), past2);
        let f = |k: StenoKey| k.id@;
        assert(order =~= seq![k0] + tail);
        lemma_ids_add(seq![k0], tail);
        assert(seq![k0].map_values(f)[0] == k0.id@);
        if let Some(ids) = parse_from(order, rest, past) {
            assert forall|k: int| 0 <= k < ids.len() implies ids_of(order).contains(#[trigger] ids[k]) by {
                if !(past2 && k0.bank != Bank::Right) && k0.letter@.is_prefix_of(rest2) {
                    let more = parse_from(tail, rest2.skip(k0.letter@.len() as int), past2)->0;
                    assert(ids == seq![k0.id@] + more);
                    if k > 0 {
                        assert(ids[k] == more[k - 1]);
                    }
                }
            }
        }
    }
}

proof fn lemma_parse_all_ids(order: Seq<StenoKey>, parts: Seq<Seq<char>>)
    ensures
        parse_all(order, parts) matches Some(ps) ==> forall|i: int, k: int|
            0 <= i < ps.len() && 0 <= k < ps[i].len() ==> ids_of(order).contains(#[trigger] ps[i][k]),
    decreases parts.len(),
{
    if parts.len() > 0 {
        lemma_parse_all_ids(order, parts.drop_last());
        lemma_parse_ids(order, parts.last(), false);
        if let Some(ps) = parse_all(order, parts) {
            let a = parse_all(order, parts.drop_last())->0;
            assert(ps == a.push(parsed(order, parts.last())->0));
            assert forall|i: int, k: int| 0 <= i < ps.len() && 0 <= k < ps[i].len() implies ids_of(order).contains(#[trigger] ps[i][k]) by {
                if i < a.len() {
                    assert(ps[i] == a[i]);
                }
            }
        }
    }
}

proof fn lemma_flatten_ids(ps: Seq<Seq<Seq<char>>>, keys: Set<Seq<char>>)
    requires
        forall|i: int, k: int| 0 <= i < ps.len() && 0 <= k < ps[i].len() ==> keys.contains(#[trigger] ps[i][k]),
    ensures
        flatten(ps).to_set().subset_of(keys),
    decreases ps.len(),
{
    if ps.len() > 0 {
        let a = ps.drop_last();
        assert forall|i: int, k: int| 0 <= i < a.len() && 0 <= k < a[i].len() implies keys.contains(#[trigger] a[i][k]) by {
            assert(a[i] == ps[i]);
        }
        lemma_flatten_ids(a, keys);
        vstd::seq_lib::seq_to_set_distributes_over_add::<Seq<char>>(flatten(a), ps.last());
        assert forall|x: Seq<char>| ps.last().to_set().contains(x) implies keys.contains(x) by {
            let k = choose|k: int| 0 <= k < ps.last().len() && ps.last()[k] == x;
            assert(ps[ps.len() - 1][k] == x);
        }
    }
}

/// A candidate list never repeats a text, and its candidates use only keys
/// of the layout.
pub proof fn lemma_candidate_list(order: Seq<StenoKey>, undo: Seq<char>, all: Seq<Entry>, cs: Seq<CandView>)
    requires
        candidate_list(order, undo, all, cs),
    ensures
        distinct_texts(cs),
        forall|c: CandView| #[trigger] cs.contains(c) ==> c.keys.subset_of(ids_of(order)),
{
    assert forall|i: int, j: int| 0 <= i < j < cs.len() implies #[trigger] cs[i].text != #[trigger] cs[j].text by {
        assert(comes_from(order, undo, all, cs[i]));
        assert(comes_from(order, undo, all, cs[j]));
        let e1 = choose|e: Entry| best_in(all, e) && drillable(order, undo, e) && cs[i] == #[trigger] cand_of(order, e);
        let e2 = choose|e: Entry| best_in(all, e) && drillable(order, undo, e) && cs[j] == #[trigger] cand_of(order, e);
        if cs[i].text == cs[j].text {
            let a = choose|a: int| 0 <= a < all.len() && all[a] == e1 && is_best(all, a);
            let b = choose|b: int| 0 <= b < all.len() && all[b] == e2 && is_best(all, b);
            if a == b {
                lemma_cost_order(cs[i], cs[j], cs[j]);
            } else {
                assert(better(all[a], all[b]));
                assert(better(all[b], all[a]));
                lemma_lex_asymmetric(e1.spec_key(), e2.spec_key());
                lemma_lex_irreflexive(e1.spec_key());
            }
        }
    }
    assert forall|c: CandView| #[trigger] cs.contains(c) implies c.keys.subset_of(ids_of(order)) by {
        let i = choose|i: int| 0 <= i < cs.len() && cs[i] == c;
        assert(comes_from(order, undo, all, cs[i]));
        let e = choose|e: Entry| best_in(all, e) && drillable(order, undo, e) && cs[i] == #[trigger] cand_of(order, e);
        let parts = split_strokes(e.spec_key());
        lemma_parse_all_ids(order, parts);
        lemma_flatten_ids(parse_all(order, parts)->0, ids_of(order));
    }
}

/// Unless the curriculum hit `MAX_LESSONS`, every best spelling in the
/// dictionary that can be drilled has its text drilled somewhere.
pub proof fn law_every_drillable_entry_is_drilled(order: Seq<StenoKey>, undo: Seq<char>, all: Seq<Entry>, cs: Seq<CandView>, e: Entry)
    requires
        candidate_list(order, undo, all, cs),
        curriculum_spec(cs, order, undo).len() < MAX_LESSONS,
        best_in(all, e),
        drillable(order, undo, e),
    ensures
        texts_of(all_items(curriculum_spec(cs, order, undo))).contains(e.text@),
{
    lemma_candidate_list(order, undo, all, cs);
    assert(covers_best(order, undo, all, cs));
    assert(cs.contains(cand_of(order, e)));
    law_everything_reachable_is_drilled(cs, order, undo, cand_of(order, e));
}

/// No text is drilled twice in the curriculum of a candidate list.
pub proof fn law_curriculum_never_repeats_a_text(order: Seq<StenoKey>, undo: Seq<char>, all: Seq<Entry>, cs: Seq<CandView>)
    requires
        candidate_list(order, undo, all, cs),
    ensures
        distinct_items(all_items(curriculum_spec(cs, order, undo))),
{
    lemma_candidate_list(order, undo, all, cs);
    law_no_text_is_drilled_twice(cs, order, undo);
}

proof fn lemma_by_cost_unique(a: Seq<CandView>, b: Seq<CandView>)
    requires
        by_cost(a),
        by_cost(b),
        forall|x: CandView| #[trigger] a.contains(x) <==> b.contains(x),
    ensures
        a == b,
    decreases a.len(),
{
    if a.len() == 0 {
        if b.len() > 0 {
            assert(b.contains(b[0]));
            assert(a.contains(b[0]));
        }
        assert(b =~= a);
    } else {
        assert(a.contains(a[0]));
        assert(b.contains(a[0]));
        assert(b.len() > 0);
        assert(b.contains(b[0]));
        assert(a.contains(b[0]));
        if a[0] != b[0] {
            let k = choose|k: int| 0 <= k < a.len() && a[k] == b[0];
            let m = choose|m: int| 0 <= m < b.len() && b[m] == a[0];
            assert(k != 0 && m != 0);
            assert(cost_lt(a[0], a[k]));
            assert(cost_lt(b[0], b[m]));
            lemma_cost_order(a[0], b[0], b[0]);
        }
        let a2 = a.drop_first();
        let b2 = b.drop_first();
        assert(by_cost(a2)) by {
            assert forall|i: int, j: int| 0 <= i < j < a2.len() implies cost_lt(#[trigger] a2[i], #[trigger] a2[j]) by {
                assert(a2[i] == a[i + 1] && a2[j] == a[j + 1]);
            }
        }
        assert(by_cost(b2)) by {
            assert forall|i: int, j: int| 0 <= i < j < b2.len() implies cost_lt(#[trigger] b2[i], #[trigger] b2[j]) by {
                assert(b2[i] == b[i + 1] && b2[j] == b[j + 1]);
            }
        }
        assert forall|x: CandView| #[trigger] a2.contains(x) <==> b2.contains(x) by {
            if a2.contains(x) {
                let i = choose|i: int| 0 <= i < a2.len() && a2[i] == x;
                assert(a[i + 1] == x);
                assert(cost_lt(a[0], a[i + 1]));
                lemma_cost_order(x, x, x);
                assert(a.contains(x));
                assert(b.contains(x));
                let j = choose|j: int| 0 <= j < b.len() && b[j] == x;
                assert(j != 0);
                assert(b2[j - 1] == x);
            }
            if b2.contains(x) {
                let i = choose|i: int| 0 <= i < b2.len() && b2[i] == x;
                assert(b[i + 1] == x);
                assert(cost_lt(b[0], b[i + 1]));
                lemma_cost_order(x, x, x);
                assert(a.contains(x));
                let j = choose|j: int| 0 <= j < a.len() && a[j] == x;
                assert(j != 0);
                assert(a2[j - 1] == x);
            }
        }
        lemma_by_cost_unique(a2, b2);
        assert(a =~= seq![a[0]] + a2);
        assert(b =~= seq![b[0]] + b2);
    }
}

/// An index has one candidate list: two lists that both meet
/// [`candidate_list`] for the same entries are the same list, so the
/// curriculum derived from a pack is determined by its entries.
pub proof fn law_candidate_list_is_unique(order: Seq<StenoKey>, undo: Seq<char>, all: Seq<Entry>, a: Seq<CandView>, b: Seq<CandView>)
    requires
        candidate_list(order, undo, all, a),
        candidate_list(order, undo, all, b),
    ensures
        a == b,
{
    assert forall|x: CandView| #[trigger] a.contains(x) <==> b.contains(x) by {
        if a.contains(x) {
            let i = choose|i: int| 0 <= i < a.len() && a[i] == x;
            assert(comes_from(order, undo, all, a[i]));
            let e = choose|e: Entry| best_in(all, e) && drillable(order, undo, e) && a[i] == #[trigger] cand_of(order, e);
            assert(covers_best(order, undo, all, b));
        }
        if b.contains(x) {
            let i = choose|i: int| 0 <= i < b.len() && b[i] == x;
            assert(comes_from(order, undo, all, b[i]));
            let e = choose|e: Entry| best_in(all, e) && drillable(order, undo, e) && b[i] == #[trigger] cand_of(order, e);
            assert(covers_best(order, undo, all, a));
        }
    }
    lemma_by_cost_unique(a, b);
}

/// Two entry lists with the same texts and strokes, position by position.
pub open spec fn same_entries(a: Seq<Entry>, b: Seq<Entry>) -> bool {
    &&& a.len() == b.len()
    &&& forall|i: int| 0 <= i < a.len() ==> #[trigger] a[i].text@ == b[i].text@ && views(a[i].strokes@) == views(b[i].strokes@)
}

proof fn lemma_same_at(a: Seq<Entry>, b: Seq<Entry>, i: int)
    requires
        same_entries(a, b),
        0 <= i < a.len(),
    ensures
        i < b.len(),
        a[i].text@ == b[i].text@,
        views(a[i].strokes@) == views(b[i].strokes@),
        a[i].strokes@.len() == b[i].strokes@.len(),
        a[i].spec_key() == b[i].spec_key(),
{
    assert(a[i].text@ == b[i].text@ && views(a[i].strokes@) == views(b[i].strokes@));
    assert(a[i].strokes@.len() == views(a[i].strokes@).len());
    assert(b[i].strokes@.len() == views(b[i].strokes@).len());
}

proof fn lemma_candidates_carry_over(order: Seq<StenoKey>, undo: Seq<char>, a: Seq<Entry>, b: Seq<Entry>, cs: Seq<CandView>)
    requires
        same_entries(a, b),
        candidate_list(order, undo, a, cs),
    ensures
        candidate_list(order, undo, b, cs),
{
    assert forall|i: int| 0 <= i < a.len() && is_best(a, i) implies is_best(b, i) by {
        assert forall|j: int| 0 <= j < b.len() && j != i && #[trigger] b[j].text@ == b[i].text@ implies better(b[i], b[j]) by {
            lemma_same_at(a, b, i);
            lemma_same_at(a, b, j);
            assert(better(a[i], a[j]));
        }
    }
    assert forall|i: int| 0 <= i < b.len() && is_best(b, i) implies is_best(a, i) by {
        assert forall|j: int| 0 <= j < a.len() && j != i && #[trigger] a[j].text@ == a[i].text@ implies better(a[i], a[j]) by {
            lemma_same_at(a, b, i);
            lemma_same_at(a, b, j);
            assert(better(b[i], b[j]));
        }
    }
    assert forall|k: int| 0 <= k < cs.len() implies #[trigger] comes_from(order, undo, b, cs[k]) by {
        assert(comes_from(order, undo, a, cs[k]));
        let e = choose|e: Entry| best_in(a, e) && drillable(order, undo, e) && cs[k] == #[trigger] cand_of(order, e);
        let i = choose|i: int| 0 <= i < a.len() && a[i] == e && is_best(a, i);
        lemma_same_at(a, b, i);
        assert(cand_of(order, b[i]) == cand_of(order, e));
        assert(drillable(order, undo, b[i]));
        assert(best_in(b, b[i]));
    }
    assert forall|e: Entry| best_in(b, e) && drillable(order, undo, e) implies #[trigger] cs.contains(cand_of(order, e)) by {
        let i = choose|i: int| 0 <= i < b.len() && b[i] == e && is_best(b, i);
        lemma_same_at(a, b, i);
        assert(best_in(a, a[i]));
        assert(drillable(order, undo, a[i]));
        assert(covers_best(order, undo, a, cs));
        assert(cand_of(order, a[i]) == cand_of(order, e));
    }
}

/// The curriculum of a pack is determined by its dictionary, its key order
/// and its undo stroke: whichever entry lists index the dictionary, their
/// candidate lists, and so the curricula derived from them, are the same.
pub proof fn law_curriculum_is_determined_by_the_pack(
    m: Map<Seq<char>, Seq<char>>,
    order: Seq<StenoKey>,
    undo: Seq<char>,
    all1: Seq<Entry>,
    cs1: Seq<CandView>,
    all2: Seq<Entry>,
    cs2: Seq<CandView>,
)
    requires
        indexes(m, all1),
        indexes(m, all2),
        candidate_list(order, undo, all1, cs1),
        candidate_list(order, undo, all2, cs2),
    ensures
        cs1 == cs2,
        curriculum_spec(cs1, order, undo) == curriculum_spec(cs2, order, undo),
{
    law_index_depends_only_on_the_dictionary(m, all1, all2);
    lemma_candidates_carry_over(order, undo, all1, all2, cs1);
    law_candidate_list_is_unique(order, undo, all2, cs1, cs2);
}

} // verus!
