//! Steno keys and canonical stroke strings.
//!
//! A stroke is the set of steno keys pressed together, written in steno order.
//! When a stroke has no middle-bank key, a hyphen separates the left-hand keys
//! from the right-hand ones (`S` + `-T` is `S-T`, while `K` + `A` + `-T` is `KAT`).
use vstd::prelude::*;
use crate::text::{chars_of, contains_text, occurs_at_exec, owned, push_text, split_slash, split_strokes, string_of, views};

verus! {

/// Which bank of the steno keyboard a key belongs to.
#[derive(Debug, Clone, Copy, PartialEq, Eq, Structural)]
pub enum Bank {
    /// Left-hand consonants, written first.
    Left,
    /// Vowels and the star, written in the middle.
    Mid,
    /// Right-hand consonants, written last.
    Right,
}

/// Position of a bank in steno order.
pub open spec fn bank_rank(b: Bank) -> int {
    match b {
        Bank::Left => 0,
        Bank::Mid => 1,
        Bank::Right => 2,
    }
}

/// One steno key: its stable `id` (`"S-"`, `"-F"`), the `letter` written for
/// it in a stroke (`"S"`, `"F"`), and its bank.
#[derive(Debug, PartialEq, Eq)]
pub struct StenoKey {
    pub id: String,
    pub letter: String,
    pub bank: Bank,
}

impl Clone for StenoKey {
    fn clone(&self) -> (r: Self)
        ensures
            r == *self,
    {
        StenoKey { id: self.id.clone(), letter: self.letter.clone(), bank: self.bank }
    }
}

impl StenoKey {
    pub fn new(id: &str, letter: &str, bank: Bank) -> (k: StenoKey)
        ensures
            k.id@ == id@,
            k.letter@ == letter@,
            k.bank == bank,
    {
        StenoKey { id: owned(id), letter: owned(letter), bank }
    }
}

/// Some key of `order` in the middle bank is pressed.
pub open spec fn has_mid_key(order: Seq<StenoKey>, present: Set<Seq<char>>) -> bool {
    exists|i: int| 0 <= i < order.len() && order[i].bank == Bank::Mid && present.contains(order[i].id@)
}

/// The letters of the pressed keys of `order`, in order. When `hyphenate`
/// holds, a `-` goes before the first pressed right-bank key, unless one was
/// already written (`done`).
pub open spec fn render_from(order: Seq<StenoKey>, present: Set<Seq<char>>, hyphenate: bool, done: bool) -> Seq<char>
    decreases order.len(),
{
    if order.len() == 0 {
        Seq::empty()
    } else {
        let k = order[0];
        if present.contains(k.id@) {
            let dash = hyphenate && k.bank == Bank::Right && !done;
            (if dash { seq!['-'] } else { Seq::<char>::empty() }) + k.letter@ + render_from(
                order.drop_first(),
                present,
                hyphenate,
                done || dash,
            )
        } else {
            render_from(order.drop_first(), present, hyphenate, done)
        }
    }
}

/// The canonical stroke for the pressed key ids `present`: the hyphen is
/// written only when no middle-bank key is pressed.
pub open spec fn rendered(order: Seq<StenoKey>, present: Set<Seq<char>>) -> Seq<char> {
    render_from(order, present, !has_mid_key(order, present), false)
}

/// Whether `a` is pressed, given the pressed ids as a list.
pub open spec fn id_set(present: Seq<String>) -> Set<Seq<char>> {
    views(present).to_set()
}

proof fn lemma_render_step(order: Seq<StenoKey>, i: int, present: Set<Seq<char>>, hyphenate: bool, done: bool)
    requires
        0 <= i < order.len(),
    ensures
        render_from(order.skip(i), present, hyphenate, done) == ({
            let k = order[i];
            if present.contains(k.id@) {
                let dash = hyphenate && k.bank == Bank::Right && !done;
                (if dash { seq!['-'] } else { Seq::<char>::empty() }) + k.letter@ + render_from(
                    order.skip(i + 1),
                    present,
                    hyphenate,
                    done || dash,
                )
            } else {
                render_from(order.skip(i + 1), present, hyphenate, done)
            }
        }),
{
    assert(order.skip(i).drop_first() =~= order.skip(i + 1));
    assert(order.skip(i)[0] == order[i]);
}

/// Whether some key of `order` in the middle bank is pressed.
fn any_mid_pressed(order: &[StenoKey], present: &[String]) -> (r: bool)
    ensures
        r == has_mid_key(order@, id_set(present@)),
{
    let mut i: usize = 0;
    while i < order.len()
        invariant
            i <= order.len(),
            forall|j: int| 0 <= j < i ==> !(order@[j].bank == Bank::Mid && id_set(present@).contains(order@[j].id@)),
        decreases order.len() - i,
    {
        if order[i].bank == Bank::Mid && contains_text(present, order[i].id.as_str()) {
            assert(views(present@).contains(order@[i as int].id@));
            return true;
        }
        proof {
            if id_set(present@).contains(order@[i as int].id@) {
                assert(views(present@).contains(order@[i as int].id@));
            }
        }
        i += 1;
    }
    false
}

/// Render the canonical stroke string for the pressed steno key ids
/// `present`, following `order` for sequencing and the hyphen rule. Ids not in
/// `order` are ignored; the result is empty when none of `order` is pressed.
pub fn render_stroke(order: &[StenoKey], present: &[String]) -> (s: String)
    ensures
        s@ == rendered(order@, id_set(present@)),
{
    let ghost p = id_set(present@);
    let hyphenate = !any_mid_pressed(order, present);
    let mut out = String::new();
    let mut done = false;
    let mut i: usize = 0;
    assert(order@.skip(0) =~= order@);
    assert(out@ + rendered(order@, p) =~= rendered(order@, p));
    while i < order.len()
        invariant
            i <= order.len(),
            p == id_set(present@),
            hyphenate == !has_mid_key(order@, p),
            out@ + render_from(order@.skip(i as int), p, hyphenate, done) == rendered(order@, p),
        decreases order.len() - i,
    {
        proof {
            lemma_render_step(order@, i as int, p, hyphenate, done);
        }
        let key = &order[i];
        if contains_text(present, key.id.as_str()) {
            let ghost before = out@;
            let dash = hyphenate && key.bank == Bank::Right && !done;
            if dash {
                push_char_dash(&mut out);
                done = true;
            }
            push_text(&mut out, key.letter.as_str());
            assert(out@ + render_from(order@.skip(i + 1), p, hyphenate, done) =~= before + ((if dash {
                seq!['-']
            } else {
                Seq::<char>::empty()
            }) + key.letter@ + render_from(order@.skip(i + 1), p, hyphenate, done)));
        }
        i += 1;
    }
    assert(order@.skip(order.len() as int) =~= Seq::<StenoKey>::empty());
    assert(out@ + Seq::<char>::empty() =~= out@);
    out
}

fn push_char_dash(s: &mut String)
    ensures
        final(s)@ == old(s)@ + seq!['-'],
{
    let dash: [char; 1] = ['-'];
    let d = string_of(&dash);
    assert(dash@ =~= seq!['-']);
    push_text(s, d.as_str());
}

/// Reading a stroke back into key ids: walk `order` with the rest of the
/// stroke, taking a key whenever its letter comes next. An explicit hyphen
/// (`past` once read) leaves only right-bank keys to be matched.
pub open spec fn parse_from(order: Seq<StenoKey>, rest: Seq<char>, past: bool) -> Option<Seq<Seq<char>>>
    decreases order.len(),
{
    if rest.len() == 0 {
        Some(Seq::empty())
    } else if order.len() == 0 {
        None
    } else {
        let k = order[0];
        let strip = !past && rest[0] == '-';
        let past2 = past || strip;
        let rest2 = if strip { rest.drop_first() } else { rest };
        if past2 && k.bank != Bank::Right {
            parse_from(order.drop_first(), rest2, past2)
        } else if k.letter@.is_prefix_of(rest2) {
            match parse_from(order.drop_first(), rest2.skip(k.letter@.len() as int), past2) {
                Some(ids) => Some(seq![k.id@] + ids),
                None => None,
            }
        } else {
            parse_from(order.drop_first(), rest2, past2)
        }
    }
}

/// The key ids a stroke string spells in this layout, if it spells any.
pub open spec fn parsed(order: Seq<StenoKey>, stroke: Seq<char>) -> Option<Seq<Seq<char>>> {
    parse_from(order, stroke, false)
}

/// `ids` in front of what `rest` holds, if it holds anything.
pub open spec fn prepend_ids(ids: Seq<Seq<char>>, rest: Option<Seq<Seq<char>>>) -> Option<Seq<Seq<char>>> {
    match rest {
        Some(r) => Some(ids + r),
        None => None,
    }
}

/// The character sequences of an optional list of strings.
pub open spec fn opt_views(o: Option<Vec<String>>) -> Option<Seq<Seq<char>>> {
    match o {
        Some(v) => Some(views(v@)),
        None => None,
    }
}

/// Recover the steno key ids that make up a canonical stroke string: the
/// inverse of [`render_stroke`]. `None` when the stroke does not spell out in
/// this layout (an unknown letter, or letters out of steno order).
pub fn parse_stroke(order: &[StenoKey], stroke: &str) -> (r: Option<Vec<String>>)
    ensures
        opt_views(r) == parsed(order@, stroke@),
{
    let s = chars_of(stroke);
    let mut ids: Vec<String> = Vec::new();
    let mut pos: usize = 0;
    let mut past = false;
    let mut i: usize = 0;
    assert(order@.skip(0) =~= order@);
    assert(s@.skip(0) =~= s@);
    proof {
        if parsed(order@, stroke@) is Some {
            assert(views(ids@) + parsed(order@, stroke@)->0 =~= parsed(order@, stroke@)->0);
        }
    }
    while i < order.len() && pos < s.len()
        invariant
            i <= order.len(),
            pos <= s.len(),
            s@ == stroke@,
            prepend_ids(views(ids@), parse_from(order@.skip(i as int), s@.skip(pos as int), past))
                == parsed(order@, stroke@),
        decreases order.len() - i,
    {
        let ghost o = order@.skip(i as int);
        let ghost rest = s@.skip(pos as int);
        assert(o[0] == order@[i as int]);
        assert(o.drop_first() =~= order@.skip(i + 1));
        assert(rest[0] == s@[pos as int]);
        if !past && s[pos] == '-' {
            past = true;
            pos += 1;
            assert(rest.drop_first() =~= s@.skip(pos as int));
        }
        let key = &order[i];
        if past && key.bank != Bank::Right {
        } else {
            let letter = chars_of(key.letter.as_str());
            let ghost rest2 = s@.skip(pos as int);
            if occurs_at_exec(s.as_slice(), pos, letter.as_slice()) {
                assert(key.letter@.is_prefix_of(rest2)) by {
                    assert(rest2.subrange(0, letter@.len() as int) =~= s@.subrange(pos as int, pos + letter@.len()));
                }
                let ghost before = views(ids@);
                ids.push(key.id.clone());
                assert(views(ids@) =~= before + seq![key.id@]);
                pos += letter.len();
                assert(rest2.skip(letter@.len() as int) =~= s@.skip(pos as int));
                proof {
                    let tail = parse_from(order@.skip(i + 1), s@.skip(pos as int), past);
                    if tail is Some {
                        assert(before + (seq![key.id@] + tail->0) =~= (before + seq![key.id@]) + tail->0);
                    }
                }
            } else {
                assert(!key.letter@.is_prefix_of(rest2)) by {
                    if key.letter@.is_prefix_of(rest2) {
                        assert(rest2.subrange(0, letter@.len() as int) =~= s@.subrange(pos as int, pos + letter@.len()));
                    }
                }
            }
        }
        i += 1;
    }
    if pos == s.len() {
        assert(s@.skip(pos as int) =~= Seq::<char>::empty());
        assert(views(ids@) + Seq::<Seq<char>>::empty() =~= views(ids@));
        Some(ids)
    } else {
        assert(order@.skip(i as int) =~= Seq::<StenoKey>::empty());
        None
    }
}

/// Each stroke of `parts` read back into key ids; `None` if any fails.
pub open spec fn parse_all(order: Seq<StenoKey>, parts: Seq<Seq<char>>) -> Option<Seq<Seq<Seq<char>>>>
    decreases parts.len(),
{
    if parts.len() == 0 {
        Some(Seq::empty())
    } else {
        match (parse_all(order, parts.drop_last()), parsed(order, parts.last())) {
            (Some(a), Some(b)) => Some(a.push(b)),
            _ => None,
        }
    }
}

/// The character sequences of an optional list of key-id lists.
pub open spec fn opt_views2(o: Option<Vec<Vec<String>>>) -> Option<Seq<Seq<Seq<char>>>> {
    match o {
        Some(v) => Some(v@.map_values(|x: Vec<String>| views(x@))),
        None => None,
    }
}

/// Parse a whole dictionary key (`"KAT/-S"`) into the key ids of each of its
/// strokes. `None` if any stroke fails to parse.
pub fn parse_stroke_sequence(order: &[StenoKey], key: &str) -> (r: Option<Vec<Vec<String>>>)
    ensures
        opt_views2(r) == parse_all(order@, split_strokes(key@)),
{
    let parts = split_slash(key);
    let ghost ps = split_strokes(key@);
    let mut out: Vec<Vec<String>> = Vec::new();
    let mut i: usize = 0;
    while i < parts.len()
        invariant
            i <= parts.len(),
            views(parts@) == ps,
            ps == split_strokes(key@),
            parse_all(order@, ps.take(i as int)) == Some(out@.map_values(|x: Vec<String>| views(x@))),
        decreases parts.len() - i,
    {
        assert(ps.take(i + 1).drop_last() =~= ps.take(i as int));
        assert(ps.take(i + 1).last() == parts@[i as int]@);
        match parse_stroke(order, parts[i].as_str()) {
            Some(ids) => {
                let ghost before = out@.map_values(|x: Vec<String>| views(x@));
                out.push(ids);
                assert(out@.map_values(|x: Vec<String>| views(x@)) =~= before.push(views(ids@)));
            },
            None => {
                proof {
                    lemma_parse_all_none(order@, ps, i as int + 1);
                }
                return None;
            },
        }
        i += 1;
    }
    assert(ps.take(parts.len() as int) =~= ps);
    Some(out)
}

proof fn lemma_parse_all_none(order: Seq<StenoKey>, ps: Seq<Seq<char>>, n: int)
    requires
        0 <= n <= ps.len(),
        parse_all(order, ps.take(n)) is None,
    ensures
        parse_all(order, ps) is None,
    decreases ps.len() - n,
{
    if n < ps.len() {
        assert(ps.take(n + 1).drop_last() =~= ps.take(n));
        lemma_parse_all_none(order, ps, n + 1);
    } else {
        assert(ps.take(n) =~= ps);
    }
}

/// The ids of the pressed keys of `order`, in steno order.
pub open spec fn pressed_ids(order: Seq<StenoKey>, present: Set<Seq<char>>) -> Seq<Seq<char>>
    decreases order.len(),
{
    if order.len() == 0 {
        Seq::empty()
    } else {
        (if present.contains(order[0].id@) { seq![order[0].id@] } else { Seq::empty() })
            + pressed_ids(order.drop_first(), present)
    }
}

/// A layout in which strokes can be read back unambiguously: keys run left
/// bank, middle bank, right bank; every letter is one character other than
/// `-`; and two keys share a letter only when one is on the left and the
/// other on the right.
pub open spec fn well_ordered_layout(order: Seq<StenoKey>) -> bool {
    &&& forall|i: int, j: int|
        0 <= i < j < order.len() ==> bank_rank(#[trigger] order[i].bank) <= bank_rank(#[trigger] order[j].bank)
    &&& forall|i: int| 0 <= i < order.len() ==> (#[trigger] order[i].letter@).len() == 1 && order[i].letter@[0] != '-'
    &&& forall|i: int, j: int|
        0 <= i < j < order.len() && !(order[i].bank == Bank::Left && order[j].bank == Bank::Right)
            ==> #[trigger] order[i].letter@ != #[trigger] order[j].letter@
}

/// Index of the first pressed key of `order`.
pub open spec fn first_pressed(order: Seq<StenoKey>, present: Set<Seq<char>>) -> int
    decreases order.len(),
{
    if order.len() == 0 {
        0
    } else if present.contains(order[0].id@) {
        0
    } else {
        1 + first_pressed(order.drop_first(), present)
    }
}

proof fn lemma_suffix_well_ordered(order: Seq<StenoKey>)
    requires
        well_ordered_layout(order),
        order.len() > 0,
    ensures
        well_ordered_layout(order.drop_first()),
{
    let o = order.drop_first();
    assert forall|i: int, j: int| 0 <= i < j < o.len() implies bank_rank(#[trigger] o[i].bank) <= bank_rank(
        #[trigger] o[j].bank,
    ) by {
        assert(o[i] == order[i + 1] && o[j] == order[j + 1]);
    }
    assert forall|i: int| 0 <= i < o.len() implies (#[trigger] o[i].letter@).len() == 1 && o[i].letter@[0] != '-' by {
        assert(o[i] == order[i + 1]);
    }
    assert forall|i: int, j: int|
        0 <= i < j < o.len() && !(o[i].bank == Bank::Left && o[j].bank == Bank::Right) implies #[trigger] o[i].letter@
        != #[trigger] o[j].letter@ by {
        assert(o[i] == order[i + 1] && o[j] == order[j + 1]);
    }
}

proof fn lemma_first_pressed(order: Seq<StenoKey>, present: Set<Seq<char>>, hyphenate: bool, done: bool)
    requires
        well_ordered_layout(order),
    ensures
        pressed_ids(order, present).len() == 0 ==> render_from(order, present, hyphenate, done).len() == 0,
        pressed_ids(order, present).len() > 0 ==> ({
            let f = first_pressed(order, present);
            &&& 0 <= f < order.len()
            &&& present.contains(order[f].id@)
            &&& forall|i: int| 0 <= i < f ==> !present.contains(#[trigger] order[i].id@)
            &&& render_from(order, present, hyphenate, done).len() > 0
            &&& render_from(order, present, hyphenate, done)[0] == if hyphenate && order[f].bank == Bank::Right
                && !done {
                '-'
            } else {
                order[f].letter@[0]
            }
        }),
    decreases order.len(),
{
    if order.len() > 0 {
        let o = order.drop_first();
        lemma_suffix_well_ordered(order);
        lemma_first_pressed(o, present, hyphenate, done);
        assert(order[0].letter@.len() == 1);
        if !present.contains(order[0].id@) {
            assert(pressed_ids(order, present) =~= pressed_ids(o, present));
            if pressed_ids(order, present).len() > 0 {
                let f = first_pressed(order, present);
                assert(f == 1 + first_pressed(o, present));
                assert forall|i: int| 0 <= i < f implies !present.contains(#[trigger] order[i].id@) by {
                    if i > 0 {
                        assert(order[i] == o[i - 1]);
                        assert(!present.contains(o[i - 1].id@));
                    }
                }
                assert(order[f] == o[f - 1]);
            }
        }
    }
}

proof fn lemma_dash_first(order: Seq<StenoKey>, present: Set<Seq<char>>)
    requires
        well_ordered_layout(order),
        pressed_ids(order, present).len() > 0,
        order[first_pressed(order, present)].bank == Bank::Right,
    ensures
        render_from(order, present, true, false) == seq!['-'] + render_from(order, present, true, true),
    decreases order.len(),
{
    lemma_first_pressed(order, present, true, false);
    let o = order.drop_first();
    if !present.contains(order[0].id@) {
        assert(pressed_ids(order, present) =~= pressed_ids(o, present));
        lemma_suffix_well_ordered(order);
        assert(order[first_pressed(order, present)] == o[first_pressed(o, present)]);
        lemma_dash_first(o, present);
    } else {
        assert(seq!['-'] + order[0].letter@ + render_from(o, present, true, true) =~= seq!['-'] + (Seq::<
            char,
        >::empty() + order[0].letter@ + render_from(o, present, true, true)));
    }
}

proof fn lemma_parse_render_from(o: Seq<StenoKey>, present: Set<Seq<char>>, hyphenate: bool, done: bool)
    requires
        well_ordered_layout(o),
        hyphenate ==> !has_mid_key(o, present),
        !hyphenate ==> has_mid_key(o, present) || forall|i: int| 0 <= i < o.len() ==> #[trigger] o[i].bank != Bank::Left,
        done ==> forall|i: int| 0 <= i < o.len() && present.contains(#[trigger] o[i].id@) ==> o[i].bank == Bank::Right,
    ensures
        parse_from(o, render_from(o, present, hyphenate, done), done) == Some(pressed_ids(o, present)),
    decreases o.len(),
{
    let r = render_from(o, present, hyphenate, done);
    lemma_first_pressed(o, present, hyphenate, done);
    if o.len() == 0 {
        return;
    }
    let k = o[0];
    let o2 = o.drop_first();
    lemma_suffix_well_ordered(o);
    assert forall|i: int| 0 <= i < o2.len() implies #[trigger] o2[i] == o[i + 1] by {}
    assert(k.letter@.len() == 1 && k.letter@[0] != '-');
    if present.contains(k.id@) {
        let dash = hyphenate && k.bank == Bank::Right && !done;
        let done2 = done || dash;
        let r2 = render_from(o2, present, hyphenate, done2);
        // what remains true of the rest of the keys
        assert(hyphenate ==> !has_mid_key(o2, present)) by {
            if hyphenate && has_mid_key(o2, present) {
                let i = choose|i: int| 0 <= i < o2.len() && o2[i].bank == Bank::Mid && present.contains(o2[i].id@);
                assert(o[i + 1] == o2[i]);
            }
        }
        assert(!hyphenate ==> has_mid_key(o2, present) || forall|i: int| 0 <= i < o2.len() ==> #[trigger] o2[i].bank
            != Bank::Left) by {
            if !hyphenate && !has_mid_key(o2, present) {
                assert forall|i: int| 0 <= i < o2.len() implies #[trigger] o2[i].bank != Bank::Left by {
                    assert(o[i + 1] == o2[i]);
                    assert(bank_rank(o[0].bank) <= bank_rank(o[i + 1].bank));
                    if !(forall|j: int| 0 <= j < o.len() ==> #[trigger] o[j].bank != Bank::Left) {
                        let m = choose|m: int| 0 <= m < o.len() && o[m].bank == Bank::Mid && present.contains(o[m].id@);
                        if m > 0 {
                            assert(o2[m - 1] == o[m]);
                        }
                    }
                }
            }
        }
        assert(done2 ==> forall|i: int| 0 <= i < o2.len() && present.contains(#[trigger] o2[i].id@) ==> o2[i].bank
            == Bank::Right) by {
            if done2 {
                assert forall|i: int| 0 <= i < o2.len() && present.contains(#[trigger] o2[i].id@) implies o2[i].bank
                    == Bank::Right by {
                    assert(o[i + 1] == o2[i]);
                    assert(bank_rank(o[0].bank) <= bank_rank(o[i + 1].bank));
                }
            }
        }
        lemma_parse_render_from(o2, present, hyphenate, done2);
        let rest2 = if dash { r.drop_first() } else { r };
        assert(rest2 =~= k.letter@ + r2);
        assert(k.letter@.is_prefix_of(rest2));
        assert(rest2.skip(1) =~= r2);
        assert(pressed_ids(o, present) =~= seq![k.id@] + pressed_ids(o2, present));
    } else {
        assert(r == render_from(o2, present, hyphenate, done));
        assert(pressed_ids(o, present) =~= pressed_ids(o2, present));
        assert(hyphenate ==> !has_mid_key(o2, present)) by {
            if hyphenate && has_mid_key(o2, present) {
                let i = choose|i: int| 0 <= i < o2.len() && o2[i].bank == Bank::Mid && present.contains(o2[i].id@);
                assert(o[i + 1] == o2[i]);
            }
        }
        assert(!hyphenate ==> has_mid_key(o2, present) || forall|i: int| 0 <= i < o2.len() ==> #[trigger] o2[i].bank
            != Bank::Left) by {
            if !hyphenate && !has_mid_key(o2, present) {
                assert forall|i: int| 0 <= i < o2.len() implies #[trigger] o2[i].bank != Bank::Left by {
                    assert(o[i + 1] == o2[i]);
                    if !(forall|j: int| 0 <= j < o.len() ==> #[trigger] o[j].bank != Bank::Left) {
                        let m = choose|m: int| 0 <= m < o.len() && o[m].bank == Bank::Mid && present.contains(o[m].id@);
                        assert(m > 0);
                        assert(o2[m - 1] == o[m]);
                    }
                }
            }
        }
        assert(done ==> forall|i: int| 0 <= i < o2.len() && present.contains(#[trigger] o2[i].id@) ==> o2[i].bank
            == Bank::Right) by {
            if done {
                assert forall|i: int| 0 <= i < o2.len() && present.contains(#[trigger] o2[i].id@) implies o2[i].bank
                    == Bank::Right by {
                    assert(o[i + 1] == o2[i]);
                }
            }
        }
        if r.len() == 0 {
            return;
        }
        let f = first_pressed(o, present);
        let kj = o[f];
        assert(f > 0);
        let strip = !done && r[0] == '-';
        if strip {
            // the hyphen: everything pressed from here on is on the right
            assert(hyphenate && kj.bank == Bank::Right);
            assert(f - 1 == first_pressed(o2, present));
            assert(o2[f - 1] == kj);
            lemma_dash_first(o2, present);
            assert(r.drop_first() =~= render_from(o2, present, true, true));
            assert forall|i: int| 0 <= i < o2.len() && present.contains(#[trigger] o2[i].id@) implies o2[i].bank
                == Bank::Right by {
                assert(o[i + 1] == o2[i]);
                if i + 1 < f {
                } else if i + 1 > f {
                    assert(bank_rank(o[f].bank) <= bank_rank(o[i + 1].bank));
                }
            }
            lemma_parse_render_from(o2, present, true, true);
            if k.bank == Bank::Right {
                lemma_first_pressed(o2, present, true, true);
                assert(r.drop_first()[0] == kj.letter@[0]);
                assert(k.letter@ != kj.letter@);
                assert(!k.letter@.is_prefix_of(r.drop_first())) by {
                    if k.letter@.is_prefix_of(r.drop_first()) {
                        assert(k.letter@ =~= seq![kj.letter@[0]]);
                        assert(kj.letter@ =~= seq![kj.letter@[0]]);
                    }
                }
            }
        } else {
            lemma_parse_render_from(o2, present, hyphenate, done);
            if done && k.bank != Bank::Right {
            } else {
                // the next character is the letter of the first pressed key
                assert(r[0] == kj.letter@[0]) by {
                    if done {
                    } else {
                        assert(r[0] != '-');
                    }
                }
                assert(k.letter@ != kj.letter@) by {
                    if k.bank == Bank::Left && kj.bank == Bank::Right {
                        if done {
                            assert(o[f].bank == Bank::Right);
                        } else {
                            assert(!hyphenate);
                            assert(o[0].bank == Bank::Left);
                            let m = choose|m: int| 0 <= m < o.len() && o[m].bank == Bank::Mid && present.contains(o[m].id@);
                            assert(m >= f);
                            assert(bank_rank(o[f].bank) <= bank_rank(o[m].bank));
                        }
                    }
                }
                assert(!k.letter@.is_prefix_of(r)) by {
                    if k.letter@.is_prefix_of(r) {
                        assert(k.letter@ =~= seq![kj.letter@[0]]);
                        assert(kj.letter@ =~= seq![kj.letter@[0]]);
                    }
                }
            }
        }
    }
}

/// Parsing inverts rendering: in a well-ordered layout, every stroke the
/// renderer produces for a set of pressed keys reads back as exactly the
/// pressed keys, in steno order.
pub proof fn lemma_parse_inverts_render(order: Seq<StenoKey>, present: Set<Seq<char>>)
    requires
        well_ordered_layout(order),
    ensures
        parsed(order, rendered(order, present)) == Some(pressed_ids(order, present)),
{
    let h = !has_mid_key(order, present);
    lemma_parse_render_from(order, present, h, false);
}

} // verus!
