//! Chord accumulation: turning an ordinary keyboard into a steno machine.
//!
//! Keys pressed together form one stroke. The chord is complete the moment the
//! last held key is released; until then every key that goes down joins it
//! (the chord only grows), so slightly staggered presses still count as one.
use vstd::prelude::*;
use crate::text::{chars_of, lemma_lex_irreflexive, lemma_lex_total, lemma_lex_transitive, lex_less, lex_lt, owned, same_text, views};

verus! {

// The chord's key sets are sorted `Vec`s. vstd's contracts for `BTreeSet`
// hold only when the element type obeys its ordering model (`obeys_cmp`),
// which vstd establishes for integers and for options, references and tuples
// of them, never for `String`; a `BTreeSet<String>` would prove nothing here,
// while these lists are proved to be the sets they stand for.

/// No string occurs twice in the list.
pub open spec fn no_dup_strings(v: Seq<String>) -> bool {
    views(v).no_duplicates()
}

/// The strings run in strictly increasing order, as in a sorted set.
pub open spec fn sorted_strings(v: Seq<String>) -> bool {
    forall|i: int, j: int| 0 <= i < j < v.len() ==> lex_lt(#[trigger] v[i]@, #[trigger] v[j]@)
}

proof fn lemma_sorted_no_dup(v: Seq<String>)
    requires
        sorted_strings(v),
    ensures
        no_dup_strings(v),
{
    assert forall|a: int, b: int| 0 <= a < views(v).len() && 0 <= b < views(v).len() && a != b implies views(v)[a] != views(v)[b] by {
        assert(views(v)[a] == v[a]@ && views(v)[b] == v[b]@);
        lemma_lex_irreflexive(v[a]@);
        if a < b {
            assert(lex_lt(v[a]@, v[b]@));
        } else {
            assert(lex_lt(v[b]@, v[a]@));
        }
    }
}

/// Insert `key` into a sorted list unless already there.
fn insert_text(v: &mut Vec<String>, key: &str)
    requires
        sorted_strings(old(v)@),
    ensures
        sorted_strings(final(v)@),
        views(final(v)@).to_set() == views(old(v)@).to_set().insert(key@),
{
    let ghost before = v@;
    let kc = chars_of(key);
    let mut p: usize = 0;
    while p < v.len() && lex_less(chars_of(v[p].as_str()).as_slice(), kc.as_slice())
        invariant
            p <= v.len(),
            v@ == before,
            kc@ == key@,
            forall|i: int| 0 <= i < p ==> lex_lt(#[trigger] v@[i]@, key@),
        decreases v.len() - p,
    {
        p += 1;
    }
    if p < v.len() && same_text(v[p].as_str(), key) {
        assert(views(before)[p as int] == key@);
        assert(views(before).to_set().insert(key@) =~= views(before).to_set());
        return;
    }
    proof {
        if p < before.len() {
            lemma_lex_total(before[p as int]@, key@);
        }
    }
    v.insert(p, owned(key));
    proof {
        let after = v@;
        assert(after =~= before.insert(p as int, after[p as int]));
        assert forall|i: int, j: int| 0 <= i < j < after.len() implies lex_lt(#[trigger] after[i]@, #[trigger] after[j]@) by {
            if j < p {
                assert(after[i] == before[i] && after[j] == before[j]);
            } else if j == p {
                assert(after[i] == before[i]);
            } else if i > p {
                assert(after[i] == before[i - 1] && after[j] == before[j - 1]);
            } else if i == p {
                assert(after[j] == before[j - 1]);
                if j - 1 > p {
                    lemma_lex_transitive(key@, before[p as int]@, before[j - 1]@);
                }
            } else {
                assert(after[i] == before[i]);
                assert(after[j] == before[j - 1]);
                lemma_lex_transitive(before[i]@, key@, before[p as int]@);
                if j - 1 > p {
                    lemma_lex_transitive(before[i]@, before[p as int]@, before[j - 1]@);
                }
            }
        }
        assert(views(after) =~= views(before).insert(p as int, key@));
        assert(views(after).to_set() =~= views(before).to_set().insert(key@)) by {
            assert forall|x: Seq<char>| views(after).to_set().contains(x) == views(before).to_set().insert(key@).contains(x) by {
                if views(after).to_set().contains(x) {
                    let k = choose|k: int| 0 <= k < views(after).len() && views(after)[k] == x;
                    if k < p {
                        assert(views(before)[k] == x);
                    } else if k > p {
                        assert(views(before)[k - 1] == x);
                    }
                }
                if views(before).to_set().contains(x) {
                    let k = choose|k: int| 0 <= k < views(before).len() && views(before)[k] == x;
                    if k < p {
                        assert(views(after)[k] == x);
                    } else {
                        assert(views(after)[k + 1] == x);
                    }
                }
                if x == key@ {
                    assert(views(after)[p as int] == x);
                }
            }
        }
    }
}

/// Remove `key` from a sorted list if present.
fn remove_text(v: &mut Vec<String>, key: &str)
    requires
        sorted_strings(old(v)@),
    ensures
        sorted_strings(final(v)@),
        views(final(v)@).to_set() == views(old(v)@).to_set().remove(key@),
{
    proof {
        lemma_sorted_no_dup(v@);
    }
    let ghost before = views(v@);
    let ghost raw = v@;
    let mut i: usize = 0;
    while i < v.len()
        invariant
            i <= v.len(),
            views(v@) == before,
            v@ == raw,
            sorted_strings(raw),
            before == views(old(v)@),
            before.no_duplicates(),
            forall|j: int| 0 <= j < i ==> #[trigger] v@[j]@ != key@,
        decreases v.len() - i,
    {
        if same_text(v[i].as_str(), key) {
            let ghost idx = i as int;
            v.remove(i);
            assert(views(v@) =~= before.remove(idx));
            assert(v@ =~= raw.remove(idx));
            assert forall|a: int, b: int| 0 <= a < b < v@.len() implies lex_lt(#[trigger] v@[a]@, #[trigger] v@[b]@) by {
                let a2 = if a < idx { a } else { a + 1 };
                let b2 = if b < idx { b } else { b + 1 };
                assert(v@[a] == raw[a2] && v@[b] == raw[b2]);
            }
            assert(views(v@).no_duplicates()) by {
                assert forall|a: int, b: int| 0 <= a < views(v@).len() && 0 <= b < views(v@).len() && a != b implies views(v@)[a] != views(v@)[b] by {
                    let a2 = if a < idx { a } else { a + 1 };
                    let b2 = if b < idx { b } else { b + 1 };
                    assert(views(v@)[a] == before[a2]);
                    assert(views(v@)[b] == before[b2]);
                }
            }
            assert(views(v@).to_set() =~= before.to_set().remove(key@)) by {
                assert forall|x: Seq<char>| views(v@).to_set().contains(x) == before.to_set().remove(key@).contains(x) by {
                    if views(v@).to_set().contains(x) {
                        let k = choose|k: int| 0 <= k < views(v@).len() && views(v@)[k] == x;
                        if k < idx {
                            assert(before[k] == x);
                            assert(before[k] != before[idx]);
                        } else {
                            assert(before[k + 1] == x);
                            assert(before[k + 1] != before[idx]);
                        }
                    }
                    if before.to_set().remove(key@).contains(x) {
                        let k = choose|k: int| 0 <= k < before.len() && before[k] == x;
                        assert(k != idx);
                        if k < idx {
                            assert(views(v@)[k] == x);
                        } else {
                            assert(views(v@)[k - 1] == x);
                        }
                    }
                }
            }
            return;
        }
        assert(before[i as int] == v@[i as int]@);
        i += 1;
    }
    assert(before.to_set().remove(key@) =~= before.to_set()) by {
        assert forall|x: Seq<char>| before.to_set().contains(x) implies x != key@ by {
            let k = choose|k: int| 0 <= k < before.len() && before[k] == x;
            assert(before[k] == v@[k]@);
        }
    }
}

/// Accumulates simultaneous key presses into a single chord.
#[derive(Debug)]
pub struct ChordAccumulator {
    held: Vec<String>,
    chord: Vec<String>,
    active: bool,
}

impl ChordAccumulator {
    #[verifier::type_invariant]
    spec fn wf(self) -> bool {
        &&& sorted_strings(self.held@)
        &&& sorted_strings(self.chord@)
        &&& self.held_keys().subset_of(self.chord_keys())
        &&& !self.active ==> self.held@.len() == 0 && self.chord@.len() == 0
        &&& self.active ==> self.held@.len() > 0
    }

    /// Keys currently held down.
    pub closed spec fn held_keys(self) -> Set<Seq<char>> {
        views(self.held@).to_set()
    }

    /// Every key touched since the chord began.
    pub closed spec fn chord_keys(self) -> Set<Seq<char>> {
        views(self.chord@).to_set()
    }

    /// A chord is in progress.
    pub closed spec fn spec_active(self) -> bool {
        self.active
    }

    pub fn new() -> (c: ChordAccumulator)
        ensures
            c.held_keys() == Set::<Seq<char>>::empty(),
            c.chord_keys() == Set::<Seq<char>>::empty(),
            !c.spec_active(),
    {
        let c = ChordAccumulator { held: Vec::new(), chord: Vec::new(), active: false };
        assert(views(c.held@).to_set() =~= Set::<Seq<char>>::empty());
        c
    }

    /// Take both key lists out, leaving an idle accumulator behind.
    fn take_lists(&mut self) -> (r: (Vec<String>, Vec<String>))
        ensures
            sorted_strings(r.0@),
            sorted_strings(r.1@),
            views(r.0@).to_set() == old(self).held_keys(),
            views(r.1@).to_set() == old(self).chord_keys(),
            views(r.0@).to_set().subset_of(views(r.1@).to_set()),
            !old(self).spec_active() ==> r.0@.len() == 0 && r.1@.len() == 0,
            !final(self).spec_active(),
            final(self).held_keys() == Set::<Seq<char>>::empty(),
            final(self).chord_keys() == Set::<Seq<char>>::empty(),
    {
        proof {
            use_type_invariant(&*self);
        }
        let mut taken = ChordAccumulator::new();
        std::mem::swap(&mut taken, self);
        proof {
            use_type_invariant(&taken);
        }
        let ChordAccumulator { held, chord, active: _ } = taken;
        (held, chord)
    }

    /// Register a key press: it joins the current chord. Chords never
    /// complete on a press.
    pub fn press(&mut self, key: &str)
        ensures
            final(self).held_keys() == old(self).held_keys().insert(key@),
            final(self).chord_keys() == old(self).chord_keys().insert(key@),
            final(self).spec_active(),
    {
        let (mut held, mut chord) = self.take_lists();
        insert_text(&mut held, key);
        insert_text(&mut chord, key);
        proof {
            assert(views(held@).to_set().contains(key@));
            if held@.len() == 0 {
                assert(views(held@).to_set() =~= Set::<Seq<char>>::empty());
            }
        }
        *self = ChordAccumulator { held, chord, active: true };
    }

    /// Register a key release. When the last held key of a chord is lifted,
    /// returns every key the chord touched; otherwise `None`.
    pub fn release(&mut self, key: &str) -> (r: Option<Vec<String>>)
        ensures
            ({
                let held = old(self).held_keys().remove(key@);
                if old(self).spec_active() && held.is_empty() {
                    &&& r matches Some(keys) && views(keys@).to_set() == old(self).chord_keys()
                        && no_dup_strings(keys@) && sorted_strings(keys@)
                    &&& !final(self).spec_active()
                    &&& final(self).held_keys() == Set::<Seq<char>>::empty()
                    &&& final(self).chord_keys() == Set::<Seq<char>>::empty()
                } else {
                    &&& r is None
                    &&& final(self).held_keys() == held
                    &&& final(self).chord_keys() == old(self).chord_keys()
                    &&& final(self).spec_active() == old(self).spec_active()
                }
            }),
    {
        let was_active = self.active;
        let (mut held, chord) = self.take_lists();
        remove_text(&mut held, key);
        if was_active && held.len() == 0 {
            assert(views(held@).to_set() =~= Set::<Seq<char>>::empty());
            proof {
                lemma_sorted_no_dup(chord@);
            }
            return Some(chord);
        }
        proof {
            if views(held@).to_set().is_empty() {
                assert(views(held@).len() == 0) by {
                    if views(held@).len() > 0 {
                        assert(views(held@).to_set().contains(views(held@)[0]));
                    }
                }
            }
        }
        if was_active {
            *self = ChordAccumulator { held, chord, active: true };
        } else {
            assert(views(held@).to_set() =~= Set::<Seq<char>>::empty());
        }
        None
    }

    /// Keys currently held, for a live display of the chord being built.
    pub fn held(&self) -> (r: &[String])
        ensures
            views(r@).to_set() == self.held_keys(),
            no_dup_strings(r@),
            sorted_strings(r@),
    {
        proof {
            use_type_invariant(self);
            lemma_sorted_no_dup(self.held@);
        }
        self.held.as_slice()
    }

    /// The chord built so far: held keys plus those already released.
    pub fn building(&self) -> (r: &[String])
        ensures
            views(r@).to_set() == self.chord_keys(),
            no_dup_strings(r@),
            sorted_strings(r@),
    {
        proof {
            use_type_invariant(self);
            lemma_sorted_no_dup(self.chord@);
        }
        self.chord.as_slice()
    }

    /// Whether a chord is in progress: exactly when a key is held. Held keys
    /// always belong to the chord, so a chord in progress has keys and an
    /// idle accumulator holds nothing.
    pub fn is_active(&self) -> (b: bool)
        ensures
            b == self.spec_active(),
            b == !self.held_keys().is_empty(),
            b == !self.chord_keys().is_empty(),
            self.held_keys().subset_of(self.chord_keys()),
    {
        proof {
            use_type_invariant(self);
            if !self.active {
                assert(views(self.held@).to_set() =~= Set::<Seq<char>>::empty());
                assert(views(self.chord@).to_set() =~= Set::<Seq<char>>::empty());
            } else {
                let k = views(self.held@)[0];
                assert(self.held_keys().contains(k));
                assert(self.chord_keys().contains(k));
            }
        }
        self.active
    }

    /// Abandon any chord in progress.
    pub fn reset(&mut self)
        ensures
            !final(self).spec_active(),
            final(self).held_keys() == Set::<Seq<char>>::empty(),
            final(self).chord_keys() == Set::<Seq<char>>::empty(),
    {
        let _ = self.take_lists();
    }
}

} // verus!
