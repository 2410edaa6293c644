//! The engine: the single object the app talks to.
//!
//! It owns the active [`Pack`], a [`ChordAccumulator`] and a [`Translator`],
//! and turns a stream of raw key events into translations. It is pure: no
//! threads, no I/O.
use vstd::prelude::*;
use crate::chord::ChordAccumulator;
use crate::dictionary::{can_wait, consumed_all, faithful, resolve_spec, tviews, Translation, Translator};
use crate::pack::Pack;
use crate::stroke::{render_stroke, rendered, id_set, StenoKey};
use crate::text::{owned, same_text, views};

verus! {

/// A raw keyboard event from the platform capture layer.
#[derive(Debug, Clone)]
pub struct KeyEvent {
    /// Platform-neutral physical key name, e.g. `"KeyS"`.
    pub physical: String,
    /// `true` for key-down, `false` for key-up.
    pub pressed: bool,
}

impl KeyEvent {
    pub fn down(physical: &str) -> (e: KeyEvent)
        ensures
            e.physical@ == physical@,
            e.pressed,
    {
        KeyEvent { physical: owned(physical), pressed: true }
    }

    pub fn up(physical: &str) -> (e: KeyEvent)
        ensures
            e.physical@ == physical@,
            !e.pressed,
    {
        KeyEvent { physical: owned(physical), pressed: false }
    }
}

/// What the engine produced from one key event.
#[derive(Debug, Clone, Default)]
pub struct EngineOutput {
    /// The completed stroke, if this event finished a chord.
    pub stroke: Option<String>,
    /// Translations that became final.
    pub translations: Vec<Translation>,
    /// The completed stroke was the pack's undo command.
    pub undo: bool,
}

impl EngineOutput {
    /// Nothing happened.
    pub open spec fn is_nothing(&self) -> bool {
        self.stroke is None && self.translations@.len() == 0 && !self.undo
    }

    fn empty() -> (o: EngineOutput)
        ensures
            o.is_nothing(),
    {
        EngineOutput { stroke: None, translations: Vec::new(), undo: false }
    }
}

/// The steno key ids that the physical keys `keys` are bound to in `m`.
pub open spec fn steno_ids(m: Map<Seq<char>, Seq<char>>, keys: Set<Seq<char>>) -> Set<Seq<char>> {
    Set::new(|id: Seq<char>| exists|p: Seq<char>| keys.contains(p) && m.contains_key(p) && m[p] == id)
}

/// The ids of the keys of `order` in `ids`, in steno order.
pub open spec fn ids_in_order(order: Seq<StenoKey>, ids: Set<Seq<char>>) -> Seq<Seq<char>>
    decreases order.len(),
{
    if order.len() == 0 {
        Seq::empty()
    } else {
        ids_in_order(order.drop_last(), ids) + if ids.contains(order.last().id@) {
            seq![order.last().id@]
        } else {
            Seq::empty()
        }
    }
}

/// The stateful steno engine.
pub struct Engine {
    pack: Pack,
    chord: ChordAccumulator,
    translator: Translator,
    enabled: bool,
}

impl Engine {
    pub closed spec fn spec_pack(&self) -> Pack {
        self.pack
    }

    pub closed spec fn spec_chord(&self) -> ChordAccumulator {
        self.chord
    }

    /// Strokes pending a longer match.
    pub closed spec fn spec_pending(&self) -> Seq<Seq<char>> {
        self.translator@
    }

    pub closed spec fn spec_enabled(&self) -> bool {
        self.enabled
    }

    /// The stroke the engine renders for the physical keys `keys`.
    pub open spec fn stroke_for(p: Pack, keys: Set<Seq<char>>) -> Seq<char> {
        rendered(p.layout.spec_order(), steno_ids(p.layout.spec_map(), keys))
    }

    pub fn new(pack: Pack) -> (e: Engine)
        ensures
            e.spec_pack() == pack,
            e.spec_enabled(),
            e.spec_pending() == Seq::<Seq<char>>::empty(),
            !e.spec_chord().spec_active(),
            e.spec_chord().chord_keys() == Set::<Seq<char>>::empty(),
            e.spec_chord().held_keys() == Set::<Seq<char>>::empty(),
    {
        Engine { pack, chord: ChordAccumulator::new(), translator: Translator::new(), enabled: true }
    }

    pub fn pack(&self) -> (p: &Pack)
        ensures
            *p == self.spec_pack(),
    {
        &self.pack
    }

    pub fn is_enabled(&self) -> (b: bool)
        ensures
            b == self.spec_enabled(),
    {
        self.enabled
    }

    /// Turn translation on or off. Disabling abandons any chord in progress
    /// and any pending strokes, so re-enabling starts clean.
    pub fn set_enabled(&mut self, on: bool)
        ensures
            final(self).spec_enabled() == on,
            final(self).spec_pack() == old(self).spec_pack(),
            on ==> final(self).spec_chord() == old(self).spec_chord() && final(self).spec_pending() == old(
                self,
            ).spec_pending(),
            !on ==> final(self).spec_pending() == Seq::<Seq<char>>::empty() && !final(self).spec_chord().spec_active()
                && final(self).spec_chord().chord_keys() == Set::<Seq<char>>::empty()
                && final(self).spec_chord().held_keys() == Set::<Seq<char>>::empty(),
    {
        self.enabled = on;
        if !on {
            self.chord.reset();
            self.translator.clear();
        }
    }

    /// Swap the active pack, resetting the chord and pending strokes.
    pub fn set_pack(&mut self, pack: Pack)
        ensures
            final(self).spec_pack() == pack,
            final(self).spec_enabled() == old(self).spec_enabled(),
            final(self).spec_pending() == Seq::<Seq<char>>::empty(),
            !final(self).spec_chord().spec_active(),
            final(self).spec_chord().chord_keys() == Set::<Seq<char>>::empty(),
            final(self).spec_chord().held_keys() == Set::<Seq<char>>::empty(),
    {
        self.pack = pack;
        self.chord.reset();
        self.translator.clear();
    }

    /// Feed one raw key event. Events for keys the layout does not chord, and
    /// every event while disabled, are ignored (they stay ordinary typing). A
    /// press joins the chord; the release that lifts the last held key renders
    /// the chord's stroke, which is either the pack's undo command (pending
    /// strokes are dropped) or handed to the translator.
    pub fn on_key(&mut self, ev: &KeyEvent) -> (out: EngineOutput)
        ensures
            final(self).spec_pack() == old(self).spec_pack(),
            final(self).spec_enabled() == old(self).spec_enabled(),
            ({
                let p = old(self).spec_pack();
                let c = old(self).spec_chord();
                let c2 = final(self).spec_chord();
                let k = ev.physical@;
                if !old(self).spec_enabled() || !p.layout.spec_map().contains_key(k) {
                    &&& out.is_nothing()
                    &&& c2 == c
                    &&& final(self).spec_pending() == old(self).spec_pending()
                } else if ev.pressed {
                    &&& out.is_nothing()
                    &&& c2.held_keys() == c.held_keys().insert(k)
                    &&& c2.chord_keys() == c.chord_keys().insert(k)
                    &&& c2.spec_active()
                    &&& final(self).spec_pending() == old(self).spec_pending()
                } else if !(c.spec_active() && c.held_keys().remove(k).is_empty()) {
                    &&& out.is_nothing()
                    &&& c2.held_keys() == c.held_keys().remove(k)
                    &&& c2.chord_keys() == c.chord_keys()
                    &&& c2.spec_active() == c.spec_active()
                    &&& final(self).spec_pending() == old(self).spec_pending()
                } else {
                    let stroke = Self::stroke_for(p, c.chord_keys());
                    &&& !c2.spec_active()
                    &&& c2.held_keys() == Set::<Seq<char>>::empty()
                    &&& c2.chord_keys() == Set::<Seq<char>>::empty()
                    &&& if stroke.len() == 0 {
                        &&& out.is_nothing()
                        &&& final(self).spec_pending() == old(self).spec_pending()
                    } else if p.undo_stroke@.len() > 0 && stroke == p.undo_stroke@ {
                        &&& out.stroke matches Some(s) && s@ == stroke
                        &&& out.translations@.len() == 0
                        &&& out.undo
                        &&& final(self).spec_pending() == Seq::<Seq<char>>::empty()
                    } else {
                        &&& out.stroke matches Some(s) && s@ == stroke
                        &&& !out.undo
                        &&& (tviews(out.translations@), final(self).spec_pending()) == resolve_spec(
                            p.dict@,
                            p.dict.spec_max_len(),
                            old(self).spec_pending().push(stroke),
                            true,
                        )
                        &&& consumed_all(tviews(out.translations@)) + final(self).spec_pending()
                            == old(self).spec_pending().push(stroke)
                        &&& forall|i: int|
                            0 <= i < out.translations@.len() ==> faithful(p.dict@, #[trigger] tviews(out.translations@)[i])
                        &&& final(self).spec_pending().len() > 0 ==> can_wait(
                            p.dict@,
                            p.dict.spec_max_len(),
                            final(self).spec_pending(),
                        )
                    }
                }
            }),
    {
        if !self.enabled || !self.pack.layout.is_steno_key(ev.physical.as_str()) {
            return EngineOutput::empty();
        }
        if ev.pressed {
            self.chord.press(ev.physical.as_str());
            return EngineOutput::empty();
        }
        let physical_keys = match self.chord.release(ev.physical.as_str()) {
            Some(keys) => keys,
            None => {
                return EngineOutput::empty();
            },
        };
        let steno_ids = self.ids_of(physical_keys.as_slice());
        let stroke = render_stroke(self.pack.layout.order(), steno_ids.as_slice());
        if stroke.as_str().is_empty() {
            return EngineOutput::empty();
        }
        if !self.pack.undo_stroke.as_str().is_empty() && same_text(stroke.as_str(), self.pack.undo_stroke.as_str()) {
            self.translator.clear();
            return EngineOutput { stroke: Some(stroke), translations: Vec::new(), undo: true };
        }
        let translations = self.translator.push(&self.pack.dict, stroke.clone());
        EngineOutput { stroke: Some(stroke), translations, undo: false }
    }

    /// Force-resolve the strokes held pending a longer match (on space,
    /// enter or an idle timeout).
    pub fn flush(&mut self) -> (out: Vec<Translation>)
        ensures
            final(self).spec_pack() == old(self).spec_pack(),
            final(self).spec_enabled() == old(self).spec_enabled(),
            final(self).spec_chord() == old(self).spec_chord(),
            tviews(out@) == resolve_spec(
                old(self).spec_pack().dict@,
                old(self).spec_pack().dict.spec_max_len(),
                old(self).spec_pending(),
                false,
            ).0,
            final(self).spec_pending() == Seq::<Seq<char>>::empty(),
            consumed_all(tviews(out@)) == old(self).spec_pending(),
    {
        self.translator.flush(&self.pack.dict)
    }

    /// Strokes buffered awaiting disambiguation.
    pub fn pending(&self) -> (r: &[String])
        ensures
            views(r@) == self.spec_pending(),
    {
        self.translator.pending()
    }

    /// The steno key ids of the chord being built, in steno order.
    pub fn held_steno_ids(&self) -> (r: Vec<String>)
        ensures
            views(r@) == ids_in_order(
                self.spec_pack().layout.spec_order(),
                steno_ids(self.spec_pack().layout.spec_map(), self.spec_chord().chord_keys()),
            ),
    {
        let held = self.ids_of(self.chord.building());
        let order = self.pack.layout.order();
        let ghost ids = id_set(held@);
        let mut r: Vec<String> = Vec::new();
        let mut i: usize = 0;
        while i < order.len()
            invariant
                i <= order.len(),
                ids == id_set(held@),
                views(r@) == ids_in_order(order@.take(i as int), ids),
            decreases order.len() - i,
        {
            let ghost before = views(r@);
            assert(order@.take(i + 1).drop_last() =~= order@.take(i as int));
            assert(order@.take(i + 1).last() == order@[i as int]);
            if crate::text::contains_text(held.as_slice(), order[i].id.as_str()) {
                r.push(order[i].id.clone());
                assert(views(r@) =~= before + seq![order@[i as int].id@]);
            } else {
                assert(views(r@) =~= before + Seq::<Seq<char>>::empty());
            }
            i += 1;
        }
        assert(order@.take(order.len() as int) =~= order@);
        r
    }

    /// The steno ids of the given physical keys, as a list.
    fn ids_of(&self, physical_keys: &[String]) -> (ids: Vec<String>)
        ensures
            id_set(ids@) == steno_ids(self.pack.layout.spec_map(), views(physical_keys@).to_set()),
    {
        let ghost m = self.pack.layout.spec_map();
        let mut ids: Vec<String> = Vec::new();
        let mut i: usize = 0;
        while i < physical_keys.len()
            invariant
                i <= physical_keys.len(),
                m == self.pack.layout.spec_map(),
                id_set(ids@) == steno_ids(m, views(physical_keys@.take(i as int)).to_set()),
            decreases physical_keys.len() - i,
        {
            let ghost before = ids@;
            let ghost p = physical_keys@[i as int]@;
            assert(views(physical_keys@.take(i + 1)) =~= views(physical_keys@.take(i as int)).push(p));
            proof {
                views(physical_keys@.take(i as int)).lemma_push_to_set_commute(p);
            }
            match self.pack.layout.steno_for(physical_keys[i].as_str()) {
                Some(id) => {
                    ids.push(owned(id));
                    assert(views(ids@) =~= views(before).push(id@));
                    proof {
                        views(before).lemma_push_to_set_commute(id@);
                    }
                    assert(id_set(ids@) =~= steno_ids(m, views(physical_keys@.take(i + 1)).to_set())) by {
                        assert forall|x: Seq<char>| id_set(ids@).contains(x) == steno_ids(m, views(physical_keys@.take(i + 1)).to_set()).contains(x) by {
                            if views(before).to_set().contains(x) {
                                let w = choose|w: Seq<char>| views(physical_keys@.take(i as int)).to_set().contains(w) && m.contains_key(w) && m[w] == x;
                                assert(views(physical_keys@.take(i + 1)).to_set().contains(w));
                            }
                            if x == id@ {
                                assert(views(physical_keys@.take(i + 1)).to_set().contains(p));
                            }
                            if steno_ids(m, views(physical_keys@.take(i + 1)).to_set()).contains(x) {
                                let w = choose|w: Seq<char>| views(physical_keys@.take(i + 1)).to_set().contains(w) && m.contains_key(w) && m[w] == x;
                                if w != p {
                                    assert(views(physical_keys@.take(i as int)).to_set().contains(w));
                                    assert(steno_ids(m, views(physical_keys@.take(i as int)).to_set()).contains(x));
                                }
                            }
                        }
                    }
                },
                None => {
                    assert(id_set(ids@) =~= steno_ids(m, views(physical_keys@.take(i + 1)).to_set())) by {
                        assert forall|x: Seq<char>| id_set(ids@).contains(x) == steno_ids(m, views(physical_keys@.take(i + 1)).to_set()).contains(x) by {
                            if id_set(ids@).contains(x) {
                                let w = choose|w: Seq<char>| views(physical_keys@.take(i as int)).to_set().contains(w) && m.contains_key(w) && m[w] == x;
                                assert(views(physical_keys@.take(i + 1)).to_set().contains(w));
                            }
                            if steno_ids(m, views(physical_keys@.take(i + 1)).to_set()).contains(x) {
                                let w = choose|w: Seq<char>| views(physical_keys@.take(i + 1)).to_set().contains(w) && m.contains_key(w) && m[w] == x;
                                assert(w != p);
                                assert(views(physical_keys@.take(i as int)).to_set().contains(w));
                            }
                        }
                    }
                },
            }
            i += 1;
        }
        assert(physical_keys@.take(physical_keys.len() as int) =~= physical_keys@);
        ids
    }
}

} // verus!
