//! From physical keyboard keys to steno keys.
//!
//! Physical keys go by platform-neutral names (`"KeyS"`, `"SemiColon"`), so
//! the core never depends on an OS input library.
use vstd::prelude::*;
use crate::assoc::{assoc_from_pairs, assoc_map, clone_pairs, distinct_keys, find_key, fold_pairs, lemma_assoc_index};
use crate::stroke::StenoKey;
use crate::text::same_text;

verus! {

/// A clone of every key.
pub fn clone_keys(keys: &[StenoKey]) -> (r: Vec<StenoKey>)
    ensures
        r@ == keys@,
{
    let mut r: Vec<StenoKey> = Vec::new();
    let mut i: usize = 0;
    while i < keys.len()
        invariant
            i <= keys.len(),
            r@ == keys@.take(i as int),
        decreases keys.len() - i,
    {
        r.push(keys[i].clone());
        assert(r@ =~= keys@.take(i + 1));
        i += 1;
    }
    assert(keys@.take(keys.len() as int) =~= keys@);
    r
}

/// The physical keys that `m` binds to the steno key `id`.
pub open spec fn bound_to(m: Map<Seq<char>, Seq<char>>, id: Seq<char>) -> Set<Seq<char>> {
    Set::new(|p: Seq<char>| m.contains_key(p) && m[p] == id)
}

/// The steno key geometry of one language pack: the ordered key list and the
/// physical-to-steno mapping.
#[derive(Debug)]
pub struct Layout {
    order: Vec<StenoKey>,
    map: Vec<(String, String)>,
}

impl Clone for Layout {
    fn clone(&self) -> (r: Self)
        ensures
            r.spec_order() == self.spec_order(),
            r.spec_map() == self.spec_map(),
    {
        proof {
            use_type_invariant(self);
        }
        Layout { order: clone_keys(self.order.as_slice()), map: clone_pairs(self.map.as_slice()) }
    }
}

impl Layout {
    #[verifier::type_invariant]
    spec fn wf(self) -> bool {
        distinct_keys(self.map@)
    }

    /// The steno keys in canonical stroke order.
    pub closed spec fn spec_order(&self) -> Seq<StenoKey> {
        self.order@
    }

    /// Physical key name to steno key id.
    pub closed spec fn spec_map(&self) -> Map<Seq<char>, Seq<char>> {
        assoc_map(self.map@)
    }

    /// A layout from its key order and its physical-to-steno pairs; a later
    /// pair for the same physical key replaces an earlier one.
    pub fn new(order: Vec<StenoKey>, map: Vec<(String, String)>) -> (l: Layout)
        ensures
            l.spec_order() == order@,
            l.spec_map() == fold_pairs(map@),
    {
        Layout { order, map: assoc_from_pairs(map) }
    }

    /// The ordered steno key list.
    pub fn order(&self) -> (r: &[StenoKey])
        ensures
            r@ == self.spec_order(),
    {
        self.order.as_slice()
    }

    /// The steno key id bound to a physical key, if that key chords.
    pub fn steno_for(&self, physical: &str) -> (r: Option<&str>)
        ensures
            match r {
                Some(id) => self.spec_map().contains_key(physical@) && self.spec_map()[physical@] == id@,
                None => !self.spec_map().contains_key(physical@),
            },
    {
        proof {
            use_type_invariant(self);
        }
        match find_key(self.map.as_slice(), physical) {
            Some(i) => {
                proof {
                    lemma_assoc_index(self.map@, i as int);
                }
                Some(self.map[i].1.as_str())
            },
            None => None,
        }
    }

    /// Whether a physical key chords at all.
    pub fn is_steno_key(&self, physical: &str) -> (b: bool)
        ensures
            b == self.spec_map().contains_key(physical@),
    {
        proof {
            use_type_invariant(self);
        }
        find_key(self.map.as_slice(), physical).is_some()
    }

    /// Every physical key bound to the steno key `steno_id`, each once.
    pub fn physical_keys_for(&self, steno_id: &str) -> (r: Vec<&str>)
        ensures
            r@.map_values(|p: &str| p@).no_duplicates(),
            r@.map_values(|p: &str| p@).to_set() == bound_to(self.spec_map(), steno_id@),
    {
        proof {
            use_type_invariant(self);
        }
        let ghost m = self.spec_map();
        let mut r: Vec<&str> = Vec::new();
        let ghost mut idx: Seq<int> = Seq::empty();
        let mut i: usize = 0;
        while i < self.map.len()
            invariant
                i <= self.map.len(),
                distinct_keys(self.map@),
                m == assoc_map(self.map@),
                idx.len() == r@.len(),
                forall|j: int| 0 <= j < r@.len() ==> 0 <= #[trigger] idx[j] < i && self.map@[idx[j]].0@ == r@[j]@ && self.map@[idx[j]].1@ == steno_id@,
                forall|a: int, b: int| 0 <= a < b < r@.len() ==> #[trigger] idx[a] < #[trigger] idx[b],
                forall|k: int| 0 <= k < i && #[trigger] self.map@[k].1@ == steno_id@ ==> r@.map_values(|p: &str| p@).contains(self.map@[k].0@),
            decreases self.map.len() - i,
        {
            if same_text(self.map[i].1.as_str(), steno_id) {
                let ghost before = r@.map_values(|p: &str| p@);
                r.push(self.map[i].0.as_str());
                proof {
                    idx = idx.push(i as int);
                }
                assert(r@.map_values(|p: &str| p@) =~= before.push(self.map@[i as int].0@));
                assert forall|k: int| 0 <= k < i + 1 && #[trigger] self.map@[k].1@ == steno_id@ implies r@.map_values(|p: &str| p@).contains(self.map@[k].0@) by {
                    if k < i {
                        let j = choose|j: int| 0 <= j < before.len() && before[j] == self.map@[k].0@;
                        assert(r@.map_values(|p: &str| p@)[j] == self.map@[k].0@);
                    } else {
                        assert(r@.map_values(|p: &str| p@)[before.len() as int] == self.map@[k].0@);
                    }
                }
            }
            i += 1;
        }
        proof {
            let got = r@.map_values(|p: &str| p@);
            assert forall|a: int, b: int| 0 <= a < got.len() && 0 <= b < got.len() && a != b implies got[a] != got[b] by {
                assert(got[a] == self.map@[idx[a]].0@);
                assert(got[b] == self.map@[idx[b]].0@);
                if a < b {
                    assert(idx[a] < idx[b]);
                } else {
                    assert(idx[b] < idx[a]);
                }
            }
            assert forall|p: Seq<char>| got.to_set().contains(p) == bound_to(m, steno_id@).contains(p) by {
                if got.to_set().contains(p) {
                    let j = choose|j: int| 0 <= j < got.len() && got[j] == p;
                    lemma_assoc_index(self.map@, idx[j]);
                }
                if m.contains_key(p) && m[p] == steno_id@ {
                    let k = choose|k: int| 0 <= k < self.map@.len() && #[trigger] self.map@[k].0@ == p;
                    lemma_assoc_index(self.map@, k);
                }
            }
            assert(got.to_set() =~= bound_to(m, steno_id@));
        }
        r
    }
}

} // verus!
