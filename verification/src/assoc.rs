//! Association lists of strings: a `Vec` of key/value pairs whose keys are
//! all different, read as a finite map.
//!
//! The dictionary, the layout and the curriculum keep their string-keyed
//! tables here rather than in `HashMap` or `HashSet`: vstd's contracts for
//! those hold only when the key type obeys its hashing model
//! (`obeys_key_model`), which vstd establishes for integers, `bool` and
//! `Box`es of them, never for `String`. Keyed by strings, their operations
//! would prove nothing, while this list's operations are proved against the
//! map it stands for.
use vstd::prelude::*;
use crate::text::same_text;

verus! {

/// No key occurs twice.
pub open spec fn distinct_keys(s: Seq<(String, String)>) -> bool {
    forall|i: int, j: int| 0 <= i < j < s.len() ==> #[trigger] s[i].0@ != #[trigger] s[j].0@
}

/// The map an association list with distinct keys stands for.
pub open spec fn assoc_map(s: Seq<(String, String)>) -> Map<Seq<char>, Seq<char>> {
    Map::new(
        |k: Seq<char>| exists|i: int| 0 <= i < s.len() && #[trigger] s[i].0@ == k,
        |k: Seq<char>| s[choose|i: int| 0 <= i < s.len() && #[trigger] s[i].0@ == k].1@,
    )
}

/// The map built by inserting the pairs of `s` in order, later pairs winning.
pub open spec fn fold_pairs(s: Seq<(String, String)>) -> Map<Seq<char>, Seq<char>>
    decreases s.len(),
{
    if s.len() == 0 {
        Map::empty()
    } else {
        fold_pairs(s.drop_last()).insert(s.last().0@, s.last().1@)
    }
}

pub proof fn lemma_assoc_index(s: Seq<(String, String)>, i: int)
    requires
        distinct_keys(s),
        0 <= i < s.len(),
    ensures
        assoc_map(s).contains_key(s[i].0@),
        assoc_map(s)[s[i].0@] == s[i].1@,
{
    let k = s[i].0@;
    assert(s[i].0@ == k);
    let j = choose|j: int| 0 <= j < s.len() && #[trigger] s[j].0@ == k;
    if j != i {
        if j < i {
            assert(s[j].0@ != s[i].0@);
        } else {
            assert(s[i].0@ != s[j].0@);
        }
    }
}

proof fn lemma_assoc_update(s: Seq<(String, String)>, i: int, k: String, v: String)
    requires
        distinct_keys(s),
        0 <= i < s.len(),
        s[i].0@ == k@,
    ensures
        distinct_keys(s.update(i, (k, v))),
        assoc_map(s.update(i, (k, v))) == assoc_map(s).insert(k@, v@),
{
    let t = s.update(i, (k, v));
    assert forall|a: int, b: int| 0 <= a < b < t.len() implies #[trigger] t[a].0@ != #[trigger] t[b].0@ by {
        assert(s[a].0@ != s[b].0@);
    }
    assert forall|key: Seq<char>| #[trigger] assoc_map(t).contains_key(key) == assoc_map(s).insert(k@, v@).contains_key(key) by {
        if assoc_map(s).contains_key(key) {
            let j = choose|j: int| 0 <= j < s.len() && #[trigger] s[j].0@ == key;
            assert(t[j].0@ == key);
        }
        if assoc_map(t).contains_key(key) {
            let j = choose|j: int| 0 <= j < t.len() && #[trigger] t[j].0@ == key;
            assert(s[j].0@ == key);
        }
    }
    assert forall|key: Seq<char>| #[trigger] assoc_map(t).contains_key(key) implies assoc_map(t)[key] == assoc_map(s).insert(k@, v@)[key] by {
        let j = choose|j: int| 0 <= j < t.len() && #[trigger] t[j].0@ == key;
        lemma_assoc_index(t, j);
        if j != i {
            assert(s[j] == t[j]);
            lemma_assoc_index(s, j);
        }
    }
    assert(assoc_map(t) =~= assoc_map(s).insert(k@, v@));
}

proof fn lemma_assoc_push(s: Seq<(String, String)>, k: String, v: String)
    requires
        distinct_keys(s),
        !assoc_map(s).contains_key(k@),
    ensures
        distinct_keys(s.push((k, v))),
        assoc_map(s.push((k, v))) == assoc_map(s).insert(k@, v@),
{
    let t = s.push((k, v));
    assert forall|a: int, b: int| 0 <= a < b < t.len() implies #[trigger] t[a].0@ != #[trigger] t[b].0@ by {
        if b == s.len() {
            assert(s[a].0@ == t[a].0@);
        } else {
            assert(s[a].0@ != s[b].0@);
        }
    }
    assert forall|key: Seq<char>| #[trigger] assoc_map(t).contains_key(key) == assoc_map(s).insert(k@, v@).contains_key(key) by {
        if assoc_map(s).contains_key(key) {
            let j = choose|j: int| 0 <= j < s.len() && #[trigger] s[j].0@ == key;
            assert(t[j].0@ == key);
        }
        if assoc_map(t).contains_key(key) {
            let j = choose|j: int| 0 <= j < t.len() && #[trigger] t[j].0@ == key;
            if j < s.len() {
                assert(s[j].0@ == key);
            }
        }
        if key == k@ {
            assert(t[s.len() as int].0@ == key);
        }
    }
    assert forall|key: Seq<char>| #[trigger] assoc_map(t).contains_key(key) implies assoc_map(t)[key] == assoc_map(s).insert(k@, v@)[key] by {
        let j = choose|j: int| 0 <= j < t.len() && #[trigger] t[j].0@ == key;
        lemma_assoc_index(t, j);
        if j < s.len() {
            assert(s[j] == t[j]);
            lemma_assoc_index(s, j);
        }
    }
    assert(assoc_map(t) =~= assoc_map(s).insert(k@, v@));
}

/// Position of `key` in `s`, if it occurs.
pub fn find_key(s: &[(String, String)], key: &str) -> (r: Option<usize>)
    requires
        distinct_keys(s@),
    ensures
        match r {
            Some(i) => i < s@.len() && s@[i as int].0@ == key@ && assoc_map(s@).contains_key(key@),
            None => !assoc_map(s@).contains_key(key@),
        },
{
    let mut i: usize = 0;
    while i < s.len()
        invariant
            i <= s.len(),
            forall|j: int| 0 <= j < i ==> #[trigger] s@[j].0@ != key@,
        decreases s.len() - i,
    {
        if same_text(s[i].0.as_str(), key) {
            assert(s@[i as int].0@ == key@);
            return Some(i);
        }
        i += 1;
    }
    None
}

/// Set `key` to `value`, replacing any earlier value.
pub fn insert_pair(s: &mut Vec<(String, String)>, key: String, value: String)
    requires
        distinct_keys(old(s)@),
    ensures
        distinct_keys(final(s)@),
        assoc_map(final(s)@) == assoc_map(old(s)@).insert(key@, value@),
{
    match find_key(s.as_slice(), key.as_str()) {
        Some(i) => {
            proof {
                lemma_assoc_update(s@, i as int, key, value);
            }
            s.set(i, (key, value));
        },
        None => {
            proof {
                lemma_assoc_push(s@, key, value);
            }
            s.push((key, value));
        },
    }
}

/// Clone of every pair.
pub fn clone_pairs(s: &[(String, String)]) -> (r: Vec<(String, String)>)
    ensures
        r@ == s@,
{
    let mut r: Vec<(String, String)> = Vec::new();
    let mut i: usize = 0;
    while i < s.len()
        invariant
            i <= s.len(),
            r@ == s@.take(i as int),
        decreases s.len() - i,
    {
        r.push((s[i].0.clone(), s[i].1.clone()));
        assert(r@ =~= s@.take(i + 1));
        i += 1;
    }
    assert(s@.take(s.len() as int) =~= s@);
    r
}

/// An association list with distinct keys standing for the map built by
/// inserting the pairs of `pairs` in order, so that a later pair for a key
/// wins over an earlier one.
pub fn assoc_from_pairs(pairs: Vec<(String, String)>) -> (r: Vec<(String, String)>)
    ensures
        distinct_keys(r@),
        assoc_map(r@) == fold_pairs(pairs@),
{
    let mut r: Vec<(String, String)> = Vec::new();
    let mut i: usize = 0;
    assert(assoc_map(r@) =~= Map::<Seq<char>, Seq<char>>::empty());
    while i < pairs.len()
        invariant
            i <= pairs.len(),
            distinct_keys(r@),
            assoc_map(r@) == fold_pairs(pairs@.take(i as int)),
        decreases pairs.len() - i,
    {
        assert(pairs@.take(i + 1).drop_last() =~= pairs@.take(i as int));
        insert_pair(&mut r, pairs[i].0.clone(), pairs[i].1.clone());
        i += 1;
    }
    assert(pairs@.take(pairs.len() as int) =~= pairs@);
    r
}

} // verus!
