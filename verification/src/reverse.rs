//! The dictionary read backwards: text to the strokes that write it.
//!
//! Learners ask "how do I write *cat*?" rather than "what did I just write?".
//! A dictionary may spell a text several ways, so the index also picks the
//! best spelling: fewest strokes, then fewest characters, then alphabetical.
use vstd::prelude::*;
use crate::assoc::{assoc_map, distinct_keys, lemma_assoc_index};
use crate::dictionary::Dictionary;
use crate::text::{contains_chars, contains_seq, occurs_at, occurs_at_exec, owned, string_of, trim_chars, trimmed, chars_of, join_slash, join_strokes, lemma_join_split, lemma_lex_asymmetric, lemma_lex_irreflexive, lemma_lex_total, lemma_lex_transitive, lex_less, lex_lt, split_slash, split_strokes, views};

verus! {

/// One dictionary entry, with its strokes kept apart.
#[derive(Debug, Clone, PartialEq, Eq)]
pub struct Entry {
    /// The strokes to chord, in order (`["KAT", "-S"]`).
    pub strokes: Vec<String>,
    /// The text they produce.
    pub text: String,
}

impl Entry {
    /// The dictionary key: the strokes joined by `/`.
    pub open spec fn spec_key(&self) -> Seq<char> {
        join_strokes(views(self.strokes@))
    }

    /// The dictionary key form (`"KAT/-S"`).
    pub fn key(&self) -> (k: String)
        ensures
            k@ == self.spec_key(),
    {
        join_slash(self.strokes.as_slice())
    }

    /// Whether this spelling is preferred to `other`: fewer strokes, then a
    /// shorter key, then the alphabetically earlier key.
    fn is_better_than(&self, other: &Entry) -> (b: bool)
        ensures
            b == better(*self, *other),
    {
        let a = chars_of(self.key().as_str());
        let c = chars_of(other.key().as_str());
        if self.strokes.len() != other.strokes.len() {
            return self.strokes.len() < other.strokes.len();
        }
        if a.len() != c.len() {
            return a.len() < c.len();
        }
        lex_less(a.as_slice(), c.as_slice())
    }
}

/// `a` is a better spelling than `b`.
pub open spec fn better(a: Entry, b: Entry) -> bool {
    let (ka, kb) = (a.spec_key(), b.spec_key());
    ||| a.strokes@.len() < b.strokes@.len()
    ||| a.strokes@.len() == b.strokes@.len() && ka.len() < kb.len()
    ||| a.strokes@.len() == b.strokes@.len() && ka.len() == kb.len() && lex_lt(ka, kb)
}

/// Browsing order: by text, then by key.
pub open spec fn entry_lt(a: Entry, b: Entry) -> bool {
    ||| lex_lt(a.text@, b.text@)
    ||| a.text@ == b.text@ && lex_lt(a.spec_key(), b.spec_key())
}

/// Strictly increasing in browsing order.
pub open spec fn sorted_entries(s: Seq<Entry>) -> bool {
    forall|i: int, j: int| 0 <= i < j < s.len() ==> entry_lt(#[trigger] s[i], #[trigger] s[j])
}

/// Entry `i` of `all` is the best spelling of its text.
pub open spec fn is_best(all: Seq<Entry>, i: int) -> bool {
    forall|j: int| 0 <= j < all.len() && j != i && #[trigger] all[j].text@ == all[i].text@ ==> better(all[i], all[j])
}

/// The entry `e` is the dictionary entry for its key: its strokes are the
/// key's strokes and its text the key's text.
pub open spec fn entry_of(m: Map<Seq<char>, Seq<char>>, e: Entry) -> bool {
    &&& m.contains_key(e.spec_key())
    &&& m[e.spec_key()] == e.text@
    &&& views(e.strokes@) == split_strokes(e.spec_key())
}

proof fn lemma_entry_lt_transitive(a: Entry, b: Entry, c: Entry)
    requires
        entry_lt(a, b),
        entry_lt(b, c),
    ensures
        entry_lt(a, c),
{
    if lex_lt(a.text@, b.text@) && lex_lt(b.text@, c.text@) {
        lemma_lex_transitive(a.text@, b.text@, c.text@);
    } else if lex_lt(a.spec_key(), b.spec_key()) && lex_lt(b.spec_key(), c.spec_key()) && a.text@ == b.text@ && b.text@ == c.text@ {
        lemma_lex_transitive(a.spec_key(), b.spec_key(), c.spec_key());
    }
}

proof fn lemma_entry_lt_total(a: Entry, b: Entry)
    requires
        a.spec_key() != b.spec_key(),
    ensures
        entry_lt(a, b) || entry_lt(b, a),
        !(entry_lt(a, b) && entry_lt(b, a)),
{
    lemma_lex_total(a.text@, b.text@);
    lemma_lex_total(a.spec_key(), b.spec_key());
    lemma_lex_asymmetric(a.text@, b.text@);
    lemma_lex_asymmetric(a.spec_key(), b.spec_key());
    lemma_lex_irreflexive(a.text@);
}

proof fn lemma_better_total(a: Entry, b: Entry)
    requires
        a.spec_key() != b.spec_key(),
    ensures
        better(a, b) || better(b, a),
        !(better(a, b) && better(b, a)),
{
    lemma_lex_total(a.spec_key(), b.spec_key());
    lemma_lex_asymmetric(a.spec_key(), b.spec_key());
}

proof fn lemma_better_transitive(a: Entry, b: Entry, c: Entry)
    requires
        better(a, b),
        better(b, c),
    ensures
        better(a, c),
{
    if a.strokes@.len() == b.strokes@.len() && b.strokes@.len() == c.strokes@.len() && a.spec_key().len()
        == b.spec_key().len() && b.spec_key().len() == c.spec_key().len() {
        lemma_lex_transitive(a.spec_key(), b.spec_key(), c.spec_key());
    }
}

/// Whether `a` comes before `b` in browsing order.
fn entry_less(a: &Entry, b: &Entry) -> (r: bool)
    ensures
        r == entry_lt(*a, *b),
{
    let ta = chars_of(a.text.as_str());
    let tb = chars_of(b.text.as_str());
    if lex_less(ta.as_slice(), tb.as_slice()) {
        return true;
    }
    if !crate::text::same_chars(ta.as_slice(), tb.as_slice()) {
        return false;
    }
    let ka = chars_of(a.key().as_str());
    let kb = chars_of(b.key().as_str());
    lex_less(ka.as_slice(), kb.as_slice())
}

/// Insert `e` into a sorted list, keeping it sorted, when no element has
/// its key.
fn insert_sorted(v: &mut Vec<Entry>, e: Entry)
    requires
        sorted_entries(old(v)@),
        forall|i: int| 0 <= i < old(v)@.len() ==> #[trigger] old(v)@[i].spec_key() != e.spec_key(),
    ensures
        sorted_entries(final(v)@),
        final(v)@.len() == old(v)@.len() + 1,
        forall|x: Entry| #[trigger] final(v)@.contains(x) <==> old(v)@.contains(x) || x == e,
{
    let mut p: usize = 0;
    while p < v.len() && !entry_less(&e, &v[p])
        invariant
            p <= v.len(),
            forall|i: int| 0 <= i < p ==> entry_lt(#[trigger] v@[i], e),
            forall|i: int| 0 <= i < v@.len() ==> #[trigger] v@[i].spec_key() != e.spec_key(),
        decreases v.len() - p,
    {
        proof {
            lemma_entry_lt_total(v@[p as int], e);
        }
        p += 1;
    }
    let ghost before = v@;
    assert(p < v@.len() ==> entry_lt(e, v@[p as int]));
    v.insert(p, e);
    proof {
        assert forall|i: int, j: int| 0 <= i < j < v@.len() implies entry_lt(#[trigger] v@[i], #[trigger] v@[j]) by {
            if j < p {
                assert(v@[i] == before[i] && v@[j] == before[j]);
            } else if j == p {
                assert(v@[i] == before[i]);
            } else if i > p {
                assert(v@[i] == before[i - 1] && v@[j] == before[j - 1]);
            } else if i == p {
                assert(v@[j] == before[j - 1]);
                if j - 1 > p {
                    lemma_entry_lt_transitive(e, before[p as int], before[j - 1]);
                }
            } else {
                assert(v@[i] == before[i] && v@[j] == before[j - 1]);
                if j - 1 > p {
                    lemma_entry_lt_transitive(e, before[p as int], before[j - 1]);
                }
                lemma_entry_lt_transitive(before[i], e, before[j - 1]);
            }
        }
        assert(v@ =~= before.insert(p as int, e));
        assert forall|x: Entry| #[trigger] v@.contains(x) <==> before.contains(x) || x == e by {
            if v@.contains(x) {
                let k = choose|k: int| 0 <= k < v@.len() && v@[k] == x;
                if k < p {
                    assert(before[k] == x);
                } else if k > p {
                    assert(before[k - 1] == x);
                }
            }
            if before.contains(x) {
                let k = choose|k: int| 0 <= k < before.len() && before[k] == x;
                if k < p {
                    assert(v@[k] == x);
                } else {
                    assert(v@[k + 1] == x);
                }
            }
            if x == e {
                assert(v@[p as int] == x);
            }
        }
    }
}

/// Texts never decrease along a sorted list.
proof fn lemma_sorted_texts(all: Seq<Entry>, i: int, j: int)
    requires
        sorted_entries(all),
        0 <= i < j < all.len(),
    ensures
        lex_lt(all[i].text@, all[j].text@) || all[i].text@ == all[j].text@,
{
    assert(entry_lt(all[i], all[j]));
}

/// Entries whose texts lie on both sides of a text boundary differ in text.
proof fn lemma_text_boundary(all: Seq<Entry>, a: int, b: int, j: int)
    requires
        sorted_entries(all),
        0 <= a < b < all.len(),
        b == a + 1,
        all[a].text@ != all[b].text@,
        0 <= j < all.len(),
    ensures
        j <= a ==> all[j].text@ != all[b].text@,
        j >= b ==> all[j].text@ != all[a].text@,
{
    lemma_sorted_texts(all, a, b);
    if j < a {
        lemma_sorted_texts(all, j, a);
        if all[j].text@ != all[a].text@ {
            lemma_lex_transitive(all[j].text@, all[a].text@, all[b].text@);
        }
        lemma_lex_irreflexive(all[b].text@);
    }
    if j > b {
        lemma_sorted_texts(all, b, j);
        if all[b].text@ != all[j].text@ {
            lemma_lex_transitive(all[a].text@, all[b].text@, all[j].text@);
        }
        lemma_lex_irreflexive(all[a].text@);
    }
}

/// What `str::to_lowercase` gives for a text.
pub uninterp spec fn lowercase(s: Seq<char>) -> Seq<char>;

/// What `str::to_uppercase` gives for a text.
pub uninterp spec fn uppercase(s: Seq<char>) -> Seq<char>;

/// Calls `str::to_lowercase`; the contract only names the result.
#[verifier::external_body]
fn to_lower(s: &str) -> (r: String)
    ensures
        r@ == lowercase(s@),
{
    s.to_lowercase()
}

/// Calls `str::to_uppercase`; the contract only names the result.
#[verifier::external_body]
fn to_upper(s: &str) -> (r: String)
    ensures
        r@ == uppercase(s@),
{
    s.to_uppercase()
}

/// How well an entry matches a search: 0 exact text, 1 exact strokes, 2 text
/// prefix, 3 stroke prefix, 4 text substring, 5 stroke substring, 6 no match.
/// `text_q` is compared with the lower-cased text, `stroke_q` with the key.
pub open spec fn rank_of(e: Entry, text_q: Seq<char>, stroke_q: Seq<char>) -> int {
    let text = lowercase(e.text@);
    let key = e.spec_key();
    if text == text_q {
        0
    } else if key == stroke_q {
        1
    } else if text_q.is_prefix_of(text) {
        2
    } else if stroke_q.is_prefix_of(key) {
        3
    } else if contains_seq(text, text_q) {
        4
    } else if contains_seq(key, stroke_q) {
        5
    } else {
        6
    }
}

/// The entries of `all` with the given rank, in order.
pub open spec fn with_rank(all: Seq<Entry>, r: int, text_q: Seq<char>, stroke_q: Seq<char>) -> Seq<Entry>
    decreases all.len(),
{
    if all.len() == 0 {
        Seq::empty()
    } else {
        with_rank(all.drop_last(), r, text_q, stroke_q) + if rank_of(all.last(), text_q, stroke_q) == r {
            seq![all.last()]
        } else {
            Seq::empty()
        }
    }
}

/// The matching entries of `all`, best rank first, keeping their order
/// within a rank.
pub open spec fn ranked_from(all: Seq<Entry>, r: int, text_q: Seq<char>, stroke_q: Seq<char>) -> Seq<Entry>
    decreases 6 - r,
{
    if r >= 6 || r < 0 {
        Seq::empty()
    } else {
        with_rank(all, r, text_q, stroke_q) + ranked_from(all, r + 1, text_q, stroke_q)
    }
}

/// The first `limit` of `s`.
pub open spec fn first_n(s: Seq<Entry>, limit: int) -> Seq<Entry> {
    if limit < s.len() {
        s.take(limit)
    } else {
        s
    }
}

/// What a search for `query` returns: with a blank query, the first `limit`
/// entries; otherwise the entries whose text (lower-cased) or strokes match
/// the trimmed query (lower-cased for text, upper-cased for strokes), exact
/// matches before prefixes before substrings, text before strokes, and in
/// browsing order within each rank, at most `limit` of them.
pub open spec fn search_result(all: Seq<Entry>, query: Seq<char>, limit: int) -> Seq<Entry> {
    let q = trimmed(query);
    if q.len() == 0 {
        first_n(all, limit)
    } else {
        first_n(ranked_from(all, 0, lowercase(q), uppercase(q)), limit)
    }
}

/// The entries a list of references points at.
pub open spec fn derefs(r: Seq<&Entry>) -> Seq<Entry> {
    r.map_values(|e: &Entry| *e)
}

fn rank(entry: &Entry, text_q: &[char], stroke_q: &[char]) -> (r: u8)
    ensures
        r as int == rank_of(*entry, text_q@, stroke_q@),
{
    let lower = to_lower(entry.text.as_str());
    let text = chars_of(lower.as_str());
    let key = chars_of(entry.key().as_str());
    if crate::text::same_chars(text.as_slice(), text_q) {
        0
    } else if crate::text::same_chars(key.as_slice(), stroke_q) {
        1
    } else if occurs_at_exec(text.as_slice(), 0, text_q) {
        assert(text@.subrange(0, text_q@.len() as int) == text_q@);
        2
    } else if occurs_at_exec(key.as_slice(), 0, stroke_q) {
        assert(key@.subrange(0, stroke_q@.len() as int) == stroke_q@);
        3
    } else if contains_chars(text.as_slice(), text_q) {
        assert(!text_q@.is_prefix_of(text@)) by {
            if text_q@.is_prefix_of(text@) {
                assert(occurs_at(text@, 0, text_q@));
            }
        }
        assert(!stroke_q@.is_prefix_of(key@)) by {
            if stroke_q@.is_prefix_of(key@) {
                assert(occurs_at(key@, 0, stroke_q@));
            }
        }
        4
    } else {
        assert(!text_q@.is_prefix_of(text@)) by {
            if text_q@.is_prefix_of(text@) {
                assert(occurs_at(text@, 0, text_q@));
            }
        }
        assert(!stroke_q@.is_prefix_of(key@)) by {
            if stroke_q@.is_prefix_of(key@) {
                assert(occurs_at(key@, 0, stroke_q@));
            }
        }
        if contains_chars(key.as_slice(), stroke_q) {
            5
        } else {
            6
        }
    }
}

/// `all` lists the entries of `m`, one per key, sorted by text and then by
/// key.
pub open spec fn indexes(m: Map<Seq<char>, Seq<char>>, all: Seq<Entry>) -> bool {
    &&& sorted_entries(all)
    &&& forall|i: int| 0 <= i < all.len() ==> entry_of(m, #[trigger] all[i])
    &&& forall|k: Seq<char>| #[trigger] m.contains_key(k) ==> exists|i: int| 0 <= i < all.len() && #[trigger] all[i].spec_key() == k
}

/// Some entry listed in `best` has the text of entry `i`.
pub open spec fn text_covered(all: Seq<Entry>, best: Seq<usize>, i: int) -> bool {
    exists|k: int| 0 <= k < best.len() && all[best[k] as int].text@ == all[i].text@
}

/// `e` is an entry of `all` and the best spelling of its text.
pub open spec fn best_in(all: Seq<Entry>, e: Entry) -> bool {
    exists|i: int| 0 <= i < all.len() && all[i] == e && is_best(all, i)
}

/// The entry `e` is among those `r` lists.
pub open spec fn listed(r: Seq<&Entry>, e: Entry) -> bool {
    exists|k: int| 0 <= k < r.len() && *r[k] == e
}

/// An inverted view of a [`Dictionary`].
#[derive(Debug)]
pub struct ReverseIndex {
    all: Vec<Entry>,
    best_order: Vec<usize>,
}

impl ReverseIndex {
    #[verifier::type_invariant]
    spec fn wf(self) -> bool {
        &&& sorted_entries(self.all@)
        &&& forall|k: int, l: int| 0 <= k < l < self.best_order@.len() ==> #[trigger] self.best_order@[k] < #[trigger] self.best_order@[l]
        &&& forall|k: int| 0 <= k < self.best_order@.len() ==> #[trigger] self.best_order@[k] < self.all@.len() && is_best(self.all@, self.best_order@[k] as int)
        &&& forall|i: int| 0 <= i < self.all@.len() ==> #[trigger] text_covered(self.all@, self.best_order@, i)
    }

    /// Every entry, in browsing order.
    pub closed spec fn spec_all(&self) -> Seq<Entry> {
        self.all@
    }

    /// Build the index of a dictionary: one entry per dictionary key, sorted
    /// by text and then by key.
    pub fn build(dict: &Dictionary) -> (r: ReverseIndex)
        ensures
            indexes(dict@, r.spec_all()),
    {
        let pairs = dict.entries();
        let mut all: Vec<Entry> = Vec::new();
        let mut n: usize = 0;
        while n < pairs.len()
            invariant
                n <= pairs.len(),
                distinct_keys(pairs@),
                assoc_map(pairs@) == dict@,
                sorted_entries(all@),
                forall|x: Entry| #[trigger] all@.contains(x) ==> exists|j: int| 0 <= j < n && x.spec_key() == #[trigger] pairs@[j].0@ && x.text@ == pairs@[j].1@ && views(x.strokes@) == split_strokes(x.spec_key()),
                forall|j: int| 0 <= j < n ==> exists|i: int| 0 <= i < all@.len() && #[trigger] all@[i].spec_key() == #[trigger] pairs@[j].0@,
            decreases pairs.len() - n,
        {
            let strokes = split_slash(pairs[n].0.as_str());
            let e = Entry { strokes, text: pairs[n].1.clone() };
            proof {
                lemma_join_split(pairs@[n as int].0@);
                assert forall|i: int| 0 <= i < all@.len() implies #[trigger] all@[i].spec_key() != e.spec_key() by {
                    assert(all@.contains(all@[i]));
                    let j = choose|j: int| 0 <= j < n && all@[i].spec_key() == #[trigger] pairs@[j].0@ && all@[i].text@ == pairs@[j].1@ && views(all@[i].strokes@) == split_strokes(all@[i].spec_key());
                    assert(pairs@[j].0@ != pairs@[n as int].0@);
                }
            }
            let ghost before = all@;
            insert_sorted(&mut all, e);
            proof {
                assert forall|j: int| 0 <= j < n + 1 implies exists|i: int| 0 <= i < all@.len() && #[trigger] all@[i].spec_key() == #[trigger] pairs@[j].0@ by {
                    if j < n {
                        let i = choose|i: int| 0 <= i < before.len() && #[trigger] before[i].spec_key() == #[trigger] pairs@[j].0@;
                        assert(before.contains(before[i]));
                        assert(all@.contains(before[i]));
                        let i2 = choose|i2: int| 0 <= i2 < all@.len() && all@[i2] == before[i];
                        assert(all@[i2].spec_key() == pairs@[j].0@);
                    } else {
                        assert(all@.contains(e));
                        let i2 = choose|i2: int| 0 <= i2 < all@.len() && all@[i2] == e;
                        assert(all@[i2].spec_key() == pairs@[j].0@);
                    }
                }
            }
            n += 1;
        }
        proof {
            assert forall|i: int| 0 <= i < all@.len() implies entry_of(dict@, #[trigger] all@[i]) by {
                assert(all@.contains(all@[i]));
                let j = choose|j: int| 0 <= j < n && all@[i].spec_key() == #[trigger] pairs@[j].0@ && all@[i].text@ == pairs@[j].1@ && views(all@[i].strokes@) == split_strokes(all@[i].spec_key());
                lemma_assoc_index(pairs@, j);
            }
            assert forall|k: Seq<char>| #[trigger] dict@.contains_key(k) implies exists|i: int| 0 <= i < all@.len() && #[trigger] all@[i].spec_key() == k by {
                let j = choose|j: int| 0 <= j < pairs@.len() && #[trigger] pairs@[j].0@ == k;
                let i = choose|i: int| 0 <= i < all@.len() && #[trigger] all@[i].spec_key() == #[trigger] pairs@[j].0@;
            }
        }
        let best_order = Self::best_of(&all);
        ReverseIndex { all, best_order }
    }

    /// For each run of entries with the same text, the position of its best
    /// spelling.
    fn best_of(all: &Vec<Entry>) -> (r: Vec<usize>)
        requires
            sorted_entries(all@),
        ensures
            forall|k: int, l: int| 0 <= k < l < r@.len() ==> #[trigger] r@[k] < #[trigger] r@[l],
            forall|k: int| 0 <= k < r@.len() ==> #[trigger] r@[k] < all@.len() && is_best(all@, r@[k] as int),
            forall|i: int| 0 <= i < all@.len() ==> #[trigger] text_covered(all@, r@, i),
    {
        let mut best: Vec<usize> = Vec::new();
        let mut i: usize = 0;
        while i < all.len()
            invariant
                i <= all.len(),
                sorted_entries(all@),
                0 < i < all.len() ==> all@[i - 1].text@ != all@[i as int].text@,
                forall|k: int, l: int| 0 <= k < l < best@.len() ==> #[trigger] best@[k] < #[trigger] best@[l],
                forall|k: int| 0 <= k < best@.len() ==> #[trigger] best@[k] < i && is_best(all@, best@[k] as int),
                forall|x: int| 0 <= x < i ==> #[trigger] text_covered(all@, best@, x),
            decreases all.len() - i,
        {
            let t = chars_of(all[i].text.as_str());
            let mut m: usize = i;
            let mut g: usize = i + 1;
            while g < all.len() && crate::text::same_chars(chars_of(all[g].text.as_str()).as_slice(), t.as_slice())
                invariant
                    i < g <= all.len(),
                    i <= m < g,
                    t@ == all@[i as int].text@,
                    sorted_entries(all@),
                    forall|x: int| i <= x < g ==> #[trigger] all@[x].text@ == t@,
                    forall|x: int| i <= x < g && x != m ==> better(all@[m as int], #[trigger] all@[x]),
                decreases all.len() - g,
            {
                if all[g].is_better_than(&all[m]) {
                    proof {
                        assert forall|x: int| i <= x < g + 1 && x != g implies better(all@[g as int], #[trigger] all@[x]) by {
                            if x != m {
                                lemma_better_transitive(all@[g as int], all@[m as int], all@[x]);
                            }
                        }
                    }
                    m = g;
                } else {
                    proof {
                        assert(entry_lt(all@[m as int], all@[g as int]) || entry_lt(all@[g as int], all@[m as int]));
                        lemma_lex_irreflexive(all@[g as int].text@);
                        assert(all@[m as int].spec_key() != all@[g as int].spec_key()) by {
                            if m < g {
                                assert(entry_lt(all@[m as int], all@[g as int]));
                                lemma_lex_irreflexive(all@[g as int].spec_key());
                            }
                        }
                        lemma_better_total(all@[g as int], all@[m as int]);
                    }
                }
                g += 1;
            }
            proof {
                // texts outside the run differ from the run's text
                assert forall|j: int| 0 <= j < all@.len() && j != m && #[trigger] all@[j].text@ == all@[m as int].text@ implies better(all@[m as int], all@[j]) by {
                    if j < i {
                        lemma_text_boundary(all@, i - 1, i as int, j);
                    } else if j >= g {
                        lemma_text_boundary(all@, g - 1, g as int, j);
                    }
                }
            }
            let ghost before = best@;
            best.push(m);
            proof {
                assert forall|x: int| 0 <= x < g implies #[trigger] text_covered(all@, best@, x) by {
                    if x < i {
                        assert(text_covered(all@, before, x));
                        let k = choose|k: int| 0 <= k < before.len() && all@[before[k] as int].text@ == all@[x].text@;
                        assert(best@[k] == before[k]);
                    } else {
                        assert(best@[before.len() as int] == m);
                        assert(all@[best@[before.len() as int] as int].text@ == all@[x].text@);
                    }
                }
                assert(g < all@.len() ==> all@[g - 1].text@ != all@[g as int].text@);
            }
            i = g;
        }
        best
    }

    /// Every entry, in browsing order (by text, then by key).
    pub fn entries(&self) -> (r: &[Entry])
        ensures
            r@ == self.spec_all(),
    {
        self.all.as_slice()
    }

    pub fn len(&self) -> (n: usize)
        ensures
            n == self.spec_all().len(),
    {
        self.all.len()
    }

    pub fn is_empty(&self) -> (b: bool)
        ensures
            b == (self.spec_all().len() == 0),
    {
        self.all.len() == 0
    }

    /// The best entry for some text, or `None` if no entry produces it.
    pub fn entry_for(&self, text: &str) -> (r: Option<&Entry>)
        ensures
            match r {
                Some(e) => best_in(self.spec_all(), *e) && e.text@ == text@,
                None => forall|i: int| 0 <= i < self.spec_all().len() ==> #[trigger] self.spec_all()[i].text@ != text@,
            },
    {
        proof {
            use_type_invariant(self);
        }
        let mut k: usize = 0;
        while k < self.best_order.len()
            invariant
                k <= self.best_order.len(),
                forall|j: int| 0 <= j < self.best_order@.len() ==> #[trigger] self.best_order@[j] < self.all@.len() && is_best(self.all@, self.best_order@[j] as int),
                forall|j: int| 0 <= j < k ==> #[trigger] self.all@[self.best_order@[j] as int].text@ != text@,
            decreases self.best_order.len() - k,
        {
            let b = self.best_order[k];
            if crate::text::same_text(self.all[b].text.as_str(), text) {
                assert(is_best(self.spec_all(), b as int));
                assert(self.spec_all()[b as int] == self.all[b as int]);
                return Some(&self.all[b]);
            }
            k += 1;
        }
        proof {
            assert forall|i: int| 0 <= i < self.all@.len() implies #[trigger] self.all@[i].text@ != text@ by {
                assert(text_covered(self.all@, self.best_order@, i));
                let j = choose|j: int| 0 <= j < self.best_order@.len() && self.all@[self.best_order@[j] as int].text@ == self.all@[i].text@;
            }
        }
        None
    }

    /// The strokes of the best entry for some text.
    pub fn strokes_for(&self, text: &str) -> (r: Option<&[String]>)
        ensures
            match r {
                Some(s) => exists|e: Entry| best_in(self.spec_all(), e) && e.strokes@ == s@ && e.text@ == text@,
                None => forall|i: int| 0 <= i < self.spec_all().len() ==> #[trigger] self.spec_all()[i].text@ != text@,
            },
    {
        match self.entry_for(text) {
            Some(e) => Some(e.strokes.as_slice()),
            None => None,
        }
    }

    /// One entry per distinct text, the best spelling of each, in text
    /// order: the candidates a drill can tell apart.
    pub fn best_entries(&self) -> (r: Vec<&Entry>)
        ensures
            forall|k: int| 0 <= k < r@.len() ==> best_in(self.spec_all(), *#[trigger] r@[k]),
            forall|i: int| 0 <= i < self.spec_all().len() && is_best(self.spec_all(), i) ==> #[trigger] listed(r@, self.spec_all()[i]),
            forall|k: int, l: int| 0 <= k < l < r@.len() ==> entry_lt(*#[trigger] r@[k], *#[trigger] r@[l]),
            forall|k: int, l: int| 0 <= k < l < r@.len() ==> (*#[trigger] r@[k]).text@ != (*#[trigger] r@[l]).text@,
    {
        proof {
            use_type_invariant(self);
        }
        let mut r: Vec<&Entry> = Vec::new();
        let mut k: usize = 0;
        while k < self.best_order.len()
            invariant
                k <= self.best_order.len(),
                sorted_entries(self.all@),
                forall|a: int, b: int| 0 <= a < b < self.best_order@.len() ==> #[trigger] self.best_order@[a] < #[trigger] self.best_order@[b],
                forall|j: int| 0 <= j < self.best_order@.len() ==> #[trigger] self.best_order@[j] < self.all@.len() && is_best(self.all@, self.best_order@[j] as int),
                r@.len() == k,
                forall|j: int| 0 <= j < k ==> #[trigger] r@[j] == self.all@[self.best_order@[j] as int],
            decreases self.best_order.len() - k,
        {
            r.push(&self.all[self.best_order[k]]);
            k += 1;
        }
        proof {
            assert forall|k: int| 0 <= k < r@.len() implies best_in(self.spec_all(), *#[trigger] r@[k]) by {
                let i = self.best_order@[k] as int;
                assert(*r@[k] == self.spec_all()[i] && is_best(self.spec_all(), i));
            }
            assert forall|i: int| 0 <= i < self.all@.len() && is_best(self.all@, i) implies #[trigger] listed(r@, self.all@[i]) by {
                assert(text_covered(self.all@, self.best_order@, i));
                let k = choose|k: int| 0 <= k < self.best_order@.len() && self.all@[self.best_order@[k] as int].text@ == self.all@[i].text@;
                let b = self.best_order@[k] as int;
                if b != i {
                    assert(better(self.all@[b], self.all@[i]));
                    assert(better(self.all@[i], self.all@[b]));
                    assert(self.all@[b].spec_key() != self.all@[i].spec_key()) by {
                        if b < i {
                            assert(entry_lt(self.all@[b], self.all@[i]));
                        } else {
                            assert(entry_lt(self.all@[i], self.all@[b]));
                        }
                        lemma_lex_irreflexive(self.all@[i].spec_key());
                        lemma_lex_irreflexive(self.all@[i].text@);
                    }
                    lemma_better_total(self.all@[b], self.all@[i]);
                }
                assert(*r@[k] == self.all@[i]);
            }
            assert forall|a: int, b: int| 0 <= a < b < r@.len() implies entry_lt(*#[trigger] r@[a], *#[trigger] r@[b]) by {
                assert(self.best_order@[a] < self.best_order@[b]);
            }
            assert forall|a: int, b: int| 0 <= a < b < r@.len() implies (*#[trigger] r@[a]).text@ != (*#[trigger] r@[b]).text@ by {
                let ia = self.best_order@[a] as int;
                let ib = self.best_order@[b] as int;
                assert(ia < ib);
                if self.all@[ia].text@ == self.all@[ib].text@ {
                    assert(entry_lt(self.all@[ia], self.all@[ib]));
                    lemma_lex_irreflexive(self.all@[ia].text@);
                    lemma_lex_irreflexive(self.all@[ia].spec_key());
                    assert(self.all@[ia].spec_key() != self.all@[ib].spec_key());
                    assert(better(self.all@[ia], self.all@[ib]));
                    assert(better(self.all@[ib], self.all@[ia]));
                    lemma_better_total(self.all@[ia], self.all@[ib]);
                }
            }
        }
        r
    }

    /// Search both sides of the dictionary: a query matches if it appears in
    /// the text or in the strokes, so "cat" and "KAT" find the same entry.
    /// Results run exact, then prefix, then substring, in browsing order
    /// within each; a blank query lists the first `limit` entries.
    pub fn search(&self, query: &str, limit: usize) -> (r: Vec<&Entry>)
        ensures
            derefs(r@) == search_result(self.spec_all(), query@, limit as int),
    {
        let q = trim_chars(query);
        let mut r: Vec<&Entry> = Vec::new();
        if q.len() == 0 {
            let mut i: usize = 0;
            while i < self.all.len() && i < limit
                invariant
                    i <= self.all.len(),
                    i <= limit,
                    derefs(r@) == self.all@.take(i as int),
                decreases self.all.len() - i,
            {
                let ghost old_r = r@;
                r.push(&self.all[i]);
                assert(r@ == old_r.push(&self.all@[i as int]));
                assert(derefs(r@) =~= derefs(old_r).push(self.all@[i as int]));
                assert(derefs(r@) =~= self.all@.take(i + 1));
                i += 1;
            }
            assert(i == self.all.len() ==> self.all@.take(i as int) =~= self.all@);
            return r;
        }
        let qs = string_of(q.as_slice());
        let text_q = chars_of(to_lower(qs.as_str()).as_str());
        let stroke_q = chars_of(to_upper(qs.as_str()).as_str());
        let mut ranks: Vec<u8> = Vec::new();
        let mut i: usize = 0;
        while i < self.all.len()
            invariant
                i <= self.all.len(),
                ranks@.len() == i,
                forall|j: int| 0 <= j < i ==> #[trigger] ranks@[j] as int == rank_of(self.all@[j], text_q@, stroke_q@),
            decreases self.all.len() - i,
        {
            ranks.push(rank(&self.all[i], text_q.as_slice(), stroke_q.as_slice()));
            i += 1;
        }
        let ghost all = self.all@;
        let ghost tq = text_q@;
        let ghost sq = stroke_q@;
        let mut level: u8 = 0;
        assert(ranked_from(all, 0, tq, sq) == Seq::<Entry>::empty() + ranked_from(all, 0, tq, sq));
        while level < 6
            invariant
                level <= 6,
                all == self.all@,
                ranks@.len() == all.len(),
                forall|j: int| 0 <= j < all.len() ==> #[trigger] ranks@[j] as int == rank_of(all[j], tq, sq),
                derefs(r@) + ranked_from(all, level as int, tq, sq) == ranked_from(all, 0, tq, sq),
            decreases 6 - level,
        {
            let ghost before = derefs(r@);
            let mut j: usize = 0;
            while j < self.all.len()
                invariant
                    j <= all.len(),
                    all == self.all@,
                    level < 6,
                    ranks@.len() == all.len(),
                    forall|x: int| 0 <= x < all.len() ==> #[trigger] ranks@[x] as int == rank_of(all[x], tq, sq),
                    derefs(r@) == before + with_rank(all.take(j as int), level as int, tq, sq),
                decreases all.len() - j,
            {
                assert(all.take(j + 1).drop_last() =~= all.take(j as int));
                assert(all.take(j + 1).last() == all[j as int]);
                if ranks[j] == level {
                    let ghost old_r = r@;
                    r.push(&self.all[j]);
                    assert(r@ == old_r.push(&all[j as int]));
                    assert(derefs(r@) =~= derefs(old_r).push(all[j as int]));
                    assert(derefs(r@) =~= before + with_rank(all.take(j + 1), level as int, tq, sq));
                } else {
                    assert(derefs(r@) =~= before + with_rank(all.take(j + 1), level as int, tq, sq));
                }
                j += 1;
            }
            assert(all.take(all.len() as int) =~= all);
            assert(before + (with_rank(all, level as int, tq, sq) + ranked_from(all, level + 1, tq, sq)) =~= derefs(r@)
                + ranked_from(all, level + 1, tq, sq));
            level += 1;
        }
        assert(derefs(r@) + Seq::<Entry>::empty() =~= derefs(r@));
        if r.len() > limit {
            r.truncate(limit);
            assert(derefs(r@) =~= ranked_from(all, 0, tq, sq).take(limit as int));
        }
        r
    }
}

/// An entry as its text and its key, the two things browsing order reads.
pub open spec fn entry_pair(e: Entry) -> (Seq<char>, Seq<char>) {
    (e.text@, e.spec_key())
}

/// Browsing order on text/key pairs.
pub open spec fn pair_lt(a: (Seq<char>, Seq<char>), b: (Seq<char>, Seq<char>)) -> bool {
    lex_lt(a.0, b.0) || (a.0 == b.0 && lex_lt(a.1, b.1))
}

proof fn lemma_pair_lt_strict(a: (Seq<char>, Seq<char>), b: (Seq<char>, Seq<char>))
    ensures
        !(pair_lt(a, b) && pair_lt(b, a)),
        !pair_lt(a, a),
{
    lemma_lex_asymmetric(a.0, b.0);
    lemma_lex_asymmetric(a.1, b.1);
    lemma_lex_irreflexive(a.0);
    lemma_lex_irreflexive(a.1);
}

proof fn lemma_pairs_unique(a: Seq<(Seq<char>, Seq<char>)>, b: Seq<(Seq<char>, Seq<char>)>)
    requires
        forall|i: int, j: int| 0 <= i < j < a.len() ==> pair_lt(#[trigger] a[i], #[trigger] a[j]),
        forall|i: int, j: int| 0 <= i < j < b.len() ==> pair_lt(#[trigger] b[i], #[trigger] b[j]),
        forall|x: (Seq<char>, Seq<char>)| #[trigger] a.contains(x) <==> b.contains(x),
    ensures
        a == b,
    decreases a.len(),
{
    if a.len() == 0 {
        if b.len() > 0 {
            assert(b.contains(b[0]));
            assert(a.contains(b[0]));
        }
        assert(b =~= a);
    } else {
        assert(a.contains(a[0]));
        assert(b.contains(a[0]));
        assert(b.contains(b[0]));
        assert(a.contains(b[0]));
        if a[0] != b[0] {
            let k = choose|k: int| 0 <= k < a.len() && a[k] == b[0];
            let m = choose|m: int| 0 <= m < b.len() && b[m] == a[0];
            assert(pair_lt(a[0], a[k]));
            assert(pair_lt(b[0], b[m]));
            lemma_pair_lt_strict(a[0], b[0]);
        }
        let a2 = a.drop_first();
        let b2 = b.drop_first();
        assert forall|i: int, j: int| 0 <= i < j < a2.len() implies pair_lt(#[trigger] a2[i], #[trigger] a2[j]) by {
            assert(a2[i] == a[i + 1] && a2[j] == a[j + 1]);
        }
        assert forall|i: int, j: int| 0 <= i < j < b2.len() implies pair_lt(#[trigger] b2[i], #[trigger] b2[j]) by {
            assert(b2[i] == b[i + 1] && b2[j] == b[j + 1]);
        }
        assert forall|x: (Seq<char>, Seq<char>)| #[trigger] a2.contains(x) <==> b2.contains(x) by {
            lemma_pair_lt_strict(x, x);
            if a2.contains(x) {
                let i = choose|i: int| 0 <= i < a2.len() && a2[i] == x;
                assert(a[i + 1] == x);
                assert(pair_lt(a[0], a[i + 1]));
                assert(a.contains(x));
                assert(b.contains(x));
                let j = choose|j: int| 0 <= j < b.len() && b[j] == x;
                assert(j != 0);
                assert(b2[j - 1] == x);
            }
            if b2.contains(x) {
                let i = choose|i: int| 0 <= i < b2.len() && b2[i] == x;
                assert(b[i + 1] == x);
                assert(pair_lt(b[0], b[i + 1]));
                assert(b.contains(x));
                assert(a.contains(x));
                let j = choose|j: int| 0 <= j < a.len() && a[j] == x;
                assert(j != 0);
                assert(a2[j - 1] == x);
            }
        }
        lemma_pairs_unique(a2, b2);
        assert(a =~= seq![a[0]] + a2);
        assert(b =~= seq![b[0]] + b2);
    }
}

/// An index depends on the dictionary alone, never on the order its pairs
/// came in: two entry lists that both index the same map hold the same texts
/// and strokes in the same order, so equal-cost spellings resolve the same
/// way every time.
pub proof fn law_index_depends_only_on_the_dictionary(m: Map<Seq<char>, Seq<char>>, a: Seq<Entry>, b: Seq<Entry>)
    requires
        indexes(m, a),
        indexes(m, b),
    ensures
        a.len() == b.len(),
        forall|i: int| 0 <= i < a.len() ==> #[trigger] a[i].text@ == b[i].text@ && views(a[i].strokes@) == views(b[i].strokes@),
{
    let pa = a.map_values(|e: Entry| entry_pair(e));
    let pb = b.map_values(|e: Entry| entry_pair(e));
    assert forall|i: int, j: int| 0 <= i < j < pa.len() implies pair_lt(#[trigger] pa[i], #[trigger] pa[j]) by {
        assert(entry_lt(a[i], a[j]));
    }
    assert forall|i: int, j: int| 0 <= i < j < pb.len() implies pair_lt(#[trigger] pb[i], #[trigger] pb[j]) by {
        assert(entry_lt(b[i], b[j]));
    }
    assert forall|x: (Seq<char>, Seq<char>)| #[trigger] pa.contains(x) <==> pb.contains(x) by {
        if pa.contains(x) {
            let i = choose|i: int| 0 <= i < pa.len() && pa[i] == x;
            assert(entry_of(m, a[i]));
            let k = a[i].spec_key();
            assert(m.contains_key(k));
            let j = choose|j: int| 0 <= j < b.len() && #[trigger] b[j].spec_key() == k;
            assert(entry_of(m, b[j]));
            assert(pb[j] == x);
        }
        if pb.contains(x) {
            let j = choose|j: int| 0 <= j < pb.len() && pb[j] == x;
            assert(entry_of(m, b[j]));
            let k = b[j].spec_key();
            assert(m.contains_key(k));
            let i = choose|i: int| 0 <= i < a.len() && #[trigger] a[i].spec_key() == k;
            assert(entry_of(m, a[i]));
            assert(pa[i] == x);
        }
    }
    lemma_pairs_unique(pa, pb);
    assert(pa.len() == pb.len());
    assert forall|i: int| 0 <= i < a.len() implies #[trigger] a[i].text@ == b[i].text@ && views(a[i].strokes@) == views(b[i].strokes@) by {
        assert(pa[i] == pb[i]);
        assert(entry_of(m, a[i]));
        assert(entry_of(m, b[i]));
    }
}

/// What a search reads of an entry: its lower-cased text and its key.
pub open spec fn search_view(e: Entry) -> (Seq<char>, Seq<char>) {
    (lowercase(e.text@), e.spec_key())
}

/// The searched views of a list of entries.
pub open spec fn search_views(s: Seq<Entry>) -> Seq<(Seq<char>, Seq<char>)> {
    s.map_values(|e: Entry| search_view(e))
}

proof fn lemma_with_rank_views(a: Seq<Entry>, b: Seq<Entry>, r: int, tq: Seq<char>, sq: Seq<char>)
    requires
        search_views(a) == search_views(b),
    ensures
        search_views(with_rank(a, r, tq, sq)) == search_views(with_rank(b, r, tq, sq)),
    decreases a.len(),
{
    assert(a.len() == search_views(a).len() && b.len() == search_views(b).len());
    if a.len() > 0 {
        assert(search_views(a.drop_last()) =~= search_views(a).drop_last());
        assert(search_views(b.drop_last()) =~= search_views(b).drop_last());
        lemma_with_rank_views(a.drop_last(), b.drop_last(), r, tq, sq);
        assert(search_views(a)[a.len() - 1] == search_views(b)[b.len() - 1]);
        assert(search_view(a.last()) == search_view(b.last()));
        assert(rank_of(a.last(), tq, sq) == rank_of(b.last(), tq, sq));
        let ea: Seq<Entry> = if rank_of(a.last(), tq, sq) == r { seq![a.last()] } else { Seq::empty() };
        let eb: Seq<Entry> = if rank_of(b.last(), tq, sq) == r { seq![b.last()] } else { Seq::empty() };
        assert(search_views(ea) =~= search_views(eb));
        let wa = with_rank(a.drop_last(), r, tq, sq);
        let wb = with_rank(b.drop_last(), r, tq, sq);
        assert(search_views(wa + ea) =~= search_views(wa) + search_views(ea));
        assert(search_views(wb + eb) =~= search_views(wb) + search_views(eb));
    }
}

proof fn lemma_ranked_views(a: Seq<Entry>, b: Seq<Entry>, r: int, tq: Seq<char>, sq: Seq<char>)
    requires
        search_views(a) == search_views(b),
    ensures
        search_views(ranked_from(a, r, tq, sq)) == search_views(ranked_from(b, r, tq, sq)),
    decreases 6 - r,
{
    if 0 <= r < 6 {
        lemma_with_rank_views(a, b, r, tq, sq);
        lemma_ranked_views(a, b, r + 1, tq, sq);
        let wa = with_rank(a, r, tq, sq);
        let wb = with_rank(b, r, tq, sq);
        let ra = ranked_from(a, r + 1, tq, sq);
        let rb = ranked_from(b, r + 1, tq, sq);
        assert(search_views(wa + ra) =~= search_views(wa) + search_views(ra));
        assert(search_views(wb + rb) =~= search_views(wb) + search_views(rb));
    }
}

proof fn lemma_first_n_views(a: Seq<Entry>, b: Seq<Entry>, limit: int)
    requires
        search_views(a) == search_views(b),
        0 <= limit,
    ensures
        search_views(first_n(a, limit)) == search_views(first_n(b, limit)),
{
    assert(a.len() == search_views(a).len() && b.len() == search_views(b).len());
    if limit < a.len() {
        assert(search_views(a.take(limit)) =~= search_views(a).take(limit));
        assert(search_views(b.take(limit)) =~= search_views(b).take(limit));
    }
}

/// Search never reads an entry's text except lower-cased: two entry lists
/// that agree, position by position, on keys and on lower-cased texts give
/// results that agree the same way, for every query and limit. So a text
/// search is case-insensitive on the entries' side.
pub proof fn law_search_ignores_the_case_of_texts(a: Seq<Entry>, b: Seq<Entry>, query: Seq<char>, limit: int)
    requires
        0 <= limit,
        a.len() == b.len(),
        forall|i: int| 0 <= i < a.len() ==> #[trigger] search_view(a[i]) == search_view(b[i]),
    ensures
        search_views(search_result(a, query, limit)) == search_views(search_result(b, query, limit)),
{
    assert(search_views(a) =~= search_views(b));
    let q = trimmed(query);
    if q.len() == 0 {
        lemma_first_n_views(a, b, limit);
    } else {
        lemma_ranked_views(a, b, 0, lowercase(q), uppercase(q));
        lemma_first_n_views(ranked_from(a, 0, lowercase(q), uppercase(q)), ranked_from(b, 0, lowercase(q), uppercase(q)), limit);
    }
}

/// The entries whose lower-cased text is `text_q`.
pub open spec fn same_text_ignoring_case(all: Seq<Entry>, text_q: Seq<char>) -> Seq<Entry> {
    all.filter(|e: Entry| lowercase(e.text@) == text_q)
}

proof fn lemma_rank_zero_is_exact_text(all: Seq<Entry>, tq: Seq<char>, sq: Seq<char>)
    ensures
        with_rank(all, 0, tq, sq) == same_text_ignoring_case(all, tq),
    decreases all.len(),
{
    reveal(Seq::filter);
    if all.len() > 0 {
        lemma_rank_zero_is_exact_text(all.drop_last(), tq, sq);
        let w = with_rank(all.drop_last(), 0, tq, sq);
        if rank_of(all.last(), tq, sq) == 0 {
            assert(w + seq![all.last()] =~= w.push(all.last()));
        } else {
            assert(w + Seq::<Entry>::empty() =~= w);
        }
    }
}

/// A text search finds an entry whatever the case of its text: for a
/// non-blank query the results begin with every entry whose lower-cased text
/// equals the lower-cased trimmed query, in browsing order, as many of them as
/// `limit` allows.
pub proof fn law_exact_text_matches_come_first(all: Seq<Entry>, query: Seq<char>, limit: int)
    requires
        trimmed(query).len() > 0,
        0 <= limit,
    ensures
        ({
            let exact = same_text_ignoring_case(all, lowercase(trimmed(query)));
            let k = if limit < exact.len() { limit } else { exact.len() as int };
            let r = search_result(all, query, limit);
            &&& k <= r.len()
            &&& r.take(k) == exact.take(k)
        }),
{
    let q = trimmed(query);
    let tq = lowercase(q);
    let sq = uppercase(q);
    lemma_rank_zero_is_exact_text(all, tq, sq);
    let exact = same_text_ignoring_case(all, tq);
    let ranked = ranked_from(all, 0, tq, sq);
    assert(ranked == exact + ranked_from(all, 1, tq, sq));
    let k = if limit < exact.len() { limit } else { exact.len() as int };
    assert(ranked.take(k) =~= exact.take(k));
    if limit < ranked.len() {
        assert(ranked.take(limit).take(k) =~= ranked.take(k));
    }
}

} // verus!
