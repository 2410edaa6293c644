//! Dictionary lookup and multi-stroke translation.
//!
//! A dictionary maps a key to output text. A key may span several strokes
//! joined by `/` (`"KAT/-S"` is `"cats"`). The [`Translator`] buffers strokes
//! and resolves them by greedy longest match: it keeps waiting while the
//! buffered strokes could still begin a longer entry, and otherwise emits the
//! best match, or a "no match" marker for a stroke nothing matches.
use vstd::prelude::*;
use crate::assoc::{assoc_from_pairs, assoc_map, clone_pairs, distinct_keys, find_key, fold_pairs, insert_pair, lemma_assoc_index};
use vstd::slice::slice_subrange;
use crate::text::{chars_of, join_slash, join_strokes, occurs_at, occurs_at_exec, owned, push_text, split_strokes, stroke_count, views};

verus! {

/// `n` is the largest number of strokes of a key of `m` (0 when `m` is empty).
pub open spec fn is_max_len(m: Map<Seq<char>, Seq<char>>, n: nat) -> bool {
    &&& forall|k: Seq<char>| #[trigger] m.contains_key(k) ==> split_strokes(k).len() <= n
    &&& (m.dom().len() > 0 ==> exists|k: Seq<char>| #[trigger] m.contains_key(k) && split_strokes(k).len() == n)
    &&& (m.dom().len() == 0 ==> n == 0)
}

/// `p` ends in `/` and begins some key of `m`: more strokes could still turn
/// the strokes of `p` into an entry.
pub open spec fn begins_entry(m: Map<Seq<char>, Seq<char>>, p: Seq<char>) -> bool {
    &&& p.len() > 0
    &&& p.last() == '/'
    &&& exists|k: Seq<char>| #[trigger] m.contains_key(k) && p.is_prefix_of(k)
}

/// An immutable stroke-to-text dictionary.
#[derive(Debug)]
pub struct Dictionary {
    entries: Vec<(String, String)>,
    max_len: usize,
}

impl View for Dictionary {
    type V = Map<Seq<char>, Seq<char>>;

    closed spec fn view(&self) -> Map<Seq<char>, Seq<char>> {
        assoc_map(self.entries@)
    }
}

impl Clone for Dictionary {
    fn clone(&self) -> (r: Self)
        ensures
            r@ == self@,
            r.spec_max_len() == self.spec_max_len(),
    {
        proof {
            use_type_invariant(self);
        }
        Dictionary { entries: clone_pairs(self.entries.as_slice()), max_len: self.max_len }
    }
}

proof fn lemma_assoc_finite(s: Seq<(String, String)>)
    requires
        distinct_keys(s),
    ensures
        assoc_map(s).dom() == s.map_values(|p: (String, String)| p.0@).to_set(),
        assoc_map(s).dom().finite(),
        assoc_map(s).dom().len() == s.len(),
{
    let ks = s.map_values(|p: (String, String)| p.0@);
    assert forall|k: Seq<char>| assoc_map(s).dom().contains(k) == ks.to_set().contains(k) by {
        if assoc_map(s).dom().contains(k) {
            let i = choose|i: int| 0 <= i < s.len() && #[trigger] s[i].0@ == k;
            assert(ks[i] == k);
        }
        if ks.to_set().contains(k) {
            let i = choose|i: int| 0 <= i < ks.len() && ks[i] == k;
            assert(s[i].0@ == k);
        }
    }
    assert(assoc_map(s).dom() =~= ks.to_set());
    assert forall|i: int, j: int| 0 <= i < ks.len() && 0 <= j < ks.len() && i != j implies ks[i] != ks[j] by {
        if i < j {
            assert(s[i].0@ != s[j].0@);
        } else {
            assert(s[j].0@ != s[i].0@);
        }
    }
    ks.unique_seq_to_set();
}

impl Dictionary {
    #[verifier::type_invariant]
    spec fn wf(self) -> bool {
        &&& distinct_keys(self.entries@)
        &&& is_max_len(assoc_map(self.entries@), self.max_len as nat)
    }

    /// The longest key length in strokes.
    pub closed spec fn spec_max_len(&self) -> nat {
        self.max_len as nat
    }

    fn build(entries: Vec<(String, String)>) -> (d: Dictionary)
        requires
            distinct_keys(entries@),
        ensures
            d@ == assoc_map(entries@),
    {
        let mut m: usize = 0;
        let mut i: usize = 0;
        while i < entries.len()
            invariant
                i <= entries.len(),
                distinct_keys(entries@),
                forall|j: int| 0 <= j < i ==> split_strokes(#[trigger] entries@[j].0@).len() <= m,
                i > 0 ==> exists|j: int| 0 <= j < i && split_strokes(#[trigger] entries@[j].0@).len() == m,
                i == 0 ==> m == 0,
            decreases entries.len() - i,
        {
            let n = stroke_count(entries[i].0.as_str());
            if n > m || i == 0 {
                m = n;
            }
            i += 1;
        }
        proof {
            lemma_assoc_finite(entries@);
            let am = assoc_map(entries@);
            assert forall|k: Seq<char>| #[trigger] am.contains_key(k) implies split_strokes(k).len() <= m by {
                let j = choose|j: int| 0 <= j < entries@.len() && #[trigger] entries@[j].0@ == k;
            }
            if am.dom().len() > 0 {
                let j = choose|j: int| 0 <= j < i && split_strokes(#[trigger] entries@[j].0@).len() == m;
                lemma_assoc_index(entries@, j);
            }
        }
        Dictionary { entries, max_len: m }
    }

    /// Build a dictionary from key/text pairs; a later pair for the same key
    /// replaces an earlier one.
    pub fn from_map(entries: Vec<(String, String)>) -> (d: Dictionary)
        ensures
            d@ == fold_pairs(entries@),
    {
        Self::build(assoc_from_pairs(entries))
    }

    /// Overlay `other`'s entries on a copy of this dictionary: the overlay
    /// wins wherever both have a key.
    pub fn overlaid_with(&self, other: &[(String, String)]) -> (d: Dictionary)
        ensures
            d@ == self@.union_prefer_right(fold_pairs(other@)),
    {
        proof {
            use_type_invariant(self);
        }
        let mut merged = clone_pairs(self.entries.as_slice());
        let mut i: usize = 0;
        assert(self@.union_prefer_right(fold_pairs(other@.take(0))) =~= self@);
        while i < other.len()
            invariant
                i <= other.len(),
                distinct_keys(merged@),
                assoc_map(merged@) == self@.union_prefer_right(fold_pairs(other@.take(i as int))),
            decreases other.len() - i,
        {
            assert(other@.take(i + 1).drop_last() =~= other@.take(i as int));
            insert_pair(&mut merged, other[i].0.clone(), other[i].1.clone());
            assert(assoc_map(merged@) =~= self@.union_prefer_right(fold_pairs(other@.take(i + 1))));
            i += 1;
        }
        assert(other@.take(other.len() as int) =~= other@);
        Self::build(merged)
    }

    /// The text for a key, if the dictionary has one.
    pub fn lookup(&self, key: &str) -> (r: Option<&str>)
        ensures
            match r {
                Some(t) => self@.contains_key(key@) && self@[key@] == t@,
                None => !self@.contains_key(key@),
            },
    {
        proof {
            use_type_invariant(self);
        }
        match find_key(self.entries.as_slice(), key) {
            Some(i) => {
                proof {
                    lemma_assoc_index(self.entries@, i as int);
                }
                Some(self.entries[i].1.as_str())
            },
            None => None,
        }
    }

    /// Whether `key_with_slash` ends in `/` and begins some longer key, so
    /// that further strokes could still complete an entry.
    pub fn is_prefix(&self, key_with_slash: &str) -> (r: bool)
        ensures
            r == begins_entry(self@, key_with_slash@),
    {
        proof {
            use_type_invariant(self);
        }
        let p = chars_of(key_with_slash);
        if p.len() == 0 || p[p.len() - 1] != '/' {
            return false;
        }
        assert(p@.last() == p@[p.len() - 1]);
        let mut i: usize = 0;
        while i < self.entries.len()
            invariant
                i <= self.entries.len(),
                p@ == key_with_slash@,
                p@.len() > 0,
                p@.last() == '/',
                distinct_keys(self.entries@),
                forall|j: int| 0 <= j < i ==> !p@.is_prefix_of(#[trigger] self.entries@[j].0@),
            decreases self.entries.len() - i,
        {
            let k = chars_of(self.entries[i].0.as_str());
            if occurs_at_exec(k.as_slice(), 0, p.as_slice()) {
                proof {
                    assert(k@.subrange(0, p@.len() as int) == p@);
                    lemma_assoc_index(self.entries@, i as int);
                    assert(p@.is_prefix_of(self.entries@[i as int].0@));
                    assert(p@.last() == '/');
                    assert(self@.contains_key(self.entries@[i as int].0@));
                }
                return true;
            }
            proof {
                if p@.is_prefix_of(k@) {
                    assert(occurs_at(k@, 0, p@));
                }
            }
            i += 1;
        }
        proof {
            if begins_entry(self@, key_with_slash@) {
                let key = choose|key: Seq<char>| #[trigger] self@.contains_key(key) && p@.is_prefix_of(key);
                let j = choose|j: int| 0 <= j < self.entries@.len() && #[trigger] self.entries@[j].0@ == key;
            }
        }
        false
    }

    /// The largest number of strokes in a key (0 for an empty dictionary).
    pub fn max_len(&self) -> (n: usize)
        ensures
            n as nat == self.spec_max_len(),
            is_max_len(self@, n as nat),
    {
        proof {
            use_type_invariant(self);
        }
        self.max_len
    }

    /// Number of entries.
    pub fn len(&self) -> (n: usize)
        ensures
            n == self@.dom().len(),
    {
        proof {
            use_type_invariant(self);
            lemma_assoc_finite(self.entries@);
        }
        self.entries.len()
    }

    pub fn is_empty(&self) -> (b: bool)
        ensures
            b == (self@.dom().len() == 0),
    {
        proof {
            use_type_invariant(self);
            lemma_assoc_finite(self.entries@);
        }
        self.entries.len() == 0
    }

    /// Every entry as a key/text pair, each key once, in no particular order.
    pub fn entries(&self) -> (r: &[(String, String)])
        ensures
            distinct_keys(r@),
            assoc_map(r@) == self@,
    {
        proof {
            use_type_invariant(self);
        }
        self.entries.as_slice()
    }
}

/// The result of resolving one or more strokes.
#[derive(Debug, Clone, PartialEq, Eq)]
pub enum Translation {
    /// A matched entry: the strokes consumed and the text they produce.
    Text { strokes: Vec<String>, text: String },
    /// A stroke with no dictionary entry, reported rather than dropped.
    NoMatch { stroke: String },
}

/// A [`Translation`] as character sequences.
pub enum TranslationView {
    Text { strokes: Seq<Seq<char>>, text: Seq<char> },
    NoMatch { stroke: Seq<char> },
}

impl View for Translation {
    type V = TranslationView;

    open spec fn view(&self) -> TranslationView {
        match self {
            Translation::Text { strokes, text } => TranslationView::Text { strokes: views(strokes@), text: text@ },
            Translation::NoMatch { stroke } => TranslationView::NoMatch { stroke: stroke@ },
        }
    }
}

/// The views of a list of translations.
pub open spec fn tviews(v: Seq<Translation>) -> Seq<TranslationView> {
    v.map_values(|t: Translation| t@)
}

/// The buffered strokes may still grow into a longer entry.
pub open spec fn can_wait(m: Map<Seq<char>, Seq<char>>, max_len: nat, buf: Seq<Seq<char>>) -> bool {
    buf.len() < max_len && begins_entry(m, join_strokes(buf) + seq!['/'])
}

/// The most leading strokes of `buf`, at most `n` of them, that together form
/// a key of `m`; 0 when no such prefix is a key.
pub open spec fn longest_entry(m: Map<Seq<char>, Seq<char>>, buf: Seq<Seq<char>>, n: nat) -> nat
    decreases n,
{
    if n == 0 {
        0
    } else if m.contains_key(join_strokes(buf.take(n as int))) {
        n
    } else {
        longest_entry(m, buf, (n - 1) as nat)
    }
}

/// `longest_entry` is the longest prefix of at most `n` strokes that is a
/// key: the prefix it names is a key, and no longer one is.
pub proof fn lemma_longest_entry(m: Map<Seq<char>, Seq<char>>, buf: Seq<Seq<char>>, n: nat)
    requires
        n <= buf.len(),
    ensures
        longest_entry(m, buf, n) <= n,
        longest_entry(m, buf, n) > 0 ==> m.contains_key(join_strokes(buf.take(longest_entry(m, buf, n) as int))),
        forall|k: int| longest_entry(m, buf, n) < k <= n ==> !m.contains_key(#[trigger] join_strokes(buf.take(k))),
    decreases n,
{
    if n > 0 && !m.contains_key(join_strokes(buf.take(n as int))) {
        lemma_longest_entry(m, buf, (n - 1) as nat);
    }
}

/// Greedy longest match over the buffered strokes `buf`: what is emitted, and
/// what stays buffered. With `allow_wait`, a buffer that can still grow into
/// a longer entry is kept. Otherwise the longest leading run of strokes that
/// is an entry is emitted as that entry, or, when not even the first stroke
/// is one, that stroke is reported as no match; the rest is resolved again.
pub open spec fn resolve_spec(
    m: Map<Seq<char>, Seq<char>>,
    max_len: nat,
    buf: Seq<Seq<char>>,
    allow_wait: bool,
) -> (Seq<TranslationView>, Seq<Seq<char>>)
    decreases buf.len(),
{
    if buf.len() == 0 {
        (Seq::empty(), Seq::empty())
    } else if allow_wait && can_wait(m, max_len, buf) {
        (Seq::empty(), buf)
    } else {
        let n = longest_entry(m, buf, buf.len());
        proof {
            lemma_longest_entry(m, buf, buf.len());
        }
        if n > 0 {
            let head = buf.take(n as int);
            let rest = resolve_spec(m, max_len, buf.skip(n as int), allow_wait);
            (seq![TranslationView::Text { strokes: head, text: m[join_strokes(head)] }] + rest.0, rest.1)
        } else {
            let rest = resolve_spec(m, max_len, buf.drop_first(), allow_wait);
            (seq![TranslationView::NoMatch { stroke: buf[0] }] + rest.0, rest.1)
        }
    }
}

/// The strokes a translation consumed.
pub open spec fn consumed(t: TranslationView) -> Seq<Seq<char>> {
    match t {
        TranslationView::Text { strokes, .. } => strokes,
        TranslationView::NoMatch { stroke } => seq![stroke],
    }
}

/// All strokes consumed by a list of translations, in order.
pub open spec fn consumed_all(ts: Seq<TranslationView>) -> Seq<Seq<char>>
    decreases ts.len(),
{
    if ts.len() == 0 {
        Seq::empty()
    } else {
        consumed(ts[0]) + consumed_all(ts.drop_first())
    }
}

/// A translation says what the dictionary says: matched strokes form a key
/// whose text is reported, and an unmatched stroke has no entry.
pub open spec fn faithful(m: Map<Seq<char>, Seq<char>>, t: TranslationView) -> bool {
    match t {
        TranslationView::Text { strokes, text } => strokes.len() > 0 && m.contains_key(join_strokes(strokes))
            && m[join_strokes(strokes)] == text,
        TranslationView::NoMatch { stroke } => !m.contains_key(stroke),
    }
}

proof fn lemma_join_single(s: Seq<char>)
    ensures
        join_strokes(seq![s]) == s,
{
    assert(seq![s].len() == 1);
}

/// What resolving promises, whatever the dictionary: every buffered stroke is
/// either emitted, in order, or still buffered; every emitted translation
/// says what the dictionary says; without waiting nothing stays buffered; and
/// a buffer kept while waiting can still grow into a longer entry.
pub proof fn lemma_resolve(m: Map<Seq<char>, Seq<char>>, max_len: nat, buf: Seq<Seq<char>>, allow_wait: bool)
    ensures
        ({
            let (out, rest) = resolve_spec(m, max_len, buf, allow_wait);
            &&& consumed_all(out) + rest == buf
            &&& forall|i: int| 0 <= i < out.len() ==> faithful(m, #[trigger] out[i])
            &&& !allow_wait ==> rest.len() == 0
            &&& rest.len() > 0 ==> can_wait(m, max_len, rest)
        }),
    decreases buf.len(),
{
    if buf.len() == 0 {
        assert(consumed_all(Seq::<TranslationView>::empty()) + Seq::<Seq<char>>::empty() =~= buf);
    } else if allow_wait && can_wait(m, max_len, buf) {
        assert(Seq::<Seq<char>>::empty() + buf =~= buf);
    } else {
        let n = longest_entry(m, buf, buf.len());
        lemma_longest_entry(m, buf, buf.len());
        let (head, tail) = if n > 0 {
            (buf.take(n as int), buf.skip(n as int))
        } else {
            (seq![buf[0]], buf.drop_first())
        };
        let t = if n > 0 {
            TranslationView::Text { strokes: head, text: m[join_strokes(head)] }
        } else {
            TranslationView::NoMatch { stroke: buf[0] }
        };
        let rest = resolve_spec(m, max_len, tail, allow_wait);
        lemma_resolve(m, max_len, tail, allow_wait);
        let out = seq![t] + rest.0;
        assert(out == resolve_spec(m, max_len, buf, allow_wait).0);
        assert(out.drop_first() =~= rest.0);
        assert(consumed(t) =~= head);
        assert(head + tail =~= buf);
        assert(consumed_all(out) + rest.1 =~= head + (consumed_all(rest.0) + rest.1));
        if n == 0 {
            assert(buf.take(1) =~= seq![buf[0]]);
            lemma_join_single(buf[0]);
        }
        assert(faithful(m, t));
        assert forall|i: int| 0 <= i < out.len() implies faithful(m, #[trigger] out[i]) by {
            if i > 0 {
                assert(out[i] == rest.0[i - 1]);
            }
        }
    }
}

/// The strokes still unresolved when `out[k]` was emitted: what it and the
/// later translations consumed, followed by what stayed buffered.
pub open spec fn left_before(out: Seq<TranslationView>, rest: Seq<Seq<char>>, k: int) -> Seq<Seq<char>> {
    consumed_all(out.skip(k)) + rest
}

/// Emitting `t` while `left` was unresolved was a greedy, unhurried choice:
/// when waiting was allowed, `left` could not grow into a longer entry, and
/// no run of `left` longer than what `t` consumed is an entry.
pub open spec fn greedy_step(
    m: Map<Seq<char>, Seq<char>>,
    max_len: nat,
    allow_wait: bool,
    t: TranslationView,
    left: Seq<Seq<char>>,
) -> bool {
    &&& !(allow_wait && can_wait(m, max_len, left))
    &&& consumed(t).is_prefix_of(left)
    &&& forall|j: int| consumed(t).len() < j <= left.len() ==> !m.contains_key(#[trigger] join_strokes(left.take(j)))
}

/// Greedy longest match with lookahead, stated on what resolving returns:
/// each translation was emitted only when the strokes then unresolved could
/// not wait for a longer entry (with waiting allowed), and it consumed the
/// longest leading run of them that is an entry (a no-match only when not
/// even the first stroke is one); whatever stays buffered can still grow
/// into a longer entry. Together with [`lemma_resolve`] this fixes the
/// result of every push and flush.
pub proof fn law_translation_waits_and_takes_the_longest_entry(
    m: Map<Seq<char>, Seq<char>>,
    max_len: nat,
    buf: Seq<Seq<char>>,
    allow_wait: bool,
)
    ensures
        ({
            let (out, rest) = resolve_spec(m, max_len, buf, allow_wait);
            &&& forall|k: int| 0 <= k < out.len() ==> greedy_step(m, max_len, allow_wait, #[trigger] out[k], left_before(out, rest, k))
            &&& rest.len() > 0 ==> allow_wait && can_wait(m, max_len, rest)
        }),
    decreases buf.len(),
{
    lemma_resolve(m, max_len, buf, allow_wait);
    if buf.len() > 0 && !(allow_wait && can_wait(m, max_len, buf)) {
        let n = longest_entry(m, buf, buf.len());
        lemma_longest_entry(m, buf, buf.len());
        let (head, tail) = if n > 0 {
            (buf.take(n as int), buf.skip(n as int))
        } else {
            (seq![buf[0]], buf.drop_first())
        };
        let t = if n > 0 {
            TranslationView::Text { strokes: head, text: m[join_strokes(head)] }
        } else {
            TranslationView::NoMatch { stroke: buf[0] }
        };
        let r = resolve_spec(m, max_len, tail, allow_wait);
        law_translation_waits_and_takes_the_longest_entry(m, max_len, tail, allow_wait);
        let (out, rest) = resolve_spec(m, max_len, buf, allow_wait);
        assert(out == seq![t] + r.0);
        assert(rest == r.1);
        assert(out.skip(0) =~= out);
        assert(left_before(out, rest, 0) == buf);
        assert(consumed(t) =~= head);
        assert(head + tail =~= buf);
        assert forall|k: int| 0 <= k < out.len() implies greedy_step(m, max_len, allow_wait, #[trigger] out[k], left_before(out, rest, k)) by {
            if k > 0 {
                assert(out[k] == r.0[k - 1]);
                assert(out.skip(k) =~= r.0.skip(k - 1));
            } else {
                assert(head.is_prefix_of(buf));
            }
        }
    }
}

/// Buffers strokes and resolves them to translations by greedy longest match.
#[derive(Debug)]
pub struct Translator {
    buffer: Vec<String>,
}

impl View for Translator {
    type V = Seq<Seq<char>>;

    closed spec fn view(&self) -> Seq<Seq<char>> {
        views(self.buffer@)
    }
}

impl Translator {
    pub fn new() -> (t: Translator)
        ensures
            t@ == Seq::<Seq<char>>::empty(),
    {
        let t = Translator { buffer: Vec::new() };
        assert(t@ =~= Seq::<Seq<char>>::empty());
        t
    }

    /// Feed one completed stroke. Returns the translations that became final;
    /// empty while the stroke is held pending a longer match.
    pub fn push(&mut self, dict: &Dictionary, stroke: String) -> (out: Vec<Translation>)
        ensures
            (tviews(out@), final(self)@) == resolve_spec(dict@, dict.spec_max_len(), old(self)@.push(stroke@), true),
            consumed_all(tviews(out@)) + final(self)@ == old(self)@.push(stroke@),
            forall|i: int| 0 <= i < out@.len() ==> faithful(dict@, #[trigger] tviews(out@)[i]),
            final(self)@.len() > 0 ==> can_wait(
                dict@,
                dict.spec_max_len(),
                final(self)@,
            ),
            forall|k: int| 0 <= k < out@.len() ==> greedy_step(
                dict@,
                dict.spec_max_len(),
                true,
                #[trigger] tviews(out@)[k],
                left_before(tviews(out@), final(self)@, k),
            ),
    {
        let ghost before = self@;
        self.buffer.push(stroke);
        assert(self@ =~= before.push(stroke@));
        proof {
            lemma_resolve(dict@, dict.spec_max_len(), self@, true);
            law_translation_waits_and_takes_the_longest_entry(dict@, dict.spec_max_len(), self@, true);
        }
        self.resolve(dict, true)
    }

    /// Force-resolve everything pending, giving up on any further lookahead.
    pub fn flush(&mut self, dict: &Dictionary) -> (out: Vec<Translation>)
        ensures
            tviews(out@) == resolve_spec(dict@, dict.spec_max_len(), old(self)@, false).0,
            final(self)@ == Seq::<Seq<char>>::empty(),
            consumed_all(tviews(out@)) == old(self)@,
            forall|i: int| 0 <= i < out@.len() ==> faithful(dict@, #[trigger] tviews(out@)[i]),
            forall|k: int| 0 <= k < out@.len() ==> greedy_step(
                dict@,
                dict.spec_max_len(),
                false,
                #[trigger] tviews(out@)[k],
                left_before(tviews(out@), Seq::<Seq<char>>::empty(), k),
            ),
    {
        proof {
            lemma_resolve(dict@, dict.spec_max_len(), self@, false);
            law_translation_waits_and_takes_the_longest_entry(dict@, dict.spec_max_len(), self@, false);
        }
        let out = self.resolve(dict, false);
        assert(consumed_all(tviews(out@)) + Seq::<Seq<char>>::empty() =~= consumed_all(tviews(out@)));
        out
    }

    /// The strokes buffered awaiting disambiguation.
    pub fn pending(&self) -> (r: &[String])
        ensures
            views(r@) == self@,
    {
        self.buffer.as_slice()
    }

    /// Drop every pending stroke.
    pub fn clear(&mut self)
        ensures
            final(self)@ == Seq::<Seq<char>>::empty(),
    {
        self.buffer.clear();
        assert(self@ =~= Seq::<Seq<char>>::empty());
    }

    fn resolve(&mut self, dict: &Dictionary, allow_wait: bool) -> (out: Vec<Translation>)
        ensures
            (tviews(out@), final(self)@) == resolve_spec(dict@, dict.spec_max_len(), old(self)@, allow_wait),
    {
        let ghost total = resolve_spec(dict@, dict.spec_max_len(), self@, allow_wait);
        let mut out: Vec<Translation> = Vec::new();
        assert(tviews(out@) + total.0 =~= total.0);
        loop
            invariant
                total == resolve_spec(dict@, dict.spec_max_len(), old(self)@, allow_wait),
                tviews(out@) + resolve_spec(dict@, dict.spec_max_len(), self@, allow_wait).0 == total.0,
                resolve_spec(dict@, dict.spec_max_len(), self@, allow_wait).1 == total.1,
            decreases self.buffer.len(),
        {
            let ghost buf = self@;
            if self.buffer.len() == 0 {
                assert(self@ =~= Seq::<Seq<char>>::empty());
                assert(tviews(out@) + Seq::<TranslationView>::empty() =~= tviews(out@));
                return out;
            }
            let joined = join_slash(self.buffer.as_slice());
            let can_extend = if allow_wait && self.buffer.len() < dict.max_len() {
                let mut probe = owned(joined.as_str());
                push_text(&mut probe, "/");
                proof {
                    reveal_strlit("/");
                }
                dict.is_prefix(probe.as_str())
            } else {
                false
            };
            if can_extend {
                assert(can_wait(dict@, dict.spec_max_len(), self@));
                assert(tviews(out@) + Seq::<TranslationView>::empty() =~= tviews(out@));
                return out;
            }
            match longest_match(dict, self.buffer.as_slice()) {
                Some((n, text)) => {
                    proof {
                        lemma_longest_entry(dict@, buf, buf.len());
                    }
                    let mut strokes = self.buffer.split_off(n);
                    std::mem::swap(&mut strokes, &mut self.buffer);
                    assert(views(strokes@) =~= buf.take(n as int));
                    assert(self@ =~= buf.skip(n as int));
                    let t = Translation::Text { strokes, text: owned(text) };
                    let ghost before = tviews(out@);
                    out.push(t);
                    assert(tviews(out@) =~= before.push(t@));
                    let ghost r = resolve_spec(dict@, dict.spec_max_len(), self@, allow_wait);
                    assert(before + (seq![t@] + r.0) =~= tviews(out@) + r.0);
                },
                None => {
                    let first = self.buffer.remove(0);
                    assert(self@ =~= buf.drop_first());
                    let t = Translation::NoMatch { stroke: first };
                    let ghost before = tviews(out@);
                    out.push(t);
                    assert(tviews(out@) =~= before.push(t@));
                    let ghost r = resolve_spec(dict@, dict.spec_max_len(), self@, allow_wait);
                    assert(before + (seq![t@] + r.0) =~= tviews(out@) + r.0);
                },
            }
        }
    }
}

/// The longest leading run of `buf` that is a dictionary key, as its number
/// of strokes and its text; `None` when not even the first stroke is a key.
fn longest_match<'a>(dict: &'a Dictionary, buf: &[String]) -> (r: Option<(usize, &'a str)>)
    ensures
        match r {
            Some((n, text)) => {
                &&& n as nat == longest_entry(dict@, views(buf@), buf@.len())
                &&& n > 0
                &&& dict@[join_strokes(views(buf@).take(n as int))] == text@
            },
            None => longest_entry(dict@, views(buf@), buf@.len()) == 0,
        },
{
    let mut k: usize = buf.len();
    while k > 0
        invariant
            k <= buf@.len(),
            longest_entry(dict@, views(buf@), buf@.len()) == longest_entry(dict@, views(buf@), k as nat),
        decreases k,
    {
        let prefix = slice_subrange(buf, 0, k);
        let key = join_slash(prefix);
        assert(views(prefix@) =~= views(buf@).take(k as int));
        if let Some(text) = dict.lookup(key.as_str()) {
            return Some((k, text));
        }
        k -= 1;
    }
    None
}

} // verus!
