//! How far a learner has come in each pack: the number of lessons finished,
//! by pack code. Progress only moves forward.
use vstd::prelude::*;
use crate::text::same_text;

verus! {

/// Lessons finished in the pack `code`, as recorded in `s`: the latest
/// record for the code counts, and a pack never recorded has none.
pub open spec fn done_in(s: Seq<(String, usize)>, code: Seq<char>) -> nat
    decreases s.len(),
{
    if s.len() == 0 {
        0
    } else if s.last().0@ == code {
        s.last().1 as nat
    } else {
        done_in(s.drop_last(), code)
    }
}

/// Lessons finished, by pack code.
#[derive(Debug)]
pub struct LessonProgress {
    records: Vec<(String, usize)>,
}

impl LessonProgress {
    /// Lessons finished in the pack `code`.
    pub closed spec fn done(&self, code: Seq<char>) -> nat {
        done_in(self.records@, code)
    }

    /// No lessons finished anywhere.
    pub fn new() -> (p: LessonProgress)
        ensures
            forall|c: Seq<char>| p.done(c) == 0,
    {
        LessonProgress { records: Vec::new() }
    }

    /// Progress from `(pack code, lessons finished)` records; a later record
    /// for the same code wins.
    pub fn from_records(records: Vec<(String, usize)>) -> (p: LessonProgress)
        ensures
            forall|c: Seq<char>| p.done(c) == done_in(records@, c),
    {
        LessonProgress { records }
    }

    /// The records, one per pack that has any progress.
    pub fn records(&self) -> (r: &[(String, usize)])
        ensures
            forall|c: Seq<char>| done_in(r@, c) == self.done(c),
    {
        self.records.as_slice()
    }

    /// Lessons finished in the pack `code`.
    pub fn lessons_done(&self, code: &str) -> (n: usize)
        ensures
            n == self.done(code@),
    {
        let mut i: usize = self.records.len();
        assert(self.records@.take(i as int) =~= self.records@);
        while i > 0
            invariant
                i <= self.records@.len(),
                done_in(self.records@, code@) == done_in(self.records@.take(i as int), code@),
            decreases i,
        {
            let ghost t = self.records@.take(i as int);
            assert(t.drop_last() =~= self.records@.take(i - 1));
            if same_text(self.records[i - 1].0.as_str(), code) {
                return self.records[i - 1].1;
            }
            i -= 1;
        }
        0
    }

    /// Forget the progress in the pack `code`.
    pub fn forget(&mut self, code: &str)
        ensures
            final(self).done(code@) == 0,
            forall|c: Seq<char>| c != code@ ==> final(self).done(c) == old(self).done(c),
    {
        let mut kept: Vec<(String, usize)> = Vec::new();
        let mut i: usize = 0;
        while i < self.records.len()
            invariant
                i <= self.records@.len(),
                done_in(kept@, code@) == 0,
                forall|c: Seq<char>| c != code@ ==> done_in(kept@, c) == done_in(self.records@.take(i as int), c),
            decreases self.records@.len() - i,
        {
            let ghost before = kept@;
            assert(self.records@.take(i + 1).drop_last() =~= self.records@.take(i as int));
            let ghost rec = self.records@[i as int];
            assert(self.records@.take(i + 1).last() == rec);
            assert(forall|c: Seq<char>| c != code@ ==> done_in(before, c) == done_in(self.records@.take(i as int), c));
            assert(done_in(before, code@) == 0);
            if !same_text(self.records[i].0.as_str(), code) {
                kept.push((self.records[i].0.clone(), self.records[i].1));
                assert(kept@.drop_last() =~= before);
                assert(kept@.last().0@ == rec.0@ && kept@.last().1 == rec.1);
            }
            assert forall|c: Seq<char>| c != code@ implies done_in(kept@, c) == done_in(self.records@.take(i + 1), c) by {
                assert(done_in(before, c) == done_in(self.records@.take(i as int), c));
                if rec.0@ != code@ {
                    assert(kept@.last().0@ == rec.0@);
                    assert(kept@.drop_last() == before);
                } else {
                    assert(kept@ == before);
                }
            }
            i += 1;
        }
        assert(self.records@.take(i as int) =~= self.records@);
        self.records = kept;
    }

    /// Record that lesson `lesson_index` of the pack `code` was finished.
    /// Progress only moves forward: replaying an earlier lesson takes nothing
    /// back.
    pub fn mark_lesson_done(&mut self, code: &str, lesson_index: usize)
        requires
            lesson_index < usize::MAX,
        ensures
            final(self).done(code@) == if old(self).done(code@) > lesson_index + 1 {
                old(self).done(code@)
            } else {
                (lesson_index + 1) as nat
            },
            forall|c: Seq<char>| c != code@ ==> final(self).done(c) == old(self).done(c),
            forall|c: Seq<char>| final(self).done(c) >= old(self).done(c),
            final(self).done(code@) > lesson_index,
    {
        let done = self.lessons_done(code);
        let next = if done > lesson_index + 1 { done } else { lesson_index + 1 };
        let ghost before = self.records@;
        let mut key = String::new();
        crate::text::push_text(&mut key, code);
        self.records.push((key, next));
        assert(self.records@.drop_last() =~= before);
    }
}

impl Default for LessonProgress {
    fn default() -> (p: LessonProgress)
        ensures
            forall|c: Seq<char>| p.done(c) == 0,
    {
        LessonProgress::new()
    }
}

} // verus!
