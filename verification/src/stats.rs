//! Typing statistics for a practice or drill session.
//!
//! Clock-free: the caller supplies the elapsed time. Rates derived from these
//! counters (words per minute, accuracy) are computed by the caller.
use vstd::prelude::*;
use crate::text::chars_of;

verus! {

/// Counters for one session.
#[derive(Debug, PartialEq)]
pub struct SessionStats {
    strokes: usize,
    correct: usize,
    incorrect: usize,
    chars: usize,
    elapsed_ms: u64,
}

impl Clone for SessionStats {
    fn clone(&self) -> (r: Self)
        ensures
            r == *self,
    {
        proof {
            use_type_invariant(self);
        }
        SessionStats {
            strokes: self.strokes,
            correct: self.correct,
            incorrect: self.incorrect,
            chars: self.chars,
            elapsed_ms: self.elapsed_ms,
        }
    }
}

impl Default for SessionStats {
    fn default() -> (s: Self)
        ensures
            s.spec_strokes() == 0,
            s.spec_correct() == 0,
            s.spec_incorrect() == 0,
            s.spec_chars() == 0,
            s.spec_elapsed_ms() == 0,
    {
        SessionStats::new()
    }
}

impl SessionStats {
    #[verifier::type_invariant]
    spec fn wf(self) -> bool {
        self.correct + self.incorrect <= usize::MAX
    }

    pub closed spec fn spec_strokes(&self) -> nat {
        self.strokes as nat
    }

    pub closed spec fn spec_correct(&self) -> nat {
        self.correct as nat
    }

    pub closed spec fn spec_incorrect(&self) -> nat {
        self.incorrect as nat
    }

    /// Characters of correct output.
    pub closed spec fn spec_chars(&self) -> nat {
        self.chars as nat
    }

    pub closed spec fn spec_elapsed_ms(&self) -> nat {
        self.elapsed_ms as nat
    }

    pub fn new() -> (s: SessionStats)
        ensures
            s.spec_strokes() == 0,
            s.spec_correct() == 0,
            s.spec_incorrect() == 0,
            s.spec_chars() == 0,
            s.spec_elapsed_ms() == 0,
    {
        SessionStats { strokes: 0, correct: 0, incorrect: 0, chars: 0, elapsed_ms: 0 }
    }

    /// Count one chord, whatever it produced.
    pub fn record_stroke(&mut self)
        requires
            old(self).spec_strokes() < usize::MAX,
        ensures
            final(self).spec_strokes() == old(self).spec_strokes() + 1,
            final(self).spec_correct() == old(self).spec_correct(),
            final(self).spec_incorrect() == old(self).spec_incorrect(),
            final(self).spec_chars() == old(self).spec_chars(),
            final(self).spec_elapsed_ms() == old(self).spec_elapsed_ms(),
    {
        proof {
            use_type_invariant(&*self);
        }
        self.strokes = self.strokes + 1;
    }

    /// Count one drill item or emitted word. Only correct output adds its
    /// characters, so mistakes cannot inflate the rate.
    pub fn record_item(&mut self, text: &str, correct: bool)
        requires
            old(self).spec_correct() + old(self).spec_incorrect() < usize::MAX,
            correct ==> old(self).spec_chars() + text@.len() <= usize::MAX,
        ensures
            final(self).spec_strokes() == old(self).spec_strokes(),
            final(self).spec_elapsed_ms() == old(self).spec_elapsed_ms(),
            correct ==> final(self).spec_correct() == old(self).spec_correct() + 1 && final(self).spec_incorrect()
                == old(self).spec_incorrect() && final(self).spec_chars() == old(self).spec_chars() + text@.len(),
            !correct ==> final(self).spec_correct() == old(self).spec_correct() && final(self).spec_incorrect()
                == old(self).spec_incorrect() + 1 && final(self).spec_chars() == old(self).spec_chars(),
    {
        proof {
            use_type_invariant(&*self);
        }
        if correct {
            let n = chars_of(text).len();
            self.correct = self.correct + 1;
            self.chars = self.chars + n;
        } else {
            self.incorrect = self.incorrect + 1;
        }
    }

    /// Set the total elapsed time of the session so far.
    pub fn set_elapsed_ms(&mut self, ms: u64)
        ensures
            final(self).spec_elapsed_ms() == ms,
            final(self).spec_strokes() == old(self).spec_strokes(),
            final(self).spec_correct() == old(self).spec_correct(),
            final(self).spec_incorrect() == old(self).spec_incorrect(),
            final(self).spec_chars() == old(self).spec_chars(),
    {
        proof {
            use_type_invariant(&*self);
        }
        self.elapsed_ms = ms;
    }

    pub fn strokes(&self) -> (n: usize)
        ensures
            n == self.spec_strokes(),
    {
        self.strokes
    }

    pub fn correct(&self) -> (n: usize)
        ensures
            n == self.spec_correct(),
    {
        self.correct
    }

    pub fn incorrect(&self) -> (n: usize)
        ensures
            n == self.spec_incorrect(),
    {
        self.incorrect
    }

    /// Characters of correct output, from which words per minute derive.
    pub fn chars(&self) -> (n: usize)
        ensures
            n == self.spec_chars(),
    {
        self.chars
    }

    /// Answers given, right or wrong.
    pub fn attempts(&self) -> (n: usize)
        ensures
            n == self.spec_correct() + self.spec_incorrect(),
    {
        proof {
            use_type_invariant(self);
        }
        self.correct + self.incorrect
    }

    pub fn elapsed_ms(&self) -> (n: u64)
        ensures
            n == self.spec_elapsed_ms(),
    {
        self.elapsed_ms
    }

    /// Start over.
    pub fn reset(&mut self)
        ensures
            final(self).spec_strokes() == 0,
            final(self).spec_correct() == 0,
            final(self).spec_incorrect() == 0,
            final(self).spec_chars() == 0,
            final(self).spec_elapsed_ms() == 0,
    {
        *self = SessionStats::new();
    }
}

} // verus!
