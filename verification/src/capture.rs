//! The decisions behind global keyboard capture: which physical keys are
//! taken from the focused application, and which backend a capture ended up
//! using. Running the capture itself is the application's business.
//!
//! Only keys the active pack chords are ever consumed; everything else
//! (Escape, modifiers, Tab, unbound letters) always passes through, so the
//! keyboard can never be captured to the point where the user cannot switch
//! away or quit.
use vstd::prelude::*;
use crate::stroke::id_set;
use crate::text::{contains_text, owned};

verus! {

/// Decides which physical keys a capture consumes.
#[derive(Debug)]
pub struct Policy {
    keys: Vec<String>,
    active: bool,
}

impl Policy {
    /// The physical key names the active pack chords.
    pub closed spec fn spec_keys(&self) -> Set<Seq<char>> {
        id_set(self.keys@)
    }

    /// Whether suppression is wanted at all right now.
    pub closed spec fn spec_active(&self) -> bool {
        self.active
    }

    /// A policy that consumes nothing.
    pub fn new() -> (p: Policy)
        ensures
            p.spec_keys() == Set::<Seq<char>>::empty(),
            !p.spec_active(),
    {
        let p = Policy { keys: Vec::new(), active: false };
        assert(p.spec_keys() =~= Set::<Seq<char>>::empty());
        p
    }

    /// Replace the physical key names the active pack chords.
    pub fn set_keys(&mut self, keys: Vec<String>)
        ensures
            final(self).spec_keys() == id_set(keys@),
            final(self).spec_active() == old(self).spec_active(),
    {
        self.keys = keys;
    }

    /// Turn suppression on or off.
    pub fn set_active(&mut self, active: bool)
        ensures
            final(self).spec_keys() == old(self).spec_keys(),
            final(self).spec_active() == active,
    {
        self.active = active;
    }

    pub fn is_active(&self) -> (b: bool)
        ensures
            b == self.spec_active(),
    {
        self.active
    }

    /// Should this key be taken from the focused application? Only when the
    /// policy is active and the key is one the pack chords.
    pub fn consumes(&self, physical: &str) -> (b: bool)
        ensures
            b == (self.spec_active() && self.spec_keys().contains(physical@)),
    {
        if !self.active {
            return false;
        }
        contains_text(self.keys.as_slice(), physical)
    }
}

impl Default for Policy {
    fn default() -> (p: Policy)
        ensures
            p.spec_keys() == Set::<Seq<char>>::empty(),
            !p.spec_active(),
    {
        Policy::new()
    }
}

/// Which backend a capture ended up using.
#[derive(Debug, Clone, Copy, PartialEq, Eq, Structural)]
pub enum Backend {
    /// Grab has been started but has neither failed nor proven itself yet.
    Starting,
    /// Keys are consumed; the focused app sees only the translation.
    Suppressing,
    /// Keys are observed; the focused app also receives the raw letters.
    Observing,
}

/// What a user interface says about suppression.
#[derive(Debug, Clone, PartialEq, Eq)]
pub enum Status {
    /// Capture has not settled yet.
    NotStarted,
    /// Raw keys are consumed; only the translation reaches the other app.
    Suppressing,
    /// Raw keys also reach the other app, for this reason.
    Observing(String),
}

/// One poll of a starting capture. A grab that refused (`refusal`) means
/// observing instead, and the refusal is handed back so the caller starts the
/// observing backend and keeps the reason; a grab that stayed silent for the
/// whole grace period (`grace_over`) is taken to be suppressing. A settled
/// backend never changes.
pub fn settle(backend: Backend, refusal: Option<String>, grace_over: bool) -> (r: (Backend, Option<String>))
    ensures
        backend != Backend::Starting ==> r.0 == backend && r.1 is None,
        backend == Backend::Starting ==> match refusal {
            Some(reason) => r.0 == Backend::Observing && r.1 == Some(reason),
            None => r.1 is None && r.0 == (if grace_over { Backend::Suppressing } else { Backend::Starting }),
        },
{
    if backend != Backend::Starting {
        return (backend, None);
    }
    match refusal {
        Some(reason) => (Backend::Observing, Some(reason)),
        None => {
            if grace_over {
                (Backend::Suppressing, None)
            } else {
                (Backend::Starting, None)
            }
        },
    }
}

/// What to say about suppression for a backend and the reason it is
/// unavailable, when known.
pub fn status_of(backend: Backend, note: Option<&str>) -> (s: Status)
    ensures
        backend == Backend::Starting ==> s == Status::NotStarted,
        backend == Backend::Suppressing ==> s == Status::Suppressing,
        backend == Backend::Observing ==> (s matches Status::Observing(reason) && reason@ == match note {
            Some(n) => n@,
            None => "suppression unavailable"@,
        }),
{
    match backend {
        Backend::Starting => Status::NotStarted,
        Backend::Suppressing => Status::Suppressing,
        Backend::Observing => match note {
            Some(n) => Status::Observing(owned(n)),
            None => Status::Observing(owned("suppression unavailable")),
        },
    }
}

} // verus!
