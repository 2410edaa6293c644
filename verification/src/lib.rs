//! The platform-neutral core of a chorded (stenographic) keyboard engine.
//!
//! Data flows from physical key events to text:
//!
//! * [`chord`] accumulates simultaneous presses into one chord, complete on
//!   full release;
//! * [`layout`] maps physical keys to steno key ids;
//! * [`stroke`] renders steno keys as a canonical stroke string (`"KAT"`) and
//!   parses one back;
//! * [`dictionary`] translates strokes to text by greedy longest match;
//! * [`engine`] ties these together for an application.
//!
//! A language pack ([`Pack`]) bundles a [`Layout`], a [`Dictionary`] and its
//! metadata. Learning a pack is decidable without a screen too:
//! [`reverse`] reads the dictionary backwards, [`lesson`] derives a
//! curriculum from a pack alone and drills it ([`progression`] holds the laws
//! every curriculum keeps), [`learning`] and [`practice`] follow a learner
//! through a lesson or free practice, and [`stats`] and [`progress`] count.
//! [`capture`] holds the decisions of global keyboard capture, [`events`] the
//! record of what an engine produced, and [`screens`] and [`keyboard`] what
//! an application shows around it.
pub mod text;
pub mod assoc;
pub mod stroke;
pub mod dictionary;
pub mod chord;
pub mod layout;
pub mod pack;
pub mod engine;
pub mod reverse;
pub mod stats;
pub mod lesson;
pub mod progression;
pub mod capture;
pub mod events;
pub mod screens;
pub mod practice;
pub mod progress;
pub mod learning;
pub mod keyboard;

pub use chord::ChordAccumulator;
pub use dictionary::{Dictionary, Translation, Translator};
pub use engine::{Engine, EngineOutput, KeyEvent};
pub use layout::Layout;
pub use lesson::{Curriculum, Drill, DrillOutcome, Lesson, LessonItem};
pub use pack::{Pack, PackError};
pub use reverse::{Entry, ReverseIndex};
pub use stats::SessionStats;
pub use stroke::{parse_stroke, parse_stroke_sequence, render_stroke, Bank, StenoKey};
