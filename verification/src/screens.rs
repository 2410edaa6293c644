//! The choices an application offers around the engine: where translated
//! text goes, which screen is shown, and the colour scheme.
use vstd::prelude::*;
use crate::reverse::Entry;
use crate::text::{chars_of, owned, push_text};

verus! {

/// Where translated text goes while practising.
#[derive(Debug, Clone, Copy, PartialEq, Eq, Structural)]
pub enum Mode {
    /// Show output only inside the application's own practice window.
    InApp,
    /// Inject output into whatever application is focused.
    SystemWide,
}

/// What a mode is called on screen.
pub open spec fn mode_label(m: Mode) -> Seq<char> {
    match m {
        Mode::InApp => "Type here"@,
        Mode::SystemWide => "Type into other apps"@,
    }
}

impl Mode {
    pub fn label(self) -> (s: &'static str)
        ensures
            s@ == mode_label(self),
    {
        match self {
            Mode::InApp => "Type here",
            Mode::SystemWide => "Type into other apps",
        }
    }
}

/// Which screen the application is showing.
#[derive(Debug, Clone, Copy, PartialEq, Eq, Structural)]
pub enum Screen {
    Learn,
    Practice,
    Dictionary,
    Settings,
}

/// What a screen is called on screen.
pub open spec fn screen_label(s: Screen) -> Seq<char> {
    match s {
        Screen::Learn => "Learn"@,
        Screen::Practice => "Practice"@,
        Screen::Dictionary => "Dictionary"@,
        Screen::Settings => "Settings"@,
    }
}

impl Screen {
    pub fn label(self) -> (s: &'static str)
        ensures
            s@ == screen_label(self),
    {
        match self {
            Screen::Learn => "Learn",
            Screen::Practice => "Practice",
            Screen::Dictionary => "Dictionary",
            Screen::Settings => "Settings",
        }
    }

    /// Screens where chording drives the engine rather than the widgets: on
    /// the others the keyboard belongs to searching and typing settings.
    pub fn captures_keys(self) -> (b: bool)
        ensures
            b == (self == Screen::Learn || self == Screen::Practice),
    {
        match self {
            Screen::Learn => true,
            Screen::Practice => true,
            _ => false,
        }
    }
}

impl Default for Screen {
    fn default() -> (s: Screen)
        ensures
            s == Screen::Learn,
    {
        Screen::Learn
    }
}

/// Who gets the keyboard in one frame.
#[derive(Debug, Clone, Copy, PartialEq, Eq, Structural)]
pub struct KeyRouting {
    /// Key events drive the engine rather than the widgets.
    pub wants_keys: bool,
    /// Keys are captured from the whole system and output injected into the
    /// focused application.
    pub system_wide: bool,
}

/// Decide who gets the keyboard. A focused text field always keeps it
/// (chording into a search box would make it unusable); otherwise chording
/// drives the engine during onboarding and on the screens that capture keys.
/// Capture and output go system-wide only from the Practice screen in
/// system-wide mode, once onboarding is over.
pub fn route_keyboard(typing_in_widget: bool, onboarded: bool, screen: Screen, mode: Mode) -> (r: KeyRouting)
    ensures
        r.wants_keys == (!typing_in_widget && (!onboarded || screen == Screen::Learn || screen == Screen::Practice)),
        r.system_wide == (onboarded && screen == Screen::Practice && mode == Mode::SystemWide),
{
    let wants_keys = !typing_in_widget && (!onboarded || screen.captures_keys());
    let system_wide = onboarded && screen == Screen::Practice && mode == Mode::SystemWide;
    KeyRouting { wants_keys, system_wide }
}

/// What a key event from the application window does.
#[derive(Debug, Clone, Copy, PartialEq, Eq, Structural)]
pub enum KeyAction {
    /// Resolve the pending strokes now.
    Flush,
    /// Ignore the event.
    Skip,
    /// Hand the press or release to the engine.
    Feed,
}

/// Space pressed flushes the pending strokes (it is never a steno key); any
/// other auto-repeat is skipped, since a held key is one press; everything
/// else goes to the engine.
pub fn key_action(is_space: bool, pressed: bool, repeat: bool) -> (a: KeyAction)
    ensures
        a == (if is_space && pressed {
            KeyAction::Flush
        } else if repeat {
            KeyAction::Skip
        } else {
            KeyAction::Feed
        }),
{
    if is_space && pressed {
        KeyAction::Flush
    } else if repeat {
        KeyAction::Skip
    } else {
        KeyAction::Feed
    }
}

/// The colour scheme.
#[derive(Debug, Clone, Copy, PartialEq, Eq, Structural)]
pub enum ThemeMode {
    Dark,
    Light,
}

/// What a colour scheme is called on screen.
pub open spec fn theme_label(t: ThemeMode) -> Seq<char> {
    match t {
        ThemeMode::Dark => "Dark"@,
        ThemeMode::Light => "Light"@,
    }
}

impl ThemeMode {
    pub fn label(self) -> (s: &'static str)
        ensures
            s@ == theme_label(self),
    {
        match self {
            ThemeMode::Dark => "Dark",
            ThemeMode::Light => "Light",
        }
    }
}

impl Default for ThemeMode {
    fn default() -> (t: ThemeMode)
        ensures
            t == ThemeMode::Dark,
    {
        ThemeMode::Dark
    }
}

/// The spacing rule for emitted text: no space before a single character
/// (fingerspelling and kana never take one), nor before the first word in
/// the application's own buffer; otherwise one leading space. Text typed into
/// other applications always leads with a space, since the cursor could be
/// anywhere in someone else's document.
pub open spec fn spaced_text(text: Seq<char>, mode: Mode, buffer_empty: bool) -> Seq<char> {
    if text.len() <= 1 || (mode == Mode::InApp && buffer_empty) {
        text
    } else {
        seq![' '] + text
    }
}

/// Apply the spacing rule to `text`.
pub fn spaced(text: &str, mode: Mode, buffer_empty: bool) -> (r: String)
    ensures
        r@ == spaced_text(text@, mode, buffer_empty),
{
    let single = chars_of(text).len() <= 1;
    let at_start = mode == Mode::InApp && buffer_empty;
    if single || at_start {
        owned(text)
    } else {
        let mut r = owned(" ");
        proof {
            reveal_strlit(" ");
        }
        push_text(&mut r, text);
        r
    }
}

/// What the user asked for on the Settings screen in one frame.
#[derive(Debug)]
pub struct SettingsAction {
    /// Index of a newly chosen pack.
    pub select_pack: Option<usize>,
    pub settings_changed: bool,
    pub reload_packs: bool,
    pub reset_progress: bool,
}

impl Default for SettingsAction {
    fn default() -> (a: SettingsAction)
        ensures
            a.select_pack is None && !a.settings_changed && !a.reload_packs && !a.reset_progress,
    {
        SettingsAction { select_pack: None, settings_changed: false, reload_packs: false, reset_progress: false }
    }
}

/// The Dictionary screen's state: the search typed so far and the entry
/// picked from the results.
#[derive(Debug)]
pub struct LookupState {
    pub query: String,
    pub selected: Option<Entry>,
}

impl Default for LookupState {
    fn default() -> (s: LookupState)
        ensures
            s.query@.len() == 0 && s.selected is None,
    {
        LookupState { query: String::new(), selected: None }
    }
}

} // verus!
