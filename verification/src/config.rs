//! The app's preferences: shortcuts, folder, trash retention, pin, and the
//! geometry of the main window and of every detached note window.

use vstd::prelude::*;
use crate::names::str_to_string;

verus! {

pub open spec fn toggle_app_release() -> Seq<char> {
    "Control+Alt+F"@
}

/// The development build registers another global shortcut: the first
/// program to register a combination keeps it, and the second fails
/// silently.
pub open spec fn toggle_app_dev() -> Seq<char> {
    "Control+Alt+Shift+F"@
}

pub open spec fn toggle_app_for(dev: bool) -> Seq<char> {
    if dev {
        toggle_app_dev()
    } else {
        toggle_app_release()
    }
}

/// The default global shortcut of the development (`dev`) or installed build.
pub fn default_toggle_app(dev: bool) -> (s: &'static str)
    ensures
        s@ == toggle_app_for(dev),
{
    if dev {
        "Control+Alt+Shift+F"
    } else {
        "Control+Alt+F"
    }
}

/// Key combinations, in Tauri's accelerator format ("Control+Alt+F"). Only
/// `toggle_app` is registered with the system; the others only apply while
/// a window of the app has the focus.
#[derive(Debug, Clone)]
pub struct Shortcuts {
    pub toggle_app: String,
    pub toggle_view: String,
    pub new_note: String,
    pub delete_note: String,
    pub toggle_pin: String,
    pub detach_note: String,
    /// Only applies inside a detached note window.
    pub close_window: String,
}

impl Shortcuts {
    /// The seven combinations, in field order.
    pub open spec fn combos(self) -> Seq<Seq<char>> {
        seq![
            self.toggle_app@,
            self.toggle_view@,
            self.new_note@,
            self.delete_note@,
            self.toggle_pin@,
            self.detach_note@,
            self.close_window@,
        ]
    }

    /// The default shortcuts of the development (`dev`) or installed build.
    pub open spec fn default_combos(dev: bool) -> Seq<Seq<char>> {
        seq![
            toggle_app_for(dev),
            "Control+Tab"@,
            "Control+E"@,
            "Control+D"@,
            "Control+F"@,
            "Control+Shift+E"@,
            "Control+W"@,
        ]
    }

    /// The defaults of one build. Mnemonics in Portuguese: Escrever (new),
    /// Deletar, Fixar (pin).
    pub fn for_build(dev: bool) -> (s: Shortcuts)
        ensures
            s.combos() == Self::default_combos(dev),
    {
        let s = Shortcuts {
            toggle_app: str_to_string(default_toggle_app(dev)),
            toggle_view: str_to_string("Control+Tab"),
            new_note: str_to_string("Control+E"),
            delete_note: str_to_string("Control+D"),
            toggle_pin: str_to_string("Control+F"),
            detach_note: str_to_string("Control+Shift+E"),
            close_window: str_to_string("Control+W"),
        };
        assert(s.combos() =~= Self::default_combos(dev));
        s
    }
}

/// The installed build's defaults.
impl Default for Shortcuts {
    fn default() -> (s: Shortcuts)
        ensures
            s.combos() == Shortcuts::default_combos(false),
    {
        Shortcuts::for_build(false)
    }
}

/// The global shortcut of the development build differs from the installed
/// one's, so both can be registered side by side.
pub proof fn lemma_toggle_app_differs()
    ensures
        toggle_app_for(true) != toggle_app_for(false),
{
    reveal_strlit("Control+Alt+F");
    reveal_strlit("Control+Alt+Shift+F");
    assert(toggle_app_for(true).len() != toggle_app_for(false).len());
}

/// No two default shortcuts share a combination, in either build.
pub proof fn lemma_default_shortcuts_distinct(dev: bool)
    ensures
        forall|i: int, j: int|
            0 <= i < j < 7 ==> #[trigger] Shortcuts::default_combos(dev)[i]
                != #[trigger] Shortcuts::default_combos(dev)[j],
{
    reveal_strlit("Control+Alt+F");
    reveal_strlit("Control+Alt+Shift+F");
    reveal_strlit("Control+Tab");
    reveal_strlit("Control+E");
    reveal_strlit("Control+D");
    reveal_strlit("Control+F");
    reveal_strlit("Control+Shift+E");
    reveal_strlit("Control+W");
    let c = Shortcuts::default_combos(dev);
    assert(c[2][8] != c[3][8]);
    assert(c[2][8] != c[4][8]);
    assert(c[2][8] != c[6][8]);
    assert(c[3][8] != c[4][8]);
    assert(c[3][8] != c[6][8]);
    assert(c[4][8] != c[6][8]);
    assert(c[0][8] != c[5][8]);
}

/// A note detached into its own window. Position and size stay `None` until
/// the window is first moved or resized.
#[derive(Debug, Clone)]
pub struct DetachedWindow {
    pub note_id: String,
    pub pos: Option<(i32, i32)>,
    pub size: Option<(u32, u32)>,
}

#[derive(Debug, Clone)]
pub struct Config {
    /// Empty means "use the app's default folder".
    pub notes_dir: String,
    pub shortcuts: Shortcuts,
    pub autostart: bool,
    /// Top-left corner of the main window, in physical pixels; `None` until
    /// the window is moved.
    pub window_pos: Option<(i32, i32)>,
    /// Width and height of the main window, in physical pixels; `None` until
    /// the window is resized.
    pub window_size: Option<(u32, u32)>,
    /// Days a deleted note stays in the trash; `0` means "never purge".
    pub trash_retention_days: u32,
    /// Losing the focus no longer hides the app. One preference for every
    /// window of the app.
    pub pinned: bool,
    /// The notes detached into their own window, with each window's geometry.
    pub detached: Vec<DetachedWindow>,
}

impl Config {
    /// The defaults of one build: autostart on, a 30-day trash, nothing
    /// pinned, nothing detached, and the folder left to the app's default.
    pub open spec fn is_default_for(self, dev: bool) -> bool {
        &&& self.notes_dir@.len() == 0
        &&& self.shortcuts.combos() == Shortcuts::default_combos(dev)
        &&& self.autostart
        &&& self.window_pos is None
        &&& self.window_size is None
        &&& self.trash_retention_days == 30
        &&& !self.pinned
        &&& self.detached@.len() == 0
    }

    pub fn for_build(dev: bool) -> (c: Config)
        ensures
            c.is_default_for(dev),
    {
        Config {
            notes_dir: String::new(),
            shortcuts: Shortcuts::for_build(dev),
            autostart: true,
            window_pos: None,
            window_size: None,
            trash_retention_days: 30,
            pinned: false,
            detached: Vec::new(),
        }
    }

    /// Whether the folder is still to be set to the app's default one.
    pub fn notes_dir_unset(&self) -> (b: bool)
        ensures
            b == (self.notes_dir@.len() == 0),
    {
        self.notes_dir.as_str().unicode_len() == 0
    }

    /// A missing folder falls back on `default_dir`; a folder that is set is
    /// kept. Nothing else changes.
    pub fn resolve_notes_dir(&mut self, default_dir: String)
        ensures
            final(self).notes_dir@ == (if old(self).notes_dir@.len() == 0 {
                default_dir@
            } else {
                old(self).notes_dir@
            }),
            final(self).shortcuts == old(self).shortcuts,
            final(self).autostart == old(self).autostart,
            final(self).window_pos == old(self).window_pos,
            final(self).window_size == old(self).window_size,
            final(self).trash_retention_days == old(self).trash_retention_days,
            final(self).pinned == old(self).pinned,
            final(self).detached == old(self).detached,
    {
        if self.notes_dir_unset() {
            self.notes_dir = default_dir;
        }
    }

    /// Whether saving `shortcuts` changes the global shortcut, which must then
    /// be registered before anything is saved.
    pub fn toggle_shortcut_changes(&self, shortcuts: &Shortcuts) -> (b: bool)
        ensures
            b == (shortcuts.toggle_app@ != self.shortcuts.toggle_app@),
    {
        !(shortcuts.toggle_app == self.shortcuts.toggle_app)
    }

    /// Takes the preferences of the settings window; the folder, the geometry,
    /// the pin and the detached windows are left as they were.
    pub fn apply_preferences(&mut self, shortcuts: Shortcuts, autostart: bool, trash_retention_days: u32)
        ensures
            final(self).shortcuts == shortcuts,
            final(self).autostart == autostart,
            final(self).trash_retention_days == trash_retention_days,
            final(self).notes_dir == old(self).notes_dir,
            final(self).window_pos == old(self).window_pos,
            final(self).window_size == old(self).window_size,
            final(self).pinned == old(self).pinned,
            final(self).detached == old(self).detached,
    {
        self.shortcuts = shortcuts;
        self.autostart = autostart;
        self.trash_retention_days = trash_retention_days;
    }
}

/// The installed build's defaults.
impl Default for Config {
    fn default() -> (c: Config)
        ensures
            c.is_default_for(false),
    {
        Config::for_build(false)
    }
}

} // verus!
