# notes

The verified core of a Windows desktop app for quick notes, operated by
keyboard shortcuts. Every note is a `.md` file in one folder; deleted notes go
to a `.trash` subfolder and are purged after a retention period.

- `src/` is the library, verified with Verus:
  - `names.rs`: acceptable note ids, note and trash file names, the deletion
    stamp and its decimal form;
  - `store.rs`: decisions taken on directory listings (which entries are
    notes, grid order, the id of a new note, trash counting, purging,
    restoring, moving to another folder);
  - `paths.rs`: folder paths and the sibling folder of the development build;
  - `config.rs`: preferences and their defaults;
  - `window.rs`: window labels, monitors, saved geometry, the composition of
    detached notes, showing and hiding;
  - `timing.rs`: drag grace periods, scheduling generations, chains of quick
    presses of the global shortcut (toggle, recenter, factory size).
- `app/` is the Tauri application around it: disk and window I/O, JSON,
  commands, tray.
- `tests/` exercises the library.
