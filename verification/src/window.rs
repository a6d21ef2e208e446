use vstd::prelude::*;
use crate::config::{Config, DetachedWindow};
use crate::timing::Generation;
use crate::names::{contains_str, listed, push_char, str_equal, str_to_string};

verus! {

/// Whether a window corner at `(x, y)` sits inside a monitor whose top-left
/// corner is `origin` and whose extent is `size`, with the tolerances of
/// `corner_fits`.
pub open spec fn spec_corner_fits(origin: (i32, i32), size: (u32, u32), x: i32, y: i32) -> bool {
    &&& x >= origin.0 - 8
    &&& y >= origin.1 - 8
    &&& x < origin.0 + (size.0 as i32) - 40
    &&& y < origin.1 + (size.1 as i32) - 40
}

/// The arithmetic of `corner_fits` stays inside `i32` for this monitor.
pub open spec fn monitor_in_range(origin: (i32, i32), size: (u32, u32)) -> bool {
    &&& i32::MIN <= origin.0 - 8
    &&& i32::MIN <= origin.1 - 8
    &&& i32::MIN <= origin.0 + (size.0 as i32) - 40 <= i32::MAX
    &&& i32::MIN <= origin.1 + (size.1 as i32) - 40 <= i32::MAX
    &&& i32::MIN <= origin.0 + (size.0 as i32) <= i32::MAX
    &&& i32::MIN <= origin.1 + (size.1 as i32) <= i32::MAX
}

/// Does the window corner fit this monitor? Up to 8 pixels behind the
/// monitor's origin are tolerated; 40 pixels in front of the far edges must
/// stay visible so the window can still be dragged back.
pub fn corner_fits(origin: (i32, i32), size: (u32, u32), x: i32, y: i32) -> (fits: bool)
    requires
        monitor_in_range(origin, size),
    ensures
        fits == spec_corner_fits(origin, size, x, y),
{
    let w = size.0 as i32;
    let h = size.1 as i32;
    x >= origin.0 - 8 && y >= origin.1 - 8 && x < origin.0 + w - 40 && y < origin.1 + h - 40
}

/// `spec_corner_fits` for any monitor: the same test as `corner_fits`,
/// carried out in `i64`, where none of its sums can overflow.
fn corner_fits_wide(origin: (i32, i32), size: (u32, u32), x: i32, y: i32) -> (fits: bool)
    ensures
        fits == spec_corner_fits(origin, size, x, y),
{
    let w = size.0 as i32 as i64;
    let h = size.1 as i32 as i64;
    let ox = origin.0 as i64;
    let oy = origin.1 as i64;
    let x = x as i64;
    let y = y as i64;
    x >= ox - 8 && y >= oy - 8 && x < ox + w - 40 && y < oy + h - 40
}

/// A monitor, as its top-left corner and its extent in physical pixels.
pub type Monitor = ((i32, i32), (u32, u32));

pub open spec fn visible_on_some(monitors: Seq<Monitor>, x: i32, y: i32) -> bool {
    exists|i: int| 0 <= i < monitors.len() && spec_corner_fits(#[trigger] monitors[i].0, monitors[i].1, x, y)
}

/// Monitors change (a laptop undocked, a TV turned off): a saved position
/// that fits none of the current monitors would leave the window invisible.
pub fn position_is_visible(monitors: &Vec<Monitor>, x: i32, y: i32) -> (b: bool)
    ensures
        b == visible_on_some(monitors@, x, y),
{
    let mut i: usize = 0;
    while i < monitors.len()
        invariant
            i <= monitors.len(),
            forall|k: int| 0 <= k < i ==> !spec_corner_fits(#[trigger] monitors@[k].0, monitors@[k].1, x, y),
        decreases monitors.len() - i,
    {
        let m = monitors[i];
        if corner_fits_wide(m.0, m.1, x, y) {
            return true;
        }
        i += 1;
    }
    false
}

// ---------------------------------------------------------------------------
// Window labels
// ---------------------------------------------------------------------------

pub open spec fn main_label() -> Seq<char> {
    seq!['m', 'a', 'i', 'n']
}

pub open spec fn note_label_prefix() -> Seq<char> {
    seq!['n', 'o', 't', 'e', '-']
}

/// The note a window shows, from its label `note-{id}`.
pub open spec fn note_id_in_label(label: Seq<char>) -> Option<Seq<char>> {
    if label.len() >= 5 && label.take(5) == note_label_prefix() {
        Some(label.skip(5))
    } else {
        None
    }
}

/// The main window and every detached note window hide and show together;
/// the settings window has a life of its own.
pub open spec fn is_notes_label(label: Seq<char>) -> bool {
    label == main_label() || note_id_in_label(label) is Some
}

/// The label of the window of a detached note.
pub open spec fn note_label(id: Seq<char>) -> Seq<char> {
    note_label_prefix() + id
}

fn has_note_prefix(label: &str) -> (b: bool)
    ensures
        b == (label@.len() >= 5 && label@.take(5) == note_label_prefix()),
{
    let n = label.unicode_len();
    if n < 5 {
        return false;
    }
    let r = label.get_char(0) == 'n' && label.get_char(1) == 'o' && label.get_char(2) == 't'
        && label.get_char(3) == 'e' && label.get_char(4) == '-';
    assert(r ==> label@.take(5) =~= note_label_prefix());
    assert(label@.take(5) == note_label_prefix() ==> (label@.take(5)[0] == 'n' && label@.take(5)[1] == 'o'
        && label@.take(5)[2] == 't' && label@.take(5)[3] == 'e' && label@.take(5)[4] == '-'));
    r
}

pub fn is_notes_window(label: &str) -> (b: bool)
    ensures
        b == is_notes_label(label@),
{
    let is_main = label.unicode_len() == 4 && label.get_char(0) == 'm' && label.get_char(1) == 'a'
        && label.get_char(2) == 'i' && label.get_char(3) == 'n';
    proof {
        if is_main {
            assert(label@ =~= main_label());
        }
        if label@ == main_label() {
            assert(label@[0] == 'm' && label@[1] == 'a' && label@[2] == 'i' && label@[3] == 'n');
        }
    }
    is_main || has_note_prefix(label)
}

pub fn window_note_id(label: &str) -> (r: Option<&str>)
    ensures
        r is Some <==> note_id_in_label(label@) is Some,
        r matches Some(id) ==> note_id_in_label(label@) == Some(id@),
{
    if has_note_prefix(label) {
        let n = label.unicode_len();
        let id = label.substring_char(5, n);
        assert(id@ =~= label@.skip(5));
        Some(id)
    } else {
        None
    }
}

pub fn note_window_label(note_id: &str) -> (label: String)
    ensures
        label@ == note_label(note_id@),
{
    let mut label = String::new();
    push_char(&mut label, 'n');
    push_char(&mut label, 'o');
    push_char(&mut label, 't');
    push_char(&mut label, 'e');
    push_char(&mut label, '-');
    label.append(note_id);
    assert(label@ =~= note_label(note_id@));
    label
}

/// The window of a detached note is a notes window, and its label gives back
/// the note it was made for; the main window carries no note.
pub proof fn lemma_note_label_roundtrip(note_id: Seq<char>)
    ensures
        note_id_in_label(note_label(note_id)) == Some(note_id),
        is_notes_label(note_label(note_id)),
        note_id_in_label(main_label()) is None,
{
    assert(note_label(note_id).take(5) =~= note_label_prefix());
    assert(note_label(note_id).skip(5) =~= note_id);
    assert(main_label().len() < 5);
}

/// Whether any window of `windows` (label, has the focus) is a focused notes
/// window.
pub open spec fn some_notes_window_focused(windows: Seq<(String, bool)>) -> bool {
    exists|i: int| 0 <= i < windows.len() && #[trigger] windows[i].1 && is_notes_label(windows[i].0@)
}

pub fn any_notes_window_focused(windows: &Vec<(String, bool)>) -> (b: bool)
    ensures
        b == some_notes_window_focused(windows@),
{
    let mut i: usize = 0;
    while i < windows.len()
        invariant
            i <= windows.len(),
            forall|k: int| 0 <= k < i ==> !(#[trigger] windows@[k].1 && is_notes_label(windows@[k].0@)),
        decreases windows.len() - i,
    {
        if windows[i].1 && is_notes_window(windows[i].0.as_str()) {
            return true;
        }
        i += 1;
    }
    false
}

// ---------------------------------------------------------------------------
// Saved geometry
// ---------------------------------------------------------------------------

/// Position of the first entry of `ds` for the note `id`.
pub open spec fn first_entry(ds: Seq<DetachedWindow>, id: Seq<char>) -> Option<int>
    decreases ds.len(),
{
    if ds.len() == 0 {
        None
    } else {
        match first_entry(ds.drop_last(), id) {
            Some(k) => Some(k),
            None => if ds.last().note_id@ == id {
                Some(ds.len() - 1)
            } else {
                None
            },
        }
    }
}

pub proof fn lemma_first_entry(ds: Seq<DetachedWindow>, id: Seq<char>)
    ensures
        first_entry(ds, id) matches Some(k) ==> 0 <= k < ds.len() && ds[k].note_id@ == id && forall|
            j: int,
        | 0 <= j < k ==> (#[trigger] ds[j]).note_id@ != id,
        first_entry(ds, id) is None ==> forall|j: int| 0 <= j < ds.len() ==> (#[trigger] ds[j]).note_id@ != id,
    decreases ds.len(),
{
    if ds.len() > 0 {
        lemma_first_entry(ds.drop_last(), id);
        assert forall|j: int| 0 <= j < ds.len() - 1 implies ds[j] == ds.drop_last()[j] by {}
    }
}

fn find_entry(ds: &Vec<DetachedWindow>, id: &str) -> (r: Option<usize>)
    ensures
        r is Some <==> first_entry(ds@, id@) is Some,
        r matches Some(k) ==> first_entry(ds@, id@) == Some(k as int) && k < ds@.len() && ds@[k as int].note_id@ == id@,
{
    proof {
        lemma_first_entry(ds@, id@);
    }
    let mut i: usize = 0;
    while i < ds.len()
        invariant
            i <= ds.len(),
            forall|j: int| 0 <= j < i ==> (#[trigger] ds@[j]).note_id@ != id@,
        decreases ds.len() - i,
    {
        if str_equal(ds[i].note_id.as_str(), id) {
            proof {
                lemma_first_entry(ds@, id@);
                if let Some(k) = first_entry(ds@, id@) {
                    if k < i {
                        assert(ds@[k].note_id@ != id@);
                    } else if k > i {
                        assert(ds@[i as int].note_id@ != id@);
                    }
                }
            }
            return Some(i);
        }
        i += 1;
    }
    None
}

pub type Geometry = (Option<(i32, i32)>, Option<(u32, u32)>);

/// The saved geometry of the window `label`: the main window's own fields,
/// or the entry of `detached` for the note in the label.
pub open spec fn geometry_of(cfg: Config, label: Seq<char>) -> Geometry {
    match note_id_in_label(label) {
        Some(id) => match first_entry(cfg.detached@, id) {
            Some(k) => (cfg.detached@[k].pos, cfg.detached@[k].size),
            None => (None, None),
        },
        None => (cfg.window_pos, cfg.window_size),
    }
}

/// A note that was never detached has no geometry of its own to give.
pub fn saved_geometry(cfg: &Config, label: &str) -> (g: Geometry)
    ensures
        g == geometry_of(*cfg, label@),
{
    match window_note_id(label) {
        Some(note_id) => match find_entry(&cfg.detached, note_id) {
            Some(k) => (cfg.detached[k].pos, cfg.detached[k].size),
            None => (None, None),
        },
        None => (cfg.window_pos, cfg.window_size),
    }
}

/// `after` is `before` with the geometry of the window `label` set to
/// `(pos, size)`: the main window's fields for a label without a note, the
/// note's entry otherwise; a note without an entry changes nothing.
pub open spec fn is_recorded(before: Config, after: Config, label: Seq<char>, pos: (i32, i32), size: (u32, u32)) -> bool {
    &&& after.notes_dir == before.notes_dir
    &&& after.shortcuts == before.shortcuts
    &&& after.autostart == before.autostart
    &&& after.trash_retention_days == before.trash_retention_days
    &&& after.pinned == before.pinned
    &&& match note_id_in_label(label) {
        None => {
            &&& after.window_pos == Some(pos)
            &&& after.window_size == Some(size)
            &&& after.detached@ == before.detached@
        },
        Some(id) => {
            &&& after.window_pos == before.window_pos
            &&& after.window_size == before.window_size
            &&& after.detached@.len() == before.detached@.len()
            &&& match first_entry(before.detached@, id) {
                None => after.detached@ == before.detached@,
                Some(k) => {
                    &&& forall|j: int| 0 <= j < before.detached@.len() && j != k ==> after.detached@[j] == before.detached@[j]
                    &&& after.detached@[k].note_id == before.detached@[k].note_id
                    &&& after.detached@[k].pos == Some(pos)
                    &&& after.detached@[k].size == Some(size)
                },
            }
        },
    }
}

/// Stores the current geometry of the window `label`; `true` when something
/// changed and the configuration is to be written. A window whose note is no
/// longer detached has no entry to update.
pub fn record_geometry(cfg: &mut Config, label: &str, pos: (i32, i32), size: (u32, u32)) -> (changed: bool)
    ensures
        is_recorded(*old(cfg), *final(cfg), label@, pos, size),
        changed == (geometry_of(*old(cfg), label@) != (Some(pos), Some(size)) && (note_id_in_label(label@) is None || first_entry(old(cfg).detached@, note_id_in_label(label@)->0) is Some)),
{
    let next_pos = Some(pos);
    let next_size = Some(size);
    match window_note_id(label) {
        Some(note_id) => {
            let k = match find_entry(&cfg.detached, note_id) {
                Some(k) => k,
                None => return false,
            };
            if cfg.detached[k].pos == next_pos && cfg.detached[k].size == next_size {
                return false;
            }
            let mut entry = cfg.detached.remove(k);
            entry.pos = next_pos;
            entry.size = next_size;
            cfg.detached.insert(k, entry);
            true
        },
        None => {
            if cfg.window_pos == next_pos && cfg.window_size == next_size {
                return false;
            }
            cfg.window_pos = next_pos;
            cfg.window_size = next_size;
            true
        },
    }
}

/// What a write gives back: once the geometry of a window is recorded, its
/// saved geometry is the one recorded (for a detached note, as long as it
/// has an entry).
pub proof fn lemma_recorded_geometry_read_back(before: Config, after: Config, label: Seq<char>, pos: (i32, i32), size: (u32, u32))
    requires
        is_recorded(before, after, label, pos, size),
        note_id_in_label(label) is None || first_entry(before.detached@, note_id_in_label(label)->0) is Some,
    ensures
        geometry_of(after, label) == (Some(pos), Some(size)),
{
    if let Some(id) = note_id_in_label(label) {
        let k = first_entry(before.detached@, id)->0;
        lemma_first_entry(before.detached@, id);
        lemma_first_entry(after.detached@, id);
        if let Some(k2) = first_entry(after.detached@, id) {
            if k2 < k {
                assert(after.detached@[k2] == before.detached@[k2]);
            } else if k2 > k {
                assert(after.detached@[k].note_id@ == id);
            }
        } else {
            assert(after.detached@[k].note_id@ == id);
        }
    }
}

/// Recording the geometry of one window leaves the saved geometry of every
/// other window as it was: moving a detached note never moves the main
/// window, nor another note.
pub proof fn lemma_recorded_geometry_is_local(before: Config, after: Config, label: Seq<char>, pos: (i32, i32), size: (u32, u32), other: Seq<char>)
    requires
        is_recorded(before, after, label, pos, size),
        note_id_in_label(other) != note_id_in_label(label),
    ensures
        geometry_of(after, other) == geometry_of(before, other),
{
    if let Some(oid) = note_id_in_label(other) {
        lemma_first_entry(before.detached@, oid);
        lemma_first_entry(after.detached@, oid);
        if let Some(id) = note_id_in_label(label) {
            if let Some(k) = first_entry(before.detached@, id) {
                lemma_first_entry(before.detached@, id);
                assert forall|j: int| 0 <= j < after.detached@.len() implies (#[trigger] after.detached@[j]).note_id == before.detached@[j].note_id by {
                    if j != k {
                        assert(after.detached@[j] == before.detached@[j]);
                    }
                }
                match (first_entry(before.detached@, oid), first_entry(after.detached@, oid)) {
                    (Some(a), Some(b)) => {
                        if a < b {
                            assert(after.detached@[a].note_id == before.detached@[a].note_id);
                        } else if b < a {
                            assert(after.detached@[b].note_id == before.detached@[b].note_id);
                        }
                        assert(a != k);
                    },
                    (Some(a), None) => {
                        assert(after.detached@[a].note_id == before.detached@[a].note_id);
                    },
                    (None, Some(b)) => {
                        assert(after.detached@[b].note_id == before.detached@[b].note_id);
                    },
                    (None, None) => {},
                }
            }
        }
    }
}


// ---------------------------------------------------------------------------
// Placing a window
// ---------------------------------------------------------------------------

/// Where a window goes.
#[derive(Debug, Clone, Copy, PartialEq, Eq, Structural)]
pub enum Placement {
    /// Top-left corner at this physical position.
    At(i32, i32),
    /// Centered on its monitor.
    Center,
}

/// How a window is put back when the app shows it: first the size (resizing
/// afterwards would shift it), then the position.
#[derive(Debug, Clone, Copy)]
pub struct RestorePlan {
    pub size: Option<(u32, u32)>,
    pub place: Placement,
}

/// The saved geometry of the window, with the saved position only where some
/// current monitor still shows it; otherwise the window is centered.
pub open spec fn restore_plan_of(cfg: Config, label: Seq<char>, monitors: Seq<Monitor>) -> RestorePlan {
    let (pos, size) = geometry_of(cfg, label);
    RestorePlan {
        size,
        place: match pos {
            Some((x, y)) => if visible_on_some(monitors, x, y) {
                Placement::At(x, y)
            } else {
                Placement::Center
            },
            None => Placement::Center,
        },
    }
}

pub fn restore_plan(cfg: &Config, label: &str, monitors: &Vec<Monitor>) -> (plan: RestorePlan)
    ensures
        plan == restore_plan_of(*cfg, label@, monitors@),
        plan.size == geometry_of(*cfg, label@).1,
        plan.place == (match geometry_of(*cfg, label@).0 {
            Some((x, y)) => if exists|m: int| 0 <= m < monitors@.len() && spec_corner_fits(
                (#[trigger] monitors@[m]).0,
                monitors@[m].1,
                x,
                y,
            ) {
                Placement::At(x, y)
            } else {
                Placement::Center
            },
            None => Placement::Center,
        }),
{
    let (pos, size) = saved_geometry(cfg, label);
    let place = match pos {
        Some((x, y)) => if position_is_visible(monitors, x, y) {
            Placement::At(x, y)
        } else {
            Placement::Center
        },
        None => Placement::Center,
    };
    RestorePlan { size, place }
}

/// Half of `v`, rounded toward zero, as Rust's `/` on `i32` does.
pub open spec fn half_toward_zero(v: int) -> int {
    if v >= 0 {
        v / 2
    } else {
        -((-v) / 2)
    }
}

/// The corner that centers a window of width or height `extent` on the
/// coordinate `p`; the extent is first read as an `i32`, as the drop code
/// does.
pub open spec fn centered_on(p: i32, extent: u32) -> int {
    p - half_toward_zero((extent as i32) as int)
}

fn half_extent(extent: u32) -> (h: i32)
    ensures
        h as int == half_toward_zero((extent as i32) as int),
{
    if extent <= 0x7fff_ffff {
        assert((extent as i32) as int == extent as int) by (bit_vector)
            requires
                extent <= 0x7fff_ffff,
        ;
        (extent / 2) as i32
    } else {
        assert((extent as i32) as int == extent as int - 0x1_0000_0000) by (bit_vector)
            requires
                extent > 0x7fff_ffff,
        ;
        let m: u64 = 0x1_0000_0000u64 - extent as u64;
        -((m / 2) as i32)
    }
}

/// The placement of a note window that is just being detached: its saved
/// position if it has one; else, for a note dropped at `(x, y)` outside the
/// grid, centered under the drop point once the window's outer size is known
/// (no move when it is not); else centered on the screen.
pub open spec fn detach_placement_of(saved_pos: Option<(i32, i32)>, drop_x: Option<i32>, drop_y: Option<i32>, outer_size: Option<(u32, u32)>) -> Option<Placement> {
    match saved_pos {
        Some((px, py)) => Some(Placement::At(px, py)),
        None => match (drop_x, drop_y) {
            (Some(px), Some(py)) => match outer_size {
                Some((w, h)) => Some(Placement::At(centered_on(px, w) as i32, centered_on(py, h) as i32)),
                None => None,
            },
            _ => Some(Placement::Center),
        },
    }
}

/// The centering stays within `i32`.
pub open spec fn drop_in_range(saved_pos: Option<(i32, i32)>, drop_x: Option<i32>, drop_y: Option<i32>, outer_size: Option<(u32, u32)>) -> bool {
    saved_pos is None ==> match (drop_x, drop_y, outer_size) {
        (Some(px), Some(py), Some((w, h))) => i32::MIN <= centered_on(px, w) <= i32::MAX && i32::MIN <= centered_on(py, h) <= i32::MAX,
        _ => true,
    }
}

pub fn detach_placement(saved_pos: Option<(i32, i32)>, drop_x: Option<i32>, drop_y: Option<i32>, outer_size: Option<(u32, u32)>) -> (p: Option<Placement>)
    requires
        drop_in_range(saved_pos, drop_x, drop_y, outer_size),
    ensures
        p == detach_placement_of(saved_pos, drop_x, drop_y, outer_size),
{
    match saved_pos {
        Some((px, py)) => Some(Placement::At(px, py)),
        None => match (drop_x, drop_y) {
            (Some(px), Some(py)) => match outer_size {
                Some((w, h)) => {
                    let nx = px - half_extent(w);
                    let ny = py - half_extent(h);
                    Some(Placement::At(nx, ny))
                },
                None => None,
            },
            _ => Some(Placement::Center),
        },
    }
}

/// `drop_in_range`, computed.
pub fn drop_fits(saved_pos: Option<(i32, i32)>, drop_x: Option<i32>, drop_y: Option<i32>, outer_size: Option<(u32, u32)>) -> (b: bool)
    ensures
        b == drop_in_range(saved_pos, drop_x, drop_y, outer_size),
{
    if saved_pos.is_some() {
        return true;
    }
    match (drop_x, drop_y, outer_size) {
        (Some(px), Some(py), Some((w, h))) => {
            let nx = px as i64 - half_extent(w) as i64;
            let ny = py as i64 - half_extent(h) as i64;
            i32::MIN as i64 <= nx && nx <= i32::MAX as i64 && i32::MIN as i64 <= ny && ny <= i32::MAX as i64
        },
        _ => true,
    }
}

// ---------------------------------------------------------------------------
// The detached composition
// ---------------------------------------------------------------------------

/// The ids of the detached notes, in order.
pub fn detached_ids(cfg: &Config) -> (ids: Vec<String>)
    ensures
        ids@.len() == cfg.detached@.len(),
        forall|i: int| 0 <= i < ids@.len() ==> (#[trigger] ids@[i])@ == cfg.detached@[i].note_id@,
{
    let mut ids: Vec<String> = Vec::new();
    let mut i: usize = 0;
    while i < cfg.detached.len()
        invariant
            i <= cfg.detached.len(),
            ids@.len() == i,
            forall|k: int| 0 <= k < i ==> (#[trigger] ids@[k])@ == cfg.detached@[k].note_id@,
        decreases cfg.detached.len() - i,
    {
        ids.push(cfg.detached[i].note_id.clone());
        i += 1;
    }
    ids
}

/// The entries of `ds` whose note is among `ids`.
pub open spec fn kept_entries(ds: Seq<DetachedWindow>, ids: Seq<String>) -> Seq<DetachedWindow> {
    ds.filter(|d: DetachedWindow| listed(ids, d.note_id@))
}

/// Drops the entries whose note no longer exists on disk (`on_disk` holds the
/// ids of the notes that do); the others stay, in order and with their
/// geometry. Without this, the next start would open a window for a note
/// that is gone.
pub fn prune_detached(detached: Vec<DetachedWindow>, on_disk: &Vec<String>) -> (kept: Vec<DetachedWindow>)
    ensures
        kept@ == kept_entries(detached@, on_disk@),
        unique_ids(detached@) ==> unique_ids(kept@),
{
    let ghost orig = detached@;
    let ghost keep = |d: DetachedWindow| listed(on_disk@, d.note_id@);
    let mut rest = detached;
    let mut kept: Vec<DetachedWindow> = Vec::new();
    let n = rest.len();
    let mut i: usize = 0;
    while i < n
        invariant
            n == orig.len(),
            i <= n,
            rest@ == orig.skip(i as int),
            keep == (|d: DetachedWindow| listed(on_disk@, d.note_id@)),
            kept@ == orig.take(i as int).filter(keep),
        decreases n - i,
    {
        let d = rest.remove(0);
        assert(d == orig[i as int]);
        let ghost before = kept@;
        proof {
            reveal(Seq::filter);
            assert(orig.take(i + 1).drop_last() =~= orig.take(i as int));
            assert(orig.take(i + 1).last() == d);
        }
        if contains_str(on_disk, d.note_id.as_str()) {
            kept.push(d);
        }
        assert(rest@ =~= orig.skip(i + 1));
        i += 1;
    }
    assert(orig.take(n as int) =~= orig);
    proof {
        if unique_ids(orig) {
            lemma_filter_keeps_ids_unique(orig, keep);
        }
    }
    kept
}

/// At start-up, the composition loses the notes that disappeared from disk
/// while the app was closed. `true` when an entry was dropped and the
/// configuration is to be written.
pub fn prune_missing_detached(cfg: &mut Config, on_disk: &Vec<String>) -> (changed: bool)
    ensures
        final(cfg).detached@ == kept_entries(old(cfg).detached@, on_disk@),
        changed == (final(cfg).detached@.len() != old(cfg).detached@.len()),
        unique_ids(old(cfg).detached@) ==> unique_ids(final(cfg).detached@),
        final(cfg).notes_dir == old(cfg).notes_dir,
        final(cfg).shortcuts == old(cfg).shortcuts,
        final(cfg).autostart == old(cfg).autostart,
        final(cfg).window_pos == old(cfg).window_pos,
        final(cfg).window_size == old(cfg).window_size,
        final(cfg).trash_retention_days == old(cfg).trash_retention_days,
        final(cfg).pinned == old(cfg).pinned,
{
    let before = cfg.detached.len();
    let mut taken: Vec<DetachedWindow> = Vec::new();
    std::mem::swap(&mut taken, &mut cfg.detached);
    cfg.detached = prune_detached(taken, on_disk);
    cfg.detached.len() != before
}

/// No note has two entries in the composition.
pub open spec fn unique_ids(ds: Seq<DetachedWindow>) -> bool {
    forall|i: int, j: int| 0 <= i < j < ds.len() ==> (#[trigger] ds[i]).note_id@ != (#[trigger] ds[j]).note_id@
}

/// Keeping some of the entries never lists a note twice.
pub proof fn lemma_filter_keeps_ids_unique(ds: Seq<DetachedWindow>, keep: spec_fn(DetachedWindow) -> bool)
    requires
        unique_ids(ds),
    ensures
        unique_ids(ds.filter(keep)),
    decreases ds.len(),
{
    reveal(Seq::filter);
    if ds.len() > 0 {
        let rest = ds.drop_last();
        assert(unique_ids(rest)) by {
            assert forall|i: int, j: int| 0 <= i < j < rest.len() implies (#[trigger] rest[i]).note_id@ != (#[trigger] rest[j]).note_id@ by {
                assert(rest[i] == ds[i] && rest[j] == ds[j]);
            }
        }
        lemma_filter_keeps_ids_unique(rest, keep);
        let f = rest.filter(keep);
        if keep(ds.last()) {
            assert forall|i: int, j: int| 0 <= i < j < f.len() + 1 implies (#[trigger] ds.filter(keep)[i]).note_id@ != (#[trigger] ds.filter(keep)[j]).note_id@ by {
                if j == f.len() {
                    let e = f[i];
                    assert(f.contains(e));
                    rest.lemma_filter_contains_rev(keep, e);
                    let k = choose|k: int| 0 <= k < rest.len() && rest[k] == e;
                    assert(ds[k] == e);
                    assert(ds[ds.len() - 1] == ds.last());
                }
            }
        }
    }
}

/// Whether the note `id` has an entry.
pub open spec fn is_detached(ds: Seq<DetachedWindow>, id: Seq<char>) -> bool {
    exists|i: int| 0 <= i < ds.len() && (#[trigger] ds[i]).note_id@ == id
}

/// Records that the note `id` is detached, with no geometry yet; a note that
/// already has an entry keeps it, so no note is ever listed twice. `true`
/// when an entry was added and the configuration is to be written.
pub fn add_detached(cfg: &mut Config, id: &str) -> (added: bool)
    ensures
        added == !is_detached(old(cfg).detached@, id@),
        added ==> final(cfg).detached@.len() == old(cfg).detached@.len() + 1
            && final(cfg).detached@.take(old(cfg).detached@.len() as int) == old(cfg).detached@
            && final(cfg).detached@.last().note_id@ == id@
            && final(cfg).detached@.last().pos is None
            && final(cfg).detached@.last().size is None,
        !added ==> final(cfg).detached@ == old(cfg).detached@,
        unique_ids(old(cfg).detached@) ==> unique_ids(final(cfg).detached@),
        final(cfg).notes_dir == old(cfg).notes_dir,
        final(cfg).shortcuts == old(cfg).shortcuts,
        final(cfg).autostart == old(cfg).autostart,
        final(cfg).window_pos == old(cfg).window_pos,
        final(cfg).window_size == old(cfg).window_size,
        final(cfg).trash_retention_days == old(cfg).trash_retention_days,
        final(cfg).pinned == old(cfg).pinned,
{
    proof {
        lemma_first_entry(cfg.detached@, id@);
    }
    match find_entry(&cfg.detached, id) {
        Some(_) => false,
        None => {
            cfg.detached.push(DetachedWindow { note_id: str_to_string(id), pos: None, size: None });
            assert(cfg.detached@.take(old(cfg).detached@.len() as int) =~= old(cfg).detached@);
            assert forall|i: int, j: int| 0 <= i < j < cfg.detached@.len() && unique_ids(old(cfg).detached@) implies (#[trigger] cfg.detached@[i]).note_id@ != (#[trigger] cfg.detached@[j]).note_id@ by {
                assert(cfg.detached@[i] == old(cfg).detached@[i]);
            }
            true
        },
    }
}

/// Drops the note `id` from the composition; every other entry stays, in
/// order.
pub fn remove_detached(cfg: &mut Config, id: &str)
    ensures
        final(cfg).detached@ == old(cfg).detached@.filter(|d: DetachedWindow| d.note_id@ != id@),
        unique_ids(old(cfg).detached@) ==> unique_ids(final(cfg).detached@),
        final(cfg).notes_dir == old(cfg).notes_dir,
        final(cfg).shortcuts == old(cfg).shortcuts,
        final(cfg).autostart == old(cfg).autostart,
        final(cfg).window_pos == old(cfg).window_pos,
        final(cfg).window_size == old(cfg).window_size,
        final(cfg).trash_retention_days == old(cfg).trash_retention_days,
        final(cfg).pinned == old(cfg).pinned,
{
    let mut rest: Vec<DetachedWindow> = Vec::new();
    std::mem::swap(&mut rest, &mut cfg.detached);
    let ghost orig = rest@;
    let ghost keep = |d: DetachedWindow| d.note_id@ != id@;
    let mut kept: Vec<DetachedWindow> = Vec::new();
    let n = rest.len();
    let mut i: usize = 0;
    while i < n
        invariant
            n == orig.len(),
            i <= n,
            rest@ == orig.skip(i as int),
            keep == (|d: DetachedWindow| d.note_id@ != id@),
            kept@ == orig.take(i as int).filter(keep),
        decreases n - i,
    {
        let d = rest.remove(0);
        assert(d == orig[i as int]);
        proof {
            reveal(Seq::filter);
            assert(orig.take(i + 1).drop_last() =~= orig.take(i as int));
            assert(orig.take(i + 1).last() == d);
        }
        if !str_equal(d.note_id.as_str(), id) {
            kept.push(d);
        }
        assert(rest@ =~= orig.skip(i + 1));
        i += 1;
    }
    assert(orig.take(n as int) =~= orig);
    proof {
        if unique_ids(orig) {
            lemma_filter_keeps_ids_unique(orig, keep);
        }
    }
    cfg.detached = kept;
}


// ---------------------------------------------------------------------------
// Showing, hiding, and the events of a notes window
// ---------------------------------------------------------------------------

#[derive(Debug, Clone, Copy, PartialEq, Eq, Structural)]
pub enum AppVisibility {
    Hide,
    Show,
}

/// The global shortcut toggles the app as a whole: hidden when one of its
/// notes windows has the focus, shown otherwise; nothing without a main
/// window.
pub open spec fn toggle_of(main_exists: bool, windows: Seq<(String, bool)>) -> Option<AppVisibility> {
    if !main_exists {
        None
    } else if some_notes_window_focused(windows) {
        Some(AppVisibility::Hide)
    } else {
        Some(AppVisibility::Show)
    }
}

pub fn toggle_visibility(main_exists: bool, windows: &Vec<(String, bool)>) -> (v: Option<AppVisibility>)
    ensures
        v == toggle_of(main_exists, windows@),
        !main_exists ==> v is None,
        main_exists ==> (v == Some(AppVisibility::Hide) <==> exists|i: int|
            0 <= i < windows@.len() && (#[trigger] windows@[i]).1 && is_notes_label(windows@[i].0@)),
        main_exists ==> (v == Some(AppVisibility::Show) <==> forall|i: int|
            0 <= i < windows@.len() ==> !((#[trigger] windows@[i]).1 && is_notes_label(windows@[i].0@))),
{
    if !main_exists {
        return None;
    }
    if any_notes_window_focused(windows) {
        Some(AppVisibility::Hide)
    } else {
        Some(AppVisibility::Show)
    }
}

/// When the check scheduled by a loss of focus fires: the whole app hides
/// only if no later check was scheduled, no notes window has the focus any
/// more, and the app is not pinned. Moving the focus between two windows of
/// the app therefore never hides anything.
pub open spec fn hides_after_blur(current: u64, scheduled: u64, windows: Seq<(String, bool)>, pinned: bool) -> bool {
    current == scheduled && !some_notes_window_focused(windows) && !pinned
}

pub fn should_hide_after_blur(generation: &Generation, scheduled: u64, windows: &Vec<(String, bool)>, pinned: bool) -> (b: bool)
    ensures
        b == hides_after_blur(generation.value, scheduled, windows@, pinned),
{
    generation.is_current(scheduled) && !any_notes_window_focused(windows) && !pinned
}

/// Focus moving to another window of the app never hides it.
pub proof fn lemma_focus_within_app_never_hides(current: u64, scheduled: u64, windows: Seq<(String, bool)>, pinned: bool, i: int)
    requires
        0 <= i < windows.len(),
        windows[i].1,
        is_notes_label(windows[i].0@),
    ensures
        !hides_after_blur(current, scheduled, windows, pinned),
{
}

/// Of a burst of blurs only the last check may hide: once `later >= 1` more
/// checks are scheduled after the one with generation `start + 1`, that one
/// finds a newer generation and hides nothing, while the last check hides
/// exactly when no notes window has the focus and the app is not pinned. The
/// counter must be able to advance that far.
pub proof fn lemma_only_last_check_hides(start: u64, later: nat, windows: Seq<(String, bool)>, pinned: bool)
    requires
        later >= 1,
        start + 1 + later <= u64::MAX,
    ensures
        !hides_after_blur((start + 1 + later) as u64, (start + 1) as u64, windows, pinned),
        hides_after_blur((start + 1 + later) as u64, (start + 1 + later) as u64, windows, pinned)
            == (!some_notes_window_focused(windows) && !pinned),
{
}

/// The shortcut hides the app whenever one of its notes windows has the
/// focus, the main window as much as a detached note.
pub proof fn lemma_toggle_hides_focused_app(windows: Seq<(String, bool)>, i: int)
    requires
        0 <= i < windows.len(),
        windows[i].1,
        windows[i].0@ == main_label() || note_id_in_label(windows[i].0@) is Some,
    ensures
        toggle_of(true, windows) == Some(AppVisibility::Hide),
{
    assert(is_notes_label(windows[i].0@));
}

/// The shortcut shows the app when none of its notes windows has the focus,
/// and does nothing without a main window.
pub proof fn lemma_toggle_shows_unfocused_app(windows: Seq<(String, bool)>)
    requires
        forall|i: int|
            0 <= i < windows.len() && (#[trigger] windows[i]).1 ==> windows[i].0@ != main_label()
                && note_id_in_label(windows[i].0@) is None,
    ensures
        toggle_of(true, windows) == Some(AppVisibility::Show),
        toggle_of(false, windows) is None,
{
}

/// A loss of focus gets the same answer from every window, the main one and
/// each detached note alike: the hide check, unless a drag is fresh.
pub proof fn lemma_focus_loss_same_for_every_window(label: Seq<char>, other: Seq<char>, dragging: bool)
    ensures
        response_of(label, WindowEventKind::FocusLost, dragging) == response_of(
            other,
            WindowEventKind::FocusLost,
            dragging,
        ),
        response_of(label, WindowEventKind::FocusLost, false) == EventResponse::ScheduleHideCheck,
        response_of(label, WindowEventKind::FocusLost, true) == EventResponse::Ignore,
{
}

/// A saved position that some current monitor shows is where the window goes
/// back, whatever the window; its saved size comes back with it.
pub proof fn lemma_restore_keeps_visible_position(cfg: Config, label: Seq<char>, monitors: Seq<Monitor>, x: i32, y: i32, m: int)
    requires
        geometry_of(cfg, label).0 == Some((x, y)),
        0 <= m < monitors.len(),
        spec_corner_fits(monitors[m].0, monitors[m].1, x, y),
    ensures
        restore_plan_of(cfg, label, monitors).place == Placement::At(x, y),
        restore_plan_of(cfg, label, monitors).size == geometry_of(cfg, label).1,
{
}

/// A window is centered only when it has no saved position or no current
/// monitor shows it.
pub proof fn lemma_restore_centers_only_without_visible_position(cfg: Config, label: Seq<char>, monitors: Seq<Monitor>)
    ensures
        restore_plan_of(cfg, label, monitors).place == Placement::Center <==> (match geometry_of(cfg, label).0 {
            Some((x, y)) => forall|m: int|
                0 <= m < monitors.len() ==> !spec_corner_fits(#[trigger] monitors[m].0, monitors[m].1, x, y),
            None => true,
        }),
{
}

/// A detached note comes back where its entry says, with the entry's size,
/// when a monitor shows that position; the main window comes back at its
/// own saved position.
pub proof fn lemma_restore_detached_note(cfg: Config, id: Seq<char>, k: int, monitors: Seq<Monitor>, m: int, x: i32, y: i32)
    requires
        0 <= k < cfg.detached@.len(),
        cfg.detached@[k].note_id@ == id,
        forall|j: int| 0 <= j < k ==> (#[trigger] cfg.detached@[j]).note_id@ != id,
        cfg.detached@[k].pos == Some((x, y)),
        0 <= m < monitors.len(),
        spec_corner_fits(monitors[m].0, monitors[m].1, x, y),
    ensures
        restore_plan_of(cfg, note_label(id), monitors) == (RestorePlan {
            size: cfg.detached@[k].size,
            place: Placement::At(x, y),
        }),
        cfg.window_pos == Some((x, y)) ==> restore_plan_of(cfg, main_label(), monitors) == (RestorePlan {
            size: cfg.window_size,
            place: Placement::At(x, y),
        }),
{
    lemma_note_label_roundtrip(id);
    lemma_first_entry(cfg.detached@, id);
    if first_entry(cfg.detached@, id) is Some {
        let k2 = first_entry(cfg.detached@, id)->0;
        assert(k2 == k) by {
            if k2 < k {
                assert(cfg.detached@[k2].note_id@ != id);
            } else if k2 > k {
                assert(cfg.detached@[k].note_id@ != id);
            }
        }
    } else {
        assert(cfg.detached@[k].note_id@ != id);
    }
}

/// The events of a notes window that the app reacts to.
#[derive(Debug, Clone, Copy, PartialEq, Eq, Structural)]
pub enum WindowEventKind {
    FocusLost,
    MovedOrResized,
    CloseRequested,
    Other,
}

/// What the app does with an event of a notes window.
#[derive(Debug, Clone, Copy, PartialEq, Eq, Structural)]
pub enum EventResponse {
    Ignore,
    /// Schedule the check that hides the app if the focus left it.
    ScheduleHideCheck,
    /// Save the geometry once the gesture stops; while a drag is fresh,
    /// every move renews its grace period.
    ScheduleGeometrySave { renew_drag: bool },
    /// A detached note window closes for real; its entry leaves the
    /// composition first.
    CloseDetachedNote,
    /// The main window never closes: the whole app hides instead.
    HideAppInstead,
}

pub open spec fn response_of(label: Seq<char>, event: WindowEventKind, dragging: bool) -> EventResponse {
    match event {
        WindowEventKind::FocusLost => if dragging {
            EventResponse::Ignore
        } else {
            EventResponse::ScheduleHideCheck
        },
        WindowEventKind::MovedOrResized => EventResponse::ScheduleGeometrySave { renew_drag: dragging },
        WindowEventKind::CloseRequested => if note_id_in_label(label) is Some {
            EventResponse::CloseDetachedNote
        } else {
            EventResponse::HideAppInstead
        },
        WindowEventKind::Other => EventResponse::Ignore,
    }
}

/// Losing the focus while a drag is fresh is the drag, not a click outside.
pub fn respond_to_window_event(label: &str, event: WindowEventKind, dragging: bool) -> (r: EventResponse)
    ensures
        r == response_of(label@, event, dragging),
        event == WindowEventKind::FocusLost ==> r == (if dragging {
            EventResponse::Ignore
        } else {
            EventResponse::ScheduleHideCheck
        }),
        event == WindowEventKind::MovedOrResized ==> r == (EventResponse::ScheduleGeometrySave {
            renew_drag: dragging,
        }),
        event == WindowEventKind::CloseRequested && label@ == main_label() ==> r
            == EventResponse::HideAppInstead,
        event == WindowEventKind::CloseRequested && label@.len() >= 5 && label@.take(5)
            == note_label_prefix() ==> r == EventResponse::CloseDetachedNote,
        event == WindowEventKind::Other ==> r == EventResponse::Ignore,
{
    proof {
        lemma_note_label_roundtrip(seq![]);
    }
    match event {
        WindowEventKind::FocusLost => if dragging {
            EventResponse::Ignore
        } else {
            EventResponse::ScheduleHideCheck
        },
        WindowEventKind::MovedOrResized => EventResponse::ScheduleGeometrySave { renew_drag: dragging },
        WindowEventKind::CloseRequested => if window_note_id(label).is_some() {
            EventResponse::CloseDetachedNote
        } else {
            EventResponse::HideAppInstead
        },
        WindowEventKind::Other => EventResponse::Ignore,
    }
}

} // verus!
