//! What the app remembers between window events: per-window state keyed by
//! window label, the grace period of a drag, the generations that make only
//! the last of a burst of scheduled checks act, and the double press of the
//! global shortcut.
//!
//! Instants are nanoseconds on a monotonic clock that the caller reads.

use vstd::prelude::*;
use crate::names::{str_equal, str_to_string};

verus! {

// ---------------------------------------------------------------------------
// A small map keyed by window label
// ---------------------------------------------------------------------------

pub open spec fn entries_map<V>(s: Seq<(String, V)>) -> Map<Seq<char>, V>
    decreases s.len(),
{
    if s.len() == 0 {
        Map::empty()
    } else {
        entries_map(s.drop_last()).insert(s.last().0@, s.last().1)
    }
}

pub open spec fn unique_labels<V>(s: Seq<(String, V)>) -> bool {
    forall|i: int, j: int| 0 <= i < j < s.len() ==> (#[trigger] s[i]).0@ != (#[trigger] s[j]).0@
}

proof fn lemma_entries_map<V>(s: Seq<(String, V)>)
    requires
        unique_labels(s),
    ensures
        forall|i: int| 0 <= i < s.len() ==> #[trigger] entries_map(s).contains_key(s[i].0@) && entries_map(s)[s[i].0@] == s[i].1,
        forall|k: Seq<char>| #[trigger] entries_map(s).contains_key(k) ==> exists|i: int| 0 <= i < s.len() && (#[trigger] s[i]).0@ == k,
    decreases s.len(),
{
    if s.len() > 0 {
        let t = s.drop_last();
        assert(unique_labels(t)) by {
            assert forall|i: int, j: int| 0 <= i < j < t.len() implies (#[trigger] t[i]).0@ != (#[trigger] t[j]).0@ by {
                assert(t[i] == s[i] && t[j] == s[j]);
            }
        }
        lemma_entries_map(t);
        assert(entries_map(s) == entries_map(t).insert(s.last().0@, s.last().1));
        assert forall|i: int| 0 <= i < s.len() implies #[trigger] entries_map(s).contains_key(s[i].0@) && entries_map(s)[s[i].0@] == s[i].1 by {
            if i < s.len() - 1 {
                assert(t[i] == s[i]);
                assert(entries_map(t).contains_key(t[i].0@));
                assert(s[i].0@ != s[s.len() - 1].0@);
            }
        }
        assert forall|k: Seq<char>| #[trigger] entries_map(s).contains_key(k) implies exists|i: int| 0 <= i < s.len() && (#[trigger] s[i]).0@ == k by {
            if k != s.last().0@ {
                assert(entries_map(t).contains_key(k));
                let i = choose|i: int| 0 <= i < t.len() && (#[trigger] t[i]).0@ == k;
                assert(s[i] == t[i]);
            } else {
                assert(s[s.len() - 1].0@ == k);
            }
        }
    }
}

proof fn lemma_entries_map_update<V>(s: Seq<(String, V)>, i: int, v: V)
    requires
        unique_labels(s),
        0 <= i < s.len(),
    ensures
        entries_map(s.update(i, (s[i].0, v))) == entries_map(s).insert(s[i].0@, v),
    decreases s.len(),
{
    let u = s.update(i, (s[i].0, v));
    if i == s.len() - 1 {
        assert(u.drop_last() =~= s.drop_last());
        assert(entries_map(s).insert(s[i].0@, v) =~= entries_map(s.drop_last()).insert(s[i].0@, v));
    } else {
        let t = s.drop_last();
        assert(unique_labels(t)) by {
            assert forall|a: int, b: int| 0 <= a < b < t.len() implies (#[trigger] t[a]).0@ != (#[trigger] t[b]).0@ by {
                assert(t[a] == s[a] && t[b] == s[b]);
            }
        }
        lemma_entries_map_update(t, i, v);
        assert(u.drop_last() =~= t.update(i, (t[i].0, v)));
        assert(s[i].0@ != s.last().0@);
        assert(entries_map(u) =~= entries_map(s).insert(s[i].0@, v));
    }
}

/// A value per window label; each label holds at most one value.
pub struct LabelMap<V> {
    entries: Vec<(String, V)>,
}

impl<V> View for LabelMap<V> {
    type V = Map<Seq<char>, V>;

    closed spec fn view(&self) -> Map<Seq<char>, V> {
        entries_map(self.entries@)
    }
}

impl<V> LabelMap<V> {
    #[verifier::type_invariant]
    closed spec fn well_formed(&self) -> bool {
        unique_labels(self.entries@)
    }
}

impl<V: Copy> LabelMap<V> {
    pub fn new() -> (m: Self)
        ensures
            m@ == Map::<Seq<char>, V>::empty(),
    {
        LabelMap { entries: Vec::new() }
    }

    fn position(&self, label: &str) -> (r: Option<usize>)
        ensures
            r matches Some(i) ==> i < self.entries@.len() && self.entries@[i as int].0@ == label@,
            r is None ==> forall|i: int| 0 <= i < self.entries@.len() ==> (#[trigger] self.entries@[i]).0@ != label@,
    {
        let mut i: usize = 0;
        while i < self.entries.len()
            invariant
                i <= self.entries@.len(),
                forall|j: int| 0 <= j < i ==> (#[trigger] self.entries@[j]).0@ != label@,
            decreases self.entries@.len() - i,
        {
            if str_equal(self.entries[i].0.as_str(), label) {
                return Some(i);
            }
            i += 1;
        }
        None
    }

    pub fn get(&self, label: &str) -> (r: Option<V>)
        ensures
            r == (if self@.contains_key(label@) {
                Some(self@[label@])
            } else {
                None
            }),
    {
        proof {
            use_type_invariant(self);
            lemma_entries_map(self.entries@);
        }
        match self.position(label) {
            Some(i) => Some(self.entries[i].1),
            None => {
                assert(!self@.contains_key(label@));
                None
            },
        }
    }

    pub fn insert(&mut self, label: &str, value: V)
        ensures
            final(self)@ == old(self)@.insert(label@, value),
    {
        proof {
            use_type_invariant(&*self);
        }
        let pos = self.position(label);
        let mut entries: Vec<(String, V)> = Vec::new();
        std::mem::swap(&mut entries, &mut self.entries);
        let ghost before = entries@;
        match pos {
            Some(i) => {
                let (key, _) = entries.remove(i);
                entries.insert(i, (key, value));
                proof {
                    assert(entries@ =~= before.update(i as int, (before[i as int].0, value)));
                    lemma_entries_map_update(before, i as int, value);
                    assert forall|a: int, b: int| 0 <= a < b < entries@.len() implies (#[trigger] entries@[a]).0@ != (#[trigger] entries@[b]).0@ by {
                        assert(entries@[a].0 == before[a].0 && entries@[b].0 == before[b].0);
                    }
                }
            },
            None => {
                entries.push((str_to_string(label), value));
                proof {
                    assert(entries@.drop_last() =~= before);
                    assert forall|a: int, b: int| 0 <= a < b < entries@.len() implies (#[trigger] entries@[a]).0@ != (#[trigger] entries@[b]).0@ by {
                        if b < before.len() {
                            assert(entries@[a] == before[a] && entries@[b] == before[b]);
                        } else {
                            assert(entries@[a] == before[a]);
                        }
                    }
                }
            },
        }
        self.entries = entries;
    }
}

// ---------------------------------------------------------------------------
// Drags
// ---------------------------------------------------------------------------

/// Dragging a window takes the focus off its webview, which would pass for a
/// click outside the app. For this long after a drag begins (or last moves),
/// losing the focus is ignored.
pub const DRAG_GRACE_NANOS: u128 = 700_000_000;

/// When each window last began or continued a drag; keyed by label, since
/// dragging a detached note must not affect the main window.
pub struct DragState {
    pub marks: LabelMap<u128>,
}

impl DragState {
    pub fn new() -> (s: Self)
        ensures
            s.marks@ == Map::<Seq<char>, u128>::empty(),
    {
        DragState { marks: LabelMap::new() }
    }

    /// The window `label` begins (or continues) a drag at `now`.
    pub fn mark_drag(&mut self, label: &str, now: u128)
        ensures
            final(self).marks@ == old(self).marks@.insert(label@, now),
    {
        self.marks.insert(label, now);
    }

    /// Whether the window `label` is within the grace period of a drag at
    /// `now` (time running backwards counts as no time elapsed).
    pub fn is_dragging(&self, label: &str, now: u128) -> (b: bool)
        ensures
            b == (self.marks@.contains_key(label@) && (if now >= self.marks@[label@] {
                now - self.marks@[label@]
            } else {
                0
            }) < DRAG_GRACE_NANOS),
    {
        match self.marks.get(label) {
            Some(at) => now.saturating_sub(at) < DRAG_GRACE_NANOS,
            None => false,
        }
    }
}

// ---------------------------------------------------------------------------
// Generations
// ---------------------------------------------------------------------------

/// Each scheduled check takes a new generation; when it fires, it acts only
/// if no later check was scheduled meanwhile.
pub struct Generation {
    pub value: u64,
}

impl Generation {
    pub fn new() -> (g: Self)
        ensures
            g.value == 0,
    {
        Generation { value: 0 }
    }

    pub fn can_advance(&self) -> (b: bool)
        ensures
            b == (self.value < u64::MAX),
    {
        self.value < u64::MAX
    }

    /// Schedules a new check and returns its generation.
    pub fn advance(&mut self) -> (g: u64)
        requires
            old(self).value < u64::MAX,
        ensures
            g == old(self).value + 1,
            final(self).value == g,
    {
        self.value = self.value + 1;
        self.value
    }

    pub fn is_current(&self, g: u64) -> (b: bool)
        ensures
            b == (self.value == g),
    {
        self.value == g
    }
}

/// The generation of the last geometry save scheduled for each window; a move
/// of a detached note never cancels the pending save of the main window.
pub struct GeometryGenerations {
    pub generations: LabelMap<u64>,
}

pub open spec fn generation_of(m: Map<Seq<char>, u64>, label: Seq<char>) -> u64 {
    if m.contains_key(label) {
        m[label]
    } else {
        0
    }
}

impl GeometryGenerations {
    pub fn new() -> (s: Self)
        ensures
            s.generations@ == Map::<Seq<char>, u64>::empty(),
    {
        GeometryGenerations { generations: LabelMap::new() }
    }

    pub fn can_advance(&self, label: &str) -> (b: bool)
        ensures
            b == (generation_of(self.generations@, label@) < u64::MAX),
    {
        match self.generations.get(label) {
            Some(g) => g < u64::MAX,
            None => true,
        }
    }

    /// Schedules a new save for the window `label` and returns its generation.
    pub fn advance(&mut self, label: &str) -> (g: u64)
        requires
            generation_of(old(self).generations@, label@) < u64::MAX,
        ensures
            g == generation_of(old(self).generations@, label@) + 1,
            final(self).generations@ == old(self).generations@.insert(label@, g),
    {
        let next = match self.generations.get(label) {
            Some(g) => g + 1,
            None => 1,
        };
        self.generations.insert(label, next);
        next
    }

    /// Whether `g` is still the last save scheduled for the window `label`.
    pub fn is_current(&self, label: &str, g: u64) -> (b: bool)
        ensures
            b == (self.generations@.contains_key(label@) && self.generations@[label@] == g),
    {
        match self.generations.get(label) {
            Some(current) => current == g,
            None => false,
        }
    }
}

/// Only the last save scheduled for a window acts, and scheduling a save for
/// one window leaves the pending save of any other window current.
pub proof fn lemma_generations_per_window(
    m: Map<Seq<char>, u64>,
    label: Seq<char>,
    other: Seq<char>,
    other_generation: u64,
)
    requires
        generation_of(m, label) < u64::MAX,
        other != label,
        m.contains_key(other) && m[other] == other_generation,
    ensures
        ({
            let g = (generation_of(m, label) + 1) as u64;
            let after = m.insert(label, g);
            &&& after.contains_key(label) && after[label] == g
            &&& !(m.contains_key(label) && after[label] == m[label])
            &&& after.contains_key(other) && after[other] == other_generation
        }),
{
}

// ---------------------------------------------------------------------------
// The global shortcut
// ---------------------------------------------------------------------------

/// Presses of the global shortcut that follow each other within this span
/// form one chain: the second press of a chain brings the app back to the
/// center rather than hiding and showing it again, and the third also gives
/// the main window back its factory size.
pub const DOUBLE_PRESS_NANOS: u128 = 350_000_000;

/// The length at which a chain of quick presses stops growing.
pub const LONGEST_CHAIN: u8 = 3;

#[derive(Debug, Clone, Copy, PartialEq, Eq, Structural)]
pub enum ShortcutAction {
    /// Show the app if no window of it has the focus, hide it otherwise.
    Toggle,
    /// Center the main window and show everything.
    Recenter,
    /// Give the main window its factory size, center it and show everything.
    Reset,
}

/// When the global shortcut was last pressed, and how long the chain of
/// quick presses that ended there is.
pub struct ShortcutTiming {
    pub last: Option<u128>,
    pub chain: u8,
}

/// Whether a press at `now` follows the press at `last` within the span.
pub open spec fn is_quick_press(last: Option<u128>, now: u128) -> bool {
    match last {
        Some(p) => (if now >= p {
            now - p
        } else {
            0
        }) < DOUBLE_PRESS_NANOS,
        None => false,
    }
}

/// The length of the chain that a press at `now` ends: one more than the
/// chain before it when it is quick (never more than the longest chain), a
/// new chain of one otherwise.
pub open spec fn chain_after(last: Option<u128>, chain: u8, now: u128) -> u8 {
    if is_quick_press(last, now) {
        if chain >= LONGEST_CHAIN - 1 {
            LONGEST_CHAIN
        } else {
            (chain + 1) as u8
        }
    } else {
        1
    }
}

/// What the press that ends a chain of length `chain` does.
pub open spec fn action_for_chain(chain: u8) -> ShortcutAction {
    if chain <= 1 {
        ShortcutAction::Toggle
    } else if chain == 2 {
        ShortcutAction::Recenter
    } else {
        ShortcutAction::Reset
    }
}

impl ShortcutTiming {
    pub fn new() -> (t: Self)
        ensures
            t.last is None,
            t.chain == 0,
    {
        ShortcutTiming { last: None, chain: 0 }
    }

    /// The shortcut is pressed at `now`.
    pub fn press(&mut self, now: u128) -> (action: ShortcutAction)
        ensures
            final(self).chain == chain_after(old(self).last, old(self).chain, now),
            final(self).last == Some(now),
            action == action_for_chain(final(self).chain),
    {
        let quick = match self.last {
            Some(previous) => now.saturating_sub(previous) < DOUBLE_PRESS_NANOS,
            None => false,
        };
        let chain: u8 = if !quick {
            1
        } else if self.chain >= LONGEST_CHAIN - 1 {
            LONGEST_CHAIN
        } else {
            self.chain + 1
        };
        self.last = Some(now);
        self.chain = chain;
        if chain <= 1 {
            ShortcutAction::Toggle
        } else if chain == 2 {
            ShortcutAction::Recenter
        } else {
            ShortcutAction::Reset
        }
    }
}

/// A press that does not follow another within the span toggles the app,
/// whatever came before; the second press of a chain of quick presses
/// recenters the app, and the third and any later one reset the main window.
pub proof fn lemma_press_chain(last: Option<u128>, chain: u8, t1: u128, t2: u128, t3: u128, t4: u128)
    requires
        t1 <= t2 && t2 - t1 < DOUBLE_PRESS_NANOS,
        t2 <= t3 && t3 - t2 < DOUBLE_PRESS_NANOS,
        t3 <= t4 && t4 - t3 < DOUBLE_PRESS_NANOS,
    ensures
        !is_quick_press(last, t1) ==> ({
            let c1 = chain_after(last, chain, t1);
            let c2 = chain_after(Some(t1), c1, t2);
            let c3 = chain_after(Some(t2), c2, t3);
            let c4 = chain_after(Some(t3), c3, t4);
            &&& action_for_chain(c1) == ShortcutAction::Toggle
            &&& action_for_chain(c2) == ShortcutAction::Recenter
            &&& action_for_chain(c3) == ShortcutAction::Reset
            &&& action_for_chain(c4) == ShortcutAction::Reset
        }),
        action_for_chain(chain_after(None, chain, t1)) == ShortcutAction::Toggle,
{
}

/// A press later than the span after the one before it starts a new chain
/// and toggles the app.
pub proof fn lemma_slow_press_toggles(chain: u8, t1: u128, t2: u128)
    requires
        t1 <= t2 && t2 - t1 >= DOUBLE_PRESS_NANOS,
    ensures
        chain_after(Some(t1), chain, t2) == 1,
        action_for_chain(chain_after(Some(t1), chain, t2)) == ShortcutAction::Toggle,
{
}

} // verus!
