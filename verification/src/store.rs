//! The decisions of the notes folder and of its trash: which entries are
//! notes, in which order the grid shows them, which id a new note takes, which
//! trashed files expire, and which files follow a change of folder.
//!
//! The folder itself is read and written by the caller; these functions take
//! what a directory listing holds and say what to do with it.

use vstd::prelude::*;
use crate::names::{
    NoteError, lemma_note_name, lemma_trash_name, lemma_trash_name_stamp, trash_name,
    double_underscore, is_trash_name_of, md_suffix, note_file_name, stamp_of,
    stamp_of_name, str_equal, decimal, is_digit_char, is_id_char, is_md_file_name, is_md_name, is_valid_id, lemma_decimal,
    lemma_u128_decimal_len, lemma_usize_decimal_len, md_stem, note_name, push_char, str_to_string,
    validate_id, write_decimal,
};

verus! {

/// One entry of a directory listing.
#[derive(Debug)]
pub struct DirEntry {
    /// The entry's file name; where it is not valid Unicode, its lossy form.
    pub name: String,
    /// The file name is valid Unicode (`name` is then exact).
    pub unicode: bool,
    /// The entry is a regular file (following links).
    pub is_file: bool,
    /// Modification time, in milliseconds since the Unix epoch; `0` when the
    /// system cannot tell.
    pub modified: u128,
}

/// A note as the grid sees it.
#[derive(Debug)]
pub struct Note {
    pub id: String,
    pub content: String,
    /// Milliseconds since the Unix epoch; the grid is ordered by it.
    pub modified: u128,
}

// ---------------------------------------------------------------------------
// Which entries are notes
// ---------------------------------------------------------------------------

/// The note id an entry of the notes folder stands for: a regular file named
/// `{id}.md` with an acceptable id.
pub open spec fn entry_note_id(e: DirEntry) -> Option<Seq<char>> {
    if e.is_file && e.unicode && is_md_name(e.name@) && is_valid_id(md_stem(e.name@)) {
        Some(md_stem(e.name@))
    } else {
        None
    }
}

/// The id of the note an entry holds, or `None` for anything that is not a
/// note (other extensions, folders, names that are no acceptable id).
pub fn note_id_of(entry: &DirEntry) -> (r: Option<String>)
    ensures
        r is Some <==> entry_note_id(*entry) is Some,
        r matches Some(id) ==> Some(id@) == entry_note_id(*entry),
{
    if !entry.is_file || !entry.unicode || !is_md_file_name(entry.name.as_str()) {
        return None;
    }
    let n = entry.name.as_str().unicode_len();
    let stem = entry.name.as_str().substring_char(0, n - 3);
    assert(stem@ =~= md_stem(entry.name@));
    match validate_id(stem) {
        Ok(()) => Some(str_to_string(stem)),
        Err(_) => None,
    }
}

// ---------------------------------------------------------------------------
// Grid order
// ---------------------------------------------------------------------------

/// `sorted` holds the notes of `orig`, each once (`p` says where each came
/// from), most recent first, and notes with the same time keep their order.
pub open spec fn is_newest_first_by(sorted: Seq<Note>, orig: Seq<Note>, p: Seq<int>) -> bool {
    &&& sorted.len() == orig.len()
    &&& p.len() == orig.len()
    &&& forall|i: int| 0 <= i < p.len() ==> 0 <= #[trigger] p[i] < orig.len()
    &&& forall|i: int| 0 <= i < p.len() ==> sorted[i] == orig[#[trigger] p[i]]
    &&& forall|i: int, j: int| 0 <= i < j < p.len() ==> #[trigger] p[i] != #[trigger] p[j]
    &&& forall|i: int, j: int|
        0 <= i < j < sorted.len() ==> #[trigger] sorted[i].modified >= #[trigger] sorted[j].modified
    &&& forall|i: int, j: int|
        0 <= i < j < sorted.len() && #[trigger] sorted[i].modified == #[trigger] sorted[j].modified
            ==> p[i] < p[j]
}

pub open spec fn is_newest_first(sorted: Seq<Note>, orig: Seq<Note>) -> bool {
    exists|p: Seq<int>| is_newest_first_by(sorted, orig, p)
}

/// Orders notes from the most recently modified to the oldest; notes with the
/// same time keep the order they came in.
pub fn sort_newest_first(notes: Vec<Note>) -> (sorted: Vec<Note>)
    ensures
        is_newest_first(sorted@, notes@),
{
    let ghost orig = notes@;
    let mut rest = notes;
    let mut out: Vec<Note> = Vec::new();
    let ghost mut p: Seq<int> = Seq::empty();
    let n = rest.len();
    let mut k: usize = 0;
    while k < n
        invariant
            n == orig.len(),
            k <= n,
            rest@ == orig.skip(k as int),
            is_newest_first_by(out@, orig.take(k as int), p),
            forall|i: int| 0 <= i < p.len() ==> #[trigger] p[i] < k,
        decreases n - k,
    {
        let note = rest.remove(0);
        assert(note == orig[k as int]);
        let mut pos: usize = 0;
        while pos < out.len() && out[pos].modified >= note.modified
            invariant
                pos <= out.len(),
                forall|i: int| 0 <= i < pos ==> (#[trigger] out@[i]).modified >= note.modified,
            decreases out.len() - pos,
        {
            pos += 1;
        }
        let ghost old_out = out@;
        let ghost old_p = p;
        out.insert(pos, note);
        proof {
            p = old_p.insert(pos as int, k as int);
            let t = orig.take(k + 1);
            assert(t =~= orig.take(k as int).push(orig[k as int]));
            assert forall|i: int, j: int| 0 <= i < j < out@.len() implies #[trigger] out@[i].modified
                >= #[trigger] out@[j].modified by {
                if i < pos && j < pos {
                    assert(out@[i] == old_out[i] && out@[j] == old_out[j]);
                } else if i < pos && j == pos {
                } else if i < pos && j > pos {
                    assert(out@[i] == old_out[i] && out@[j] == old_out[j - 1]);
                } else if i == pos {
                    assert(out@[j] == old_out[j - 1]);
                    assert(pos < old_out.len());
                    assert(old_out[pos as int].modified < note.modified);
                    assert(old_out[pos as int].modified >= old_out[j - 1].modified);
                } else {
                    assert(out@[i] == old_out[i - 1] && out@[j] == old_out[j - 1]);
                }
            }
            assert forall|i: int, j: int|
                0 <= i < j < out@.len() && #[trigger] out@[i].modified
                    == #[trigger] out@[j].modified implies p[i] < p[j] by {
                if i < pos && j < pos {
                    assert(out@[i] == old_out[i] && out@[j] == old_out[j]);
                } else if i < pos && j == pos {
                    assert(old_p[i] < k);
                } else if i < pos && j > pos {
                    assert(out@[i] == old_out[i] && out@[j] == old_out[j - 1]);
                } else if i == pos {
                    assert(out@[j] == old_out[j - 1]);
                    assert(old_out[pos as int].modified < note.modified);
                    assert(old_out[pos as int].modified >= old_out[j - 1].modified);
                } else {
                    assert(out@[i] == old_out[i - 1] && out@[j] == old_out[j - 1]);
                }
            }
            assert forall|i: int| 0 <= i < p.len() implies out@[i] == t[#[trigger] p[i]] by {
                if i < pos {
                    assert(p[i] == old_p[i]);
                } else if i > pos {
                    assert(p[i] == old_p[i - 1]);
                }
            }
            assert forall|i: int, j: int| 0 <= i < j < p.len() implies #[trigger] p[i]
                != #[trigger] p[j] by {
                if i < pos && j < pos {
                } else if i < pos && j == pos {
                    assert(old_p[i] < k);
                } else if i < pos && j > pos {
                    assert(p[j] == old_p[j - 1]);
                } else if i == pos {
                    assert(p[j] == old_p[j - 1]);
                    assert(old_p[j - 1] < k);
                } else {
                    assert(p[i] == old_p[i - 1] && p[j] == old_p[j - 1]);
                }
            }
            assert forall|i: int| 0 <= i < p.len() implies #[trigger] p[i] < k + 1 by {
                if i < pos {
                    assert(p[i] == old_p[i]);
                } else if i > pos {
                    assert(p[i] == old_p[i - 1]);
                }
            }
            assert(rest@ =~= orig.skip(k + 1));
            assert(is_newest_first_by(out@, t, p));
        }
        k += 1;
    }
    assert(orig.take(n as int) =~= orig);
    out
}

// ---------------------------------------------------------------------------
// The id of a new note
// ---------------------------------------------------------------------------

/// The `k`-th id tried for a note created at `now`: `n{now}`, then
/// `n{now}-1`, `n{now}-2`, ...
pub open spec fn candidate_id(now: u128, k: nat) -> Seq<char> {
    let base = seq!['n'] + decimal(now as nat);
    if k == 0 {
        base
    } else {
        base + seq!['-'] + decimal(k)
    }
}

pub open spec fn is_ascii_upper(c: char) -> bool {
    65 <= c as int <= 90
}

/// The same character, or the same ASCII letter in the other case.
pub open spec fn same_char_ignoring_case(a: char, b: char) -> bool {
    ||| a == b
    ||| (is_ascii_upper(a) && b as int == a as int + 32)
    ||| (is_ascii_upper(b) && a as int == b as int + 32)
}

/// Two names that differ at most in the case of ASCII letters.
pub open spec fn same_name_ignoring_case(a: Seq<char>, b: Seq<char>) -> bool {
    &&& a.len() == b.len()
    &&& forall|i: int| 0 <= i < a.len() ==> #[trigger] same_char_ignoring_case(a[i], b[i])
}

/// Some entry of the folder already carries this file name, up to the case of
/// ASCII letters: on a volume that ignores case, `N5.md` is the file `n5.md`.
pub open spec fn name_taken(taken: Seq<String>, name: Seq<char>) -> bool {
    exists|i: int| 0 <= i < taken.len() && same_name_ignoring_case((#[trigger] taken[i])@, name)
}

/// The id of a note created at `now`, in a folder whose existing entries are
/// named `taken`: the first of `n{now}`, `n{now}-1`, `n{now}-2`, ... whose
/// file name is free. Two notes created in the same millisecond never share
/// an id.
pub fn next_note_id(now: u128, taken: &Vec<String>) -> (id: String)
    ensures
        is_valid_id(id@),
        !name_taken(taken@, note_name(id@)),
        exists|k: nat|
            id@ == candidate_id(now, k) && forall|j: nat|
                j < k ==> #[trigger] name_taken(taken@, note_name(candidate_id(now, j))),
{
    let mut k: usize = 0;
    loop
        invariant
            forall|j: nat| j < k ==> #[trigger] name_taken(taken@, note_name(candidate_id(now, j))),
            k <= taken.len(),
        decreases taken.len() - k,
    {
        let id = candidate(now, k);
        proof {
            lemma_candidate_valid(now, k as nat);
        }
        let mut name = id.clone();
        push_char(&mut name, '.');
        push_char(&mut name, 'm');
        push_char(&mut name, 'd');
        assert(name@ =~= note_name(id@));
        if !contains_name(taken, &name) {
            return id;
        }
        proof {
            lemma_candidates_fill(now, taken@, (k + 1) as nat);
        }
        k += 1;
    }
}

fn candidate(now: u128, k: usize) -> (id: String)
    ensures
        id@ == candidate_id(now, k as nat),
{
    let mut id = String::new();
    push_char(&mut id, 'n');
    write_decimal(now, &mut id);
    if k > 0 {
        push_char(&mut id, '-');
        write_decimal(k as u128, &mut id);
    }
    assert(id@ =~= candidate_id(now, k as nat));
    id
}

fn same_char_ascii_case(a: char, b: char) -> (r: bool)
    ensures
        r == same_char_ignoring_case(a, b),
{
    let x = a as u32;
    let y = b as u32;
    x == y || (65 <= x && x <= 90 && y == x + 32) || (65 <= y && y <= 90 && x == y + 32)
}

fn same_name_ascii_case(a: &str, b: &str) -> (r: bool)
    ensures
        r == same_name_ignoring_case(a@, b@),
{
    let n = a.unicode_len();
    if n != b.unicode_len() {
        return false;
    }
    let mut i: usize = 0;
    while i < n
        invariant
            i <= n,
            n == a@.len() == b@.len(),
            forall|j: int| 0 <= j < i ==> #[trigger] same_char_ignoring_case(a@[j], b@[j]),
        decreases n - i,
    {
        if !same_char_ascii_case(a.get_char(i), b.get_char(i)) {
            return false;
        }
        i += 1;
    }
    true
}

fn contains_name(taken: &Vec<String>, name: &String) -> (b: bool)
    ensures
        b == name_taken(taken@, name@),
{
    let mut i: usize = 0;
    while i < taken.len()
        invariant
            i <= taken.len(),
            forall|j: int| 0 <= j < i ==> !same_name_ignoring_case((#[trigger] taken@[j])@, name@),
        decreases taken.len() - i,
    {
        if same_name_ascii_case(taken[i].as_str(), name.as_str()) {
            return true;
        }
        i += 1;
    }
    false
}

proof fn lemma_candidate_valid(now: u128, k: nat)
    requires
        k <= usize::MAX,
    ensures
        is_valid_id(candidate_id(now, k)),
{
    lemma_decimal(now as nat);
    lemma_u128_decimal_len(now);
    let base = seq!['n'] + decimal(now as nat);
    let c = candidate_id(now, k);
    assert forall|i: int| 0 <= i < base.len() implies #[trigger] is_id_char(base[i]) by {
        if i > 0 {
            assert(base[i] == decimal(now as nat)[i - 1]);
            assert(is_digit_char(decimal(now as nat)[i - 1]));
        }
    }
    if k > 0 {
        lemma_decimal(k);
        lemma_usize_decimal_len(k as usize);
        assert forall|i: int| 0 <= i < c.len() implies #[trigger] is_id_char(c[i]) by {
            if i < base.len() {
                assert(c[i] == base[i]);
            } else if i > base.len() {
                assert(c[i] == decimal(k)[i - base.len() - 1]);
                assert(is_digit_char(decimal(k)[i - base.len() - 1]));
            }
        }
    }
}

/// Different attempts give different file names.
proof fn lemma_candidate_injective(now: u128, j1: nat, j2: nat)
    requires
        note_name(candidate_id(now, j1)) == note_name(candidate_id(now, j2)),
    ensures
        j1 == j2,
{
    let c1 = candidate_id(now, j1);
    let c2 = candidate_id(now, j2);
    assert(c1 =~= note_name(c1).take(note_name(c1).len() - 3));
    assert(c2 =~= note_name(c2).take(note_name(c2).len() - 3));
    assert(c1 == c2);
    let base = seq!['n'] + decimal(now as nat);
    if j1 > 0 && j2 > 0 {
        lemma_decimal(j1);
        lemma_decimal(j2);
        assert(decimal(j1) =~= c1.subrange(base.len() + 1int, c1.len() as int));
        assert(decimal(j2) =~= c2.subrange(base.len() + 1int, c2.len() as int));
    } else if j1 > 0 {
        lemma_decimal(j1);
        assert(c1.len() > c2.len());
    } else if j2 > 0 {
        lemma_decimal(j2);
        assert(c2.len() > c1.len());
    }
}

spec fn witness_index(taken: Seq<String>, name: Seq<char>) -> int {
    choose|i: int| 0 <= i < taken.len() && same_name_ignoring_case((#[trigger] taken[i])@, name)
}

/// Names without upper-case ASCII letters that match one name up to case are
/// the same name.
proof fn lemma_lower_names_match(x: Seq<char>, a: Seq<char>, b: Seq<char>)
    requires
        same_name_ignoring_case(x, a),
        same_name_ignoring_case(x, b),
        forall|i: int| 0 <= i < a.len() ==> !is_ascii_upper(#[trigger] a[i]),
        forall|i: int| 0 <= i < b.len() ==> !is_ascii_upper(#[trigger] b[i]),
    ensures
        a == b,
{
    assert forall|i: int| 0 <= i < a.len() implies a[i] == b[i] by {
        assert(same_char_ignoring_case(x[i], a[i]));
        assert(same_char_ignoring_case(x[i], b[i]));
        assert(!is_ascii_upper(a[i]) && !is_ascii_upper(b[i]));
    }
    assert(a =~= b);
}

/// The file names tried for a new note hold no upper-case letter.
proof fn lemma_candidate_lower(now: u128, k: nat)
    ensures
        forall|i: int|
            0 <= i < note_name(candidate_id(now, k)).len() ==> !is_ascii_upper(
                #[trigger] note_name(candidate_id(now, k))[i],
            ),
{
    lemma_decimal(now as nat);
    lemma_decimal(k);
    let base = seq!['n'] + decimal(now as nat);
    let c = candidate_id(now, k);
    let name = note_name(c);
    assert forall|i: int| 0 <= i < name.len() implies !is_ascii_upper(#[trigger] name[i]) by {
        if i >= c.len() {
            assert(name[i] == md_suffix()[i - c.len()]);
        } else if i < base.len() {
            assert(name[i] == base[i]);
            if i > 0 {
                assert(base[i] == decimal(now as nat)[i - 1]);
                assert(is_digit_char(decimal(now as nat)[i - 1]));
            }
        } else if i > base.len() {
            assert(name[i] == decimal(k)[i - base.len() - 1]);
            assert(is_digit_char(decimal(k)[i - base.len() - 1]));
        } else {
            assert(name[i] == '-');
        }
    }
}

/// `k` distinct taken file names need at least `k` entries.
proof fn lemma_candidates_fill(now: u128, taken: Seq<String>, k: nat)
    requires
        forall|j: nat| j < k ==> #[trigger] name_taken(taken, note_name(candidate_id(now, j))),
    ensures
        k <= taken.len(),
{
    let f = |j: int| witness_index(taken, note_name(candidate_id(now, j as nat)));
    let dom = vstd::set_lib::set_int_range(0, k as int);
    let range = vstd::set_lib::set_int_range(0, taken.len() as int);
    vstd::set_lib::lemma_int_range(0, k as int);
    vstd::set_lib::lemma_int_range(0, taken.len() as int);
    assert forall|a: int, b: int| dom.contains(a) && dom.contains(b) && #[trigger] f(a) == #[trigger] f(
        b,
    ) implies a == b by {
        assert(name_taken(taken, note_name(candidate_id(now, a as nat))));
        assert(name_taken(taken, note_name(candidate_id(now, b as nat))));
        lemma_candidate_lower(now, a as nat);
        lemma_candidate_lower(now, b as nat);
        lemma_lower_names_match(
            taken[f(a)]@,
            note_name(candidate_id(now, a as nat)),
            note_name(candidate_id(now, b as nat)),
        );
        lemma_candidate_injective(now, a as nat, b as nat);
    }
    let img = dom.map(f);
    assert forall|x: int| img.contains(x) implies range.contains(x) by {
        let a = choose|a: int| dom.contains(a) && f(a) == x;
        assert(name_taken(taken, note_name(candidate_id(now, a as nat))));
    }
    vstd::set_lib::lemma_map_size(dom, img, f);
    vstd::set_lib::lemma_len_subset(img, range);
}

// ---------------------------------------------------------------------------
// Trash
// ---------------------------------------------------------------------------

/// A regular file with the extension `md`: in the trash, a trashed note; in
/// the notes folder, a file that follows a change of folder.
pub open spec fn is_md_file(e: DirEntry) -> bool {
    e.is_file && is_md_name(e.name@)
}

/// How many trashed notes a listing of the trash holds.
pub open spec fn count_trash(s: Seq<DirEntry>) -> nat
    decreases s.len(),
{
    if s.len() == 0 {
        0
    } else {
        count_trash(s.drop_last()) + if is_md_file(s.last()) {
            1nat
        } else {
            0nat
        }
    }
}

pub fn is_md_file_entry(e: &DirEntry) -> (b: bool)
    ensures
        b == is_md_file(*e),
{
    e.is_file && is_md_file_name(e.name.as_str())
}

/// The number of notes in the trash, given the listing of the trash folder.
pub fn trash_count(trash: &Vec<DirEntry>) -> (n: usize)
    ensures
        n == count_trash(trash@),
{
    let mut n: usize = 0;
    let mut i: usize = 0;
    while i < trash.len()
        invariant
            i <= trash.len(),
            n == count_trash(trash@.take(i as int)),
            n <= i,
        decreases trash.len() - i,
    {
        assert(trash@.take(i + 1).drop_last() =~= trash@.take(i as int));
        if is_md_file_entry(&trash[i]) {
            n += 1;
        }
        i += 1;
    }
    assert(trash@.take(trash.len() as int) =~= trash@);
    n
}

/// `plan` lists, in increasing order and each once, exactly the positions of
/// `s` whose entry satisfies `keep`.
pub open spec fn is_selection(s: Seq<DirEntry>, plan: Seq<usize>, keep: spec_fn(int) -> bool) -> bool {
    &&& forall|k: int| 0 <= k < plan.len() ==> 0 <= #[trigger] plan[k] < s.len()
    &&& forall|k: int| 0 <= k < plan.len() ==> keep(#[trigger] plan[k] as int)
    &&& forall|a: int, b: int| 0 <= a < b < plan.len() ==> #[trigger] plan[a] < #[trigger] plan[b]
    &&& forall|i: int| 0 <= i < s.len() && keep(i) ==> #[trigger] plan.contains(i as usize)
}

/// Every trashed note, for emptying the trash.
pub open spec fn trash_selected(s: Seq<DirEntry>) -> spec_fn(int) -> bool {
    |i: int| is_md_file(s[i])
}

/// The positions of the trashed notes in a listing of the trash. Emptying the
/// trash removes exactly these; the notes outside the trash are not listed.
pub fn trash_indices(trash: &Vec<DirEntry>) -> (plan: Vec<usize>)
    ensures
        is_selection(trash@, plan@, trash_selected(trash@)),
        forall|i: int| 0 <= i < trash.len() ==> (#[trigger] plan@.contains(i as usize) <==> is_md_file(trash@[i])),
{
    let ghost keep = trash_selected(trash@);
    let mut plan: Vec<usize> = Vec::new();
    let mut i: usize = 0;
    while i < trash.len()
        invariant
            i <= trash.len(),
            keep == trash_selected(trash@),
            forall|k: int| 0 <= k < plan.len() ==> #[trigger] plan@[k] < i,
            forall|k: int| 0 <= k < plan.len() ==> keep(#[trigger] plan@[k] as int),
            forall|a: int, b: int| 0 <= a < b < plan.len() ==> #[trigger] plan@[a] < #[trigger] plan@[b],
            forall|j: int| 0 <= j < i && keep(j) ==> #[trigger] plan@.contains(j as usize),
        decreases trash.len() - i,
    {
        let ghost before = plan@;
        if is_md_file_entry(&trash[i]) {
            plan.push(i);
        }
        proof {
            lemma_selection_step(trash@, before, plan@, keep, i as int);
        }
        i += 1;
    }
    proof {
        lemma_selection_members(trash@, plan@, keep);
    }
    plan
}

/// A selection holds a position exactly when the position satisfies `keep`.
proof fn lemma_selection_members(s: Seq<DirEntry>, plan: Seq<usize>, keep: spec_fn(int) -> bool)
    requires
        s.len() <= usize::MAX,
        is_selection(s, plan, keep),
    ensures
        forall|i: int| 0 <= i < s.len() ==> (#[trigger] plan.contains(i as usize) <==> keep(i)),
{
    assert forall|i: int| 0 <= i < s.len() implies (#[trigger] plan.contains(i as usize) <==> keep(i)) by {
        if plan.contains(i as usize) {
            let k = choose|k: int| 0 <= k < plan.len() && plan[k] == i as usize;
            assert(keep(plan[k] as int));
        }
    }
}

proof fn lemma_selection_step(
    s: Seq<DirEntry>,
    before: Seq<usize>,
    after: Seq<usize>,
    keep: spec_fn(int) -> bool,
    i: int,
)
    requires
        0 <= i < s.len(),
        i <= usize::MAX,
        forall|k: int| 0 <= k < before.len() ==> #[trigger] before[k] < i,
        forall|k: int| 0 <= k < before.len() ==> keep(#[trigger] before[k] as int),
        forall|a: int, b: int| 0 <= a < b < before.len() ==> #[trigger] before[a] < #[trigger] before[b],
        forall|j: int| 0 <= j < i && keep(j) ==> #[trigger] before.contains(j as usize),
        after == (if keep(i) {
            before.push(i as usize)
        } else {
            before
        }),
    ensures
        forall|k: int| 0 <= k < after.len() ==> #[trigger] after[k] < i + 1,
        forall|k: int| 0 <= k < after.len() ==> keep(#[trigger] after[k] as int),
        forall|a: int, b: int| 0 <= a < b < after.len() ==> #[trigger] after[a] < #[trigger] after[b],
        forall|j: int| 0 <= j < i + 1 && keep(j) ==> #[trigger] after.contains(j as usize),
{
    assert forall|j: int| 0 <= j < i + 1 && keep(j) implies #[trigger] after.contains(j as usize) by {
        if j < i {
            assert(before.contains(j as usize));
            let w = choose|w: int| 0 <= w < before.len() && before[w] == j as usize;
            assert(after[w] == j as usize);
        } else {
            assert(after[after.len() - 1] == i as usize);
        }
    }
    assert forall|k: int| 0 <= k < after.len() implies keep(#[trigger] after[k] as int) by {
        if k < before.len() {
            assert(after[k] == before[k]);
        }
    }
}

/// Milliseconds in a day.
pub const DAY_MILLIS: u128 = 86_400_000;

/// Trashed notes deleted before this instant have outlived a retention of
/// `retention_days` days; `None` when the retention is `0`, "never purge".
pub open spec fn cutoff_of(now: u128, retention_days: u32) -> Option<u128> {
    if retention_days == 0 {
        None
    } else if now >= retention_days * DAY_MILLIS {
        Some((now - retention_days * DAY_MILLIS) as u128)
    } else {
        Some(0)
    }
}

pub fn purge_cutoff(now: u128, retention_days: u32) -> (c: Option<u128>)
    ensures
        c == cutoff_of(now, retention_days),
{
    if retention_days == 0 {
        return None;
    }
    let span = retention_days as u128 * DAY_MILLIS;
    Some(now.saturating_sub(span))
}

/// When a trashed note was deleted: the stamp in its name, or, for a name
/// without one (the older format), its modification time.
pub open spec fn deleted_at_of(e: DirEntry) -> u128 {
    if e.unicode && stamp_of(e.name@) is Some {
        stamp_of(e.name@)->0
    } else {
        e.modified
    }
}

pub fn deleted_at(e: &DirEntry) -> (t: u128)
    ensures
        t == deleted_at_of(*e),
{
    if e.unicode {
        if let Some(t) = stamp_of_name(e.name.as_str()) {
            return t;
        }
    }
    e.modified
}

pub open spec fn expired_selected(s: Seq<DirEntry>, cutoff: u128) -> spec_fn(int) -> bool {
    |i: int| is_md_file(s[i]) && deleted_at_of(s[i]) < cutoff
}

/// The positions of the trashed notes deleted before `cutoff`: those a purge
/// removes.
pub fn expired_indices(trash: &Vec<DirEntry>, cutoff: u128) -> (plan: Vec<usize>)
    ensures
        is_selection(trash@, plan@, expired_selected(trash@, cutoff)),
        forall|i: int|
            0 <= i < trash.len() ==> (#[trigger] plan@.contains(i as usize) <==> (is_md_file(trash@[i])
                && deleted_at_of(trash@[i]) < cutoff)),
{
    let ghost keep = expired_selected(trash@, cutoff);
    let mut plan: Vec<usize> = Vec::new();
    let mut i: usize = 0;
    while i < trash.len()
        invariant
            i <= trash.len(),
            keep == expired_selected(trash@, cutoff),
            forall|k: int| 0 <= k < plan.len() ==> #[trigger] plan@[k] < i,
            forall|k: int| 0 <= k < plan.len() ==> keep(#[trigger] plan@[k] as int),
            forall|a: int, b: int| 0 <= a < b < plan.len() ==> #[trigger] plan@[a] < #[trigger] plan@[b],
            forall|j: int| 0 <= j < i && keep(j) ==> #[trigger] plan@.contains(j as usize),
        decreases trash.len() - i,
    {
        let ghost before = plan@;
        if is_md_file_entry(&trash[i]) && deleted_at(&trash[i]) < cutoff {
            plan.push(i);
        }
        proof {
            lemma_selection_step(trash@, before, plan@, keep, i as int);
        }
        i += 1;
    }
    proof {
        lemma_selection_members(trash@, plan@, keep);
    }
    plan
}

/// The entry of a trash listing that holds the note `id`: the first one whose
/// name is `{id}.md` or ends with `__{id}.md`.
pub open spec fn trash_match(e: DirEntry, id: Seq<char>) -> bool {
    e.unicode && is_trash_name_of(e.name@, id)
}

fn trash_name_matches(name: &str, id: &str) -> (b: bool)
    ensures
        b == is_trash_name_of(name@, id@),
{
    let mut legacy = String::new();
    legacy.append(id);
    push_char(&mut legacy, '.');
    push_char(&mut legacy, 'm');
    push_char(&mut legacy, 'd');
    assert(legacy@ =~= note_name(id@));
    if str_equal(name, legacy.as_str()) {
        return true;
    }
    let n = name.unicode_len();
    let m = id.unicode_len();
    if n < 5 || n - 5 < m {
        return false;
    }
    let start = n - (m + 5);
    let tail = name.substring_char(start, n);
    let mut expected = String::new();
    push_char(&mut expected, '_');
    push_char(&mut expected, '_');
    expected.append(id);
    push_char(&mut expected, '.');
    push_char(&mut expected, 'm');
    push_char(&mut expected, 'd');
    assert(expected@ =~= double_underscore() + id@ + md_suffix());
    str_equal(tail, expected.as_str())
}

/// Where the trash holds the note `id`. An id that is not acceptable is
/// refused before the trash is looked at.
pub fn find_in_trash(id: &str, trash: &Vec<DirEntry>) -> (r: Result<Option<usize>, NoteError>)
    ensures
        r is Ok <==> is_valid_id(id@),
        r matches Err(e) ==> (e matches NoteError::InvalidId(s) && s@ == id@),
        r matches Ok(None) ==> forall|i: int| 0 <= i < trash@.len() ==> !trash_match(#[trigger] trash@[i], id@),
        r matches Ok(Some(k)) ==> k < trash@.len() && trash_match(trash@[k as int], id@)
            && forall|i: int| 0 <= i < k ==> !trash_match(#[trigger] trash@[i], id@),
{
    validate_id(id)?;
    let mut i: usize = 0;
    while i < trash.len()
        invariant
            is_valid_id(id@),
            i <= trash.len(),
            forall|j: int| 0 <= j < i ==> !trash_match(#[trigger] trash@[j], id@),
        decreases trash.len() - i,
    {
        if trash[i].unicode && trash_name_matches(trash[i].name.as_str(), id) {
            return Ok(Some(i));
        }
        i += 1;
    }
    Ok(None)
}

/// What a restore does: move the trash entry at the returned position back to
/// the returned note file name. Fails for an unacceptable id, and for a note
/// the trash does not hold.
pub fn restore_plan(id: &str, trash: &Vec<DirEntry>) -> (r: Result<(usize, String), NoteError>)
    ensures
        r matches Ok((k, name)) ==> is_valid_id(id@) && k < trash@.len() && trash_match(
            trash@[k as int],
            id@,
        ) && (forall|i: int| 0 <= i < k ==> !trash_match(#[trigger] trash@[i], id@)) && name@
            == note_name(id@),
        r matches Err(NoteError::InvalidId(s)) ==> !is_valid_id(id@) && s@ == id@,
        r matches Err(NoteError::NotInTrash(s)) ==> is_valid_id(id@) && s@ == id@ && forall|
            i: int,
        | 0 <= i < trash@.len() ==> !trash_match(#[trigger] trash@[i], id@),
        !is_valid_id(id@) ==> r is Err && r->Err_0 is InvalidId,
        is_valid_id(id@) && (exists|i: int| 0 <= i < trash@.len() && trash_match(trash@[i], id@))
            ==> r is Ok,
{
    match find_in_trash(id, trash)? {
        Some(k) => {
            let name = note_file_name(id)?;
            Ok((k, name))
        },
        None => Err(NoteError::NotInTrash(str_to_string(id))),
    }
}

// ---------------------------------------------------------------------------
// Changing the notes folder
// ---------------------------------------------------------------------------

/// Positions of the entries that follow a change of folder: the `.md` files of
/// the old folder (not the trash, a folder) whose name is still free in the
/// new one. `target_exists[i]` says whether the new folder already has an
/// entry named like `entries[i]`; such a file stays where it is, and the one
/// in the new folder is kept.
pub open spec fn move_selected(s: Seq<DirEntry>, target_exists: Seq<bool>) -> spec_fn(int) -> bool {
    |i: int| is_md_file(s[i]) && !target_exists[i]
}

pub fn move_plan(entries: &Vec<DirEntry>, target_exists: &Vec<bool>) -> (plan: Vec<usize>)
    requires
        target_exists.len() == entries.len(),
    ensures
        is_selection(entries@, plan@, move_selected(entries@, target_exists@)),
        forall|i: int|
            0 <= i < entries.len() ==> (#[trigger] plan@.contains(i as usize) <==> (is_md_file(entries@[i])
                && !target_exists@[i])),
{
    let ghost keep = move_selected(entries@, target_exists@);
    let mut plan: Vec<usize> = Vec::new();
    let mut i: usize = 0;
    while i < entries.len()
        invariant
            target_exists.len() == entries.len(),
            i <= entries.len(),
            keep == move_selected(entries@, target_exists@),
            forall|k: int| 0 <= k < plan.len() ==> #[trigger] plan@[k] < i,
            forall|k: int| 0 <= k < plan.len() ==> keep(#[trigger] plan@[k] as int),
            forall|a: int, b: int| 0 <= a < b < plan.len() ==> #[trigger] plan@[a] < #[trigger] plan@[b],
            forall|j: int| 0 <= j < i && keep(j) ==> #[trigger] plan@.contains(j as usize),
        decreases entries.len() - i,
    {
        let ghost before = plan@;
        if is_md_file_entry(&entries[i]) && !target_exists[i] {
            plan.push(i);
        }
        proof {
            lemma_selection_step(entries@, before, plan@, keep, i as int);
        }
        i += 1;
    }
    proof {
        lemma_selection_members(entries@, plan@, keep);
    }
    plan
}


// ---------------------------------------------------------------------------
// Laws
// ---------------------------------------------------------------------------

/// A note saved under its file name is listed, under its id.
pub proof fn lemma_saved_note_is_listed(id: Seq<char>, e: DirEntry)
    requires
        is_valid_id(id),
        e.is_file,
        e.unicode,
        e.name@ == note_name(id),
    ensures
        entry_note_id(e) == Some(id),
{
    lemma_note_name(id);
}

/// A deleted note, under the trash name its delete gave it, counts as a
/// trashed note, is what a restore of its id finds, and carries its deletion
/// time for the purge to read back.
pub proof fn lemma_trashed_note(id: Seq<char>, deleted_at: u128, e: DirEntry)
    requires
        e.is_file,
        e.unicode,
        e.name@ == trash_name(id, deleted_at),
    ensures
        is_md_file(e),
        trash_match(e, id),
        deleted_at_of(e) == deleted_at,
{
    lemma_trash_name(id, deleted_at);
    lemma_trash_name_stamp(id, deleted_at);
}

/// Emptying the trash removes as many notes as the trash count shows: a
/// selection of every trashed note in a listing has exactly `count_trash`
/// positions. (A listing is held in a `Vec`, so its positions fit `usize`.)
pub proof fn lemma_empty_trash_matches_count(s: Seq<DirEntry>, plan: Seq<usize>)
    requires
        s.len() <= usize::MAX,
        is_selection(s, plan, trash_selected(s)),
    ensures
        plan.len() == count_trash(s),
    decreases s.len(),
{
    if s.len() == 0 {
        if plan.len() > 0 {
            assert(0 <= plan[0] < s.len());
        }
    } else {
        let n = s.len() - 1;
        let rest = s.drop_last();
        let sel = trash_selected(s);
        let sel_rest = trash_selected(rest);
        if is_md_file(s.last()) {
            assert(sel(n));
            assert(plan.contains(n as usize));
            let k = choose|k: int| 0 <= k < plan.len() && plan[k] == n as usize;
            assert(0 <= k < plan.len() && plan[k] == n as usize);
            assert(k == plan.len() - 1) by {
                if k < plan.len() - 1 {
                    assert(plan[k] < plan[plan.len() - 1]);
                    assert(plan[plan.len() - 1] < s.len());
                }
            }
            let front = plan.drop_last();
            assert forall|k2: int| 0 <= k2 < front.len() implies 0 <= #[trigger] front[k2] < rest.len() by {
                assert(front[k2] == plan[k2]);
                assert(plan[k2] < plan[k]);
            }
            assert forall|k2: int| 0 <= k2 < front.len() implies sel_rest(#[trigger] front[k2] as int) by {
                assert(front[k2] == plan[k2]);
                assert(plan[k2] < plan[k]);
                assert(sel(plan[k2] as int));
                assert(rest[plan[k2] as int] == s[plan[k2] as int]);
            }
            assert forall|i: int| 0 <= i < rest.len() && sel_rest(i) implies #[trigger] front.contains(i as usize) by {
                assert(rest[i] == s[i]);
                assert(sel(i));
                assert(plan.contains(i as usize));
                let j = choose|j: int| 0 <= j < plan.len() && plan[j] == i as usize;
                assert(j != k);
                assert(front[j] == plan[j]);
            }
            lemma_empty_trash_matches_count(rest, front);
        } else {
            assert forall|k2: int| 0 <= k2 < plan.len() implies 0 <= #[trigger] plan[k2] < rest.len() by {
                assert(sel(plan[k2] as int));
                assert(plan[k2] != n);
            }
            assert forall|k2: int| 0 <= k2 < plan.len() implies sel_rest(#[trigger] plan[k2] as int) by {
                assert(sel(plan[k2] as int));
                assert(plan[k2] != n);
                assert(rest[plan[k2] as int] == s[plan[k2] as int]);
            }
            assert forall|i: int| 0 <= i < rest.len() && sel_rest(i) implies #[trigger] plan.contains(i as usize) by {
                assert(rest[i] == s[i]);
                assert(sel(i));
            }
            lemma_empty_trash_matches_count(rest, plan);
        }
    }
}

/// The purge removes every trashed note deleted before the cutoff and nothing
/// else, wherever it stands in the listing: whether a position is purged
/// depends on its own entry alone.
pub proof fn lemma_purge_selects_each_expired_note(s: Seq<DirEntry>, cutoff: u128, plan: Seq<usize>, i: int)
    requires
        s.len() <= usize::MAX,
        is_selection(s, plan, expired_selected(s, cutoff)),
        0 <= i < s.len(),
    ensures
        plan.contains(i as usize) <==> (s[i].is_file && is_md_name(s[i].name@) && deleted_at_of(s[i]) < cutoff),
{
    lemma_selection_members(s, plan, expired_selected(s, cutoff));
}

/// Two listings that hold the same entry at positions `i` and `j` purge it
/// alike, whatever else they hold and in whatever order.
pub proof fn lemma_purge_ignores_other_entries(
    s: Seq<DirEntry>,
    t: Seq<DirEntry>,
    cutoff: u128,
    plan_s: Seq<usize>,
    plan_t: Seq<usize>,
    i: int,
    j: int,
)
    requires
        s.len() <= usize::MAX,
        t.len() <= usize::MAX,
        is_selection(s, plan_s, expired_selected(s, cutoff)),
        is_selection(t, plan_t, expired_selected(t, cutoff)),
        0 <= i < s.len(),
        0 <= j < t.len(),
        s[i] == t[j],
    ensures
        plan_s.contains(i as usize) == plan_t.contains(j as usize),
{
    lemma_purge_selects_each_expired_note(s, cutoff, plan_s, i);
    lemma_purge_selects_each_expired_note(t, cutoff, plan_t, j);
}

/// A change of folder moves every regular `.md` file whose name is free in
/// the new folder, at any position of the listing, the last included, and
/// nothing else.
pub proof fn lemma_move_takes_every_free_note(s: Seq<DirEntry>, target_exists: Seq<bool>, plan: Seq<usize>, i: int)
    requires
        s.len() <= usize::MAX,
        is_selection(s, plan, move_selected(s, target_exists)),
        0 <= i < s.len(),
    ensures
        plan.contains(i as usize) <==> (s[i].is_file && is_md_name(s[i].name@) && !target_exists[i]),
{
    lemma_selection_members(s, plan, move_selected(s, target_exists));
}

/// A note created after another one, with the other's file name among the
/// taken ones, gets another id.
pub proof fn lemma_fresh_id_differs(taken: Seq<String>, earlier: Seq<char>, later: Seq<char>)
    requires
        name_taken(taken, note_name(earlier)),
        !name_taken(taken, note_name(later)),
    ensures
        earlier != later,
{
}

/// A retention of `0` never purges anything; otherwise a trashed note is
/// purged exactly when more than the retention period has passed since its
/// deletion.
pub proof fn lemma_retention(now: u128, retention_days: u32, e: DirEntry)
    ensures
        retention_days == 0 ==> cutoff_of(now, retention_days) is None,
        retention_days > 0 ==> (cutoff_of(now, retention_days) matches Some(c) && (deleted_at_of(e) < c
            <==> deleted_at_of(e) + retention_days * DAY_MILLIS < now)),
{
}

} // verus!
