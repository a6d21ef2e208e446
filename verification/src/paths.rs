//! Folder paths as the app handles them: text whose components are separated
//! by `/` or `\`, the way Windows reads them.

use vstd::prelude::*;
use crate::names::{push_char, str_to_string};

verus! {

pub open spec fn is_sep(c: char) -> bool {
    c == '/' || c == '\\'
}

/// The path without separators at its end nor a final `.` component, which
/// name no component of their own.
pub open spec fn trim_end(p: Seq<char>) -> Seq<char>
    decreases p.len(),
{
    if p.len() == 0 {
        p
    } else if is_sep(p.last()) {
        trim_end(p.drop_last())
    } else if p.len() >= 2 && p.last() == '.' && is_sep(p[p.len() - 2]) {
        trim_end(p.drop_last().drop_last())
    } else {
        p
    }
}

/// Where the last component of `t` starts: just after its last separator,
/// or at `0`.
pub open spec fn last_component_start(t: Seq<char>) -> int
    decreases t.len(),
{
    if t.len() == 0 {
        0
    } else if is_sep(t.last()) {
        t.len() as int
    } else {
        last_component_start(t.drop_last())
    }
}

pub open spec fn is_drive(c: Seq<char>) -> bool {
    &&& c.len() == 2
    &&& c[1] == ':'
    &&& (('a' <= c[0] && c[0] <= 'z') || ('A' <= c[0] && c[0] <= 'Z'))
}

/// A separator inside a Windows path prefix: only `\` in a verbatim
/// (`\\?\`) prefix, `\` or `/` elsewhere.
pub open spec fn is_prefix_sep(c: char, verbatim: bool) -> bool {
    c == '\\' || (!verbatim && c == '/')
}

/// Where the prefix component of `s` that starts at `i` ends: at the next
/// separator, or at the end of `s`.
pub open spec fn component_end(s: Seq<char>, i: int, verbatim: bool) -> int
    decreases s.len() - i,
{
    if i < 0 || i >= s.len() || is_prefix_sep(s[i], verbatim) {
        i
    } else {
        component_end(s, i + 1, verbatim)
    }
}

/// The position just past the separator at `i`, if there is one.
pub open spec fn past_separator(s: Seq<char>, i: int) -> int {
    if i < s.len() {
        i + 1
    } else {
        i
    }
}

/// `\\?\` with no `/` among the first eight characters: a verbatim path.
pub open spec fn is_verbatim(s: Seq<char>) -> bool {
    &&& s.len() >= 4
    &&& s[0] == '\\' && s[1] == '\\' && s[2] == '?' && s[3] == '\\'
    &&& forall|i: int| 0 <= i < s.len() && i < 8 ==> s[i] != '/'
}

/// The length of the Windows prefix that `s` starts with, `0` for none:
/// `\\?\UNC\server\share`, `\\?\name` (`\\?\C:` among them),
/// `\\.\device`, and `\\server\share` with a server and a share that are not
/// empty.
pub open spec fn prefix_len(s: Seq<char>) -> int {
    if s.len() >= 2 && is_sep(s[0]) && is_sep(s[1]) {
        if is_verbatim(s) {
            if s.len() >= 8 && s[4] == 'U' && s[5] == 'N' && s[6] == 'C' && s[7] == '\\' {
                let share = past_separator(s, component_end(s, 8, true));
                component_end(s, share, true)
            } else {
                component_end(s, 4, true)
            }
        } else if s.len() >= 4 && s[2] == '.' && is_sep(s[3]) {
            component_end(s, 4, false)
        } else {
            let server_end = component_end(s, 2, false);
            let share = past_separator(s, server_end);
            let share_end = component_end(s, share, false);
            if server_end > 2 && share_end > share {
                share_end
            } else {
                0
            }
        }
    } else {
        0
    }
}

/// The final component of a path; `None` for a root, a drive, a Windows
/// prefix on its own, an empty path, or a path that ends in `.` or `..`.
/// The prefix is read from the path without its trailing separators and `.`
/// components.
pub open spec fn file_name(p: Seq<char>) -> Option<Seq<char>> {
    let t = trim_end(p);
    let k = last_component_start(t);
    let c = t.subrange(k, t.len() as int);
    if c.len() == 0 || c == seq!['.'] || c == seq!['.', '.'] || (k == 0 && is_drive(c)) || k
        < prefix_len(t) {
        None
    } else {
        Some(c)
    }
}

/// Everything before the final component, separators included.
pub open spec fn parent_prefix(p: Seq<char>) -> Seq<char> {
    let t = trim_end(p);
    t.take(last_component_start(t))
}

/// The path with its final component replaced by `name`.
pub open spec fn with_file_name(p: Seq<char>, name: Seq<char>) -> Seq<char> {
    parent_prefix(p) + name
}

pub open spec fn dev_suffix() -> Seq<char> {
    seq!['-', 'd', 'e', 'v']
}

/// The folder of the development build: the sibling of `dir` whose name
/// carries `-dev`. A path without a final component stays as it is.
pub open spec fn dev_folder(dir: Seq<char>) -> Seq<char> {
    match file_name(dir) {
        Some(name) => with_file_name(dir, name + dev_suffix()),
        None => dir,
    }
}

fn sep(c: char) -> (b: bool)
    ensures
        b == is_sep(c),
{
    c == '/' || c == '\\'
}

/// Length of `trim_end(p)`.
fn trimmed_len(p: &str) -> (n: usize)
    ensures
        n <= p@.len(),
        trim_end(p@) == p@.take(n as int),
{
    let mut n = p.unicode_len();
    assert(p@.take(n as int) =~= p@);
    loop
        invariant
            n <= p@.len(),
            trim_end(p@) == trim_end(p@.take(n as int)),
        decreases n,
    {
        let t = Ghost(p@.take(n as int));
        if n == 0 {
            return n;
        }
        let last = p.get_char(n - 1);
        if sep(last) {
            assert(t@.drop_last() =~= p@.take(n - 1));
            n -= 1;
        } else if n >= 2 && last == '.' && sep(p.get_char(n - 2)) {
            assert(t@.drop_last().drop_last() =~= p@.take(n - 2));
            n -= 2;
        } else {
            return n;
        }
    }
}

/// Start of the last component of the first `n` characters of `p`.
fn component_start(p: &str, n: usize) -> (k: usize)
    requires
        n <= p@.len(),
    ensures
        k as int == last_component_start(p@.take(n as int)),
        k <= n,
{
    let mut k = n;
    loop
        invariant
            k <= n <= p@.len(),
            last_component_start(p@.take(n as int)) == last_component_start(p@.take(k as int)),
        decreases k,
    {
        if k == 0 {
            return 0;
        }
        if sep(p.get_char(k - 1)) {
            return k;
        }
        assert(p@.take(k as int).drop_last() =~= p@.take(k - 1));
        k -= 1;
    }
}

fn prefix_sep(c: char, verbatim: bool) -> (b: bool)
    ensures
        b == is_prefix_sep(c, verbatim),
{
    c == '\\' || (!verbatim && c == '/')
}

/// `component_end` over the first `n` characters of `p`.
fn component_end_in(p: &str, n: usize, i: usize, verbatim: bool) -> (e: usize)
    requires
        n <= p@.len(),
        i <= n,
    ensures
        e as int == component_end(p@.take(n as int), i as int, verbatim),
        i <= e <= n,
{
    let ghost t = p@.take(n as int);
    let mut j = i;
    while j < n && !prefix_sep(p.get_char(j), verbatim)
        invariant
            i <= j <= n <= p@.len(),
            t == p@.take(n as int),
            component_end(t, i as int, verbatim) == component_end(t, j as int, verbatim),
        decreases n - j,
    {
        assert(t[j as int] == p@[j as int]);
        j += 1;
    }
    proof {
        if j < n {
            assert(t[j as int] == p@[j as int]);
        }
    }
    j
}

/// `prefix_len` of the first `n` characters of `p`.
fn prefix_length(p: &str, n: usize) -> (e: usize)
    requires
        n <= p@.len(),
    ensures
        e as int == prefix_len(p@.take(n as int)),
{
    let ghost t = p@.take(n as int);
    if n < 2 || !sep(p.get_char(0)) || !sep(p.get_char(1)) {
        return 0;
    }
    assert(t[0] == p@[0] && t[1] == p@[1]);
    let mut no_slash = true;
    let mut j: usize = 0;
    while j < n && j < 8
        invariant
            j <= n <= p@.len(),
            j <= 8,
            t == p@.take(n as int),
            no_slash == (forall|i: int| 0 <= i < j ==> t[i] != '/'),
        decreases n - j,
    {
        assert(t[j as int] == p@[j as int]);
        if p.get_char(j) == '/' {
            no_slash = false;
        }
        j += 1;
    }
    let verbatim = no_slash && n >= 4 && p.get_char(0) == '\\' && p.get_char(1) == '\\'
        && p.get_char(2) == '?' && p.get_char(3) == '\\';
    proof {
        assert(no_slash == (forall|i: int| 0 <= i < t.len() && i < 8 ==> t[i] != '/')) by {
            if !no_slash {
                let i = choose|i: int| 0 <= i < j && t[i] == '/';
                assert(0 <= i < t.len() && i < 8 && t[i] == '/');
            }
        }
        if n >= 4 {
            assert(t[2] == p@[2] && t[3] == p@[3]);
        }
        assert(verbatim == is_verbatim(t));
    }
    if verbatim {
        if n >= 8 && p.get_char(4) == 'U' && p.get_char(5) == 'N' && p.get_char(6) == 'C'
            && p.get_char(7) == '\\' {
            assert(t[4] == p@[4] && t[5] == p@[5] && t[6] == p@[6] && t[7] == p@[7]);
            let server_end = component_end_in(p, n, 8, true);
            let share = if server_end < n {
                server_end + 1
            } else {
                server_end
            };
            component_end_in(p, n, share, true)
        } else {
            proof {
                if n >= 8 {
                    assert(t[4] == p@[4] && t[5] == p@[5] && t[6] == p@[6] && t[7] == p@[7]);
                }
            }
            component_end_in(p, n, 4, true)
        }
    } else if n >= 4 && p.get_char(2) == '.' && sep(p.get_char(3)) {
        component_end_in(p, n, 4, false)
    } else {
        let server_end = component_end_in(p, n, 2, false);
        let share = if server_end < n {
            server_end + 1
        } else {
            server_end
        };
        let share_end = component_end_in(p, n, share, false);
        if server_end > 2 && share_end > share {
            share_end
        } else {
            0
        }
    }
}

/// The folder the development build uses in place of `dir`: a sibling named
/// `{name}-dev`, never inside `dir`, so that testing never touches the
/// installed app's notes. With `dev == false` the folder is `dir` itself.
pub fn with_dev_suffix(dir: String, dev: bool) -> (r: String)
    ensures
        r@ == (if dev {
            dev_folder(dir@)
        } else {
            dir@
        }),
{
    if !dev {
        return dir;
    }
    let p = dir.as_str();
    let n = trimmed_len(p);
    let k = component_start(p, n);
    let ghost t = trim_end(p@);
    assert(t.subrange(k as int, n as int) =~= p@.subrange(k as int, n as int));
    let c = p.substring_char(k, n);
    let len = n - k;
    let is_dot = len == 1 && c.get_char(0) == '.';
    let is_dotdot = len == 2 && c.get_char(0) == '.' && c.get_char(1) == '.';
    let drive = k == 0 && len == 2 && c.get_char(1) == ':' && ((c.get_char(0) >= 'a' && c.get_char(0)
        <= 'z') || (c.get_char(0) >= 'A' && c.get_char(0) <= 'Z'));
    proof {
        if c@ == seq!['.'] {
            assert(c@[0] == '.');
        }
        if c@ == seq!['.', '.'] {
            assert(c@[0] == '.' && c@[1] == '.');
        }
        if is_dot {
            assert(c@ =~= seq!['.']);
        }
        if is_dotdot {
            assert(c@ =~= seq!['.', '.']);
        }
    }
    if len == 0 || is_dot || is_dotdot || drive || k < prefix_length(p, n) {
        return dir;
    }
    let prefix = p.substring_char(0, k);
    let mut r = str_to_string(prefix);
    r.append(c);
    push_char(&mut r, '-');
    push_char(&mut r, 'd');
    push_char(&mut r, 'e');
    push_char(&mut r, 'v');
    assert(r@ =~= dev_folder(dir@));
    r
}

// ---------------------------------------------------------------------------
// Laws
// ---------------------------------------------------------------------------

proof fn lemma_component_start_bounds(t: Seq<char>)
    ensures
        0 <= last_component_start(t) <= t.len(),
        last_component_start(t) == 0 || is_sep(t[last_component_start(t) - 1]),
        forall|i: int| last_component_start(t) <= i < t.len() ==> !is_sep(#[trigger] t[i]),
    decreases t.len(),
{
    if t.len() > 0 && !is_sep(t.last()) {
        lemma_component_start_bounds(t.drop_last());
        let k = last_component_start(t);
        assert forall|i: int| k <= i < t.len() implies !is_sep(#[trigger] t[i]) by {
            if i < t.len() - 1 {
                assert(t[i] == t.drop_last()[i]);
            }
        }
    }
}

proof fn lemma_component_start_append(prefix: Seq<char>, name: Seq<char>)
    requires
        prefix.len() == 0 || is_sep(prefix.last()),
        forall|i: int| 0 <= i < name.len() ==> !is_sep(#[trigger] name[i]),
    ensures
        last_component_start(prefix + name) == prefix.len(),
    decreases name.len(),
{
    if name.len() > 0 {
        assert((prefix + name).drop_last() =~= prefix + name.drop_last());
        assert((prefix + name).last() == name.last());
        lemma_component_start_append(prefix, name.drop_last());
    } else {
        assert(prefix + name =~= prefix);
        if prefix.len() > 0 {
            assert(prefix.drop_last().len() < prefix.len());
        }
    }
}

proof fn lemma_component_end_bounds(s: Seq<char>, i: int, verbatim: bool)
    requires
        0 <= i,
    ensures
        i <= component_end(s, i, verbatim),
        i <= s.len() ==> component_end(s, i, verbatim) <= s.len(),
        component_end(s, i, verbatim) < s.len() ==> is_prefix_sep(s[component_end(s, i, verbatim)], verbatim),
    decreases s.len() - i,
{
    if i < s.len() && !is_prefix_sep(s[i], verbatim) {
        lemma_component_end_bounds(s, i + 1, verbatim);
    }
}

/// Scanning a prefix component of `t` followed by `-dev`: the scan stops
/// where it stopped in `t`, or runs on to the end.
proof fn lemma_component_end_extend(t: Seq<char>, i: int, verbatim: bool)
    requires
        0 <= i <= t.len() + 4,
    ensures
        component_end(t + dev_suffix(), i, verbatim) == (if i <= t.len() && component_end(t, i, verbatim) < t.len() {
            component_end(t, i, verbatim)
        } else {
            t.len() + 4int
        }),
    decreases t.len() + 4 - i,
{
    let x = t + dev_suffix();
    if i < t.len() {
        assert(x[i] == t[i]);
        if !is_prefix_sep(t[i], verbatim) {
            lemma_component_end_extend(t, i + 1, verbatim);
            if i + 1 == t.len() {
                assert(component_end(t, i + 1, verbatim) == t.len());
            }
        }
    } else if i < t.len() + 4 {
        assert(x[i] == dev_suffix()[i - t.len()]);
        lemma_component_end_extend(t, i + 1, verbatim);
    }
}

/// Appending `-dev` to a path that does not end inside its prefix leaves the
/// prefix where it was.
proof fn lemma_prefix_len_extend(t: Seq<char>, k: int)
    requires
        0 <= k < t.len(),
        forall|i: int| k <= i < t.len() ==> !is_sep(#[trigger] t[i]),
        k > 0 ==> is_sep(t[k - 1]),
        prefix_len(t) <= k,
    ensures
        prefix_len(t + dev_suffix()) <= k,
{
    let x = t + dev_suffix();
    let n = t.len() as int;
    assert forall|i: int| 0 <= i < n implies x[i] == t[i] by {}
    assert(x[n] == '-' && x[n + 1] == 'd' && x[n + 2] == 'e' && x[n + 3] == 'v');
    assert forall|i: int| n <= i < x.len() implies (!is_sep(#[trigger] x[i]) && x[i] != '.') by {
        assert(x[i] == dev_suffix()[i - n]);
    }
    if n >= 2 && is_sep(t[0]) && is_sep(t[1]) {
        assert(x[0] == t[0] && x[1] == t[1]);
        assert(is_verbatim(x) == is_verbatim(t)) by {
            if n < 4 {
                assert(!is_sep(x[3]));
            } else {
                assert(x[2] == t[2] && x[3] == t[3]);
                if is_verbatim(t) {
                    assert forall|i: int| 0 <= i < x.len() && i < 8 implies x[i] != '/' by {
                        if i < n {
                            assert(x[i] == t[i]);
                        }
                    }
                }
                if is_verbatim(x) {
                    assert forall|i: int| 0 <= i < t.len() && i < 8 implies t[i] != '/' by {
                        assert(x[i] == t[i]);
                    }
                }
            }
        }
        if is_verbatim(t) {
            let unc_t = t.len() >= 8 && t[4] == 'U' && t[5] == 'N' && t[6] == 'C' && t[7] == '\\';
            let unc_x = x.len() >= 8 && x[4] == 'U' && x[5] == 'N' && x[6] == 'C' && x[7] == '\\';
            assert(unc_t == unc_x) by {
                if n >= 8 {
                    assert(x[4] == t[4] && x[5] == t[5] && x[6] == t[6] && x[7] == t[7]);
                } else {
                    assert(!is_sep(x[7]) && x[7] != '.');
                    assert(x[n] == '-');
                }
            }
            if unc_t {
                let se = component_end(t, 8, true);
                lemma_component_end_bounds(t, 8, true);
                let sh = past_separator(t, se);
                lemma_component_end_bounds(t, sh, true);
                lemma_component_end_extend(t, 8, true);
                lemma_component_end_extend(t, sh, true);
            } else {
                lemma_component_end_bounds(t, 4, true);
                lemma_component_end_extend(t, 4, true);
            }
        } else if n >= 4 && t[2] == '.' && is_sep(t[3]) {
            assert(x[2] == t[2] && x[3] == t[3]);
            lemma_component_end_bounds(t, 4, false);
            lemma_component_end_extend(t, 4, false);
        } else {
            assert(!(x.len() >= 4 && x[2] == '.' && is_sep(x[3]))) by {
                if n >= 4 {
                    assert(x[2] == t[2] && x[3] == t[3]);
                } else if n == 3 {
                    assert(x[2] == t[2]);
                }
            }
            let se = component_end(t, 2, false);
            lemma_component_end_bounds(t, 2, false);
            lemma_component_end_extend(t, 2, false);
            if se < n {
                let sh = se + 1;
                lemma_component_end_bounds(t, sh, false);
                lemma_component_end_extend(t, sh, false);
                if component_end(t, sh, false) == n && se > 2 && n > sh {
                    assert(prefix_len(t) == n);
                }
            } else {
                assert(component_end(x, x.len() as int, false) == x.len());
            }
        }
    } else if n == 1 {
        assert(x[0] == t[0]);
    } else {
        assert(x[0] == t[0] && x[1] == t[1]);
    }
}

/// The development folder is a sibling of the installed one: the same
/// parent, and a final component that is the installed one's name followed
/// by `-dev`, so it can neither be the installed folder nor lie inside it.
pub proof fn lemma_dev_folder_is_sibling(dir: Seq<char>)
    requires
        file_name(dir) is Some,
    ensures
        parent_prefix(dev_folder(dir)) == parent_prefix(dir),
        file_name(dev_folder(dir)) == Some(file_name(dir)->0 + dev_suffix()),
        file_name(dev_folder(dir)) != file_name(dir),
{
    let t = trim_end(dir);
    let k = last_component_start(t);
    lemma_component_start_bounds(t);
    let prefix = t.take(k);
    let name = file_name(dir)->0;
    let full = name + dev_suffix();
    let r = dev_folder(dir);
    assert(r == prefix + full);
    assert forall|i: int| 0 <= i < full.len() implies !is_sep(#[trigger] full[i]) by {
        if i < name.len() {
            assert(full[i] == t[k + i]);
        }
    }
    assert(prefix.len() == 0 || is_sep(prefix.last())) by {
        if k > 0 {
            assert(prefix.last() == t[k - 1]);
        }
    }
    assert(trim_end(r) == r) by {
        assert(r.last() == 'v');
    }
    lemma_component_start_append(prefix, full);
    assert(r =~= t + dev_suffix());
    lemma_prefix_len_extend(t, k);
    assert(r.subrange(prefix.len() as int, r.len() as int) =~= full);
    assert(r.take(prefix.len() as int) =~= prefix);
    assert(full.len() > name.len());
}

} // verus!
