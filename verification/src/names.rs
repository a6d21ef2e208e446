//! The naming scheme of the notes folder: which ids are acceptable, how a
//! note and a trashed note are named on disk, and how those names are read
//! back.

use vstd::prelude::*;

verus! {

// ---------------------------------------------------------------------------
// Errors
// ---------------------------------------------------------------------------

/// What the notes store refuses.
#[derive(Debug)]
pub enum NoteError {
    /// The id is empty, longer than 64 characters, or holds a character
    /// outside `[A-Za-z0-9_-]`.
    InvalidId(String),
    /// A restore was asked for a note that the trash does not hold.
    NotInTrash(String),
}

// ---------------------------------------------------------------------------
// Characters and strings
// ---------------------------------------------------------------------------

/// Appends one character to a `String`.
///
/// Trusted: calls `String::push`, whose documentation says it appends the
/// given `char` to the end of the string.
#[verifier::external_body]
pub(crate) fn push_char(s: &mut String, c: char)
    ensures
        final(s)@ == old(s)@.push(c),
{
    s.push(c);
}

pub open spec fn is_digit_char(c: char) -> bool {
    '0' <= c && c <= '9'
}

pub open spec fn is_id_char(c: char) -> bool {
    ||| is_digit_char(c)
    ||| ('a' <= c && c <= 'z')
    ||| ('A' <= c && c <= 'Z')
    ||| c == '-'
    ||| c == '_'
}

/// Ids are generated by the app and become file names: anything outside this
/// alphabet, empty, or longer than 64 characters did not come from us.
pub open spec fn is_valid_id(id: Seq<char>) -> bool {
    &&& 1 <= id.len() <= 64
    &&& forall|i: int| 0 <= i < id.len() ==> #[trigger] is_id_char(id[i])
}

fn id_char(c: char) -> (b: bool)
    ensures
        b == is_id_char(c),
{
    (c >= '0' && c <= '9') || (c >= 'a' && c <= 'z') || (c >= 'A' && c <= 'Z') || c == '-'
        || c == '_'
}

/// `s` is one of the strings of `v`.
pub open spec fn listed(v: Seq<String>, s: Seq<char>) -> bool {
    exists|i: int| 0 <= i < v.len() && (#[trigger] v[i])@ == s
}

pub(crate) fn contains_str(v: &Vec<String>, s: &str) -> (b: bool)
    ensures
        b == listed(v@, s@),
{
    let mut i: usize = 0;
    while i < v.len()
        invariant
            i <= v.len(),
            forall|j: int| 0 <= j < i ==> (#[trigger] v@[j])@ != s@,
        decreases v.len() - i,
    {
        if str_equal(v[i].as_str(), s) {
            return true;
        }
        i += 1;
    }
    false
}

pub(crate) fn str_equal(a: &str, b: &str) -> (r: bool)
    ensures
        r == (a@ == b@),
{
    let n = a.unicode_len();
    if n != b.unicode_len() {
        return false;
    }
    let mut i: usize = 0;
    while i < n
        invariant
            n == a@.len(),
            n == b@.len(),
            i <= n,
            forall|j: int| 0 <= j < i ==> a@[j] == b@[j],
        decreases n - i,
    {
        if a.get_char(i) != b.get_char(i) {
            return false;
        }
        i += 1;
    }
    assert(a@ =~= b@);
    true
}

pub(crate) fn str_to_string(s: &str) -> (r: String)
    ensures
        r@ == s@,
{
    s.to_owned()
}

/// `Ok` exactly for the ids of `is_valid_id`; otherwise the error names the id.
pub fn validate_id(id: &str) -> (r: Result<(), NoteError>)
    ensures
        r is Ok <==> is_valid_id(id@),
        r matches Err(e) ==> (e matches NoteError::InvalidId(s) && s@ == id@),
{
    let n = id.unicode_len();
    if n == 0 || n > 64 {
        return Err(NoteError::InvalidId(str_to_string(id)));
    }
    let mut i: usize = 0;
    while i < n
        invariant
            n == id@.len(),
            i <= n,
            forall|j: int| 0 <= j < i ==> #[trigger] is_id_char(id@[j]),
        decreases n - i,
    {
        let c = id.get_char(i);
        if !id_char(c) {
            assert(!is_id_char(id@[i as int]));
            return Err(NoteError::InvalidId(str_to_string(id)));
        }
        i += 1;
    }
    Ok(())
}

// ---------------------------------------------------------------------------
// Decimal numbers
// ---------------------------------------------------------------------------

pub open spec fn digit_char(d: int) -> char {
    (d + 48) as char
}

pub open spec fn digit_value(c: char) -> int {
    (c as int) - 48
}

/// The decimal writing of `n`, without sign or leading zeros.
pub open spec fn decimal(n: nat) -> Seq<char>
    decreases n,
{
    if n < 10 {
        seq![digit_char(n as int)]
    } else {
        decimal(n / 10).push(digit_char((n % 10) as int))
    }
}

pub open spec fn all_digits(s: Seq<char>) -> bool {
    forall|i: int| 0 <= i < s.len() ==> #[trigger] is_digit_char(s[i])
}

/// The number that a string of decimal digits writes.
pub open spec fn digits_value(s: Seq<char>) -> nat
    decreases s.len(),
{
    if s.len() == 0 {
        0
    } else {
        digits_value(s.drop_last()) * 10 + digit_value(s.last()) as nat
    }
}

/// What `str::parse::<u128>` gives: an optional `+`, then at least one ASCII
/// digit, and a value that fits.
pub open spec fn parse_u128(s: Seq<char>) -> Option<u128> {
    let d = if s.len() > 0 && s[0] == '+' {
        s.drop_first()
    } else {
        s
    };
    if d.len() > 0 && all_digits(d) && digits_value(d) <= u128::MAX {
        Some(digits_value(d) as u128)
    } else {
        None
    }
}

proof fn lemma_digit_roundtrip(d: int)
    requires
        0 <= d < 10,
    ensures
        is_digit_char(digit_char(d)),
        digit_value(digit_char(d)) == d,
        is_id_char(digit_char(d)),
{
}

/// A decimal writing is made of digits, is not empty, and reads back as the
/// number it writes.
pub proof fn lemma_decimal(n: nat)
    ensures
        decimal(n).len() >= 1,
        all_digits(decimal(n)),
        digits_value(decimal(n)) == n,
    decreases n,
{
    if n < 10 {
        lemma_digit_roundtrip(n as int);
        let s = decimal(n);
        assert(s.drop_last() =~= Seq::<char>::empty());
        assert(digits_value(s.drop_last()) == 0);
        assert(s.last() == digit_char(n as int));
        assert(digits_value(s) == digits_value(s.drop_last()) * 10 + digit_value(s.last()) as nat);
    } else {
        lemma_decimal(n / 10);
        lemma_digit_roundtrip((n % 10) as int);
        assert((n / 10) * 10 + n % 10 == n) by (nonlinear_arith);
        let s = decimal(n);
        assert(s.drop_last() =~= decimal(n / 10));
        assert(s.last() == digit_char((n % 10) as int));
        assert(digits_value(s) == digits_value(s.drop_last()) * 10 + digit_value(s.last()) as nat);
        assert forall|i: int| 0 <= i < s.len() implies #[trigger] is_digit_char(s[i]) by {
            if i < s.len() - 1 {
                assert(s[i] == decimal(n / 10)[i]);
            }
        }
    }
}

pub open spec fn pow10(k: nat) -> nat
    decreases k,
{
    if k == 0 {
        1
    } else {
        10 * pow10((k - 1) as nat)
    }
}

/// A number below `10^k` (with `k >= 1`) is written with at most `k` digits.
pub proof fn lemma_decimal_len(n: nat, k: nat)
    requires
        k >= 1,
        n < pow10(k),
    ensures
        decimal(n).len() <= k,
    decreases n,
{
    if n >= 10 {
        assert(k >= 2) by {
            if k == 1 {
                assert(pow10(1) == 10) by {
                    reveal_with_fuel(pow10, 2);
                }
            }
        }
        assert(n / 10 < pow10((k - 1) as nat)) by {
            assert(pow10(k) == 10 * pow10((k - 1) as nat));
        }
        lemma_decimal_len(n / 10, (k - 1) as nat);
    }
}

pub proof fn lemma_u128_decimal_len(n: u128)
    ensures
        decimal(n as nat).len() <= 39,
{
    assert(u128::MAX < pow10(39)) by {
        reveal_with_fuel(pow10, 40);
    }
    lemma_decimal_len(n as nat, 39);
}

pub proof fn lemma_usize_decimal_len(n: usize)
    ensures
        decimal(n as nat).len() <= 20,
{
    assert(u64::MAX < pow10(20)) by {
        reveal_with_fuel(pow10, 21);
    }
    assert(usize::MAX <= u64::MAX);
    lemma_decimal_len(n as nat, 20);
}

/// Writes `n` in decimal at the end of `out`.
pub(crate) fn write_decimal(n: u128, out: &mut String)
    ensures
        final(out)@ == old(out)@ + decimal(n as nat),
    decreases n,
{
    if n >= 10 {
        write_decimal(n / 10, out);
    }
    let d = (n % 10) as u8;
    let c = (d + 48) as char;
    push_char(out, c);
    proof {
        if n >= 10 {
            assert(decimal(n as nat) == decimal((n / 10) as nat).push(digit_char((n % 10) as int)));
        }
    }
}

/// Parses the text of a stamp the way `str::parse::<u128>` does.
pub fn parse_u128_text(s: &str) -> (r: Option<u128>)
    ensures
        r == parse_u128(s@),
{
    let n = s.unicode_len();
    let start: usize = if n > 0 && s.get_char(0) == '+' {
        1
    } else {
        0
    };
    let ghost d = if s@.len() > 0 && s@[0] == '+' {
        s@.drop_first()
    } else {
        s@
    };
    assert(d =~= s@.subrange(start as int, n as int));
    if start == n {
        return None;
    }
    let mut acc: u128 = 0;
    let mut i = start;
    while i < n
        invariant
            n == s@.len(),
            start <= i <= n,
            d =~= s@.subrange(start as int, n as int),
            d == (if s@.len() > 0 && s@[0] == '+' {
                s@.drop_first()
            } else {
                s@
            }),
            all_digits(d.take(i - start)),
            acc as nat == digits_value(d.take(i - start)),
        decreases n - i,
    {
        let c = s.get_char(i);
        let ghost k = (i - start) as int;
        assert(d[k] == c);
        if !(c >= '0' && c <= '9') {
            assert(!is_digit_char(d[k]));
            assert(!all_digits(d));
            return None;
        }
        assert(d.take(k + 1).drop_last() =~= d.take(k));
        let dv = (c as u32 - 48) as u128;
        let next = match acc.checked_mul(10) {
            Some(m) => m.checked_add(dv),
            None => None,
        };
        match next {
            Some(v) => {
                acc = v;
            },
            None => {
                proof {
                    lemma_digits_value_prefix(d, k + 1);
                    assert(d.take(d.len() as int) =~= d);
                }
                return None;
            },
        }
        i += 1;
    }
    assert(d.take(n - start) =~= d);
    Some(acc)
}

/// The value of a digit string grows as it gets longer.
proof fn lemma_digits_value_prefix(d: Seq<char>, k: int)
    requires
        0 <= k <= d.len(),
    ensures
        digits_value(d.take(k)) <= digits_value(d),
    decreases d.len() - k,
{
    if k < d.len() {
        lemma_digits_value_prefix(d, k + 1);
        assert(d.take(k + 1).drop_last() =~= d.take(k));
    } else {
        assert(d.take(k) =~= d);
    }
}

/// A stamp written in decimal is read back by `parse_u128`.
pub proof fn lemma_parse_decimal(n: u128)
    ensures
        parse_u128(decimal(n as nat)) == Some(n),
{
    lemma_decimal(n as nat);
    let s = decimal(n as nat);
    assert(is_digit_char(s[0]));
}


// ---------------------------------------------------------------------------
// File names
// ---------------------------------------------------------------------------

pub open spec fn md_suffix() -> Seq<char> {
    seq!['.', 'm', 'd']
}

pub open spec fn double_underscore() -> Seq<char> {
    seq!['_', '_']
}

/// A note lives in `{id}.md`.
pub open spec fn note_name(id: Seq<char>) -> Seq<char> {
    id + md_suffix()
}

/// In the trash a note is kept as `{deleted_at}__{id}.md`: the deletion time
/// travels in the name, since a rename keeps the note's own modification time.
pub open spec fn trash_name(id: Seq<char>, deleted_at: u128) -> Seq<char> {
    decimal(deleted_at as nat) + double_underscore() + id + md_suffix()
}

/// The name has the extension `md`: a `.md` ending with at least one
/// character before it (`.md` alone is a hidden file with no extension).
pub open spec fn is_md_name(name: Seq<char>) -> bool {
    name.len() >= 4 && name.subrange(name.len() - 3, name.len() as int) == md_suffix()
}

/// The name without its `.md` extension.
pub open spec fn md_stem(name: Seq<char>) -> Seq<char> {
    name.take(name.len() - 3)
}

/// Position of the first `__` at or after `i`.
pub open spec fn dunder_from(s: Seq<char>, i: nat) -> Option<int>
    decreases s.len() - i,
{
    if i + 1 >= s.len() {
        None
    } else if s[i as int] == '_' && s[i + 1int] == '_' {
        Some(i as int)
    } else {
        dunder_from(s, i + 1)
    }
}

/// The deletion stamp a trash name carries: the text before its first `__`,
/// read as a number.
pub open spec fn stamp_of(name: Seq<char>) -> Option<u128> {
    match dunder_from(name, 0) {
        Some(k) => parse_u128(name.take(k)),
        None => None,
    }
}

/// A trash entry holds the note `id`, in the current or in the older
/// unstamped format.
pub open spec fn is_trash_name_of(name: Seq<char>, id: Seq<char>) -> bool {
    ||| name == note_name(id)
    ||| (name.len() >= id.len() + 5 && name.subrange(
        name.len() - (id.len() + 5),
        name.len() as int,
    ) == double_underscore() + id + md_suffix())
}

fn push_md(out: &mut String)
    ensures
        final(out)@ == old(out)@ + md_suffix(),
{
    push_char(out, '.');
    push_char(out, 'm');
    push_char(out, 'd');
    assert(final(out)@ =~= old(out)@ + md_suffix());
}

fn push_str(out: &mut String, s: &str)
    ensures
        final(out)@ == old(out)@ + s@,
{
    out.append(s);
}

/// The file name of the note `id`, once `id` is known to be acceptable.
pub fn note_file_name(id: &str) -> (r: Result<String, NoteError>)
    ensures
        r is Ok <==> is_valid_id(id@),
        r matches Ok(name) ==> name@ == note_name(id@),
        r matches Err(e) ==> (e matches NoteError::InvalidId(s) && s@ == id@),
{
    validate_id(id)?;
    let mut name = String::new();
    push_str(&mut name, id);
    push_md(&mut name);
    Ok(name)
}

/// The file name that the note `id`, deleted at `deleted_at`, takes in the
/// trash.
pub fn trash_file_name(id: &str, deleted_at: u128) -> (r: Result<String, NoteError>)
    ensures
        r is Ok <==> is_valid_id(id@),
        r matches Ok(name) ==> name@ == trash_name(id@, deleted_at),
        r matches Err(e) ==> (e matches NoteError::InvalidId(s) && s@ == id@),
{
    validate_id(id)?;
    let mut name = String::new();
    write_decimal(deleted_at, &mut name);
    push_char(&mut name, '_');
    push_char(&mut name, '_');
    push_str(&mut name, id);
    push_md(&mut name);
    assert(name@ =~= trash_name(id@, deleted_at));
    Ok(name)
}

pub fn is_md_file_name(name: &str) -> (b: bool)
    ensures
        b == is_md_name(name@),
{
    let n = name.unicode_len();
    if n < 4 {
        return false;
    }
    let r = name.get_char(n - 3) == '.' && name.get_char(n - 2) == 'm' && name.get_char(n - 1)
        == 'd';
    assert(r ==> name@.subrange(n - 3, n as int) =~= md_suffix());
    assert(name@.subrange(n - 3, n as int) == md_suffix() ==> name@.subrange(n - 3, n as int)[0]
        == '.');
    r
}

/// Reads the deletion stamp off a trash file name.
pub fn stamp_of_name(name: &str) -> (r: Option<u128>)
    ensures
        r == stamp_of(name@),
{
    let n = name.unicode_len();
    let mut i: usize = 0;
    while n > 0 && i < n - 1
        invariant
            n == name@.len(),
            i <= n,
            dunder_from(name@, 0) == dunder_from(name@, i as nat),
        decreases n - i,
    {
        if name.get_char(i) == '_' && name.get_char(i + 1) == '_' {
            let prefix = name.substring_char(0, i);
            return parse_u128_text(prefix);
        }
        i += 1;
    }
    None
}

proof fn lemma_dunder_skip(s: Seq<char>, i: nat, k: nat)
    requires
        i <= k,
        k + 1 < s.len(),
        s[k as int] == '_',
        s[k + 1int] == '_',
        forall|j: int| i <= j < k ==> s[j] != '_',
    ensures
        dunder_from(s, i) == Some(k as int),
    decreases k - i,
{
    if i < k {
        lemma_dunder_skip(s, i + 1, k);
    }
}

/// What a delete writes into the trash, a purge reads back: the stamp in a
/// trash name is the deletion time it was made with.
pub proof fn lemma_trash_name_stamp(id: Seq<char>, deleted_at: u128)
    ensures
        stamp_of(trash_name(id, deleted_at)) == Some(deleted_at),
{
    let d = decimal(deleted_at as nat);
    let s = trash_name(id, deleted_at);
    lemma_decimal(deleted_at as nat);
    assert forall|j: int| 0 <= j < d.len() implies s[j] != '_' by {
        assert(s[j] == d[j]);
        assert(is_digit_char(d[j]));
    }
    assert(s[d.len() as int] == '_');
    assert(s[d.len() + 1int] == '_');
    lemma_dunder_skip(s, 0, d.len());
    assert(s.take(d.len() as int) =~= d);
    lemma_parse_decimal(deleted_at);
}

/// A note's file name is an `.md` name whose stem is the id.
pub proof fn lemma_note_name(id: Seq<char>)
    requires
        is_valid_id(id),
    ensures
        is_md_name(note_name(id)),
        md_stem(note_name(id)) == id,
{
    let n = note_name(id);
    assert(n.subrange(n.len() - 3, n.len() as int) =~= md_suffix());
    assert(md_stem(n) =~= id);
}

/// A trash name is an `.md` name, and restoring the note `id` finds it.
pub proof fn lemma_trash_name(id: Seq<char>, deleted_at: u128)
    ensures
        is_md_name(trash_name(id, deleted_at)),
        is_trash_name_of(trash_name(id, deleted_at), id),
{
    let d = decimal(deleted_at as nat);
    lemma_decimal(deleted_at as nat);
    let n = trash_name(id, deleted_at);
    let tail = double_underscore() + id + md_suffix();
    assert(n =~= d + tail);
    assert(n.subrange(n.len() - (id.len() + 5), n.len() as int) =~= tail);
    assert(n.subrange(n.len() - 3, n.len() as int) =~= md_suffix());
}

} // verus!
