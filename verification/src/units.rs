//! The size and speed fields that a user types: which part is the number
//! and what unit it is in. Reading the number itself is left to the caller.
use vstd::prelude::*;
use crate::text::{chars_of, string_from_chars};

verus! {

// ------------------------------------------------------------------
// Trimming and lowercasing
// ------------------------------------------------------------------

/// Unicode White_Space, the characters that `str::trim` removes.
pub open spec fn is_white_space(c: char) -> bool {
    let u = c as u32;
    (9 <= u <= 13) || u == 32 || u == 0x85 || u == 0xa0 || u == 0x1680 || (0x2000 <= u <= 0x200a)
        || u == 0x2028 || u == 0x2029 || u == 0x202f || u == 0x205f || u == 0x3000
}

/// `s` without its leading white space.
pub open spec fn trim_start(s: Seq<char>) -> Seq<char>
    decreases s.len(),
{
    if s.len() > 0 && is_white_space(s[0]) {
        trim_start(s.drop_first())
    } else {
        s
    }
}

/// `s` without its trailing white space.
pub open spec fn trim_end(s: Seq<char>) -> Seq<char>
    decreases s.len(),
{
    if s.len() > 0 && is_white_space(s.last()) {
        trim_end(s.drop_last())
    } else {
        s
    }
}

/// `s` without white space at either end, as `str::trim` gives it.
pub open spec fn trimmed(s: Seq<char>) -> Seq<char> {
    trim_end(trim_start(s))
}

fn white_space(c: char) -> (r: bool)
    ensures
        r == is_white_space(c),
{
    let u = c as u32;
    (9 <= u && u <= 13) || u == 32 || u == 0x85 || u == 0xa0 || u == 0x1680 || (0x2000 <= u && u <= 0x200a)
        || u == 0x2028 || u == 0x2029 || u == 0x202f || u == 0x205f || u == 0x3000
}

/// The characters `s[from..to]`.
fn copy_chars(s: &Vec<char>, from: usize, to: usize) -> (r: Vec<char>)
    requires
        from <= to <= s@.len(),
    ensures
        r@ == s@.subrange(from as int, to as int),
{
    let mut r: Vec<char> = Vec::new();
    let mut i = from;
    while i < to
        invariant
            from <= i <= to <= s@.len(),
            r@ == s@.subrange(from as int, i as int),
        decreases to - i,
    {
        r.push(s[i]);
        assert(s@.subrange(from as int, i + 1) =~= s@.subrange(from as int, i as int).push(s@[i as int]));
        i = i + 1;
    }
    r
}

/// `s` without white space at either end.
pub fn trim_chars(s: &Vec<char>) -> (r: Vec<char>)
    ensures
        r@ == trimmed(s@),
{
    let n = s.len();
    let mut i: usize = 0;
    assert(s@.skip(0) =~= s@);
    while i < n && white_space(s[i])
        invariant
            n == s@.len(),
            i <= n,
            trim_start(s@) == trim_start(s@.skip(i as int)),
        decreases n - i,
    {
        assert(s@.skip(i as int).drop_first() =~= s@.skip(i + 1));
        i = i + 1;
    }
    assert(trim_start(s@) == s@.subrange(i as int, n as int)) by {
        assert(s@.skip(i as int) =~= s@.subrange(i as int, n as int));
    }
    let mut j: usize = n;
    while j > i && white_space(s[j - 1])
        invariant
            n == s@.len(),
            i <= j <= n,
            trimmed(s@) == trim_end(s@.subrange(i as int, j as int)),
        decreases j - i,
    {
        assert(s@.subrange(i as int, j as int).drop_last() =~= s@.subrange(i as int, j - 1));
        j = j - 1;
    }
    copy_chars(s, i, j)
}

/// What `str::to_lowercase` makes of `s`.
pub uninterp spec fn lowercase(s: Seq<char>) -> Seq<char>;

/// Calls `str::to_lowercase`. Claimed: the result is its lowercase text for
/// `s` (Unicode's lowercase mapping, left unsaid here).
#[verifier::external_body]
fn to_lowercase_text(s: &str) -> (res: String)
    ensures
        res@ == lowercase(s@),
{
    s.to_lowercase()
}

// ------------------------------------------------------------------
// Suffixes
// ------------------------------------------------------------------

/// Whether `s` ends with `suffix`.
pub open spec fn ends_with(s: Seq<char>, suffix: Seq<char>) -> bool {
    s.len() >= suffix.len() && s.subrange(s.len() - suffix.len(), s.len() as int) == suffix
}

/// `s` without its last `n` characters.
pub open spec fn without_last(s: Seq<char>, n: int) -> Seq<char> {
    s.subrange(0, s.len() - n)
}

fn ends_with_chars(s: &Vec<char>, suffix: &Vec<char>) -> (r: bool)
    ensures
        r == ends_with(s@, suffix@),
{
    if s.len() < suffix.len() {
        return false;
    }
    let start = s.len() - suffix.len();
    let mut k: usize = 0;
    while k < suffix.len()
        invariant
            start + suffix@.len() == s@.len(),
            s@.len() == s.len(),
            k <= suffix@.len(),
            forall|m: int| 0 <= m < k ==> s@[start + m] == suffix@[m],
        decreases suffix@.len() - k,
    {
        if s[start + k] != suffix[k] {
            assert(s@.subrange(start as int, s@.len() as int)[k as int] != suffix@[k as int]);
            return false;
        }
        k = k + 1;
    }
    assert(s@.subrange(start as int, s@.len() as int) =~= suffix@);
    true
}

/// The text of `s` without its last `n` characters.
fn text_without_last(s: &Vec<char>, n: usize) -> (r: String)
    requires
        n <= s@.len(),
    ensures
        r@ == without_last(s@, n as int),
{
    string_from_chars(&copy_chars(s, 0, s.len() - n))
}

// ------------------------------------------------------------------
// Sizes
// ------------------------------------------------------------------

/// A size as typed.
#[derive(Debug, Clone, PartialEq)]
pub enum SizeInput {
    /// A percentage of the torrent's size: the number before `%`.
    Percent(String),
    /// A number of units: the number before the unit, and the unit in bytes.
    Scaled(String, u64),
}

/// The number and the unit of a size that is not a percentage: `tb`, `gb`,
/// `mb`, `kb` (powers of 1024) or `b`; bytes when no unit is written.
pub open spec fn size_units(t: Seq<char>) -> (Seq<char>, u64) {
    if ends_with(t, seq!['t', 'b']) {
        (without_last(t, 2), 0x100_0000_0000)
    } else if ends_with(t, seq!['g', 'b']) {
        (without_last(t, 2), 0x4000_0000)
    } else if ends_with(t, seq!['m', 'b']) {
        (without_last(t, 2), 0x10_0000)
    } else if ends_with(t, seq!['k', 'b']) {
        (without_last(t, 2), 0x400)
    } else if ends_with(t, seq!['b']) {
        (without_last(t, 1), 1)
    } else {
        (t, 1)
    }
}

/// How the size text `t` (trimmed and lowercased) reads.
pub open spec fn size_reading(t: Seq<char>, r: SizeInput) -> bool {
    if ends_with(t, seq!['%']) {
        r matches SizeInput::Percent(v) && v@ == without_last(t, 1)
    } else {
        r matches SizeInput::Scaled(v, m) && (v@, m) == size_units(t)
    }
}

/// Splits a trimmed, lowercased size into its number and unit.
pub fn size_parts(text: &str) -> (r: SizeInput)
    ensures
        size_reading(text@, r),
{
    let t = chars_of(text);
    let percent = vec!['%'];
    let tb = vec!['t', 'b'];
    let gb = vec!['g', 'b'];
    let mb = vec!['m', 'b'];
    let kb = vec!['k', 'b'];
    let b = vec!['b'];
    assert(percent@ =~= seq!['%']);
    assert(tb@ =~= seq!['t', 'b']);
    assert(gb@ =~= seq!['g', 'b']);
    assert(mb@ =~= seq!['m', 'b']);
    assert(kb@ =~= seq!['k', 'b']);
    assert(b@ =~= seq!['b']);
    if ends_with_chars(&t, &percent) {
        return SizeInput::Percent(text_without_last(&t, 1));
    }
    if ends_with_chars(&t, &tb) {
        SizeInput::Scaled(text_without_last(&t, 2), 0x100_0000_0000)
    } else if ends_with_chars(&t, &gb) {
        SizeInput::Scaled(text_without_last(&t, 2), 0x4000_0000)
    } else if ends_with_chars(&t, &mb) {
        SizeInput::Scaled(text_without_last(&t, 2), 0x10_0000)
    } else if ends_with_chars(&t, &kb) {
        SizeInput::Scaled(text_without_last(&t, 2), 0x400)
    } else if ends_with_chars(&t, &b) {
        SizeInput::Scaled(text_without_last(&t, 1), 1)
    } else {
        SizeInput::Scaled(string_from_chars(&t), 1)
    }
}

/// Reads a size field: trimmed, lowercased, then split into its number and
/// unit.
pub fn split_size_input(input: &str) -> (r: SizeInput)
    ensures
        size_reading(lowercase(trimmed(input@)), r),
{
    let t = trim_chars(&chars_of(input));
    let lower = to_lowercase_text(string_from_chars(&t).as_str());
    size_parts(lower.as_str())
}

// ------------------------------------------------------------------
// Speeds
// ------------------------------------------------------------------

/// The number and the unit of a speed, in bytes per second: `mbps` and
/// `kbps` are bits per second, `mb/s` and `kb/s` bytes per second, and a
/// number without a unit is in KB/s.
pub open spec fn speed_units(t: Seq<char>) -> (Seq<char>, u64) {
    if ends_with(t, seq!['m', 'b', 'p', 's']) {
        (without_last(t, 4), 0x2_0000)
    } else if ends_with(t, seq!['k', 'b', 'p', 's']) {
        (without_last(t, 4), 0x80)
    } else if ends_with(t, seq!['m', 'b', '/', 's']) {
        (without_last(t, 4), 0x10_0000)
    } else if ends_with(t, seq!['k', 'b', '/', 's']) {
        (without_last(t, 4), 0x400)
    } else {
        (t, 0x400)
    }
}

/// Splits a trimmed, lowercased speed into its number and its unit in bytes
/// per second.
pub fn speed_parts(text: &str) -> (r: (String, u64))
    ensures
        (r.0@, r.1) == speed_units(text@),
{
    let t = chars_of(text);
    let mbps = vec!['m', 'b', 'p', 's'];
    let kbps = vec!['k', 'b', 'p', 's'];
    let mbs = vec!['m', 'b', '/', 's'];
    let kbs = vec!['k', 'b', '/', 's'];
    assert(mbps@ =~= seq!['m', 'b', 'p', 's']);
    assert(kbps@ =~= seq!['k', 'b', 'p', 's']);
    assert(mbs@ =~= seq!['m', 'b', '/', 's']);
    assert(kbs@ =~= seq!['k', 'b', '/', 's']);
    if ends_with_chars(&t, &mbps) {
        (text_without_last(&t, 4), 0x2_0000)
    } else if ends_with_chars(&t, &kbps) {
        (text_without_last(&t, 4), 0x80)
    } else if ends_with_chars(&t, &mbs) {
        (text_without_last(&t, 4), 0x10_0000)
    } else if ends_with_chars(&t, &kbs) {
        (text_without_last(&t, 4), 0x400)
    } else {
        (string_from_chars(&t), 0x400)
    }
}

/// Reads a speed field: trimmed, lowercased, then split into its number and
/// its unit in bytes per second.
pub fn split_speed_input(input: &str) -> (r: (String, u64))
    ensures
        (r.0@, r.1) == speed_units(lowercase(trimmed(input@))),
{
    let t = trim_chars(&chars_of(input));
    let lower = to_lowercase_text(string_from_chars(&t).as_str());
    speed_parts(lower.as_str())
}

} // verus!
