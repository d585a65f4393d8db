//! Tracker announces: the request URL, the tracker's bencoded reply, the
//! order in which trackers are tried and the delay between retries.
use vstd::prelude::*;
use vstd::utf8::{valid_utf8, decode_utf8};
use crate::text::{
    is_digit, parse_unsigned_text, parse_i64_text, parse_usize_bytes, parse_i64_bytes,
    decimal_chars, u64_decimal, chars_of, string_from_chars, extend_chars, hex_lower, hex_lower_char,
};
use crate::bencode::{Step, Halt, find_byte, lemma_find_byte, find_byte_exec, copy_range, remaining};
use crate::torrent::{strings_view, bytes_eq};

verus! {

// ------------------------------------------------------------------
// Reading the reply
// ------------------------------------------------------------------

/// Why a tracker's reply cannot be read.
#[derive(Debug, Clone, Copy, PartialEq, Eq, Structural)]
pub enum ReplyError {
    /// The reply does not start with `d`.
    NotADictionary,
    /// A string length holds a byte that is not a digit, at this position.
    InvalidLength(usize),
    /// The data ends inside a string length.
    LengthPastEnd,
    /// A string length is empty or is not a `usize`.
    UnparsableLength,
    /// The data ends where a value is expected.
    UnexpectedEnd,
    /// A string runs past the end of the data.
    StringPastEnd,
    /// An integer was expected at this position.
    ExpectedInteger(usize),
    /// The data ends inside an integer.
    IntegerPastEnd,
    /// The text of an integer is not an `i64`.
    InvalidInteger,
    /// A value starts, at this position, with a byte that starts no bencode
    /// value.
    UnknownType(usize, u8),
}

/// The first index at or after `from` that holds a `:` or a byte that is
/// not a digit, or the length of `data`.
pub open spec fn length_end(data: Seq<u8>, from: int) -> int
    decreases data.len() - from,
{
    if from >= data.len() {
        data.len() as int
    } else if data[from] == 58 || !is_digit(data[from]) {
        from
    } else {
        length_end(data, from + 1)
    }
}

proof fn lemma_length_end(data: Seq<u8>, from: int)
    requires
        0 <= from <= data.len(),
    ensures
        from <= length_end(data, from) <= data.len(),
        forall|j: int| from <= j < length_end(data, from) ==> is_digit(#[trigger] data[j]),
    decreases data.len() - from,
{
    if from < data.len() && !(data[from] == 58 || !is_digit(data[from])) {
        lemma_length_end(data, from + 1);
    }
}

/// A string `<digits>:<bytes>` at `start`.
pub open spec fn spec_read_string(data: Seq<u8>, start: int) -> Step<(Seq<u8>, int), ReplyError> {
    let p = length_end(data, start);
    if p < data.len() && data[p] != 58 {
        Step::Fails(ReplyError::InvalidLength(p as usize))
    } else if p >= data.len() {
        Step::Fails(ReplyError::LengthPastEnd)
    } else {
        match parse_unsigned_text(data.subrange(start, p), usize::MAX as int) {
            None => Step::Fails(ReplyError::UnparsableLength),
            Some(n) => if p + 1 + n > usize::MAX {
                Step::Panics
            } else if p + 1 + n > data.len() {
                Step::Fails(ReplyError::StringPastEnd)
            } else {
                Step::Done((data.subrange(p + 1, p + 1 + n), p + 1 + n))
            },
        }
    }
}

/// An integer `i<digits>e` at `start`.
pub open spec fn spec_read_integer(data: Seq<u8>, start: int) -> Step<(int, int), ReplyError> {
    if start >= data.len() || data[start] != 105 {
        Step::Fails(ReplyError::ExpectedInteger(start as usize))
    } else {
        let e = find_byte(data, start + 1, 101);
        if e >= data.len() {
            Step::Fails(ReplyError::IntegerPastEnd)
        } else {
            match parse_i64_text(data.subrange(start + 1, e)) {
                None => Step::Fails(ReplyError::InvalidInteger),
                Some(v) => Step::Done((v, e + 1)),
            }
        }
    }
}

/// Skips the value at `start`: the position after it.
pub open spec fn spec_skip(data: Seq<u8>, start: int) -> Step<int, ReplyError>
    decreases remaining(data, start), 1int,
{
    if start >= data.len() {
        Step::Fails(ReplyError::UnexpectedEnd)
    } else {
        let c = data[start];
        if c == 105 {
            Step::Done(find_byte(data, start + 1, 101) + 1)
        } else if c == 108 {
            spec_skip_list(data, start + 1)
        } else if c == 100 {
            spec_skip_dict(data, start + 1)
        } else if is_digit(c) {
            match spec_read_string(data, start) {
                Step::Done((_, n)) => Step::Done(n),
                Step::Fails(e) => Step::Fails(e),
                Step::Panics => Step::Panics,
            }
        } else {
            Step::Fails(ReplyError::UnknownType(start as usize, c))
        }
    }
}

pub open spec fn spec_skip_list(data: Seq<u8>, pos: int) -> Step<int, ReplyError>
    decreases remaining(data, pos), 2int,
{
    if pos < data.len() && data[pos] != 101 {
        match spec_skip(data, pos) {
            Step::Done(n) => if n <= pos {
                Step::Fails(ReplyError::UnexpectedEnd)
            } else {
                spec_skip_list(data, n)
            },
            Step::Fails(e) => Step::Fails(e),
            Step::Panics => Step::Panics,
        }
    } else {
        Step::Done(pos + 1)
    }
}

pub open spec fn spec_skip_dict(data: Seq<u8>, pos: int) -> Step<int, ReplyError>
    decreases remaining(data, pos), 2int,
{
    if pos < data.len() && data[pos] != 101 {
        match spec_read_string(data, pos) {
            Step::Done((_, k)) => if k <= pos {
                Step::Fails(ReplyError::UnexpectedEnd)
            } else {
                match spec_skip(data, k) {
                    Step::Done(n) => if n <= k {
                        Step::Fails(ReplyError::UnexpectedEnd)
                    } else {
                        spec_skip_dict(data, n)
                    },
                    Step::Fails(e) => Step::Fails(e),
                    Step::Panics => Step::Panics,
                }
            },
            Step::Fails(e) => Step::Fails(e),
            Step::Panics => Step::Panics,
        }
    } else {
        Step::Done(pos + 1)
    }
}

proof fn lemma_read_string_bounds(data: Seq<u8>, start: int)
    requires
        0 <= start <= data.len(),
    ensures
        spec_read_string(data, start) matches Step::Done((b, end)) ==> start < end <= data.len(),
{
    lemma_length_end(data, start);
}

proof fn lemma_read_integer_bounds(data: Seq<u8>, start: int)
    requires
        0 <= start,
    ensures
        spec_read_integer(data, start) matches Step::Done((v, end)) ==> start < end <= data.len(),
{
    if start < data.len() {
        lemma_find_byte(data, start + 1, 101);
    }
}

proof fn lemma_skip_bounds(data: Seq<u8>, start: int)
    requires
        0 <= start,
    ensures
        spec_skip(data, start) matches Step::Done(end) ==> start < end <= 2 * data.len() - start,
    decreases remaining(data, start), 1int,
{
    if start < data.len() {
        let c = data[start];
        if c == 105 {
            lemma_find_byte(data, start + 1, 101);
        } else if c == 108 {
            lemma_skip_list_bounds(data, start + 1);
        } else if c == 100 {
            lemma_skip_dict_bounds(data, start + 1);
        } else if is_digit(c) {
            lemma_read_string_bounds(data, start);
        }
    }
}

proof fn lemma_skip_list_bounds(data: Seq<u8>, pos: int)
    requires
        0 <= pos,
    ensures
        spec_skip_list(data, pos) matches Step::Done(end) ==> pos < end && (pos <= data.len() ==> end
            <= 2 * data.len() - pos + 1),
    decreases remaining(data, pos), 2int,
{
    if pos < data.len() && data[pos] != 101 {
        lemma_skip_bounds(data, pos);
        if let Step::Done(n) = spec_skip(data, pos) {
            if n > pos {
                lemma_skip_list_bounds(data, n);
            }
        }
    }
}

proof fn lemma_skip_dict_bounds(data: Seq<u8>, pos: int)
    requires
        0 <= pos,
    ensures
        spec_skip_dict(data, pos) matches Step::Done(end) ==> pos < end && (pos <= data.len() ==> end
            <= 2 * data.len() - pos + 1),
    decreases remaining(data, pos), 2int,
{
    if pos < data.len() && data[pos] != 101 {
        lemma_read_string_bounds(data, pos);
        if let Step::Done((_, k)) = spec_read_string(data, pos) {
            if k > pos {
                lemma_skip_bounds(data, k);
                if let Step::Done(n) = spec_skip(data, k) {
                    if n > k {
                        lemma_skip_dict_bounds(data, n);
                    }
                }
            }
        }
    }
}

/// Reads a string `<digits>:<bytes>` at `start`.
fn read_bencode_string(data: &[u8], start: usize) -> (res: Result<(Vec<u8>, usize), Halt<ReplyError>>)
    requires
        start <= data@.len(),
        data@.len() <= usize::MAX / 2,
    ensures
        match spec_read_string(data@, start as int) {
            Step::Done((b, end)) => res matches Ok((x, e)) && x@ == b && e == end,
            Step::Fails(err) => res == Err::<(Vec<u8>, usize), Halt<ReplyError>>(Halt::Fails(err)),
            Step::Panics => res == Err::<(Vec<u8>, usize), Halt<ReplyError>>(Halt::Panics),
        },
{
    let mut pos = start;
    while pos < data.len() && data[pos] != 58
        invariant
            start <= pos <= data@.len(),
            length_end(data@, start as int) == length_end(data@, pos as int),
        decreases data@.len() - pos,
    {
        if !(48 <= data[pos] && data[pos] <= 57) {
            return Err(Halt::Fails(ReplyError::InvalidLength(pos)));
        }
        pos = pos + 1;
    }
    if pos >= data.len() {
        return Err(Halt::Fails(ReplyError::LengthPastEnd));
    }
    let n = match parse_usize_bytes(data, start, pos) {
        Some(n) => n,
        None => {
            return Err(Halt::Fails(ReplyError::UnparsableLength));
        },
    };
    let p = pos + 1;
    if n > usize::MAX - p {
        return Err(Halt::Panics);
    }
    if p + n > data.len() {
        return Err(Halt::Fails(ReplyError::StringPastEnd));
    }
    let value = copy_range(data, p, p + n);
    Ok((value, p + n))
}

/// Reads an integer `i<digits>e` at `start`.
fn read_bencode_int(data: &[u8], start: usize) -> (res: Result<(i64, usize), ReplyError>)
    requires
        data@.len() <= usize::MAX / 2,
    ensures
        match spec_read_integer(data@, start as int) {
            Step::Done((v, end)) => res matches Ok((x, e)) && x == v && e == end,
            Step::Fails(err) => res == Err::<(i64, usize), ReplyError>(err),
            Step::Panics => false,
        },
{
    if start >= data.len() || data[start] != 105 {
        return Err(ReplyError::ExpectedInteger(start));
    }
    let e = find_byte_exec(data, start + 1, 101);
    if e >= data.len() {
        return Err(ReplyError::IntegerPastEnd);
    }
    proof {
        lemma_find_byte(data@, start + 1, 101);
    }
    match parse_i64_bytes(data, start + 1, e) {
        None => Err(ReplyError::InvalidInteger),
        Some(v) => Ok((v, e + 1)),
    }
}

/// Skips the value at `start`; returns the position after it.
fn skip_bencode_value(data: &[u8], start: usize) -> (res: Result<usize, Halt<ReplyError>>)
    requires
        start <= data@.len(),
        data@.len() <= usize::MAX / 2,
    ensures
        match spec_skip(data@, start as int) {
            Step::Done(end) => res == Ok::<usize, Halt<ReplyError>>(end as usize) && end <= usize::MAX,
            Step::Fails(err) => res == Err::<usize, Halt<ReplyError>>(Halt::Fails(err)),
            Step::Panics => res == Err::<usize, Halt<ReplyError>>(Halt::Panics),
        },
    decreases data@.len() - start, 2int,
{
    proof {
        lemma_skip_bounds(data@, start as int);
    }
    if start >= data.len() {
        return Err(Halt::Fails(ReplyError::UnexpectedEnd));
    }
    let c = data[start];
    if c == 105 {
        let e = find_byte_exec(data, start + 1, 101);
        proof {
            lemma_find_byte(data@, start + 1, 101);
        }
        Ok(e + 1)
    } else if c == 108 {
        let mut pos = start + 1;
        while pos < data.len() && data[pos] != 101
            invariant
                start < data@.len(),
                data@.len() <= usize::MAX / 2,
                data@[start as int] == 108,
                start + 1 <= pos <= 2 * data@.len() - start - 1,
                spec_skip_list(data@, start + 1) == spec_skip_list(data@, pos as int),
            decreases remaining(data@, pos as int),
        {
            proof {
                lemma_skip_bounds(data@, pos as int);
            }
            pos = match skip_bencode_value(data, pos) {
                Ok(n) => n,
                Err(h) => {
                    return Err(h);
                },
            };
        }
        Ok(pos + 1)
    } else if c == 100 {
        let mut pos = start + 1;
        while pos < data.len() && data[pos] != 101
            invariant
                start < data@.len(),
                data@.len() <= usize::MAX / 2,
                data@[start as int] == 100,
                start + 1 <= pos <= 2 * data@.len() - start - 1,
                spec_skip_dict(data@, start + 1) == spec_skip_dict(data@, pos as int),
            decreases remaining(data@, pos as int),
        {
            proof {
                lemma_read_string_bounds(data@, pos as int);
            }
            let (_, next) = match read_bencode_string(data, pos) {
                Ok(x) => x,
                Err(h) => {
                    return Err(h);
                },
            };
            proof {
                lemma_skip_bounds(data@, next as int);
            }
            pos = match skip_bencode_value(data, next) {
                Ok(n) => n,
                Err(h) => {
                    return Err(h);
                },
            };
        }
        Ok(pos + 1)
    } else if 48 <= c && c <= 57 {
        match read_bencode_string(data, start) {
            Ok((_, next)) => Ok(next),
            Err(h) => Err(h),
        }
    } else {
        Err(Halt::Fails(ReplyError::UnknownType(start, c)))
    }
}

/// The values read from a reply so far. `failure` holds the raw bytes of
/// `failure reason`.
pub struct ReplyState {
    pub interval: u64,
    pub complete: u32,
    pub incomplete: u32,
    pub failure: Option<Seq<u8>>,
}

pub open spec fn interval_key() -> Seq<u8> {
    seq![105u8, 110, 116, 101, 114, 118, 97, 108]
}

pub open spec fn complete_key() -> Seq<u8> {
    seq![99u8, 111, 109, 112, 108, 101, 116, 101]
}

pub open spec fn incomplete_key() -> Seq<u8> {
    seq![105u8, 110, 99, 111, 109, 112, 108, 101, 116, 101]
}

pub open spec fn failure_key() -> Seq<u8> {
    seq![102u8, 97, 105, 108, 117, 114, 101, 32, 114, 101, 97, 115, 111, 110]
}

pub open spec fn skip_then(data: Seq<u8>, k: int, st: ReplyState) -> Step<(int, ReplyState), ReplyError> {
    match spec_skip(data, k) {
        Step::Done(n) => Step::Done((n, st)),
        Step::Fails(e) => Step::Fails(e),
        Step::Panics => Step::Panics,
    }
}

/// The value of one entry, at `k`, under `key`: `interval`, `complete` and
/// `incomplete` take an integer (converted with `as`), `failure reason` a
/// string; a value of another form, and the value of any other key, is
/// skipped.
pub open spec fn spec_reply_entry(data: Seq<u8>, key: Seq<u8>, k: int, st: ReplyState) -> Step<
    (int, ReplyState),
    ReplyError,
> {
    if key == interval_key() {
        match spec_read_integer(data, k) {
            Step::Done((v, n)) => Step::Done((n, ReplyState { interval: v as u64, ..st })),
            _ => skip_then(data, k, st),
        }
    } else if key == complete_key() {
        match spec_read_integer(data, k) {
            Step::Done((v, n)) => Step::Done((n, ReplyState { complete: v as u32, ..st })),
            _ => skip_then(data, k, st),
        }
    } else if key == incomplete_key() {
        match spec_read_integer(data, k) {
            Step::Done((v, n)) => Step::Done((n, ReplyState { incomplete: v as u32, ..st })),
            _ => skip_then(data, k, st),
        }
    } else if key == failure_key() {
        match spec_read_string(data, k) {
            Step::Done((val, n)) => Step::Done((n, ReplyState { failure: Some(val), ..st })),
            Step::Fails(_) => skip_then(data, k, st),
            Step::Panics => Step::Panics,
        }
    } else {
        skip_then(data, k, st)
    }
}

/// Each value of a reply comes from its own key: an entry changes the
/// interval only under `interval`, the seeders only under `complete`, the
/// leechers only under `incomplete` and the failure reason only under
/// `failure reason`; an entry under any other key changes nothing.
pub proof fn each_value_comes_from_its_own_key(data: Seq<u8>, key: Seq<u8>, k: int, st: ReplyState)
    ensures
        spec_reply_entry(data, key, k, st) matches Step::Done((n, st2)) ==> {
            &&& st2.interval != st.interval ==> key == interval_key()
            &&& st2.complete != st.complete ==> key == complete_key()
            &&& st2.incomplete != st.incomplete ==> key == incomplete_key()
            &&& st2.failure != st.failure ==> key == failure_key()
            &&& (key != interval_key() && key != complete_key() && key != incomplete_key() && key
                != failure_key()) ==> st2 == st
        },
{
    assert(interval_key() != complete_key()) by {
        assert(interval_key()[0] != complete_key()[0]);
    }
    assert(interval_key() != incomplete_key()) by {
        assert(interval_key()[2] != incomplete_key()[2]);
    }
    assert(interval_key() != failure_key()) by {
        assert(interval_key()[0] != failure_key()[0]);
    }
    assert(complete_key() != incomplete_key()) by {
        assert(complete_key().len() != incomplete_key().len());
    }
    assert(complete_key() != failure_key()) by {
        assert(complete_key()[0] != failure_key()[0]);
    }
    assert(incomplete_key() != failure_key()) by {
        assert(incomplete_key()[0] != failure_key()[0]);
    }
}

/// A `complete` entry holding an integer sets the seeders to it (as `u32`),
/// an `incomplete` one the leechers, an `interval` one the interval.
pub proof fn known_keys_take_their_integer(data: Seq<u8>, key: Seq<u8>, k: int, st: ReplyState)
    requires
        spec_read_integer(data, k) is Done,
    ensures
        ({
            let (v, n) = spec_read_integer(data, k)->Done_0;
            &&& key == complete_key() ==> spec_reply_entry(data, key, k, st) == Step::<
                (int, ReplyState),
                ReplyError,
            >::Done((n, ReplyState { complete: v as u32, ..st }))
            &&& key == incomplete_key() ==> spec_reply_entry(data, key, k, st) == Step::<
                (int, ReplyState),
                ReplyError,
            >::Done((n, ReplyState { incomplete: v as u32, ..st }))
            &&& key == interval_key() ==> spec_reply_entry(data, key, k, st) == Step::<
                (int, ReplyState),
                ReplyError,
            >::Done((n, ReplyState { interval: v as u64, ..st }))
        }),
{
    each_value_comes_from_its_own_key(data, key, k, st);
}

/// The entries of the reply dictionary from `pos` on, up to an `e` or the
/// end of the data.
pub open spec fn spec_reply_loop(data: Seq<u8>, pos: int, st: ReplyState) -> Step<ReplyState, ReplyError>
    decreases remaining(data, pos),
{
    if pos < data.len() && data[pos] != 101 {
        match spec_read_string(data, pos) {
            Step::Done((key, k)) => match spec_reply_entry(data, key, k, st) {
                Step::Done((n, st2)) => if n <= pos {
                    Step::Fails(ReplyError::UnexpectedEnd)
                } else {
                    spec_reply_loop(data, n, st2)
                },
                Step::Fails(e) => Step::Fails(e),
                Step::Panics => Step::Panics,
            },
            Step::Fails(e) => Step::Fails(e),
            Step::Panics => Step::Panics,
        }
    } else {
        Step::Done(st)
    }
}

/// The reply's interval (1800 when absent), seeders and leechers (0 when
/// absent) and failure reason.
pub open spec fn spec_reply_fields(data: Seq<u8>) -> Step<ReplyState, ReplyError> {
    if data.len() == 0 || data[0] != 100 {
        Step::Fails(ReplyError::NotADictionary)
    } else {
        spec_reply_loop(data, 1, ReplyState { interval: 1800, complete: 0, incomplete: 0, failure: None })
    }
}

proof fn lemma_reply_entry_bounds(data: Seq<u8>, key: Seq<u8>, k: int, st: ReplyState)
    requires
        0 <= k <= data.len(),
    ensures
        spec_reply_entry(data, key, k, st) matches Step::Done((n, st2)) ==> k < n <= 2 * data.len() - k,
{
    lemma_read_integer_bounds(data, k);
    lemma_read_string_bounds(data, k);
    lemma_skip_bounds(data, k);
}

/// The text that `String::from_utf8_lossy` makes of `bytes`.
pub uninterp spec fn utf8_lossy(bytes: Seq<u8>) -> Seq<char>;

/// Calls `String::from_utf8_lossy`. Claimed: the result is its text for
/// `bytes`, which for valid UTF-8 is the text that the bytes encode.
#[verifier::external_body]
fn lossy_text(bytes: &[u8]) -> (res: String)
    ensures
        res@ == utf8_lossy(bytes@),
        valid_utf8(bytes@) ==> res@ == decode_utf8(bytes@),
{
    String::from_utf8_lossy(bytes).into_owned()
}

fn reply_key(which: u8) -> (k: Vec<u8>)
    ensures
        which == 0 ==> k@ == interval_key(),
        which == 1 ==> k@ == complete_key(),
        which == 2 ==> k@ == incomplete_key(),
        which == 3 ==> k@ == failure_key(),
{
    let k: Vec<u8> = if which == 0 {
        vec![105u8, 110, 116, 101, 114, 118, 97, 108]
    } else if which == 1 {
        vec![99u8, 111, 109, 112, 108, 101, 116, 101]
    } else if which == 2 {
        vec![105u8, 110, 99, 111, 109, 112, 108, 101, 116, 101]
    } else {
        vec![102u8, 97, 105, 108, 117, 114, 101, 32, 114, 101, 97, 115, 111, 110]
    };
    proof {
        if which == 0 {
            assert(k@ =~= interval_key());
        } else if which == 1 {
            assert(k@ =~= complete_key());
        } else if which == 2 {
            assert(k@ =~= incomplete_key());
        } else if which == 3 {
            assert(k@ =~= failure_key());
        }
    }
    k
}

/// The values that the exec loop holds, as a `ReplyState`.
pub open spec fn state_of(interval: u64, complete: u32, incomplete: u32, failure: Option<Vec<u8>>) -> ReplyState {
    ReplyState {
        interval: interval,
        complete: complete,
        incomplete: incomplete,
        failure: match failure {
            Some(b) => Some(b@),
            None => None,
        },
    }
}

/// Reads the tracker's bencoded reply: interval, seeders, leechers, and the
/// raw failure reason.
fn parse_tracker_response(data: &[u8]) -> (res: Result<(u64, u32, u32, Option<Vec<u8>>), Halt<ReplyError>>)
    requires
        data@.len() <= usize::MAX / 2,
    ensures
        match spec_reply_fields(data@) {
            Step::Done(st) => res matches Ok((i, c, n, f)) && state_of(i, c, n, f) == st,
            Step::Fails(err) => res == Err::<(u64, u32, u32, Option<Vec<u8>>), Halt<ReplyError>>(
                Halt::Fails(err),
            ),
            Step::Panics => res == Err::<(u64, u32, u32, Option<Vec<u8>>), Halt<ReplyError>>(
                Halt::Panics,
            ),
        },
{
    let mut interval: u64 = 1800;
    let mut complete: u32 = 0;
    let mut incomplete: u32 = 0;
    let mut failure_reason: Option<Vec<u8>> = None;
    if data.len() == 0 || data[0] != 100 {
        return Err(Halt::Fails(ReplyError::NotADictionary));
    }
    let k_interval = reply_key(0);
    let k_complete = reply_key(1);
    let k_incomplete = reply_key(2);
    let k_failure = reply_key(3);
    let mut pos: usize = 1;
    while pos < data.len() && data[pos] != 101
        invariant
            data@.len() <= usize::MAX / 2,
            1 <= pos <= 2 * data@.len(),
            data@.len() > 0 && data@[0] == 100,
            k_interval@ == interval_key(),
            k_complete@ == complete_key(),
            k_incomplete@ == incomplete_key(),
            k_failure@ == failure_key(),
            spec_reply_fields(data@) == spec_reply_loop(
                data@,
                pos as int,
                state_of(interval, complete, incomplete, failure_reason),
            ),
        decreases remaining(data@, pos as int),
    {
        let ghost st = state_of(interval, complete, incomplete, failure_reason);
        proof {
            lemma_read_string_bounds(data@, pos as int);
        }
        let (key, k) = match read_bencode_string(data, pos) {
            Ok(x) => x,
            Err(h) => {
                return Err(h);
            },
        };
        proof {
            lemma_reply_entry_bounds(data@, key@, k as int, st);
        }
        let ghost entry = spec_reply_entry(data@, key@, k as int, st);
        let next: usize;
        if bytes_eq(key.as_slice(), k_interval.as_slice()) {
            match read_bencode_int(data, k) {
                Ok((val, n)) => {
                    interval = val as u64;
                    next = n;
                },
                Err(_) => {
                    next = match skip_bencode_value(data, k) {
                        Ok(n) => n,
                        Err(h) => {
                            return Err(h);
                        },
                    };
                },
            }
        } else if bytes_eq(key.as_slice(), k_complete.as_slice()) {
            match read_bencode_int(data, k) {
                Ok((val, n)) => {
                    complete = val as u32;
                    next = n;
                },
                Err(_) => {
                    next = match skip_bencode_value(data, k) {
                        Ok(n) => n,
                        Err(h) => {
                            return Err(h);
                        },
                    };
                },
            }
        } else if bytes_eq(key.as_slice(), k_incomplete.as_slice()) {
            match read_bencode_int(data, k) {
                Ok((val, n)) => {
                    incomplete = val as u32;
                    next = n;
                },
                Err(_) => {
                    next = match skip_bencode_value(data, k) {
                        Ok(n) => n,
                        Err(h) => {
                            return Err(h);
                        },
                    };
                },
            }
        } else if bytes_eq(key.as_slice(), k_failure.as_slice()) {
            match read_bencode_string(data, k) {
                Ok((val, n)) => {
                    failure_reason = Some(val);
                    next = n;
                },
                Err(Halt::Panics) => {
                    return Err(Halt::Panics);
                },
                Err(Halt::Fails(_)) => {
                    next = match skip_bencode_value(data, k) {
                        Ok(n) => n,
                        Err(h) => {
                            return Err(h);
                        },
                    };
                },
            }
        } else {
            next = match skip_bencode_value(data, k) {
                Ok(n) => n,
                Err(h) => {
                    return Err(h);
                },
            };
        }
        proof {
            assert(entry matches Step::Done((n, st2)) && n == next && st2 == state_of(
                interval,
                complete,
                incomplete,
                failure_reason,
            ));
        }
        pos = next;
    }
    Ok((interval, complete, incomplete, failure_reason))
}

/// Whether `body` cannot be read as a tracker reply at all: a string length
/// whose end is past `usize::MAX`.
pub fn reply_panics(body: &[u8]) -> (r: bool)
    requires
        body@.len() <= usize::MAX / 2,
    ensures
        r == (spec_reply_fields(body@) is Panics),
{
    match parse_tracker_response(body) {
        Err(Halt::Panics) => true,
        _ => false,
    }
}

// ------------------------------------------------------------------
// Announce requests and replies
// ------------------------------------------------------------------

/// The values sent to a tracker in one announce.
#[derive(Debug, Clone)]
pub struct AnnounceRequest {
    pub info_hash: String,
    pub peer_id: String,
    pub port: u16,
    pub uploaded: u64,
    pub downloaded: u64,
    pub left: u64,
    pub key: String,
    /// "started", "stopped", "completed", or None
    pub event: Option<String>,
    pub numwant: u32,
}

/// What a tracker answered.
#[derive(Debug, Clone)]
pub struct AnnounceResponse {
    pub interval: u64,
    /// seeders
    pub complete: u32,
    /// leechers
    pub incomplete: u32,
    pub failure_reason: Option<String>,
}

/// Why an announce failed.
#[derive(Debug, Clone)]
pub enum AnnounceError {
    /// The tracker answered with a status other than 200.
    BadStatus(u16),
    /// The tracker answered with an empty body.
    EmptyResponse,
    /// The body is not a reply that can be read.
    Malformed(ReplyError),
    /// The tracker sent a `failure reason`.
    TrackerFailure(String),
    /// The request could not be sent, or no answer came.
    RequestFailed(String),
    /// Every tracker of the list failed.
    AllTrackersFailed,
}

/// The reason phrase that the HTTP standard gives a status code
/// (`<unknown status code>` where it gives none).
pub uninterp spec fn status_reason(code: u16) -> Seq<char>;

/// Calls `reqwest::StatusCode::from_u16` and writes the status as its
/// `Display` does. Claimed: the text is the code in decimal, a space and
/// the reason phrase (`http-1.5.0/src/status.rs`, `impl Display`).
#[verifier::external_body]
fn status_text(code: u16) -> (res: String)
    requires
        100 <= code <= 999,
    ensures
        res@ == decimal_chars(code as nat) + seq![' '] + status_reason(code),
{
    match reqwest::StatusCode::from_u16(code) {
        Ok(status) => status.to_string(),
        Err(_) => String::new(),
    }
}

impl ReplyError {
    /// The message of the error.
    pub open spec fn text(self) -> Seq<char> {
        match self {
            ReplyError::NotADictionary => "Invalid tracker response: not a dictionary"@,
            ReplyError::InvalidLength(pos) => "Invalid string length at pos "@ + decimal_chars(pos as nat),
            ReplyError::LengthPastEnd => "Unexpected end of data while reading string length"@,
            ReplyError::UnparsableLength => "Failed to parse string length"@,
            ReplyError::UnexpectedEnd => "Unexpected end of data"@,
            ReplyError::StringPastEnd => "String extends beyond data"@,
            ReplyError::ExpectedInteger(pos) => "Expected integer at pos "@ + decimal_chars(pos as nat),
            ReplyError::IntegerPastEnd => "Unexpected end of data while reading integer"@,
            ReplyError::InvalidInteger => "Failed to parse integer"@,
            ReplyError::UnknownType(pos, b) => "Unknown bencode type at pos "@ + decimal_chars(pos as nat)
                + ": "@ + seq![hex_lower(b / 16), hex_lower(b % 16)],
        }
    }

    /// The message of the error.
    pub fn message(&self) -> (m: String)
        ensures
            m@ == self.text(),
    {
        let out: Vec<char> = match self {
            ReplyError::NotADictionary => chars_of("Invalid tracker response: not a dictionary"),
            ReplyError::InvalidLength(pos) => {
                let mut v = chars_of("Invalid string length at pos ");
                extend_chars(&mut v, &u64_decimal(*pos as u64));
                v
            },
            ReplyError::LengthPastEnd => chars_of("Unexpected end of data while reading string length"),
            ReplyError::UnparsableLength => chars_of("Failed to parse string length"),
            ReplyError::UnexpectedEnd => chars_of("Unexpected end of data"),
            ReplyError::StringPastEnd => chars_of("String extends beyond data"),
            ReplyError::ExpectedInteger(pos) => {
                let mut v = chars_of("Expected integer at pos ");
                extend_chars(&mut v, &u64_decimal(*pos as u64));
                v
            },
            ReplyError::IntegerPastEnd => chars_of("Unexpected end of data while reading integer"),
            ReplyError::InvalidInteger => chars_of("Failed to parse integer"),
            ReplyError::UnknownType(pos, b) => {
                let mut v = chars_of("Unknown bencode type at pos ");
                extend_chars(&mut v, &u64_decimal(*pos as u64));
                extend_chars(&mut v, &chars_of(": "));
                v.push(hex_lower_char(*b / 16));
                v.push(hex_lower_char(*b % 16));
                v
            },
        };
        string_from_chars(&out)
    }
}

impl AnnounceError {
    /// The message of the error; a status is written with its reason
    /// phrase when it is a valid HTTP status.
    pub open spec fn text(self) -> Seq<char> {
        match self {
            AnnounceError::BadStatus(s) => "Tracker returned status: "@ + if 100 <= s <= 999 {
                decimal_chars(s as nat) + seq![' '] + status_reason(s)
            } else {
                decimal_chars(s as nat)
            },
            AnnounceError::EmptyResponse => "Empty response from tracker"@,
            AnnounceError::Malformed(e) => e.text(),
            AnnounceError::TrackerFailure(reason) => "Tracker error: "@ + reason@,
            AnnounceError::RequestFailed(m) => m@,
            AnnounceError::AllTrackersFailed => "All trackers failed"@,
        }
    }

    /// The message of the error.
    pub fn message(&self) -> (m: String)
        ensures
            m@ == self.text(),
    {
        let out: Vec<char> = match self {
            AnnounceError::BadStatus(s) => {
                let mut v = chars_of("Tracker returned status: ");
                if 100 <= *s && *s <= 999 {
                    extend_chars(&mut v, &chars_of(status_text(*s).as_str()));
                } else {
                    extend_chars(&mut v, &u64_decimal(*s as u64));
                }
                v
            },
            AnnounceError::EmptyResponse => chars_of("Empty response from tracker"),
            AnnounceError::Malformed(e) => chars_of(e.message().as_str()),
            AnnounceError::TrackerFailure(reason) => {
                let mut v = chars_of("Tracker error: ");
                extend_chars(&mut v, &chars_of(reason.as_str()));
                v
            },
            AnnounceError::RequestFailed(m) => chars_of(m.as_str()),
            AnnounceError::AllTrackersFailed => chars_of("All trackers failed"),
        };
        string_from_chars(&out)
    }
}

/// Interprets a tracker's answer: status 200 and a non-empty body are
/// needed, then the body is read as a reply; a `failure reason` in it makes
/// the announce fail with that text.
pub fn read_announce_reply(status: u16, body: &[u8]) -> (res: Result<AnnounceResponse, AnnounceError>)
    requires
        body@.len() <= usize::MAX / 2,
        status == 200 && body@.len() > 0 ==> !(spec_reply_fields(body@) is Panics),
    ensures
        status != 200 ==> (res matches Err(AnnounceError::BadStatus(s)) && s == status),
        status == 200 && body@.len() == 0 ==> (res matches Err(AnnounceError::EmptyResponse)),
        status == 200 && body@.len() > 0 ==> match spec_reply_fields(body@) {
            Step::Done(st) => match st.failure {
                Some(reason) => res matches Err(AnnounceError::TrackerFailure(m)) && m@ == utf8_lossy(
                    reason,
                ),
                None => res matches Ok(r) && r.interval == st.interval && r.complete == st.complete
                    && r.incomplete == st.incomplete && r.failure_reason is None,
            },
            Step::Fails(e) => res matches Err(AnnounceError::Malformed(x)) && x == e,
            Step::Panics => false,
        },
{
    if status != 200 {
        return Err(AnnounceError::BadStatus(status));
    }
    if body.len() == 0 {
        return Err(AnnounceError::EmptyResponse);
    }
    match parse_tracker_response(body) {
        Err(Halt::Fails(e)) => Err(AnnounceError::Malformed(e)),
        Err(Halt::Panics) => Err(AnnounceError::EmptyResponse),
        Ok((interval, complete, incomplete, failure)) => match failure {
            Some(reason) => Err(AnnounceError::TrackerFailure(lossy_text(reason.as_slice()))),
            None => Ok(AnnounceResponse { interval, complete, incomplete, failure_reason: None }),
        },
    }
}

// ------------------------------------------------------------------
// The request URL
// ------------------------------------------------------------------

/// `s` with every occurrence of `pat` replaced by `with`, matches taken
/// from the left without overlap, as `str::replace` does (`pat` non-empty).
pub open spec fn replace_all(s: Seq<char>, pat: Seq<char>, with: Seq<char>) -> Seq<char>
    decreases s.len(),
{
    if pat.len() == 0 || s.len() < pat.len() {
        s
    } else if s.take(pat.len() as int) == pat {
        with + replace_all(s.skip(pat.len() as int), pat, with)
    } else {
        seq![s[0]] + replace_all(s.drop_first(), pat, with)
    }
}

/// Whether `pat` occurs in `s` at `i`.
fn occurs_at(s: &Vec<char>, i: usize, pat: &Vec<char>) -> (r: bool)
    requires
        i + pat@.len() <= s@.len(),
    ensures
        r == (s@.skip(i as int).take(pat@.len() as int) == pat@),
{
    let mut j: usize = 0;
    let n = s.len();
    while j < pat.len()
        invariant
            n == s@.len(),
            i + pat@.len() <= s@.len(),
            j <= pat@.len(),
            forall|m: int| 0 <= m < j ==> s@[i + m] == pat@[m],
        decreases pat@.len() - j,
    {
        if s[i + j] != pat[j] {
            assert(s@.skip(i as int).take(pat@.len() as int)[j as int] != pat@[j as int]);
            return false;
        }
        j = j + 1;
    }
    assert(s@.skip(i as int).take(pat@.len() as int) =~= pat@);
    true
}

/// Replaces every occurrence of `pat` in `s` by `with`.
pub fn replace_chars(s: &Vec<char>, pat: &Vec<char>, with: &Vec<char>) -> (r: Vec<char>)
    ensures
        r@ == replace_all(s@, pat@, with@),
{
    let mut out: Vec<char> = Vec::new();
    let mut i: usize = 0;
    let n = s.len();
    let p = pat.len();
    assert(s@.skip(0) =~= s@);
    while i < n
        invariant
            n == s@.len(),
            p == pat@.len(),
            i <= n,
            replace_all(s@, pat@, with@) == out@ + replace_all(s@.skip(i as int), pat@, with@),
        decreases n - i,
    {
        let ghost rest = s@.skip(i as int);
        if p > 0 && p <= n - i && occurs_at(s, i, pat) {
            proof {
                assert(rest.take(p as int) == s@.skip(i as int).take(p as int));
                assert(rest.skip(p as int) =~= s@.skip(i + p));
                assert(out@ + (with@ + replace_all(rest.skip(p as int), pat@, with@)) =~= (out@
                    + with@) + replace_all(s@.skip(i + p), pat@, with@));
            }
            extend_chars(&mut out, with);
            i = i + p;
        } else {
            if p == 0 || p > n - i {
                proof {
                    assert(replace_all(rest, pat@, with@) == rest);
                    assert(rest.len() > 0);
                    assert(s@.skip(i as int).skip(rest.len() as int) =~= Seq::<char>::empty());
                }
                let ghost old_out = out@;
                let mut j = i;
                while j < n
                    invariant
                        n == s@.len(),
                        i <= j <= n,
                        out@ == old_out + s@.subrange(i as int, j as int),
                    decreases n - j,
                {
                    out.push(s[j]);
                    proof {
                        assert(s@.subrange(i as int, j + 1) =~= s@.subrange(i as int, j as int).push(
                            s@[j as int],
                        ));
                    }
                    j = j + 1;
                }
                proof {
                    assert(s@.subrange(i as int, n as int) =~= rest);
                    assert(s@.skip(n as int) =~= Seq::<char>::empty());
                    assert(replace_all(Seq::<char>::empty(), pat@, with@) == Seq::<char>::empty());
                    assert(out@ + Seq::<char>::empty() =~= out@);
                }
                i = n;
            } else {
                proof {
                    assert(rest.take(p as int) != pat@);
                    assert(rest.drop_first() =~= s@.skip(i + 1));
                    assert(out@ + (seq![rest[0]] + replace_all(rest.drop_first(), pat@, with@)) =~= out@.push(
                        s@[i as int],
                    ) + replace_all(s@.skip(i + 1), pat@, with@));
                }
                out.push(s[i]);
                i = i + 1;
            }
        }
    }
    proof {
        assert(s@.skip(n as int) =~= Seq::<char>::empty());
        assert(replace_all(Seq::<char>::empty(), pat@, with@) == Seq::<char>::empty());
        assert(out@ + Seq::<char>::empty() =~= out@);
    }
    out
}

pub open spec fn option_text(v: Option<String>) -> Seq<char> {
    match v {
        Some(s) => s@,
        None => Seq::empty(),
    }
}

/// The query string of an announce: the template with each placeholder
/// replaced, in this order, by the request's info hash, peer id, port,
/// uploaded, downloaded, left, key, numwant and event (empty when there is
/// none), numbers in decimal.
pub open spec fn announce_query(template: Seq<char>, r: AnnounceRequest) -> Seq<char> {
    let q1 = replace_all(template, "{infohash}"@, r.info_hash@);
    let q2 = replace_all(q1, "{peerid}"@, r.peer_id@);
    let q3 = replace_all(q2, "{port}"@, decimal_chars(r.port as nat));
    let q4 = replace_all(q3, "{uploaded}"@, decimal_chars(r.uploaded as nat));
    let q5 = replace_all(q4, "{downloaded}"@, decimal_chars(r.downloaded as nat));
    let q6 = replace_all(q5, "{left}"@, decimal_chars(r.left as nat));
    let q7 = replace_all(q6, "{key}"@, r.key@);
    let q8 = replace_all(q7, "{numwant}"@, decimal_chars(r.numwant as nat));
    replace_all(q8, "{event}"@, option_text(r.event))
}

/// `s` without its leading `c`s.
pub open spec fn trim_leading(s: Seq<char>, c: char) -> Seq<char>
    decreases s.len(),
{
    if s.len() > 0 && s[0] == c {
        trim_leading(s.drop_first(), c)
    } else {
        s
    }
}

/// The announce URL: the query follows the tracker URL after `&` when the
/// URL already holds a `?`, after `?` otherwise, without the query's own
/// leading separators.
pub open spec fn announce_url(tracker: Seq<char>, query: Seq<char>) -> Seq<char> {
    if tracker.contains('?') {
        tracker + seq!['&'] + trim_leading(query, '&')
    } else {
        tracker + seq!['?'] + trim_leading(query, '?')
    }
}

fn replace_placeholder(q: &Vec<char>, placeholder: &str, with: &Vec<char>) -> (r: Vec<char>)
    ensures
        r@ == replace_all(q@, placeholder@, with@),
{
    let pat = chars_of(placeholder);
    replace_chars(q, &pat, with)
}

/// Builds the query string from the template and the request.
pub fn build_query(template: &str, request: &AnnounceRequest) -> (q: Vec<char>)
    ensures
        q@ == announce_query(template@, *request),
{
    let t = chars_of(template);
    let q1 = replace_placeholder(&t, "{infohash}", &chars_of(request.info_hash.as_str()));
    let q2 = replace_placeholder(&q1, "{peerid}", &chars_of(request.peer_id.as_str()));
    let q3 = replace_placeholder(&q2, "{port}", &u64_decimal(request.port as u64));
    let q4 = replace_placeholder(&q3, "{uploaded}", &u64_decimal(request.uploaded));
    let q5 = replace_placeholder(&q4, "{downloaded}", &u64_decimal(request.downloaded));
    let q6 = replace_placeholder(&q5, "{left}", &u64_decimal(request.left));
    let q7 = replace_placeholder(&q6, "{key}", &chars_of(request.key.as_str()));
    let q8 = replace_placeholder(&q7, "{numwant}", &u64_decimal(request.numwant as u64));
    let event: Vec<char> = match &request.event {
        Some(e) => chars_of(e.as_str()),
        None => Vec::new(),
    };
    replace_placeholder(&q8, "{event}", &event)
}

fn contains_char(s: &Vec<char>, c: char) -> (r: bool)
    ensures
        r == s@.contains(c),
{
    let mut i: usize = 0;
    while i < s.len()
        invariant
            i <= s@.len(),
            forall|j: int| 0 <= j < i ==> s@[j] != c,
        decreases s@.len() - i,
    {
        if s[i] == c {
            return true;
        }
        i = i + 1;
    }
    false
}

fn trim_leading_chars(s: &Vec<char>, c: char) -> (r: Vec<char>)
    ensures
        r@ == trim_leading(s@, c),
{
    let mut i: usize = 0;
    assert(s@.skip(0) =~= s@);
    while i < s.len() && s[i] == c
        invariant
            i <= s@.len(),
            trim_leading(s@, c) == trim_leading(s@.skip(i as int), c),
        decreases s@.len() - i,
    {
        assert(s@.skip(i as int).drop_first() =~= s@.skip(i + 1));
        i = i + 1;
    }
    let mut r: Vec<char> = Vec::new();
    let mut j = i;
    while j < s.len()
        invariant
            i <= j <= s@.len(),
            r@ == s@.subrange(i as int, j as int),
        decreases s@.len() - j,
    {
        r.push(s[j]);
        assert(s@.subrange(i as int, j + 1) =~= s@.subrange(i as int, j as int).push(s@[j as int]));
        j = j + 1;
    }
    assert(r@ =~= s@.skip(i as int));
    r
}

/// The URL of an announce to `tracker_url`.
pub fn build_announce_url(tracker_url: &str, query_template: &str, request: &AnnounceRequest) -> (url: String)
    ensures
        url@ == announce_url(tracker_url@, announce_query(query_template@, *request)),
{
    let query = build_query(query_template, request);
    let mut out = chars_of(tracker_url);
    if contains_char(&out, '?') {
        out.push('&');
        extend_chars(&mut out, &trim_leading_chars(&query, '&'));
    } else {
        out.push('?');
        extend_chars(&mut out, &trim_leading_chars(&query, '?'));
    }
    string_from_chars(&out)
}

// ------------------------------------------------------------------
// Which tracker, and when to retry
// ------------------------------------------------------------------

/// The delay before the first retry of a failed announce, in seconds.
pub const INITIAL_RETRY_DELAY_SECS: u64 = 30;

/// The longest delay between retries, in seconds.
pub const MAX_RETRY_DELAY_SECS: u64 = 900;

/// The delay after `delay`: doubled, at most 900 seconds.
pub open spec fn next_delay(delay: u64) -> u64 {
    if 2 * delay > 900 {
        900
    } else {
        (2 * delay) as u64
    }
}

/// The delay after `delay`: doubled, at most 900 seconds.
pub fn next_retry_delay(delay: u64) -> (next: u64)
    requires
        delay <= u64::MAX / 2,
    ensures
        next == next_delay(delay),
        30 <= delay <= 900 ==> 30 <= next <= 900,
{
    let doubled = delay * 2;
    if doubled > MAX_RETRY_DELAY_SECS {
        MAX_RETRY_DELAY_SECS
    } else {
        doubled
    }
}

/// `list` with the tracker at `idx` and the first one swapped.
pub open spec fn swap_front(list: Seq<Seq<char>>, idx: int) -> Seq<Seq<char>> {
    list.update(0, list[idx]).update(idx, list[0])
}

/// Moving a tracker to the front, in place of the first one, keeps the same
/// trackers.
pub proof fn swap_to_front_keeps_trackers(list: Seq<Seq<char>>, idx: int)
    requires
        0 <= idx < list.len(),
    ensures
        ({
            let swapped = swap_front(list, idx);
            &&& swapped.len() == list.len()
            &&& swapped[0] == list[idx]
            &&& forall|t: Seq<char>| #[trigger] swapped.contains(t) <==> list.contains(t)
        }),
{
    let swapped = swap_front(list, idx);
    assert forall|t: Seq<char>| #[trigger] swapped.contains(t) <==> list.contains(t) by {
        if swapped.contains(t) {
            let k = choose|k: int| 0 <= k < swapped.len() && swapped[k] == t;
            if k == 0 {
                assert(list[idx] == t);
            } else if k == idx {
                assert(list[0] == t);
            } else {
                assert(list[k] == t);
            }
        }
        if list.contains(t) {
            let k = choose|k: int| 0 <= k < list.len() && list[k] == t;
            if k == 0 {
                assert(swapped[idx] == t);
            } else if k == idx {
                assert(swapped[0] == t);
            } else {
                assert(swapped[k] == t);
            }
        }
    }
}

/// The trackers of a torrent, and the one tried first.
pub struct TrackerClient {
    trackers: Vec<String>,
    current_tracker_index: usize,
}

impl TrackerClient {
    /// The trackers, in the order in which they are kept.
    pub closed spec fn tracker_list(&self) -> Seq<Seq<char>> {
        strings_view(self.trackers@)
    }

    /// The index of the tracker tried first.
    pub closed spec fn current_index(&self) -> int {
        self.current_tracker_index as int
    }

    /// The current index names a tracker, when there is one.
    pub open spec fn wf(&self) -> bool {
        self.tracker_list().len() == 0 || 0 <= self.current_index() < self.tracker_list().len()
    }

    pub fn new(trackers: Vec<String>) -> (c: Self)
        ensures
            c.wf(),
            c.tracker_list() == strings_view(trackers@),
            c.current_index() == 0,
    {
        TrackerClient { trackers, current_tracker_index: 0 }
    }

    pub fn len(&self) -> (n: usize)
        ensures
            n == self.tracker_list().len(),
    {
        self.trackers.len()
    }

    pub fn get_current_tracker(&self) -> (t: &str)
        requires
            self.wf(),
            self.tracker_list().len() > 0,
        ensures
            t@ == self.tracker_list()[self.current_index()],
    {
        self.trackers[self.current_tracker_index].as_str()
    }

    /// The URL of the tracker at `idx`.
    pub fn tracker_url(&self, idx: usize) -> (t: &str)
        requires
            idx < self.tracker_list().len(),
        ensures
            t@ == self.tracker_list()[idx as int],
    {
        self.trackers[idx].as_str()
    }

    /// The tracker of the `attempt`-th try of an announce: the list is
    /// walked once, starting at the current tracker and wrapping around.
    pub fn tracker_for_attempt(&self, attempt: usize) -> (idx: usize)
        requires
            self.wf(),
            attempt < self.tracker_list().len(),
        ensures
            idx == (self.current_index() + attempt) % (self.tracker_list().len() as int),
            idx < self.tracker_list().len(),
    {
        let n = self.trackers.len();
        let a = attempt;
        let c = self.current_tracker_index;
        if c < n - a {
            proof {
                assert((c + attempt) % (n as int) == c + attempt) by (nonlinear_arith)
                    requires
                        c + attempt < n,
                        0 <= c,
                        0 <= attempt,
                ;
            }
            c + a
        } else {
            proof {
                assert((c + attempt) % (n as int) == c + attempt - n) by (nonlinear_arith)
                    requires
                        c + attempt >= n,
                        c < n,
                        attempt < n,
                ;
            }
            c - (n - a)
        }
    }

    /// A tracker answered: it moves to the front, in place of the first one,
    /// and becomes the current tracker. Nothing changes for the front one or
    /// an index out of range.
    pub fn swap_to_front(&mut self, idx: usize)
        requires
            old(self).wf(),
        ensures
            final(self).wf(),
            idx != 0 && idx < old(self).tracker_list().len() ==> {
                &&& final(self).tracker_list() == swap_front(old(self).tracker_list(), idx as int)
                &&& final(self).current_index() == 0
            },
            !(idx != 0 && idx < old(self).tracker_list().len()) ==> *final(self) == *old(self),
    {
        if idx != 0 && idx < self.trackers.len() {
            let first = self.trackers[0].clone();
            let found = self.trackers[idx].clone();
            self.trackers[0] = found;
            self.trackers[idx] = first;
            self.current_tracker_index = 0;
            proof {
                assert(strings_view(self.trackers@) =~= strings_view(old(self).trackers@).update(
                    0,
                    strings_view(old(self).trackers@)[idx as int],
                ).update(idx as int, strings_view(old(self).trackers@)[0]));
            }
        }
    }
}


// ------------------------------------------------------------------
// One announce, through the tracker list
// ------------------------------------------------------------------

/// Where an announce stands: whether it is retried once every tracker has
/// failed, the number of the current try within the pass over the list, and
/// the wait before the next pass.
pub struct AnnounceRound {
    pub retry: bool,
    pub attempt: usize,
    pub delay: u64,
}

impl AnnounceRound {
    /// The try names a tracker of a list of `n` (or is the first of an empty
    /// list), and the wait lies between 30 and 900 seconds.
    pub open spec fn wf(&self, n: int) -> bool {
        &&& (self.attempt < n || self.attempt == 0)
        &&& 30 <= self.delay <= 900
    }
}

/// What the announce needs next.
pub enum AnnounceStep {
    /// Send the announce to the tracker at this index.
    Ask(usize),
    /// Every tracker failed: wait this many seconds, then start a new pass
    /// (`after_wait`).
    Retry { wait_secs: u64 },
    /// A tracker accepted the announce.
    Done(AnnounceResponse),
    /// The announce failed with this error: every tracker failed (none, for
    /// an empty list), and it is not retried.
    Failed(AnnounceError),
}

/// A pass over the list of `n` trackers starts, the current one being
/// `cur`: the current tracker is asked first; with no tracker at all, a
/// retried announce waits (the wait then doubles up to 900 seconds) and any
/// other fails at once.
pub open spec fn pass_starts(n: int, cur: int, round: AnnounceRound, step: AnnounceStep, round2: AnnounceRound) -> bool {
    if n > 0 {
        &&& step == AnnounceStep::Ask(cur as usize)
        &&& round2 == round
    } else if round.retry {
        &&& step == AnnounceStep::Retry { wait_secs: round.delay }
        &&& round2 == AnnounceRound { delay: next_delay(round.delay), ..round }
    } else {
        &&& step == AnnounceStep::Failed(AnnounceError::AllTrackersFailed)
        &&& round2 == round
    }
}

/// The tracker asked at `round` (the list being `list`, the current tracker
/// `cur`) gave `answer`; `step` is what comes next, and `list2`, `cur2`,
/// `round2` are the list, the current tracker and the round afterwards.
/// A tracker that accepts moves to the front. A failure passes to the next
/// tracker, wrapping around; after the last one the pass starts again from
/// the current tracker when the announce is retried, after a wait that then
/// doubles up to 900 seconds, and the announce fails when it is not.
pub open spec fn answered(
    list: Seq<Seq<char>>,
    cur: int,
    round: AnnounceRound,
    answer: Result<AnnounceResponse, AnnounceError>,
    step: AnnounceStep,
    list2: Seq<Seq<char>>,
    cur2: int,
    round2: AnnounceRound,
) -> bool {
    let n = list.len() as int;
    let asked = (cur + round.attempt) % n;
    match answer {
        Ok(r) => {
            &&& step == AnnounceStep::Done(r)
            &&& round2 == round
            &&& if asked != 0 {
                list2 == swap_front(list, asked) && cur2 == 0
            } else {
                list2 == list && cur2 == cur
            }
        },
        Err(_) => {
            &&& list2 == list
            &&& cur2 == cur
            &&& if round.attempt + 1 < n {
                &&& round2 == AnnounceRound { attempt: (round.attempt + 1) as usize, ..round }
                &&& step == AnnounceStep::Ask(((cur + round.attempt + 1) % n) as usize)
            } else if round.retry {
                &&& round2 == AnnounceRound { attempt: 0, delay: next_delay(round.delay), ..round }
                &&& step == AnnounceStep::Retry { wait_secs: round.delay }
            } else {
                &&& round2 == round
                &&& step == AnnounceStep::Failed(AnnounceError::AllTrackersFailed)
            }
        },
    }
}

impl TrackerClient {
    /// Starts an announce: the current tracker is asked first, and the first
    /// wait, if every tracker fails and the announce is retried, is 30
    /// seconds. With no tracker, an announce that is not retried fails at
    /// once.
    pub fn begin_announce(&self, retry: bool) -> (r: (AnnounceRound, AnnounceStep))
        requires
            self.wf(),
        ensures
            r.0.wf(self.tracker_list().len() as int),
            pass_starts(
                self.tracker_list().len() as int,
                self.current_index(),
                AnnounceRound { retry: retry, attempt: 0, delay: 30 },
                r.1,
                r.0,
            ),
    {
        let mut round = AnnounceRound { retry, attempt: 0, delay: INITIAL_RETRY_DELAY_SECS };
        let step = self.after_wait(&mut round);
        (round, step)
    }

    /// A new pass over the list starts (at the start of an announce, or once
    /// a retry's wait is over).
    pub fn after_wait(&self, round: &mut AnnounceRound) -> (step: AnnounceStep)
        requires
            self.wf(),
            old(round).attempt == 0,
            30 <= old(round).delay <= 900,
        ensures
            final(round).wf(self.tracker_list().len() as int),
            pass_starts(self.tracker_list().len() as int, self.current_index(), *old(round), step, *final(round)),
    {
        if self.trackers.len() > 0 {
            AnnounceStep::Ask(self.current_tracker_index)
        } else if round.retry {
            let wait = round.delay;
            round.delay = next_retry_delay(round.delay);
            AnnounceStep::Retry { wait_secs: wait }
        } else {
            AnnounceStep::Failed(AnnounceError::AllTrackersFailed)
        }
    }

    /// The tracker asked at `round` gave `answer`: what comes next.
    pub fn on_answer(&mut self, round: &mut AnnounceRound, answer: Result<AnnounceResponse, AnnounceError>) -> (step:
        AnnounceStep)
        requires
            old(self).wf(),
            old(self).tracker_list().len() > 0,
            old(round).wf(old(self).tracker_list().len() as int),
        ensures
            final(self).wf(),
            final(self).tracker_list().len() == old(self).tracker_list().len(),
            final(round).wf(old(self).tracker_list().len() as int),
            answered(
                old(self).tracker_list(),
                old(self).current_index(),
                *old(round),
                answer,
                step,
                final(self).tracker_list(),
                final(self).current_index(),
                *final(round),
            ),
    {
        let asked = self.tracker_for_attempt(round.attempt);
        match answer {
            Ok(r) => {
                self.swap_to_front(asked);
                AnnounceStep::Done(r)
            },
            Err(_) => {
                let n = self.trackers.len();
                if round.attempt < n - 1 {
                    round.attempt = round.attempt + 1;
                    AnnounceStep::Ask(self.tracker_for_attempt(round.attempt))
                } else if round.retry {
                    let wait = round.delay;
                    round.attempt = 0;
                    round.delay = next_retry_delay(round.delay);
                    AnnounceStep::Retry { wait_secs: wait }
                } else {
                    AnnounceStep::Failed(AnnounceError::AllTrackersFailed)
                }
            },
        }
    }
}

/// A retried announce never gives up: every failure leads to the next
/// tracker or, after the last one, to a wait of 30 to 900 seconds.
pub proof fn retried_announce_never_gives_up(
    list: Seq<Seq<char>>,
    cur: int,
    round: AnnounceRound,
    answer: Result<AnnounceResponse, AnnounceError>,
    step: AnnounceStep,
    list2: Seq<Seq<char>>,
    cur2: int,
    round2: AnnounceRound,
)
    requires
        round.retry,
        round.wf(list.len() as int),
        answered(list, cur, round, answer, step, list2, cur2, round2),
    ensures
        !(step is Failed),
        step matches AnnounceStep::Retry { wait_secs } ==> 30 <= wait_secs <= 900,
        round2.wf(list.len() as int),
{
}

/// An announce that is not retried moves on to the next tracker at each
/// failure, so it ends after at most one answer per tracker.
pub proof fn unretried_announce_moves_on(
    list: Seq<Seq<char>>,
    cur: int,
    round: AnnounceRound,
    answer: Result<AnnounceResponse, AnnounceError>,
    step: AnnounceStep,
    list2: Seq<Seq<char>>,
    cur2: int,
    round2: AnnounceRound,
)
    requires
        !round.retry,
        0 < list.len() <= usize::MAX,
        round.wf(list.len() as int),
        answered(list, cur, round, answer, step, list2, cur2, round2),
    ensures
        step is Done || step is Failed || round2.attempt == round.attempt + 1,
        step is Failed ==> round.attempt == list.len() - 1,
{
}

/// The try of a pass that starts at `cur` which asks the tracker at `t`.
pub open spec fn try_of(n: int, cur: int, t: int) -> int {
    if t >= cur {
        t - cur
    } else {
        t + n - cur
    }
}

/// One pass over a list of `n` trackers, starting at `cur`, asks each tracker
/// exactly once: the tries `0..n` name `n` different trackers, and every
/// tracker is named by one of them.
pub proof fn pass_asks_each_tracker_once(n: int, cur: int)
    requires
        0 <= cur < n,
    ensures
        forall|a: int, b: int|
            0 <= a < n && 0 <= b < n && a != b ==> #[trigger] ((cur + a) % n) != #[trigger] ((cur + b) % n),
        forall|t: int|
            0 <= t < n ==> 0 <= #[trigger] try_of(n, cur, t) < n && (cur + try_of(n, cur, t)) % n == t,
{
    assert forall|a: int, b: int|
        0 <= a < n && 0 <= b < n && a != b implies #[trigger] ((cur + a) % n) != #[trigger] ((cur + b) % n) by {
        lemma_wrap(n, cur + a);
        lemma_wrap(n, cur + b);
    }
    assert forall|t: int| 0 <= t < n implies 0 <= #[trigger] try_of(n, cur, t) < n && (cur + try_of(n, cur, t)) % n
        == t by {
        lemma_wrap(n, cur + try_of(n, cur, t));
    }
}

/// A number below `2 * n` wraps around `n` at most once.
proof fn lemma_wrap(n: int, x: int)
    requires
        0 <= x < 2 * n,
    ensures
        x % n == if x < n {
            x
        } else {
            x - n
        },
{
    if x < n {
        assert(x % n == x) by (nonlinear_arith)
            requires
                0 <= x < n,
        ;
    } else {
        assert(x % n == x - n) by (nonlinear_arith)
            requires
                n <= x < 2 * n,
        ;
    }
}

} // verus!
