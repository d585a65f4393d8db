//! Bencode values and the parser that the torrent reader uses.
//!
//! The spec functions here follow the reading step by step over positions
//! in the input. Some inputs cannot be read at all: a byte string whose
//! stated length runs past the end of the data, or a length or a sum past
//! the integer range. Those runs end in `Step::Panics`, and the library's
//! functions require that no such input is given (and offer checks for it).
use vstd::prelude::*;
use vstd::utf8::{valid_utf8, decode_utf8};
use crate::text::{
    is_digit, all_digits, digits_value, parse_unsigned_text, parse_i64_text, parse_usize_bytes, parse_i64_bytes,
    chars_of, string_from_chars,
};

verus! {

/// How a run of a reading function ends: with a result, with an error, or
/// on an input that cannot be read (a length that runs past the end of the
/// data or past the integer range).
pub enum Step<T, E> {
    Done(T),
    Fails(E),
    Panics,
}

/// How an executable reading function stops early: with an error, or on an
/// input that cannot be read (a length that runs past the end of the data or
/// past the integer range).
#[derive(Debug, PartialEq, Eq, Structural)]
pub enum Halt<E> {
    Fails(E),
    Panics,
}

/// Why bencode text is refused.
#[derive(Debug, Clone, Copy, PartialEq, Eq, Structural)]
pub enum BencodeError {
    /// A value was expected where the data ends.
    UnexpectedEnd,
    /// A value starts with a byte that starts no bencode value.
    UnexpectedCharacter(u8),
    /// The length before a `:` is not a decimal `usize`.
    InvalidLength,
    /// The text between `i` and `e` is not a decimal `i64`.
    InvalidInteger,
}

impl BencodeError {
    /// The message of the error.
    pub open spec fn text(self) -> Seq<char> {
        match self {
            BencodeError::UnexpectedEnd => "Unexpected end of data"@,
            BencodeError::UnexpectedCharacter(c) => "Unexpected character: "@ + seq![c as char],
            BencodeError::InvalidLength => "Failed to parse length"@,
            BencodeError::InvalidInteger => "Failed to parse integer"@,
        }
    }

    /// The message of the error.
    pub fn message(&self) -> (m: String)
        ensures
            m@ == self.text(),
    {
        let v: Vec<char> = match self {
            BencodeError::UnexpectedEnd => chars_of("Unexpected end of data"),
            BencodeError::UnexpectedCharacter(c) => {
                let mut v = chars_of("Unexpected character: ");
                v.push(*c as char);
                v
            },
            BencodeError::InvalidLength => chars_of("Failed to parse length"),
            BencodeError::InvalidInteger => chars_of("Failed to parse integer"),
        };
        string_from_chars(&v)
    }
}

/// The mathematical form of a bencode value.
pub enum BValue {
    Int(int),
    Bytes(Seq<u8>),
    List(Seq<BValue>),
    Dict(Seq<BEntry>),
}

/// One dictionary entry.
pub struct BEntry {
    pub key: Seq<u8>,
    pub value: BValue,
}

/// A parsed bencode value. Dictionary entries keep the order of the input,
/// duplicates included.
#[derive(Debug)]
pub enum BencodeValue {
    Int(i64),
    Bytes(Vec<u8>),
    List(Vec<BencodeValue>),
    Dict(Vec<(Vec<u8>, BencodeValue)>),
}

impl View for BencodeValue {
    type V = BValue;

    open spec fn view(&self) -> BValue
        decreases self,
    {
        match self {
            BencodeValue::Int(i) => BValue::Int(*i as int),
            BencodeValue::Bytes(b) => BValue::Bytes(b@),
            BencodeValue::List(l) => BValue::List(
                Seq::new(
                    l@.len(),
                    |i: int|
                        if 0 <= i < l@.len() {
                            l@[i].view()
                        } else {
                            BValue::Int(0)
                        },
                ),
            ),
            BencodeValue::Dict(d) => BValue::Dict(
                Seq::new(
                    d@.len(),
                    |i: int|
                        if 0 <= i < d@.len() {
                            BEntry { key: d@[i].0@, value: d@[i].1.view() }
                        } else {
                            BEntry { key: Seq::empty(), value: BValue::Int(0) }
                        },
                ),
            ),
        }
    }
}

pub proof fn lemma_list_view(items: Vec<BencodeValue>)
    ensures
        BencodeValue::List(items)@ == BValue::List(values_view(items@)),
{
    let v = BencodeValue::List(items)@;
    assert(v->List_0 =~= values_view(items@));
}

pub proof fn lemma_dict_view(items: Vec<(Vec<u8>, BencodeValue)>)
    ensures
        BencodeValue::Dict(items)@ == BValue::Dict(entries_view(items@)),
{
    let v = BencodeValue::Dict(items)@;
    assert(v->Dict_0 =~= entries_view(items@));
}

impl BencodeValue {
    pub fn as_int(&self) -> (r: Option<i64>)
        ensures
            r is Some <==> self@ is Int,
            r matches Some(v) ==> self@ == BValue::Int(v as int),
    {
        match self {
            BencodeValue::Int(i) => Some(*i),
            _ => None,
        }
    }

    /// The text of a byte string that is valid UTF-8.
    pub fn as_string(&self) -> (r: Option<&str>)
        ensures
            match text_of(self@) {
                Some(t) => r matches Some(s) && s@ == t,
                None => r is None,
            },
    {
        match self {
            BencodeValue::Bytes(b) => match core::str::from_utf8(b.as_slice()) {
                Ok(s) => Some(s),
                Err(_) => None,
            },
            _ => None,
        }
    }

    pub fn as_list(&self) -> (r: Option<&Vec<BencodeValue>>)
        ensures
            r is Some <==> self@ is List,
            r matches Some(l) ==> self@ == BValue::List(values_view(l@)),
    {
        match self {
            BencodeValue::List(l) => {
                proof {
                    lemma_list_view(*l);
                }
                Some(l)
            },
            _ => None,
        }
    }

    pub fn as_dict(&self) -> (r: Option<&Vec<(Vec<u8>, BencodeValue)>>)
        ensures
            r is Some <==> self@ is Dict,
            r matches Some(d) ==> self@ == BValue::Dict(entries_view(d@)),
    {
        match self {
            BencodeValue::Dict(d) => {
                proof {
                    lemma_dict_view(*d);
                }
                Some(d)
            },
            _ => None,
        }
    }
}

/// The text of a byte string value that is valid UTF-8.
pub open spec fn text_of(v: BValue) -> Option<Seq<char>> {
    match v {
        BValue::Bytes(b) => if valid_utf8(b) {
            Some(decode_utf8(b))
        } else {
            None
        },
        _ => None,
    }
}

pub open spec fn values_view(v: Seq<BencodeValue>) -> Seq<BValue> {
    Seq::new(v.len(), |i: int| v[i]@)
}

pub open spec fn entries_view(v: Seq<(Vec<u8>, BencodeValue)>) -> Seq<BEntry> {
    Seq::new(v.len(), |i: int| BEntry { key: v[i].0@, value: v[i].1@ })
}

// ------------------------------------------------------------------
// Scanning
// ------------------------------------------------------------------

/// The first index at or after `from` that holds `b`, or the length of
/// `data` when there is none.
pub open spec fn find_byte(data: Seq<u8>, from: int, b: u8) -> int
    decreases data.len() - from,
{
    if from >= data.len() {
        data.len() as int
    } else if data[from] == b {
        from
    } else {
        find_byte(data, from + 1, b)
    }
}

pub proof fn lemma_find_byte(data: Seq<u8>, from: int, b: u8)
    requires
        0 <= from <= data.len(),
    ensures
        from <= find_byte(data, from, b) <= data.len(),
        find_byte(data, from, b) < data.len() ==> data[find_byte(data, from, b)] == b,
        forall|j: int| from <= j < find_byte(data, from, b) ==> data[j] != b,
    decreases data.len() - from,
{
    if from < data.len() && data[from] != b {
        lemma_find_byte(data, from + 1, b);
    }
}

/// Index of the first `b` at or after `from`, or the length of `data`.
pub fn find_byte_exec(data: &[u8], from: usize, b: u8) -> (r: usize)
    requires
        from <= data@.len(),
    ensures
        r == find_byte(data@, from as int, b),
{
    let mut i = from;
    while i < data.len() && data[i] != b
        invariant
            from <= i <= data@.len(),
            find_byte(data@, from as int, b) == find_byte(data@, i as int, b),
        decreases data@.len() - i,
    {
        i = i + 1;
    }
    i
}

/// A copy of `data[from..to]`.
pub fn copy_range(data: &[u8], from: usize, to: usize) -> (r: Vec<u8>)
    requires
        from <= to <= data@.len(),
    ensures
        r@ == data@.subrange(from as int, to as int),
{
    let mut r: Vec<u8> = Vec::new();
    let mut i = from;
    while i < to
        invariant
            from <= i <= to <= data@.len(),
            r@ == data@.subrange(from as int, i as int),
        decreases to - i,
    {
        r.push(data[i]);
        proof {
            assert(data@.subrange(from as int, i + 1) =~= data@.subrange(from as int, i as int).push(
                data@[i as int],
            ));
        }
        i = i + 1;
    }
    r
}

// ------------------------------------------------------------------
// The parser, as spec functions
// ------------------------------------------------------------------

/// Size of what is left to read from `pos` (zero past the end).
pub open spec fn remaining(data: Seq<u8>, pos: int) -> int {
    if pos < data.len() {
        data.len() - pos
    } else {
        0
    }
}

/// A byte string `<length>:<bytes>` at `start`: the length is the text
/// before the first `:`; bytes that run past the end of the data cannot be
/// read (`Step::Panics`).
pub open spec fn spec_read_bytes(data: Seq<u8>, start: int) -> Step<(Seq<u8>, int), BencodeError> {
    let colon = find_byte(data, start, 58);
    match parse_unsigned_text(data.subrange(start, colon), usize::MAX as int) {
        None => Step::Fails(BencodeError::InvalidLength),
        Some(n) => if colon + 1 + n > data.len() {
            Step::Panics
        } else {
            Step::Done((data.subrange(colon + 1, colon + 1 + n), colon + 1 + n))
        },
    }
}

/// An integer `i<digits>e` at `start` (the `e` is skipped unread).
pub open spec fn spec_read_int(data: Seq<u8>, start: int) -> Step<(int, int), BencodeError> {
    let e = find_byte(data, start + 1, 101);
    match parse_i64_text(data.subrange(start + 1, e)) {
        None => Step::Fails(BencodeError::InvalidInteger),
        Some(v) => Step::Done((v, e + 1)),
    }
}

/// A value at `start`, and the position after it.
pub open spec fn spec_value(data: Seq<u8>, start: int) -> Step<(BValue, int), BencodeError>
    decreases remaining(data, start), 1int,
{
    if start >= data.len() {
        Step::Fails(BencodeError::UnexpectedEnd)
    } else {
        let c = data[start];
        if c == 100 {
            match spec_dict_items(data, start + 1) {
                Step::Done((es, end)) => Step::Done((BValue::Dict(es), end)),
                Step::Fails(e) => Step::Fails(e),
                Step::Panics => Step::Panics,
            }
        } else if c == 108 {
            match spec_list_items(data, start + 1) {
                Step::Done((vs, end)) => Step::Done((BValue::List(vs), end)),
                Step::Fails(e) => Step::Fails(e),
                Step::Panics => Step::Panics,
            }
        } else if c == 105 {
            match spec_read_int(data, start) {
                Step::Done((v, end)) => Step::Done((BValue::Int(v), end)),
                Step::Fails(e) => Step::Fails(e),
                Step::Panics => Step::Panics,
            }
        } else if is_digit(c) {
            match spec_read_bytes(data, start) {
                Step::Done((b, end)) => Step::Done((BValue::Bytes(b), end)),
                Step::Fails(e) => Step::Fails(e),
                Step::Panics => Step::Panics,
            }
        } else {
            Step::Fails(BencodeError::UnexpectedCharacter(c))
        }
    }
}

/// List items from `pos` up to an `e` or the end of the data, and the
/// position after the `e` (one past the last position reached).
pub open spec fn spec_list_items(data: Seq<u8>, pos: int) -> Step<(Seq<BValue>, int), BencodeError>
    decreases remaining(data, pos), 2int,
{
    if pos < data.len() && data[pos] != 101 {
        match spec_value(data, pos) {
            Step::Done((v, next)) => if next <= pos {
                Step::Fails(BencodeError::UnexpectedEnd)
            } else {
                match spec_list_items(data, next) {
                    Step::Done((rest, end)) => Step::Done((seq![v] + rest, end)),
                    Step::Fails(e) => Step::Fails(e),
                    Step::Panics => Step::Panics,
                }
            },
            Step::Fails(e) => Step::Fails(e),
            Step::Panics => Step::Panics,
        }
    } else {
        Step::Done((Seq::empty(), pos + 1))
    }
}

/// Dictionary entries from `pos` up to an `e` or the end of the data. Keys
/// are read as byte strings wherever they start.
pub open spec fn spec_dict_items(data: Seq<u8>, pos: int) -> Step<
    (Seq<BEntry>, int),
    BencodeError,
>
    decreases remaining(data, pos), 2int,
{
    if pos < data.len() && data[pos] != 101 {
        match spec_read_bytes(data, pos) {
            Step::Done((key, knext)) => if knext <= pos {
                Step::Fails(BencodeError::UnexpectedEnd)
            } else {
                match spec_value(data, knext) {
                    Step::Done((v, next)) => if next <= knext {
                        Step::Fails(BencodeError::UnexpectedEnd)
                    } else {
                        match spec_dict_items(data, next) {
                            Step::Done((rest, end)) => Step::Done((seq![BEntry { key: key, value: v }] + rest, end)),
                            Step::Fails(e) => Step::Fails(e),
                            Step::Panics => Step::Panics,
                        }
                    },
                    Step::Fails(e) => Step::Fails(e),
                    Step::Panics => Step::Panics,
                }
            },
            Step::Fails(e) => Step::Fails(e),
            Step::Panics => Step::Panics,
        }
    } else {
        Step::Done((Seq::empty(), pos + 1))
    }
}

// ------------------------------------------------------------------
// Where a successful read ends
// ------------------------------------------------------------------

proof fn lemma_read_bytes_bounds(data: Seq<u8>, start: int)
    requires
        0 <= start <= data.len(),
    ensures
        spec_read_bytes(data, start) matches Step::Done((b, end)) ==> start < end <= data.len(),
{
    lemma_find_byte(data, start, 58);
}

proof fn lemma_read_int_bounds(data: Seq<u8>, start: int)
    requires
        0 <= start < data.len(),
    ensures
        spec_read_int(data, start) matches Step::Done((v, end)) ==> start < end <= data.len() + 1,
{
    lemma_find_byte(data, start + 1, 101);
}

pub proof fn lemma_value_bounds(data: Seq<u8>, start: int)
    requires
        0 <= start,
    ensures
        spec_value(data, start) matches Step::Done((v, end)) ==> start < end <= 2 * data.len() - start,
    decreases remaining(data, start), 1int,
{
    if start < data.len() {
        let c = data[start];
        if c == 100 {
            lemma_dict_items_bounds(data, start + 1);
        } else if c == 108 {
            lemma_list_items_bounds(data, start + 1);
        } else if c == 105 {
            lemma_read_int_bounds(data, start);
        } else if is_digit(c) {
            lemma_read_bytes_bounds(data, start);
        }
    }
}

pub proof fn lemma_list_items_bounds(data: Seq<u8>, pos: int)
    requires
        0 <= pos,
    ensures
        spec_list_items(data, pos) matches Step::Done((vs, end)) ==> pos < end && (pos <= data.len()
            ==> end <= 2 * data.len() - pos + 1),
    decreases remaining(data, pos), 2int,
{
    if pos < data.len() && data[pos] != 101 {
        lemma_value_bounds(data, pos);
        if let Step::Done((v, next)) = spec_value(data, pos) {
            if next > pos {
                lemma_list_items_bounds(data, next);
            }
        }
    }
}

pub proof fn lemma_dict_items_bounds(data: Seq<u8>, pos: int)
    requires
        0 <= pos,
    ensures
        spec_dict_items(data, pos) matches Step::Done((es, end)) ==> pos < end && (pos <= data.len()
            ==> end <= 2 * data.len() - pos + 1),
    decreases remaining(data, pos), 2int,
{
    if pos < data.len() && data[pos] != 101 {
        lemma_read_bytes_bounds(data, pos);
        if let Step::Done((key, knext)) = spec_read_bytes(data, pos) {
            if knext > pos {
                lemma_value_bounds(data, knext);
                if let Step::Done((v, next)) = spec_value(data, knext) {
                    if next > knext {
                        lemma_dict_items_bounds(data, next);
                    }
                }
            }
        }
    }
}

// ------------------------------------------------------------------
// The parser
// ------------------------------------------------------------------

/// Reads a byte string `<length>:<bytes>` at `start`.
pub fn parse_bytes(data: &[u8], start: usize) -> (res: Result<(Vec<u8>, usize), Halt<BencodeError>>)
    requires
        start <= data@.len(),
        data@.len() <= usize::MAX / 2,
    ensures
        match spec_read_bytes(data@, start as int) {
            Step::Done((b, end)) => res matches Ok((x, e)) && x@ == b && e == end,
            Step::Fails(err) => res == Err::<(Vec<u8>, usize), Halt<BencodeError>>(Halt::Fails(err)),
            Step::Panics => res == Err::<(Vec<u8>, usize), Halt<BencodeError>>(Halt::Panics),
        },
{
    let colon = find_byte_exec(data, start, 58);
    proof {
        lemma_find_byte(data@, start as int, 58);
    }
    match parse_usize_bytes(data, start, colon) {
        None => Err(Halt::Fails(BencodeError::InvalidLength)),
        Some(n) => {
            let p = colon + 1;
            if p > data.len() || n > data.len() - p {
                Err(Halt::Panics)
            } else {
                let bytes = copy_range(data, p, p + n);
                Ok((bytes, p + n))
            }
        },
    }
}

/// Reads an integer `i<digits>e` at `start`.
pub fn parse_int(data: &[u8], start: usize) -> (res: Result<(i64, usize), Halt<BencodeError>>)
    requires
        start < data@.len(),
        data@.len() <= usize::MAX / 2,
    ensures
        match spec_read_int(data@, start as int) {
            Step::Done((v, end)) => res matches Ok((x, e)) && x == v && e == end,
            Step::Fails(err) => res == Err::<(i64, usize), Halt<BencodeError>>(Halt::Fails(err)),
            Step::Panics => res == Err::<(i64, usize), Halt<BencodeError>>(Halt::Panics),
        },
{
    let e = find_byte_exec(data, start + 1, 101);
    proof {
        lemma_find_byte(data@, start + 1, 101);
    }
    match parse_i64_bytes(data, start + 1, e) {
        None => Err(Halt::Fails(BencodeError::InvalidInteger)),
        Some(v) => Ok((v, e + 1)),
    }
}

/// Parses the value at `start`; returns it and the position after it.
pub fn parse_bencode(data: &[u8], start: usize) -> (res: Result<(BencodeValue, usize), Halt<BencodeError>>)
    requires
        data@.len() <= usize::MAX / 2,
    ensures
        match spec_value(data@, start as int) {
            Step::Done((v, end)) => res matches Ok((x, e)) && x@ == v && e == end,
            Step::Fails(err) => res == Err::<(BencodeValue, usize), Halt<BencodeError>>(Halt::Fails(err)),
            Step::Panics => res == Err::<(BencodeValue, usize), Halt<BencodeError>>(Halt::Panics),
        },
    decreases data@.len() - start, 1int,
{
    if start >= data.len() {
        return Err(Halt::Fails(BencodeError::UnexpectedEnd));
    }
    let c = data[start];
    if c == 100 {
        parse_dict(data, start)
    } else if c == 108 {
        parse_list(data, start)
    } else if c == 105 {
        match parse_int(data, start) {
            Ok((v, end)) => Ok((BencodeValue::Int(v), end)),
            Err(h) => Err(h),
        }
    } else if 48 <= c && c <= 57 {
        match parse_bytes(data, start) {
            Ok((b, end)) => Ok((BencodeValue::Bytes(b), end)),
            Err(h) => Err(h),
        }
    } else {
        Err(Halt::Fails(BencodeError::UnexpectedCharacter(c)))
    }
}

pub open spec fn prepend_values(
    prefix: Seq<BValue>,
    s: Step<(Seq<BValue>, int), BencodeError>,
) -> Step<(Seq<BValue>, int), BencodeError> {
    match s {
        Step::Done((rest, end)) => Step::Done((prefix + rest, end)),
        Step::Fails(e) => Step::Fails(e),
        Step::Panics => Step::Panics,
    }
}

pub open spec fn prepend_entries(
    prefix: Seq<BEntry>,
    s: Step<(Seq<BEntry>, int), BencodeError>,
) -> Step<(Seq<BEntry>, int), BencodeError> {
    match s {
        Step::Done((rest, end)) => Step::Done((prefix + rest, end)),
        Step::Fails(e) => Step::Fails(e),
        Step::Panics => Step::Panics,
    }
}

fn parse_list(data: &[u8], start: usize) -> (res: Result<(BencodeValue, usize), Halt<BencodeError>>)
    requires
        start < data@.len(),
        data@[start as int] == 108,
        data@.len() <= usize::MAX / 2,
    ensures
        match spec_value(data@, start as int) {
            Step::Done((v, end)) => res matches Ok((x, e)) && x@ == v && e == end,
            Step::Fails(err) => res == Err::<(BencodeValue, usize), Halt<BencodeError>>(Halt::Fails(err)),
            Step::Panics => res == Err::<(BencodeValue, usize), Halt<BencodeError>>(Halt::Panics),
        },
    decreases data@.len() - start - 1, 2int,
{
    let ghost whole = spec_list_items(data@, start + 1);
    let mut pos = start + 1;
    let mut items: Vec<BencodeValue> = Vec::new();
    assert(prepend_values(values_view(items@), spec_list_items(data@, pos as int)) == whole) by {
        assert(values_view(items@) + Seq::<BValue>::empty() =~= Seq::<BValue>::empty());
        match spec_list_items(data@, pos as int) {
            Step::Done((rest, end)) => {
                assert(values_view(items@) + rest =~= rest);
            },
            _ => {},
        }
    }
    while pos < data.len() && data[pos] != 101
        invariant
            start < data@.len(),
            data@.len() <= usize::MAX / 2,
            start + 1 <= pos <= 2 * data@.len() - start - 1,
            data@[start as int] == 108,
            whole == spec_list_items(data@, start + 1),
            prepend_values(values_view(items@), spec_list_items(data@, pos as int)) == whole,
        decreases remaining(data@, pos as int),
    {
        proof {
            lemma_value_bounds(data@, pos as int);
        }
        let (v, next) = match parse_bencode(data, pos) {
            Ok(x) => x,
            Err(h) => {
                proof {
                    match spec_value(data@, pos as int) {
                        Step::Fails(e) => {
                            assert(spec_list_items(data@, pos as int) == Step::<
                                (Seq<BValue>, int),
                                BencodeError,
                            >::Fails(e));
                        },
                        Step::Panics => {
                            assert(spec_list_items(data@, pos as int) == Step::<
                                (Seq<BValue>, int),
                                BencodeError,
                            >::Panics);
                        },
                        _ => {},
                    }
                }
                return Err(h);
            },
        };
        proof {
            let rest = spec_list_items(data@, next as int);
            assert(spec_list_items(data@, pos as int) == prepend_values(seq![v@], rest));
            assert(values_view(items@.push(v)) =~= values_view(items@).push(v@));
            match rest {
                Step::Done((r, end)) => {
                    assert(values_view(items@) + (seq![v@] + r) =~= values_view(items@).push(v@) + r);
                },
                _ => {},
            }
        }
        items.push(v);
        pos = next;
    }
    let ghost vs = values_view(items@);
    proof {
        lemma_list_view(items);
        assert(vs + Seq::<BValue>::empty() =~= vs);
    }
    let value = BencodeValue::List(items);
    Ok((value, pos + 1))
}

fn parse_dict(data: &[u8], start: usize) -> (res: Result<(BencodeValue, usize), Halt<BencodeError>>)
    requires
        start < data@.len(),
        data@[start as int] == 100,
        data@.len() <= usize::MAX / 2,
    ensures
        match spec_value(data@, start as int) {
            Step::Done((v, end)) => res matches Ok((x, e)) && x@ == v && e == end,
            Step::Fails(err) => res == Err::<(BencodeValue, usize), Halt<BencodeError>>(Halt::Fails(err)),
            Step::Panics => res == Err::<(BencodeValue, usize), Halt<BencodeError>>(Halt::Panics),
        },
    decreases data@.len() - start - 1, 2int,
{
    let ghost whole = spec_dict_items(data@, start + 1);
    let mut pos = start + 1;
    let mut items: Vec<(Vec<u8>, BencodeValue)> = Vec::new();
    assert(prepend_entries(entries_view(items@), spec_dict_items(data@, pos as int)) == whole) by {
        match spec_dict_items(data@, pos as int) {
            Step::Done((rest, end)) => {
                assert(entries_view(items@) + rest =~= rest);
            },
            _ => {},
        }
    }
    while pos < data.len() && data[pos] != 101
        invariant
            start < data@.len(),
            data@.len() <= usize::MAX / 2,
            start + 1 <= pos <= 2 * data@.len() - start - 1,
            data@[start as int] == 100,
            whole == spec_dict_items(data@, start + 1),
            prepend_entries(entries_view(items@), spec_dict_items(data@, pos as int)) == whole,
        decreases remaining(data@, pos as int),
    {
        proof {
            lemma_read_bytes_bounds(data@, pos as int);
        }
        let (key, knext) = match parse_bytes(data, pos) {
            Ok(x) => x,
            Err(h) => {
                proof {
                    match spec_read_bytes(data@, pos as int) {
                        Step::Fails(e) => {
                            assert(spec_dict_items(data@, pos as int) == Step::<
                                (Seq<BEntry>, int),
                                BencodeError,
                            >::Fails(e));
                        },
                        Step::Panics => {
                            assert(spec_dict_items(data@, pos as int) == Step::<
                                (Seq<BEntry>, int),
                                BencodeError,
                            >::Panics);
                        },
                        _ => {},
                    }
                }
                return Err(h);
            },
        };
        proof {
            lemma_value_bounds(data@, knext as int);
        }
        let (v, next) = match parse_bencode(data, knext) {
            Ok(x) => x,
            Err(h) => {
                proof {
                    match spec_value(data@, knext as int) {
                        Step::Fails(e) => {
                            assert(spec_dict_items(data@, pos as int) == Step::<
                                (Seq<BEntry>, int),
                                BencodeError,
                            >::Fails(e));
                        },
                        Step::Panics => {
                            assert(spec_dict_items(data@, pos as int) == Step::<
                                (Seq<BEntry>, int),
                                BencodeError,
                            >::Panics);
                        },
                        _ => {},
                    }
                }
                return Err(h);
            },
        };
        proof {
            let rest = spec_dict_items(data@, next as int);
            assert(spec_dict_items(data@, pos as int) == prepend_entries(seq![BEntry { key: key@, value: v@ }], rest));
            assert(entries_view(items@.push((key, v))) =~= entries_view(items@).push(BEntry { key: key@, value: v@ }));
            match rest {
                Step::Done((r, end)) => {
                    assert(entries_view(items@) + (seq![BEntry { key: key@, value: v@ }] + r)
                        =~= entries_view(items@).push(BEntry { key: key@, value: v@ }) + r);
                },
                _ => {},
            }
        }
        items.push((key, v));
        pos = next;
    }
    let ghost es = entries_view(items@);
    proof {
        lemma_dict_view(items);
        assert(es + Seq::<BEntry>::empty() =~= es);
    }
    let value = BencodeValue::Dict(items);
    Ok((value, pos + 1))
}

// ------------------------------------------------------------------
// Encoding, and what the parser makes of it
// ------------------------------------------------------------------

/// The decimal digits of `n`, as ASCII bytes.
pub open spec fn decimal_bytes(n: nat) -> Seq<u8>
    decreases n,
{
    if n < 10 {
        seq![(n + 48) as u8]
    } else {
        decimal_bytes(n / 10).push(((n % 10) + 48) as u8)
    }
}

/// The bencoding of an integer: `i`, an optional `-`, the decimal digits, `e`.
pub open spec fn encode_int(i: int) -> Seq<u8> {
    seq![105u8] + (if i < 0 {
        seq![45u8] + decimal_bytes((-i) as nat)
    } else {
        decimal_bytes(i as nat)
    }) + seq![101u8]
}

/// The bencoding of a byte string: its length in decimal, `:`, the bytes.
pub open spec fn encode_bytes(b: Seq<u8>) -> Seq<u8> {
    decimal_bytes(b.len()) + seq![58u8] + b
}

/// The bencoding of a value; dictionary entries are written in the order
/// given, duplicates included.
pub open spec fn encode(v: BValue) -> Seq<u8>
    decreases v,
{
    match v {
        BValue::Int(i) => encode_int(i),
        BValue::Bytes(b) => encode_bytes(b),
        BValue::List(items) => seq![108u8] + encode_list(items) + seq![101u8],
        BValue::Dict(entries) => seq![100u8] + encode_entries(entries) + seq![101u8],
    }
}

/// The bencodings of `items`, one after the other.
pub open spec fn encode_list(items: Seq<BValue>) -> Seq<u8>
    decreases items,
{
    if items.len() == 0 {
        Seq::empty()
    } else {
        encode(items[0]) + encode_list(items.subrange(1, items.len() as int))
    }
}

/// The bencodings of the keys and values of `entries`, one after the other.
pub open spec fn encode_entries(entries: Seq<BEntry>) -> Seq<u8>
    decreases entries,
{
    if entries.len() == 0 {
        Seq::empty()
    } else {
        encode_bytes(entries[0].key) + encode(entries[0].value) + encode_entries(
            entries.subrange(1, entries.len() as int),
        )
    }
}

/// A value that bencode can hold as the parser reads it: its integers fit
/// in an `i64`.
pub open spec fn encodable(v: BValue) -> bool
    decreases v,
{
    match v {
        BValue::Int(i) => i64::MIN <= i <= i64::MAX,
        BValue::Bytes(_) => true,
        BValue::List(items) => encodable_list(items),
        BValue::Dict(entries) => encodable_entries(entries),
    }
}

pub open spec fn encodable_list(items: Seq<BValue>) -> bool
    decreases items,
{
    items.len() == 0 || (encodable(items[0]) && encodable_list(items.subrange(1, items.len() as int)))
}

pub open spec fn encodable_entries(entries: Seq<BEntry>) -> bool
    decreases entries,
{
    entries.len() == 0 || (encodable(entries[0].value) && encodable_entries(
        entries.subrange(1, entries.len() as int),
    ))
}


proof fn lemma_decimal_bytes(n: nat)
    ensures
        decimal_bytes(n).len() >= 1,
        all_digits(decimal_bytes(n)),
        digits_value(decimal_bytes(n)) == n,
    decreases n,
{
    if n < 10 {
        let s = decimal_bytes(n);
        assert(s.drop_last() =~= Seq::<u8>::empty());
        assert(digits_value(Seq::<u8>::empty()) == 0);
        assert(s.last() == (n + 48) as u8);
        assert(((n + 48) as u8) as int == n + 48);
        assert(digits_value(s) == digits_value(s.drop_last()) * 10 + (s.last() - 48) as nat);
    } else {
        lemma_decimal_bytes(n / 10);
        let s = decimal_bytes(n);
        assert(s.drop_last() =~= decimal_bytes(n / 10));
        assert(s.last() == ((n % 10) + 48) as u8);
        assert(n == (n / 10) * 10 + n % 10) by (nonlinear_arith);
        assert((((n % 10) + 48) as u8) as int == n % 10 + 48);
        assert(digits_value(s) == digits_value(s.drop_last()) * 10 + (s.last() - 48) as nat);
        assert forall|i: int| 0 <= i < s.len() implies is_digit(#[trigger] s[i]) by {
            if i < s.len() - 1 {
                assert(s[i] == decimal_bytes(n / 10)[i]);
            }
        }
    }
}

proof fn lemma_find_byte_at(data: Seq<u8>, from: int, k: int, b: u8)
    requires
        0 <= from <= k < data.len(),
        data[k] == b,
        forall|j: int| from <= j < k ==> data[j] != b,
    ensures
        find_byte(data, from, b) == k,
    decreases k - from,
{
    if from < k {
        lemma_find_byte_at(data, from + 1, k, b);
    }
}

/// `data` holds `a` then `b` from `pos`: it holds `a` from `pos` and `b`
/// after it.
proof fn lemma_window_split(data: Seq<u8>, pos: int, a: Seq<u8>, b: Seq<u8>)
    requires
        0 <= pos,
        pos + a.len() + b.len() <= data.len(),
        data.subrange(pos, pos + a.len() + b.len()) == a + b,
    ensures
        data.subrange(pos, pos + a.len()) == a,
        data.subrange(pos + a.len(), pos + a.len() + b.len()) == b,
{
    let w = data.subrange(pos, pos + a.len() + b.len());
    assert forall|j: int| 0 <= j < a.len() implies data.subrange(pos, pos + a.len())[j] == a[j] by {
        assert(w[j] == (a + b)[j]);
    }
    assert(data.subrange(pos, pos + a.len()) =~= a);
    assert forall|j: int| 0 <= j < b.len() implies data.subrange(pos + a.len(), pos + a.len() + b.len())[j]
        == b[j] by {
        assert(w[a.len() + j] == (a + b)[a.len() + j]);
    }
    assert(data.subrange(pos + a.len(), pos + a.len() + b.len()) =~= b);
}

proof fn lemma_read_int_encoding(data: Seq<u8>, start: int, i: int)
    requires
        i64::MIN <= i <= i64::MAX,
        0 <= start,
        start + encode_int(i).len() <= data.len(),
        data.subrange(start, start + encode_int(i).len()) == encode_int(i),
    ensures
        spec_read_int(data, start) == Step::<(int, int), BencodeError>::Done(
            (i, start + encode_int(i).len()),
        ),
{
    let d = if i < 0 {
        decimal_bytes((-i) as nat)
    } else {
        decimal_bytes(i as nat)
    };
    lemma_decimal_bytes(if i < 0 {
        (-i) as nat
    } else {
        i as nat
    });
    let mid = if i < 0 {
        seq![45u8] + d
    } else {
        d
    };
    let enc = encode_int(i);
    assert(enc =~= seq![105u8] + mid + seq![101u8]);
    lemma_window_split(data, start, seq![105u8] + mid, seq![101u8]);
    lemma_window_split(data, start, seq![105u8], mid);
    let e = start + 1 + mid.len();
    assert(data[e] == data.subrange(e, e + 1)[0]);
    assert forall|j: int| start + 1 <= j < e implies data[j] != 101 by {
        assert(data[j] == data.subrange(start + 1, e)[j - start - 1]);
        if i < 0 && j == start + 1 {
        } else if i < 0 {
            assert(mid[j - start - 1] == d[j - start - 2]);
            assert(is_digit(d[j - start - 2]));
        } else {
            assert(is_digit(d[j - start - 1]));
        }
    }
    lemma_find_byte_at(data, start + 1, e, 101);
    if i < 0 {
        assert(mid.drop_first() =~= d);
    } else {
        assert(is_digit(d[0]));
    }
}

proof fn lemma_read_bytes_encoding(data: Seq<u8>, start: int, b: Seq<u8>)
    requires
        data.len() <= usize::MAX,
        0 <= start,
        start + encode_bytes(b).len() <= data.len(),
        data.subrange(start, start + encode_bytes(b).len()) == encode_bytes(b),
    ensures
        spec_read_bytes(data, start) == Step::<(Seq<u8>, int), BencodeError>::Done(
            (b, start + encode_bytes(b).len()),
        ),
{
    let d = decimal_bytes(b.len());
    lemma_decimal_bytes(b.len());
    lemma_window_split(data, start, d + seq![58u8], b);
    lemma_window_split(data, start, d, seq![58u8]);
    let colon = start + d.len();
    assert(data[colon] == data.subrange(colon, colon + 1)[0]);
    assert forall|j: int| start <= j < colon implies data[j] != 58 by {
        assert(data[j] == data.subrange(start, colon)[j - start]);
        assert(is_digit(d[j - start]));
    }
    lemma_find_byte_at(data, start, colon, 58);
    assert(is_digit(d[0]));
}

proof fn lemma_encode_first(v: BValue)
    ensures
        encode(v).len() >= 1,
        encode(v)[0] != 101,
        v is Int ==> encode(v)[0] == 105,
        v is Bytes ==> is_digit(encode(v)[0]),
        v is List ==> encode(v)[0] == 108,
        v is Dict ==> encode(v)[0] == 100,
{
    match v {
        BValue::Bytes(b) => {
            lemma_decimal_bytes(b.len());
            assert(encode(v)[0] == decimal_bytes(b.len())[0]);
        },
        _ => {},
    }
}

/// The parser reads back what `encode` writes: wherever the bencoding of a
/// value stands in the data, the value read there is that value, and the
/// reading ends right after its bencoding.
pub proof fn parse_reads_encoding(data: Seq<u8>, start: int, v: BValue)
    requires
        encodable(v),
        data.len() <= usize::MAX,
        0 <= start,
        start + encode(v).len() <= data.len(),
        data.subrange(start, start + encode(v).len()) == encode(v),
    ensures
        spec_value(data, start) == Step::<(BValue, int), BencodeError>::Done((v, start + encode(v).len())),
    decreases v,
{
    lemma_encode_first(v);
    assert(data[start] == data.subrange(start, start + encode(v).len())[0]);
    match v {
        BValue::Int(i) => {
            lemma_read_int_encoding(data, start, i);
        },
        BValue::Bytes(b) => {
            lemma_read_bytes_encoding(data, start, b);
        },
        BValue::List(items) => {
            let el = encode_list(items);
            assert(encode(v) =~= seq![108u8] + el + seq![101u8]);
            lemma_window_split(data, start, seq![108u8] + el, seq![101u8]);
            lemma_window_split(data, start, seq![108u8], el);
            let e = start + 1 + el.len();
            assert(data[e] == data.subrange(e, e + 1)[0]);
            lemma_list_encoding(data, start + 1, items);
        },
        BValue::Dict(entries) => {
            let ee = encode_entries(entries);
            assert(encode(v) =~= seq![100u8] + ee + seq![101u8]);
            lemma_window_split(data, start, seq![100u8] + ee, seq![101u8]);
            lemma_window_split(data, start, seq![100u8], ee);
            let e = start + 1 + ee.len();
            assert(data[e] == data.subrange(e, e + 1)[0]);
            lemma_entries_encoding(data, start + 1, entries);
        },
    }
}

/// No value starts past the end of the data, or at a byte other than `d`,
/// `l`, `i` or a digit: the parser refuses it there.
pub proof fn parse_refuses_other_starts(data: Seq<u8>, start: int)
    requires
        start >= data.len() || !(data[start] == 100 || data[start] == 108 || data[start] == 105 || is_digit(
            data[start],
        )),
    ensures
        spec_value(data, start) == Step::<(BValue, int), BencodeError>::Fails(
            if start >= data.len() {
                BencodeError::UnexpectedEnd
            } else {
                BencodeError::UnexpectedCharacter(data[start])
            },
        ),
{
}

proof fn lemma_list_encoding(data: Seq<u8>, pos: int, items: Seq<BValue>)
    requires
        encodable_list(items),
        data.len() <= usize::MAX,
        0 <= pos,
        pos + encode_list(items).len() < data.len(),
        data.subrange(pos, pos + encode_list(items).len()) == encode_list(items),
        data[pos + encode_list(items).len()] == 101,
    ensures
        spec_list_items(data, pos) == Step::<(Seq<BValue>, int), BencodeError>::Done(
            (items, pos + encode_list(items).len() + 1),
        ),
    decreases items,
{
    if items.len() == 0 {
        assert(items =~= Seq::<BValue>::empty());
    } else {
        let first = items[0];
        let rest = items.subrange(1, items.len() as int);
        let e0 = encode(first);
        let er = encode_list(rest);
        lemma_window_split(data, pos, e0, er);
        lemma_encode_first(first);
        assert(data[pos] == data.subrange(pos, pos + e0.len())[0]);
        parse_reads_encoding(data, pos, first);
        lemma_list_encoding(data, pos + e0.len(), rest);
        assert(seq![first] + rest =~= items);
    }
}

proof fn lemma_entries_encoding(data: Seq<u8>, pos: int, entries: Seq<BEntry>)
    requires
        encodable_entries(entries),
        data.len() <= usize::MAX,
        0 <= pos,
        pos + encode_entries(entries).len() < data.len(),
        data.subrange(pos, pos + encode_entries(entries).len()) == encode_entries(entries),
        data[pos + encode_entries(entries).len()] == 101,
    ensures
        spec_dict_items(data, pos) == Step::<(Seq<BEntry>, int), BencodeError>::Done(
            (entries, pos + encode_entries(entries).len() + 1),
        ),
    decreases entries,
{
    if entries.len() == 0 {
        assert(entries =~= Seq::<BEntry>::empty());
    } else {
        let first = entries[0];
        let rest = entries.subrange(1, entries.len() as int);
        let ek = encode_bytes(first.key);
        let ev = encode(first.value);
        let er = encode_entries(rest);
        lemma_window_split(data, pos, ek + ev, er);
        lemma_window_split(data, pos, ek, ev);
        lemma_decimal_bytes(first.key.len());
        assert(ek[0] == decimal_bytes(first.key.len())[0]);
        assert(data[pos] == data.subrange(pos, pos + ek.len())[0]);
        lemma_read_bytes_encoding(data, pos, first.key);
        lemma_encode_first(first.value);
        parse_reads_encoding(data, pos + ek.len(), first.value);
        lemma_entries_encoding(data, pos + ek.len() + ev.len(), rest);
        assert(seq![BEntry { key: first.key, value: first.value }] + rest =~= entries);
    }
}

} // verus!
