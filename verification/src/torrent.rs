//! Reading a `.torrent` file: its trackers, name, sizes and info hash.
use vstd::prelude::*;
use sha1::Digest;
use crate::text::{is_digit, parse_unsigned_text, parse_usize_bytes, hex_lower, hex_lower_char, chars_of, string_from_chars};
use crate::bencode::{
    Step, Halt, BencodeError, BValue, BEntry, BencodeValue, find_byte, lemma_find_byte,
    find_byte_exec, copy_range, remaining, spec_value, parse_bencode, values_view, entries_view,
    lemma_list_view, lemma_dict_view, text_of, spec_read_bytes, spec_list_items, spec_dict_items,
    lemma_list_items_bounds, lemma_dict_items_bounds,
};

verus! {

// ------------------------------------------------------------------
// The info hash
// ------------------------------------------------------------------

/// The SHA-1 digest of `data`.
pub uninterp spec fn sha1_digest(data: Seq<u8>) -> Seq<u8>;

/// Calls `sha1::Sha1::digest` (through the `Digest` trait). Claimed: the
/// result is the SHA-1 digest of `data`, which is 20 bytes long.
#[verifier::external_body]
fn sha1_of(data: &[u8]) -> (res: Vec<u8>)
    ensures
        res@ == sha1_digest(data@),
        res@.len() == 20,
{
    sha1::Sha1::digest(data).to_vec()
}

/// Bytes that URL encoding keeps as they are: `[a-zA-Z0-9.\-_~]`.
pub open spec fn is_unreserved(b: u8) -> bool {
    (48 <= b <= 57) || (65 <= b <= 90) || (97 <= b <= 122) || b == 46 || b == 45 || b == 95 || b == 126
}

/// One byte, URL encoded: kept, or `%` and two lowercase hex digits.
pub open spec fn encode_byte(b: u8) -> Seq<char> {
    if is_unreserved(b) {
        seq![b as char]
    } else {
        seq!['%', hex_lower(b / 16), hex_lower(b % 16)]
    }
}

/// URL encoding of `bytes`, byte by byte.
pub open spec fn url_encode(bytes: Seq<u8>) -> Seq<char>
    decreases bytes.len(),
{
    if bytes.len() == 0 {
        Seq::empty()
    } else {
        encode_byte(bytes[0]) + url_encode(bytes.drop_first())
    }
}

proof fn lemma_url_encode_push(bytes: Seq<u8>, b: u8)
    ensures
        url_encode(bytes.push(b)) == url_encode(bytes) + encode_byte(b),
    decreases bytes.len(),
{
    if bytes.len() == 0 {
        assert(bytes.push(b).drop_first() =~= Seq::<u8>::empty());
        assert(url_encode(Seq::<u8>::empty()) == Seq::<char>::empty());
        assert(bytes.push(b)[0] == b);
        assert(url_encode(bytes) == Seq::<char>::empty());
        assert(url_encode(bytes.push(b)) =~= encode_byte(b) + Seq::<char>::empty());
    } else {
        assert(bytes.push(b).drop_first() =~= bytes.drop_first().push(b));
        lemma_url_encode_push(bytes.drop_first(), b);
        assert(url_encode(bytes.push(b)) =~= url_encode(bytes) + encode_byte(b));
    }
}

/// URL-encodes `bytes`: `[a-zA-Z0-9.\-_~]` are kept, every other byte is
/// written `%xx` in lowercase hex.
pub fn url_encode_bytes(bytes: &[u8]) -> (res: String)
    ensures
        res@ == url_encode(bytes@),
{
    let mut res = String::new();
    let mut i: usize = 0;
    while i < bytes.len()
        invariant
            i <= bytes@.len(),
            res@ == url_encode(bytes@.take(i as int)),
        decreases bytes@.len() - i,
    {
        let b = bytes[i];
        if (48 <= b && b <= 57) || (65 <= b && b <= 90) || (97 <= b && b <= 122) || b == 46 || b == 45
            || b == 95 || b == 126 {
            res.push(b as char);
        } else {
            res.push('%');
            res.push(hex_lower_char(b / 16));
            res.push(hex_lower_char(b % 16));
        }
        proof {
            assert(bytes@.take(i + 1) =~= bytes@.take(i as int).push(b));
            lemma_url_encode_push(bytes@.take(i as int), b);
            assert(res@ =~= url_encode(bytes@.take(i as int)) + encode_byte(b));
        }
        i = i + 1;
    }
    proof {
        assert(bytes@.take(bytes@.len() as int) =~= bytes@);
    }
    res
}

proof fn lemma_hex_lower_injective(a: u8, b: u8)
    requires
        a < 16,
        b < 16,
        hex_lower(a) == hex_lower(b),
    ensures
        a == b,
{
}

/// URL encoding loses nothing: two byte strings with the same encoding are
/// the same.
pub proof fn url_encode_injective(a: Seq<u8>, b: Seq<u8>)
    requires
        url_encode(a) == url_encode(b),
    ensures
        a == b,
    decreases a.len(),
{
    if a.len() == 0 {
        if b.len() > 0 {
            assert(url_encode(b).len() >= encode_byte(b[0]).len());
        }
        assert(a =~= b);
    } else {
        if b.len() == 0 {
            assert(url_encode(a).len() >= encode_byte(a[0]).len());
        }
        let ea = encode_byte(a[0]);
        let eb = encode_byte(b[0]);
        assert(url_encode(a)[0] == ea[0]);
        assert(url_encode(b)[0] == eb[0]);
        let x = a[0];
        let y = b[0];
        if is_unreserved(x) && is_unreserved(y) {
            assert(x == y);
        } else if !is_unreserved(x) && !is_unreserved(y) {
            assert(url_encode(a)[1] == ea[1]);
            assert(url_encode(b)[1] == eb[1]);
            assert(url_encode(a)[2] == ea[2]);
            assert(url_encode(b)[2] == eb[2]);
            lemma_hex_lower_injective(x / 16, y / 16);
            lemma_hex_lower_injective(x % 16, y % 16);
            assert(x == y) by (bit_vector)
                requires
                    x / 16 == y / 16,
                    x % 16 == y % 16,
            ;
        } else {
            assert(false);
        }
        assert(ea == eb);
        let n = ea.len() as int;
        assert(url_encode(a).skip(n) =~= url_encode(a.drop_first()));
        assert(url_encode(b).skip(n) =~= url_encode(b.drop_first()));
        url_encode_injective(a.drop_first(), b.drop_first());
        assert(a =~= seq![x] + a.drop_first());
        assert(b =~= seq![y] + b.drop_first());
    }
}

// ------------------------------------------------------------------
// Where the info dictionary lies in the raw data
// ------------------------------------------------------------------

/// The scan for the end of a dictionary, from `pos` at nesting `depth`:
/// `d` and `l` open, `e` closes, `i...e` and `<len>:<bytes>` are skipped,
/// any other byte is stepped over. A length that is not a `usize` stops the
/// scan with no result; a skip past `usize::MAX`, or nesting past
/// `i32::MAX`, cannot be read (`Step::Panics`).
pub open spec fn spec_scan_end(data: Seq<u8>, pos: int, depth: int) -> Step<Option<int>, ()>
    decreases remaining(data, pos),
{
    if !(pos < data.len() && depth > 0) {
        Step::Done(
            if depth == 0 {
                Some(pos)
            } else {
                None
            },
        )
    } else {
        let c = data[pos];
        if c == 100 || c == 108 {
            if depth + 1 > i32::MAX {
                Step::Panics
            } else {
                spec_scan_end(data, pos + 1, depth + 1)
            }
        } else if c == 101 {
            spec_scan_end(data, pos + 1, depth - 1)
        } else if c == 105 {
            let e = find_byte(data, pos + 1, 101);
            if e < pos + 1 {
                Step::Done(None)
            } else {
                spec_scan_end(data, e + 1, depth)
            }
        } else if is_digit(c) {
            let colon = find_byte(data, pos, 58);
            match parse_unsigned_text(data.subrange(pos, colon), usize::MAX as int) {
                None => Step::Done(None),
                Some(n) => if colon + 1 + n > usize::MAX {
                    Step::Panics
                } else if colon < pos {
                    Step::Done(None)
                } else {
                    spec_scan_end(data, colon + 1 + n, depth)
                },
            }
        } else {
            spec_scan_end(data, pos + 1, depth)
        }
    }
}

proof fn lemma_scan_end_bound(data: Seq<u8>, pos: int, depth: int)
    requires
        depth > 0,
        0 <= pos,
    ensures
        spec_scan_end(data, pos, depth) matches Step::Done(Some(p)) ==> pos < p <= data.len(),
    decreases remaining(data, pos),
{
    if pos < data.len() {
        let c = data[pos];
        if c == 100 || c == 108 {
            if depth + 1 <= i32::MAX {
                lemma_scan_end_bound(data, pos + 1, depth + 1);
            }
        } else if c == 101 {
            if depth - 1 > 0 {
                lemma_scan_end_bound(data, pos + 1, depth - 1);
            }
        } else if c == 105 {
            let e = find_byte(data, pos + 1, 101);
            if e >= pos + 1 {
                lemma_scan_end_bound(data, e + 1, depth);
            }
        } else if is_digit(c) {
            let colon = find_byte(data, pos, 58);
            match parse_unsigned_text(data.subrange(pos, colon), usize::MAX as int) {
                None => {},
                Some(n) => {
                    if colon + 1 + n <= usize::MAX && colon >= pos {
                        lemma_scan_end_bound(data, colon + 1 + n, depth);
                    }
                },
            }
        } else {
            lemma_scan_end_bound(data, pos + 1, depth);
        }
    }
}

/// End (exclusive) of the dictionary that starts at `start`, if `data`
/// holds a `d` there and the scan closes it.
pub open spec fn spec_find_dict_end(data: Seq<u8>, start: int) -> Step<Option<int>, ()> {
    if data[start] != 100 {
        Step::Done(None)
    } else {
        spec_scan_end(data, start + 1, 1)
    }
}

/// Finds the end of the dictionary that starts at `start`.
fn find_dict_end(data: &[u8], start: usize) -> (res: Result<Option<usize>, Halt<()>>)
    requires
        start < data@.len(),
        data@.len() <= usize::MAX / 2,
    ensures
        match spec_find_dict_end(data@, start as int) {
            Step::Done(r) => match res {
                Ok(Some(e)) => r == Some(e as int),
                Ok(None) => r is None,
                Err(_) => false,
            },
            Step::Fails(_) => false,
            Step::Panics => res == Err::<Option<usize>, Halt<()>>(Halt::Panics),
        },
        res matches Ok(Some(e)) ==> start < e <= data@.len(),
{
    proof {
        lemma_scan_end_bound(data@, start + 1, 1);
    }
    if data[start] != 100 {
        return Ok(None);
    }
    let mut pos = start + 1;
    let mut depth: i32 = 1;
    while pos < data.len() && depth > 0
        invariant
            start < data@.len(),
            data@.len() <= usize::MAX / 2,
            data@[start as int] == 100,
            0 <= depth,
            spec_find_dict_end(data@, start as int) == spec_scan_end(data@, pos as int, depth as int),
        decreases remaining(data@, pos as int),
    {
        let c = data[pos];
        if c == 100 || c == 108 {
            if depth == i32::MAX {
                return Err(Halt::Panics);
            }
            depth = depth + 1;
            pos = pos + 1;
        } else if c == 101 {
            depth = depth - 1;
            pos = pos + 1;
        } else if c == 105 {
            let e = find_byte_exec(data, pos + 1, 101);
            proof {
                lemma_find_byte(data@, pos + 1, 101);
            }
            pos = e + 1;
        } else if 48 <= c && c <= 57 {
            let colon = find_byte_exec(data, pos, 58);
            proof {
                lemma_find_byte(data@, pos as int, 58);
            }
            match parse_usize_bytes(data, pos, colon) {
                None => {
                    return Ok(None);
                },
                Some(n) => {
                    if n > usize::MAX - 1 - colon {
                        return Err(Halt::Panics);
                    }
                    pos = colon + 1 + n;
                },
            }
        } else {
            pos = pos + 1;
        }
    }
    if depth == 0 {
        Ok(Some(pos))
    } else {
        Ok(None)
    }
}

/// The bytes `4:infod`.
pub open spec fn info_pattern() -> Seq<u8> {
    seq![52u8, 58, 105, 110, 102, 111, 100]
}

/// The search for `4:infod` looks at the start positions before this one.
pub open spec fn search_limit(data: Seq<u8>) -> int {
    if data.len() >= 7 {
        data.len() - 7
    } else {
        0
    }
}

/// The first `4:infod` at a start position `>= i` (and below
/// `search_limit`) whose dictionary closes: the dictionary's bounds.
pub open spec fn spec_search_info(data: Seq<u8>, i: int) -> Step<Option<(int, int)>, ()>
    decreases search_limit(data) - i,
{
    if i < 0 || i >= search_limit(data) {
        Step::Done(None)
    } else if data.subrange(i, i + 7) == info_pattern() {
        match spec_find_dict_end(data, i + 6) {
            Step::Panics => Step::Panics,
            Step::Done(Some(e)) => Step::Done(Some((i + 6, e))),
            _ => spec_search_info(data, i + 1),
        }
    } else {
        spec_search_info(data, i + 1)
    }
}

/// Bounds of the info dictionary in the raw data, found by looking for
/// `4:infod`.
fn find_info_dict_bounds(data: &[u8]) -> (res: Result<Option<(usize, usize)>, Halt<()>>)
    requires
        data@.len() <= usize::MAX / 2,
    ensures
        match spec_search_info(data@, 0) {
            Step::Done(r) => match res {
                Ok(Some((s, e))) => r == Some((s as int, e as int)),
                Ok(None) => r is None,
                Err(_) => false,
            },
            Step::Fails(_) => false,
            Step::Panics => res == Err::<Option<(usize, usize)>, Halt<()>>(Halt::Panics),
        },
        res matches Ok(Some((s, e))) ==> s < e <= data@.len(),
{
    let limit: usize = if data.len() >= 7 {
        data.len() - 7
    } else {
        0
    };
    let mut i: usize = 0;
    while i < limit
        invariant
            data@.len() <= usize::MAX / 2,
            limit == search_limit(data@),
            i <= limit,
            spec_search_info(data@, 0) == spec_search_info(data@, i as int),
        decreases limit - i,
    {
        let hit = data[i] == 52 && data[i + 1] == 58 && data[i + 2] == 105 && data[i + 3] == 110
            && data[i + 4] == 102 && data[i + 5] == 111 && data[i + 6] == 100;
        proof {
            if hit {
                assert(data@.subrange(i as int, i + 7) =~= info_pattern());
            } else {
                assert(data@.subrange(i as int, i + 7) != info_pattern()) by {
                    let sub = data@.subrange(i as int, i + 7);
                    if sub == info_pattern() {
                        assert(sub[0] == data@[i as int]);
                        assert(sub[1] == data@[i + 1]);
                        assert(sub[2] == data@[i + 2]);
                        assert(sub[3] == data@[i + 3]);
                        assert(sub[4] == data@[i + 4]);
                        assert(sub[5] == data@[i + 5]);
                        assert(sub[6] == data@[i + 6]);
                    }
                }
            }
        }
        if hit {
            match find_dict_end(data, i + 6) {
                Err(h) => {
                    return Err(h);
                },
                Ok(Some(e)) => {
                    return Ok(Some((i + 6, e)));
                },
                Ok(None) => {},
            }
        }
        i = i + 1;
    }
    Ok(None)
}

/// How deeply lists and dictionaries nest in `v` (a list or a dictionary
/// counts one more than what it holds).
pub open spec fn nesting(v: BValue) -> nat
    decreases v,
{
    match v {
        BValue::List(items) => 1 + nesting_list(items),
        BValue::Dict(entries) => 1 + nesting_entries(entries),
        _ => 0,
    }
}

pub open spec fn nesting_list(items: Seq<BValue>) -> nat
    decreases items,
{
    if items.len() == 0 {
        0
    } else {
        let a = nesting(items[0]);
        let b = nesting_list(items.subrange(1, items.len() as int));
        if a >= b {
            a
        } else {
            b
        }
    }
}

pub open spec fn nesting_entries(entries: Seq<BEntry>) -> nat
    decreases entries,
{
    if entries.len() == 0 {
        0
    } else {
        let a = nesting(entries[0].value);
        let b = nesting_entries(entries.subrange(1, entries.len() as int));
        if a >= b {
            a
        } else {
            b
        }
    }
}

/// The scan steps over a byte string that the parser reads at `pos` (a
/// dictionary key may start with `+`) in one go.
proof fn lemma_scan_bytes(data: Seq<u8>, pos: int, depth: int, b: Seq<u8>, end: int)
    requires
        0 <= pos,
        1 <= depth,
        data.len() <= usize::MAX,
        pos < data.len(),
        spec_read_bytes(data, pos) == Step::<(Seq<u8>, int), BencodeError>::Done((b, end)),
        end <= data.len(),
    ensures
        spec_scan_end(data, pos, depth) == spec_scan_end(data, end, depth),
{
    let colon = find_byte(data, pos, 58);
    let text = data.subrange(pos, colon);
    lemma_find_byte(data, pos, 58);
    let n = parse_unsigned_text(text, usize::MAX as int)->Some_0;
    assert(end == colon + 1 + n);
    if is_digit(data[pos]) {
        assert(spec_scan_end(data, pos, depth) == spec_scan_end(data, colon + 1 + n, depth));
    } else {
        assert(text[0] == data[pos]);
        assert(data[pos] == 43);
        let colon1 = find_byte(data, pos + 1, 58);
        assert(colon1 == colon);
        assert(data.subrange(pos + 1, colon) =~= text.drop_first());
        assert(text.drop_first()[0] == data[pos + 1]);
        assert(is_digit(text.drop_first()[0]));
        assert(parse_unsigned_text(data.subrange(pos + 1, colon), usize::MAX as int) == Some(n));
        assert(spec_scan_end(data, pos + 1, depth) == spec_scan_end(data, colon + 1 + n, depth));
        assert(spec_scan_end(data, pos, depth) == spec_scan_end(data, pos + 1, depth));
    }
}

/// The scan steps over a value that the parser reads at `pos`, ending where
/// the parser ends, at the nesting depth it started from.
proof fn lemma_scan_value(data: Seq<u8>, pos: int, depth: int, v: BValue, end: int)
    requires
        0 <= pos,
        1 <= depth,
        data.len() <= usize::MAX,
        spec_value(data, pos) == Step::<(BValue, int), BencodeError>::Done((v, end)),
        end <= data.len(),
        depth + nesting(v) <= i32::MAX,
    ensures
        spec_scan_end(data, pos, depth) == spec_scan_end(data, end, depth),
    decreases remaining(data, pos), 1int,
{
    let c = data[pos];
    if c == 100 {
        if let Step::Done((es, e2)) = spec_dict_items(data, pos + 1) {
            lemma_scan_dict_items(data, pos + 1, depth + 1, es, e2);
        }
    } else if c == 108 {
        if let Step::Done((vs, e2)) = spec_list_items(data, pos + 1) {
            lemma_scan_list_items(data, pos + 1, depth + 1, vs, e2);
        }
    } else if c == 105 {
        lemma_find_byte(data, pos + 1, 101);
    } else {
        if let Step::Done((b, e2)) = spec_read_bytes(data, pos) {
            lemma_scan_bytes(data, pos, depth, b, e2);
        }
    }
}

/// Over the items of a list the parser reads from `pos`, the scan reaches
/// the closing `e` at the depth it started from.
proof fn lemma_scan_list_items(data: Seq<u8>, pos: int, depth: int, vs: Seq<BValue>, end: int)
    requires
        0 <= pos,
        1 <= depth,
        data.len() <= usize::MAX,
        spec_list_items(data, pos) == Step::<(Seq<BValue>, int), BencodeError>::Done((vs, end)),
        end <= data.len(),
        depth + nesting_list(vs) <= i32::MAX,
    ensures
        pos < end,
        data[end - 1] == 101,
        spec_scan_end(data, pos, depth) == spec_scan_end(data, end - 1, depth),
    decreases remaining(data, pos), 2int,
{
    if pos < data.len() && data[pos] != 101 {
        if let Step::Done((v, next)) = spec_value(data, pos) {
            if let Step::Done((rest, e2)) = spec_list_items(data, next) {
                lemma_list_items_bounds(data, next);
                assert(vs[0] == v);
                assert(vs.subrange(1, vs.len() as int) =~= rest);
                lemma_scan_value(data, pos, depth, v, next);
                lemma_scan_list_items(data, next, depth, rest, e2);
            }
        }
    }
}

/// Over the entries of a dictionary the parser reads from `pos`, the scan
/// reaches the closing `e` at the depth it started from.
proof fn lemma_scan_dict_items(data: Seq<u8>, pos: int, depth: int, es: Seq<BEntry>, end: int)
    requires
        0 <= pos,
        1 <= depth,
        data.len() <= usize::MAX,
        spec_dict_items(data, pos) == Step::<(Seq<BEntry>, int), BencodeError>::Done((es, end)),
        end <= data.len(),
        depth + nesting_entries(es) <= i32::MAX,
    ensures
        pos < end,
        data[end - 1] == 101,
        spec_scan_end(data, pos, depth) == spec_scan_end(data, end - 1, depth),
    decreases remaining(data, pos), 2int,
{
    if pos < data.len() && data[pos] != 101 {
        if let Step::Done((key, knext)) = spec_read_bytes(data, pos) {
            if let Step::Done((v, next)) = spec_value(data, knext) {
                if let Step::Done((rest, e2)) = spec_dict_items(data, next) {
                    lemma_dict_items_bounds(data, next);
                    assert(es[0].value == v);
                    assert(es.subrange(1, es.len() as int) =~= rest);
                    lemma_scan_bytes(data, pos, depth, key, knext);
                    lemma_scan_value(data, knext, depth, v, next);
                    lemma_scan_dict_items(data, next, depth, rest, e2);
                }
            }
        }
    }
}

/// The end that is found for a dictionary is where the parser's reading of
/// that dictionary ends: the span covers every entry, however deeply lists
/// and dictionaries nest in it (up to the `i32` nesting that the scan
/// counts), and the closing `e` is its last byte.
pub proof fn dict_end_is_where_the_parsed_dictionary_ends(data: Seq<u8>, s: int, v: BValue, e: int)
    requires
        data.len() <= usize::MAX,
        0 <= s,
        spec_value(data, s) == Step::<(BValue, int), BencodeError>::Done((v, e)),
        v is Dict,
        e <= data.len(),
        nesting(v) <= i32::MAX,
    ensures
        spec_find_dict_end(data, s) == Step::<Option<int>, ()>::Done(Some(e)),
{
    assert(data[s] == 100);
    if let Step::Done((es, e2)) = spec_dict_items(data, s + 1) {
        assert(v == BValue::Dict(es) && e2 == e);
        lemma_scan_dict_items(data, s + 1, 1, es, e);
        assert(spec_scan_end(data, e - 1, 1) == spec_scan_end(data, e, 0));
        assert(spec_scan_end(data, e, 0) == Step::<Option<int>, ()>::Done(Some(e)));
    }
}

/// Where the search for `4:infod` gives bounds, they are those of a
/// dictionary whose end the scan finds.
proof fn lemma_search_info_finds_dict_end(data: Seq<u8>, i: int)
    requires
        0 <= i,
    ensures
        spec_search_info(data, i) matches Step::Done(Some((s, e))) ==> 0 <= s && spec_find_dict_end(
            data,
            s,
        ) == Step::<Option<int>, ()>::Done(Some(e)),
    decreases search_limit(data) - i,
{
    if i < search_limit(data) {
        lemma_search_info_finds_dict_end(data, i + 1);
    }
}

/// The info hash of a torrent is the SHA-1 digest of exactly the bytes
/// that the parser reads as a dictionary where the info dictionary starts:
/// from its `d` to its closing `e`, lists and nested dictionaries included.
pub proof fn info_hash_is_the_digest_of_the_whole_info_dictionary(
    data: Seq<u8>,
    f: TorrentFields,
    v: BValue,
    e: int,
)
    requires
        data.len() <= usize::MAX,
        spec_torrent_fields(data) == Step::<TorrentFields, TorrentError>::Done(f),
        spec_value(data, f.info_start) == Step::<(BValue, int), BencodeError>::Done((v, e)),
        v is Dict,
        e <= data.len(),
        nesting(v) <= i32::MAX,
    ensures
        f.info_end == e,
        torrent_spec(data, f).info_hash_bytes == sha1_digest(data.subrange(f.info_start, e)),
{
    lemma_search_info_finds_dict_end(data, 0);
    if let Step::Done(Some((s, e1))) = spec_search_info(data, 0) {
        assert(s == f.info_start && e1 == f.info_end);
        dict_end_is_where_the_parsed_dictionary_ends(data, s, v, e);
    }
}

// ------------------------------------------------------------------
// Reading the parsed value
// ------------------------------------------------------------------

/// The value of the first entry with key `key`.
pub open spec fn lookup(entries: Seq<BEntry>, key: Seq<u8>) -> Option<BValue>
    decreases entries.len(),
{
    if entries.len() == 0 {
        None
    } else if entries[0].key == key {
        Some(entries[0].value)
    } else {
        lookup(entries.drop_first(), key)
    }
}

pub open spec fn is_http(t: Seq<char>) -> bool {
    t.len() >= 4 && t[0] == 'h' && t[1] == 't' && t[2] == 't' && t[3] == 'p'
}

pub open spec fn announce_key() -> Seq<u8> {
    seq![97u8, 110, 110, 111, 117, 110, 99, 101]
}

pub open spec fn announce_list_key() -> Seq<u8> {
    seq![97u8, 110, 110, 111, 117, 110, 99, 101, 45, 108, 105, 115, 116]
}

pub open spec fn info_key() -> Seq<u8> {
    seq![105u8, 110, 102, 111]
}

pub open spec fn name_key() -> Seq<u8> {
    seq![110u8, 97, 109, 101]
}

pub open spec fn piece_length_key() -> Seq<u8> {
    seq![112u8, 105, 101, 99, 101, 32, 108, 101, 110, 103, 116, 104]
}

pub open spec fn length_key() -> Seq<u8> {
    seq![108u8, 101, 110, 103, 116, 104]
}

pub open spec fn files_key() -> Seq<u8> {
    seq![102u8, 105, 108, 101, 115]
}

/// Whether two byte strings are equal.
pub(crate) fn bytes_eq(a: &[u8], b: &[u8]) -> (r: bool)
    ensures
        r == (a@ == b@),
{
    if a.len() != b.len() {
        return false;
    }
    let mut i: usize = 0;
    while i < a.len()
        invariant
            a@.len() == b@.len(),
            i <= a@.len(),
            forall|j: int| 0 <= j < i ==> a@[j] == b@[j],
        decreases a@.len() - i,
    {
        if a[i] != b[i] {
            return false;
        }
        i = i + 1;
    }
    assert(a@ =~= b@);
    true
}

/// The value of the first entry with key `key`.
fn dict_get<'a>(entries: &'a Vec<(Vec<u8>, BencodeValue)>, key: &[u8]) -> (r: Option<&'a BencodeValue>)
    ensures
        match lookup(entries_view(entries@), key@) {
            Some(v) => r matches Some(x) && x@ == v,
            None => r is None,
        },
{
    let ghost es = entries_view(entries@);
    assert(es.skip(0) =~= es);
    let mut i: usize = 0;
    while i < entries.len()
        invariant
            i <= entries@.len(),
            es == entries_view(entries@),
            lookup(es, key@) == lookup(es.skip(i as int), key@),
        decreases entries@.len() - i,
    {
        proof {
            assert(es.skip(i as int)[0] == es[i as int]);
            assert(es.skip(i as int).drop_first() =~= es.skip(i + 1));
        }
        if bytes_eq(entries[i].0.as_slice(), key) {
            return Some(&entries[i].1);
        }
        i = i + 1;
    }
    None
}

fn starts_with_http(s: &str) -> (r: bool)
    ensures
        r == is_http(s@),
{
    s.unicode_len() >= 4 && s.get_char(0) == 'h' && s.get_char(1) == 't' && s.get_char(2) == 't'
        && s.get_char(3) == 'p'
}

// ------------------------------------------------------------------
// Trackers
// ------------------------------------------------------------------

pub open spec fn strings_view(v: Seq<String>) -> Seq<Seq<char>> {
    Seq::new(v.len(), |i: int| v[i]@)
}

/// The tracker of the `announce` entry, when it is an HTTP URL.
pub open spec fn first_tracker(root: Seq<BEntry>) -> Seq<Seq<char>> {
    match lookup(root, announce_key()) {
        Some(v) => match text_of(v) {
            Some(t) => if is_http(t) {
                seq![t]
            } else {
                Seq::empty()
            },
            None => Seq::empty(),
        },
        None => Seq::empty(),
    }
}

/// One URL of `announce-list`: added when it is HTTP and not yet listed.
pub open spec fn add_url(acc: Seq<Seq<char>>, u: BValue) -> Seq<Seq<char>> {
    match text_of(u) {
        Some(t) => if is_http(t) && !acc.contains(t) {
            acc.push(t)
        } else {
            acc
        },
        None => acc,
    }
}

pub open spec fn add_urls(acc: Seq<Seq<char>>, urls: Seq<BValue>) -> Seq<Seq<char>>
    decreases urls.len(),
{
    if urls.len() == 0 {
        acc
    } else {
        add_url(add_urls(acc, urls.drop_last()), urls.last())
    }
}

pub open spec fn add_tier(acc: Seq<Seq<char>>, tier: BValue) -> Seq<Seq<char>> {
    match tier {
        BValue::List(urls) => add_urls(acc, urls),
        _ => acc,
    }
}

pub open spec fn add_tiers(acc: Seq<Seq<char>>, tiers: Seq<BValue>) -> Seq<Seq<char>>
    decreases tiers.len(),
{
    if tiers.len() == 0 {
        acc
    } else {
        add_tier(add_tiers(acc, tiers.drop_last()), tiers.last())
    }
}

/// The HTTP trackers of a torrent: `announce`, then the URLs of the tiers
/// of `announce-list` in order, each listed once.
pub open spec fn collect_trackers(root: Seq<BEntry>) -> Seq<Seq<char>> {
    match lookup(root, announce_list_key()) {
        Some(BValue::List(tiers)) => add_tiers(first_tracker(root), tiers),
        _ => first_tracker(root),
    }
}

/// Every tracker is an HTTP URL, and none is listed twice.
pub open spec fn http_and_distinct(ts: Seq<Seq<char>>) -> bool {
    &&& forall|i: int| 0 <= i < ts.len() ==> is_http(#[trigger] ts[i])
    &&& forall|i: int, j: int| 0 <= i < j < ts.len() ==> ts[i] != ts[j]
}

proof fn lemma_add_url_keeps(acc: Seq<Seq<char>>, u: BValue)
    requires
        http_and_distinct(acc),
    ensures
        http_and_distinct(add_url(acc, u)),
{
    if let Some(t) = text_of(u) {
        if is_http(t) && !acc.contains(t) {
            let r = acc.push(t);
            assert forall|i: int, j: int| 0 <= i < j < r.len() implies r[i] != r[j] by {
                if j == acc.len() {
                    assert(acc[i] == r[i]);
                    if r[i] == r[j] {
                        assert(acc.contains(t));
                    }
                }
            }
        }
    }
}

proof fn lemma_add_urls_keeps(acc: Seq<Seq<char>>, urls: Seq<BValue>)
    requires
        http_and_distinct(acc),
    ensures
        http_and_distinct(add_urls(acc, urls)),
    decreases urls.len(),
{
    if urls.len() > 0 {
        lemma_add_urls_keeps(acc, urls.drop_last());
        lemma_add_url_keeps(add_urls(acc, urls.drop_last()), urls.last());
    }
}

proof fn lemma_add_tiers_keeps(acc: Seq<Seq<char>>, tiers: Seq<BValue>)
    requires
        http_and_distinct(acc),
    ensures
        http_and_distinct(add_tiers(acc, tiers)),
    decreases tiers.len(),
{
    if tiers.len() > 0 {
        lemma_add_tiers_keeps(acc, tiers.drop_last());
        if let BValue::List(urls) = tiers.last() {
            lemma_add_urls_keeps(add_tiers(acc, tiers.drop_last()), urls);
        }
    }
}

/// The trackers read from a torrent are HTTP URLs, each listed once.
pub proof fn trackers_are_http_and_distinct(root: Seq<BEntry>)
    ensures
        http_and_distinct(collect_trackers(root)),
{
    let first = first_tracker(root);
    assert(http_and_distinct(first));
    if let Some(BValue::List(tiers)) = lookup(root, announce_list_key()) {
        lemma_add_tiers_keeps(first, tiers);
    }
}

proof fn lemma_add_url_grows(acc: Seq<Seq<char>>, u: BValue)
    ensures
        forall|x: Seq<char>| acc.contains(x) ==> add_url(acc, u).contains(x),
        text_of(u) matches Some(t) ==> (is_http(t) ==> add_url(acc, u).contains(t)),
{
    if let Some(t) = text_of(u) {
        if is_http(t) && !acc.contains(t) {
            let r = acc.push(t);
            assert(r[acc.len() as int] == t);
            assert forall|x: Seq<char>| acc.contains(x) implies r.contains(x) by {
                let k = choose|k: int| 0 <= k < acc.len() && acc[k] == x;
                assert(r[k] == x);
            }
        }
    }
}

proof fn lemma_add_urls_grows(acc: Seq<Seq<char>>, urls: Seq<BValue>)
    ensures
        forall|x: Seq<char>| acc.contains(x) ==> add_urls(acc, urls).contains(x),
        forall|j: int, t: Seq<char>|
            0 <= j < urls.len() && text_of(urls[j]) == Some(t) && is_http(t) ==> add_urls(acc, urls).contains(t),
    decreases urls.len(),
{
    if urls.len() > 0 {
        let prev = add_urls(acc, urls.drop_last());
        lemma_add_urls_grows(acc, urls.drop_last());
        lemma_add_url_grows(prev, urls.last());
        assert forall|j: int, t: Seq<char>|
            0 <= j < urls.len() && text_of(urls[j]) == Some(t) && is_http(t) implies add_urls(acc, urls).contains(t) by {
            if j < urls.len() - 1 {
                assert(urls.drop_last()[j] == urls[j]);
            }
        }
    }
}

proof fn lemma_add_tiers_grows(acc: Seq<Seq<char>>, tiers: Seq<BValue>)
    ensures
        forall|x: Seq<char>| acc.contains(x) ==> add_tiers(acc, tiers).contains(x),
        forall|i: int, urls: Seq<BValue>, j: int, t: Seq<char>|
            0 <= i < tiers.len() && tiers[i] == BValue::List(urls) && 0 <= j < urls.len() && text_of(urls[j])
                == Some(t) && is_http(t) ==> add_tiers(acc, tiers).contains(t),
    decreases tiers.len(),
{
    if tiers.len() > 0 {
        let prev = add_tiers(acc, tiers.drop_last());
        lemma_add_tiers_grows(acc, tiers.drop_last());
        match tiers.last() {
            BValue::List(last_urls) => {
                lemma_add_urls_grows(prev, last_urls);
            },
            _ => {},
        }
        assert forall|i: int, urls: Seq<BValue>, j: int, t: Seq<char>|
            0 <= i < tiers.len() && tiers[i] == BValue::List(urls) && 0 <= j < urls.len() && text_of(urls[j])
                == Some(t) && is_http(t) implies add_tiers(acc, tiers).contains(t) by {
            if i < tiers.len() - 1 {
                assert(tiers.drop_last()[i] == tiers[i]);
            }
        }
    }
}

proof fn lemma_add_tiers_only_http(acc: Seq<Seq<char>>, tiers: Seq<BValue>, t: Seq<char>)
    requires
        add_tiers(acc, tiers).contains(t),
    ensures
        acc.contains(t) || exists|i: int, j: int|
            0 <= i < tiers.len() && #[trigger] tier_url(tiers, i, j) == Some(t),
    decreases tiers.len(),
{
    if tiers.len() > 0 {
        let prev = add_tiers(acc, tiers.drop_last());
        let n = tiers.len() - 1;
        let from_last = match tiers.last() {
            BValue::List(urls) => !prev.contains(t),
            _ => false,
        };
        if from_last {
            if let BValue::List(urls) = tiers.last() {
                lemma_add_urls_only_http(prev, urls, t);
                let j = choose|j: int| 0 <= j < urls.len() && text_of(urls[j]) == Some(t);
                assert(tier_url(tiers, n, j) == Some(t));
            }
        } else {
            lemma_add_tiers_only_http(acc, tiers.drop_last(), t);
            if !acc.contains(t) {
                let (i, j) = choose|i: int, j: int|
                    0 <= i < tiers.drop_last().len() && #[trigger] tier_url(tiers.drop_last(), i, j) == Some(t);
                assert(tiers.drop_last()[i] == tiers[i]);
                assert(tier_url(tiers, i, j) == Some(t));
            }
        }
    }
}

proof fn lemma_add_urls_only_http(acc: Seq<Seq<char>>, urls: Seq<BValue>, t: Seq<char>)
    requires
        add_urls(acc, urls).contains(t),
        !acc.contains(t),
    ensures
        exists|j: int| 0 <= j < urls.len() && text_of(urls[j]) == Some(t),
    decreases urls.len(),
{
    if urls.len() > 0 {
        let prev = add_urls(acc, urls.drop_last());
        let n = urls.len() - 1;
        if prev.contains(t) {
            lemma_add_urls_only_http(acc, urls.drop_last(), t);
            let j = choose|j: int| 0 <= j < urls.drop_last().len() && text_of(urls.drop_last()[j]) == Some(t);
            assert(urls.drop_last()[j] == urls[j]);
        } else {
            if let Some(x) = text_of(urls.last()) {
                if is_http(x) && !prev.contains(x) {
                    let r = prev.push(x);
                    let k = choose|k: int| 0 <= k < r.len() && r[k] == t;
                    if k < prev.len() {
                        assert(prev[k] == t);
                    }
                    assert(text_of(urls[n]) == Some(t));
                }
            }
        }
    } else {
        assert(add_urls(acc, urls) == acc);
    }
}

/// The URL at `j` of tier `i` of an announce list, when it is text.
pub open spec fn tier_url(tiers: Seq<BValue>, i: int, j: int) -> Option<Seq<char>> {
    match tiers[i] {
        BValue::List(urls) => if 0 <= j < urls.len() {
            text_of(urls[j])
        } else {
            None
        },
        _ => None,
    }
}

/// Every HTTP tracker of a torrent is read: the `announce` URL when it is
/// HTTP, and every HTTP URL of every tier of `announce-list`, whatever else
/// the tier holds.
pub proof fn every_http_tracker_is_read(root: Seq<BEntry>, t: Seq<char>)
    requires
        is_http(t),
        (lookup(root, announce_key()) matches Some(a) && text_of(a) == Some(t)) || (lookup(
            root,
            announce_list_key(),
        ) matches Some(BValue::List(tiers)) && exists|i: int, j: int|
            0 <= i < tiers.len() && #[trigger] tier_url(tiers, i, j) == Some(t)),
    ensures
        collect_trackers(root).contains(t),
{
    let first = first_tracker(root);
    if lookup(root, announce_key()) matches Some(a) && text_of(a) == Some(t) {
        assert(first[0] == t);
        assert(first.contains(t));
    }
    if let Some(BValue::List(tiers)) = lookup(root, announce_list_key()) {
        lemma_add_tiers_grows(first, tiers);
        if exists|i: int, j: int| 0 <= i < tiers.len() && #[trigger] tier_url(tiers, i, j) == Some(t) {
            let (i, j) = choose|i: int, j: int| 0 <= i < tiers.len() && #[trigger] tier_url(tiers, i, j) == Some(t);
            if let BValue::List(urls) = tiers[i] {
                assert(0 <= j < urls.len() && text_of(urls[j]) == Some(t));
            }
        }
    }
}

/// Only trackers of the torrent are read: each one is the `announce` URL
/// or a URL of a tier of `announce-list`.
pub proof fn only_the_torrents_trackers_are_read(root: Seq<BEntry>, t: Seq<char>)
    requires
        collect_trackers(root).contains(t),
    ensures
        (lookup(root, announce_key()) matches Some(a) && text_of(a) == Some(t)) || (lookup(
            root,
            announce_list_key(),
        ) matches Some(BValue::List(tiers)) && exists|i: int, j: int|
            0 <= i < tiers.len() && #[trigger] tier_url(tiers, i, j) == Some(t)),
{
    let first = first_tracker(root);
    if let Some(BValue::List(tiers)) = lookup(root, announce_list_key()) {
        lemma_add_tiers_only_http(first, tiers, t);
    }
    if first.contains(t) {
        let k = choose|k: int| 0 <= k < first.len() && first[k] == t;
        assert(first.len() == 1);
    }
}

proof fn lemma_add_urls_prefix(acc: Seq<Seq<char>>, urls: Seq<BValue>)
    ensures
        acc.len() <= add_urls(acc, urls).len(),
        forall|k: int| 0 <= k < acc.len() ==> #[trigger] add_urls(acc, urls)[k] == acc[k],
    decreases urls.len(),
{
    if urls.len() > 0 {
        lemma_add_urls_prefix(acc, urls.drop_last());
    }
}

proof fn lemma_add_tiers_prefix(acc: Seq<Seq<char>>, tiers: Seq<BValue>)
    ensures
        acc.len() <= add_tiers(acc, tiers).len(),
        forall|k: int| 0 <= k < acc.len() ==> #[trigger] add_tiers(acc, tiers)[k] == acc[k],
    decreases tiers.len(),
{
    if tiers.len() > 0 {
        let prev = add_tiers(acc, tiers.drop_last());
        lemma_add_tiers_prefix(acc, tiers.drop_last());
        if let BValue::List(urls) = tiers.last() {
            lemma_add_urls_prefix(prev, urls);
            assert forall|k: int| 0 <= k < acc.len() implies #[trigger] add_tiers(acc, tiers)[k] == acc[k] by {
                assert(add_urls(prev, urls)[k] == prev[k]);
            }
        }
    }
}

/// The `announce` URL, when it is HTTP, is the first tracker, before any
/// URL of `announce-list`.
pub proof fn announce_tracker_comes_first(root: Seq<BEntry>, t: Seq<char>)
    requires
        lookup(root, announce_key()) matches Some(a) && text_of(a) == Some(t),
        is_http(t),
    ensures
        collect_trackers(root).len() >= 1,
        collect_trackers(root)[0] == t,
{
    let first = first_tracker(root);
    assert(first == seq![t]);
    if let Some(BValue::List(tiers)) = lookup(root, announce_list_key()) {
        lemma_add_tiers_prefix(first, tiers);
        assert(add_tiers(first, tiers)[0] == first[0]);
    }
}

fn contains_string(v: &Vec<String>, s: &String) -> (r: bool)
    ensures
        r == strings_view(v@).contains(s@),
{
    let mut i: usize = 0;
    while i < v.len()
        invariant
            i <= v@.len(),
            forall|j: int| 0 <= j < i ==> strings_view(v@)[j] != s@,
        decreases v@.len() - i,
    {
        if v[i] == *s {
            assert(strings_view(v@)[i as int] == s@);
            return true;
        }
        i = i + 1;
    }
    false
}

fn key_vec(which: u8) -> (k: Vec<u8>)
    ensures
        which == 0 ==> k@ == announce_key(),
        which == 1 ==> k@ == announce_list_key(),
        which == 2 ==> k@ == info_key(),
        which == 3 ==> k@ == name_key(),
        which == 4 ==> k@ == piece_length_key(),
        which == 5 ==> k@ == length_key(),
        which == 6 ==> k@ == files_key(),
{
    let k: Vec<u8> = if which == 0 {
        vec![97u8, 110, 110, 111, 117, 110, 99, 101]
    } else if which == 1 {
        vec![97u8, 110, 110, 111, 117, 110, 99, 101, 45, 108, 105, 115, 116]
    } else if which == 2 {
        vec![105u8, 110, 102, 111]
    } else if which == 3 {
        vec![110u8, 97, 109, 101]
    } else if which == 4 {
        vec![112u8, 105, 101, 99, 101, 32, 108, 101, 110, 103, 116, 104]
    } else if which == 5 {
        vec![108u8, 101, 110, 103, 116, 104]
    } else {
        vec![102u8, 105, 108, 101, 115]
    };
    proof {
        if which == 0 {
            assert(k@ =~= announce_key());
        } else if which == 1 {
            assert(k@ =~= announce_list_key());
        } else if which == 2 {
            assert(k@ =~= info_key());
        } else if which == 3 {
            assert(k@ =~= name_key());
        } else if which == 4 {
            assert(k@ =~= piece_length_key());
        } else if which == 5 {
            assert(k@ =~= length_key());
        } else if which == 6 {
            assert(k@ =~= files_key());
        }
    }
    k
}

fn add_url_exec(trackers: &mut Vec<String>, u: &BencodeValue)
    ensures
        strings_view(final(trackers)@) == add_url(strings_view(old(trackers)@), u@),
{
    if let Some(url) = u.as_string() {
        if starts_with_http(url) {
            let owned = url.to_owned();
            if !contains_string(trackers, &owned) {
                trackers.push(owned);
                assert(strings_view(trackers@) =~= strings_view(old(trackers)@).push(owned@));
            }
        }
    }
}

fn collect_trackers_exec(root: &Vec<(Vec<u8>, BencodeValue)>) -> (r: Vec<String>)
    ensures
        strings_view(r@) == collect_trackers(entries_view(root@)),
{
    let ghost es = entries_view(root@);
    let mut trackers: Vec<String> = Vec::new();
    if let Some(announce) = dict_get(root, key_vec(0).as_slice()) {
        if let Some(url) = announce.as_string() {
            if starts_with_http(url) {
                trackers.push(url.to_owned());
            }
        }
    }
    proof {
        assert(strings_view(trackers@) =~= first_tracker(es));
    }
    if let Some(list) = dict_get(root, key_vec(1).as_slice()) {
        if let Some(tiers) = list.as_list() {
            let ghost tv = values_view(tiers@);
            let ghost first = first_tracker(es);
            let mut i: usize = 0;
            while i < tiers.len()
                invariant
                    i <= tiers@.len(),
                    tv == values_view(tiers@),
                    strings_view(trackers@) == add_tiers(first, tv.take(i as int)),
                decreases tiers@.len() - i,
            {
                proof {
                    assert(tv.take(i + 1).drop_last() =~= tv.take(i as int));
                    assert(tv.take(i + 1).last() == tiers@[i as int]@);
                }
                if let Some(urls) = tiers[i].as_list() {
                    let ghost uv = values_view(urls@);
                    let ghost before = strings_view(trackers@);
                    let mut j: usize = 0;
                    while j < urls.len()
                        invariant
                            j <= urls@.len(),
                            uv == values_view(urls@),
                            strings_view(trackers@) == add_urls(before, uv.take(j as int)),
                        decreases urls@.len() - j,
                    {
                        proof {
                            assert(uv.take(j + 1).drop_last() =~= uv.take(j as int));
                            assert(uv.take(j + 1).last() == urls@[j as int]@);
                        }
                        add_url_exec(&mut trackers, &urls[j]);
                        j = j + 1;
                    }
                    proof {
                        assert(uv.take(urls@.len() as int) =~= uv);
                    }
                }
                i = i + 1;
            }
            proof {
                assert(tv.take(tiers@.len() as int) =~= tv);
            }
        }
    }
    trackers
}

// ------------------------------------------------------------------
// Sizes
// ------------------------------------------------------------------

/// Why a torrent file is refused.
#[derive(Debug, Clone, Copy, PartialEq, Eq, Structural)]
pub enum TorrentError {
    /// No `4:infod` whose dictionary closes.
    NoInfoDict,
    /// The file is not bencode.
    Bencode(BencodeError),
    /// The top value is not a dictionary.
    RootNotDict,
    /// Neither `announce` nor `announce-list` gives an HTTP tracker.
    NoHttpTrackers,
    /// No `info` entry.
    MissingInfo,
    /// `info` is not a dictionary.
    InfoNotDict,
    /// No `name` in `info` that is UTF-8 text.
    MissingName,
    /// No integer `piece length` in `info`.
    MissingPieceLength,
    /// `length` in `info` is not an integer.
    InvalidLength,
    /// `files` is not a list.
    FilesNotList,
    /// An entry of `files` is not a dictionary.
    FileNotDict,
    /// An entry of `files` has no integer `length`.
    FileMissingLength,
    /// `info` has neither `length` nor `files`.
    NoLengthOrFiles,
}

impl TorrentError {
    /// The message of the error.
    pub open spec fn text(self) -> Seq<char> {
        match self {
            TorrentError::Bencode(e) => e.text(),
            TorrentError::NoInfoDict => "Failed to find info dictionary in torrent"@,
            TorrentError::RootNotDict => "Torrent root is not a dictionary"@,
            TorrentError::NoHttpTrackers => "No HTTP trackers found in torrent file"@,
            TorrentError::MissingInfo => "No info dictionary in torrent"@,
            TorrentError::InfoNotDict => "Info is not a dictionary"@,
            TorrentError::MissingName => "No name in info dictionary"@,
            TorrentError::MissingPieceLength => "No piece length in info dictionary"@,
            TorrentError::InvalidLength => "Invalid length"@,
            TorrentError::FilesNotList => "Files is not a list"@,
            TorrentError::FileNotDict => "File entry is not a dict"@,
            TorrentError::FileMissingLength => "File has no length"@,
            TorrentError::NoLengthOrFiles => "Torrent has neither 'length' nor 'files' field"@,
        }
    }

    /// The message of the error.
    pub fn message(&self) -> (m: String)
        ensures
            m@ == self.text(),
    {
        let v: Vec<char> = match self {
            TorrentError::Bencode(e) => chars_of(e.message().as_str()),
            TorrentError::NoInfoDict => chars_of("Failed to find info dictionary in torrent"),
            TorrentError::RootNotDict => chars_of("Torrent root is not a dictionary"),
            TorrentError::NoHttpTrackers => chars_of("No HTTP trackers found in torrent file"),
            TorrentError::MissingInfo => chars_of("No info dictionary in torrent"),
            TorrentError::InfoNotDict => chars_of("Info is not a dictionary"),
            TorrentError::MissingName => chars_of("No name in info dictionary"),
            TorrentError::MissingPieceLength => chars_of("No piece length in info dictionary"),
            TorrentError::InvalidLength => chars_of("Invalid length"),
            TorrentError::FilesNotList => chars_of("Files is not a list"),
            TorrentError::FileNotDict => chars_of("File entry is not a dict"),
            TorrentError::FileMissingLength => chars_of("File has no length"),
            TorrentError::NoLengthOrFiles => chars_of("Torrent has neither 'length' nor 'files' field"),
        };
        string_from_chars(&v)
    }
}

/// Sum of the `length` of the files (each converted with `as u64`), in
/// order; a sum past `u64::MAX` cannot be read (`Step::Panics`).
pub open spec fn spec_files_total(files: Seq<BValue>) -> Step<u64, TorrentError>
    decreases files.len(),
{
    if files.len() == 0 {
        Step::Done(0u64)
    } else {
        match spec_files_total(files.drop_last()) {
            Step::Done(t) => match files.last() {
                BValue::Dict(fd) => match lookup(fd, length_key()) {
                    Some(BValue::Int(v)) => if t + (v as u64) > u64::MAX {
                        Step::Panics
                    } else {
                        Step::Done((t + (v as u64)) as u64)
                    },
                    _ => Step::Fails(TorrentError::FileMissingLength),
                },
                _ => Step::Fails(TorrentError::FileNotDict),
            },
            Step::Fails(e) => Step::Fails(e),
            Step::Panics => Step::Panics,
        }
    }
}

proof fn lemma_files_total_stops(files: Seq<BValue>, k: int)
    requires
        0 <= k <= files.len(),
        !(spec_files_total(files.take(k)) is Done),
    ensures
        spec_files_total(files) == spec_files_total(files.take(k)),
    decreases files.len() - k,
{
    if k == files.len() {
        assert(files.take(k) =~= files);
    } else {
        assert(files.take(k + 1).drop_last() =~= files.take(k));
        lemma_files_total_stops(files, k + 1);
    }
}

/// The total size: `length` (single file), or the sum over `files`.
pub open spec fn spec_total_size(info: Seq<BEntry>) -> Step<u64, TorrentError> {
    match lookup(info, length_key()) {
        Some(BValue::Int(v)) => Step::Done(v as u64),
        Some(_) => Step::Fails(TorrentError::InvalidLength),
        None => match lookup(info, files_key()) {
            Some(BValue::List(files)) => spec_files_total(files),
            Some(_) => Step::Fails(TorrentError::FilesNotList),
            None => Step::Fails(TorrentError::NoLengthOrFiles),
        },
    }
}

fn total_size_of(info: &Vec<(Vec<u8>, BencodeValue)>) -> (r: Result<u64, Halt<TorrentError>>)
    ensures
        match spec_total_size(entries_view(info@)) {
            Step::Done(t) => r == Ok::<u64, Halt<TorrentError>>(t),
            Step::Fails(e) => r == Err::<u64, Halt<TorrentError>>(Halt::Fails(e)),
            Step::Panics => r == Err::<u64, Halt<TorrentError>>(Halt::Panics),
        },
{
    if let Some(length) = dict_get(info, key_vec(5).as_slice()) {
        match length.as_int() {
            Some(v) => {
                return Ok(v as u64);
            },
            None => {
                return Err(Halt::Fails(TorrentError::InvalidLength));
            },
        }
    }
    let files = match dict_get(info, key_vec(6).as_slice()) {
        None => {
            return Err(Halt::Fails(TorrentError::NoLengthOrFiles));
        },
        Some(f) => match f.as_list() {
            Some(files) => files,
            None => {
                return Err(Halt::Fails(TorrentError::FilesNotList));
            },
        },
    };
    let ghost fv = values_view(files@);
    let mut total: u64 = 0;
    let mut i: usize = 0;
    proof {
        assert(fv.take(0) =~= Seq::<BValue>::empty());
    }
    while i < files.len()
        invariant
            i <= files@.len(),
            fv == values_view(files@),
            spec_total_size(entries_view(info@)) == spec_files_total(fv),
            spec_files_total(fv.take(i as int)) == Step::<u64, TorrentError>::Done(total),
        decreases files@.len() - i,
    {
        proof {
            assert(fv.take(i + 1).drop_last() =~= fv.take(i as int));
            assert(fv.take(i + 1).last() == files@[i as int]@);
        }
        let fd = match files[i].as_dict() {
            Some(fd) => fd,
            None => {
                proof {
                    assert(!(files@[i as int]@ is Dict));
                    assert(spec_files_total(fv.take(i + 1)) == Step::<u64, TorrentError>::Fails(
                        TorrentError::FileNotDict,
                    ));
                    lemma_files_total_stops(fv, i + 1);
                }
                return Err(Halt::Fails(TorrentError::FileNotDict));
            },
        };
        let found = match dict_get(fd, key_vec(5).as_slice()) {
            Some(v) => v.as_int(),
            None => None,
        };
        let length = match found {
            Some(v) => v as u64,
            None => {
                proof {
                    assert(files@[i as int]@ == BValue::Dict(entries_view(fd@)));
                    assert(spec_files_total(fv.take(i + 1)) == Step::<u64, TorrentError>::Fails(
                        TorrentError::FileMissingLength,
                    ));
                    lemma_files_total_stops(fv, i + 1);
                }
                return Err(Halt::Fails(TorrentError::FileMissingLength));
            },
        };
        if length > u64::MAX - total {
            proof {
                lemma_files_total_stops(fv, i + 1);
            }
            return Err(Halt::Panics);
        }
        total = total + length;
        i = i + 1;
    }
    proof {
        assert(fv.take(files@.len() as int) =~= fv);
    }
    Ok(total)
}

// ------------------------------------------------------------------
// The torrent
// ------------------------------------------------------------------

/// What a torrent file gives, but its hash.
pub struct TorrentFields {
    pub name: Seq<char>,
    pub total_size: u64,
    pub piece_length: u64,
    pub info_start: int,
    pub info_end: int,
    pub trackers: Seq<Seq<char>>,
}

/// The metadata of a torrent.
pub struct TorrentSpec {
    pub name: Seq<char>,
    pub total_size: u64,
    pub piece_length: u64,
    pub info_hash: Seq<char>,
    pub info_hash_bytes: Seq<u8>,
    pub trackers: Seq<Seq<char>>,
}

pub open spec fn fields_from_info(
    info: Seq<BEntry>,
    trackers: Seq<Seq<char>>,
    s: int,
    e: int,
) -> Step<TorrentFields, TorrentError> {
    match lookup(info, name_key()) {
        Some(nv) => match text_of(nv) {
            Some(name) => match lookup(info, piece_length_key()) {
                Some(BValue::Int(pl)) => match spec_total_size(info) {
                    Step::Done(total) => Step::Done(
                        TorrentFields {
                            name: name,
                            total_size: total,
                            piece_length: pl as u64,
                            info_start: s,
                            info_end: e,
                            trackers: trackers,
                        },
                    ),
                    Step::Fails(err) => Step::Fails(err),
                    Step::Panics => Step::Panics,
                },
                _ => Step::Fails(TorrentError::MissingPieceLength),
            },
            None => Step::Fails(TorrentError::MissingName),
        },
        None => Step::Fails(TorrentError::MissingName),
    }
}

pub open spec fn fields_from_root(root: Seq<BEntry>, s: int, e: int) -> Step<TorrentFields, TorrentError> {
    let trackers = collect_trackers(root);
    if trackers.len() == 0 {
        Step::Fails(TorrentError::NoHttpTrackers)
    } else {
        match lookup(root, info_key()) {
            None => Step::Fails(TorrentError::MissingInfo),
            Some(BValue::Dict(info)) => fields_from_info(info, trackers, s, e),
            Some(_) => Step::Fails(TorrentError::InfoNotDict),
        }
    }
}

/// A run of the torrent reader on `data`, without the hashing: the
/// info dictionary's bounds are found first, then the whole file is parsed
/// as bencode, then the trackers, the info dictionary, the name, the piece
/// length and the total size are read, in that order.
pub open spec fn spec_torrent_fields(data: Seq<u8>) -> Step<TorrentFields, TorrentError> {
    match spec_search_info(data, 0) {
        Step::Panics => Step::Panics,
        Step::Done(Some((s, e))) => match spec_value(data, 0) {
            Step::Panics => Step::Panics,
            Step::Fails(err) => Step::Fails(TorrentError::Bencode(err)),
            Step::Done((root, _)) => match root {
                BValue::Dict(entries) => fields_from_root(entries, s, e),
                _ => Step::Fails(TorrentError::RootNotDict),
            },
        },
        _ => Step::Fails(TorrentError::NoInfoDict),
    }
}

/// The torrent that `data` describes, once its fields are read: the info
/// hash is the SHA-1 digest of the raw bytes of the info dictionary, and its
/// URL encoding.
pub open spec fn torrent_spec(data: Seq<u8>, f: TorrentFields) -> TorrentSpec {
    let digest = sha1_digest(data.subrange(f.info_start, f.info_end));
    TorrentSpec {
        name: f.name,
        total_size: f.total_size,
        piece_length: f.piece_length,
        info_hash: url_encode(digest),
        info_hash_bytes: digest,
        trackers: f.trackers,
    }
}

/// Metadata of a torrent.
#[derive(Debug, Clone)]
pub struct TorrentInfo {
    /// Torrent name
    pub name: String,
    /// Total size in bytes
    pub total_size: u64,
    /// Piece size in bytes
    pub piece_length: u64,
    /// URL-encoded SHA1 info hash (for tracker requests)
    pub info_hash: String,
    /// Raw info hash bytes (20 bytes)
    pub info_hash_bytes: Vec<u8>,
    /// List of tracker URLs (HTTP only)
    pub trackers: Vec<String>,
}

impl View for TorrentInfo {
    type V = TorrentSpec;

    open spec fn view(&self) -> TorrentSpec {
        TorrentSpec {
            name: self.name@,
            total_size: self.total_size,
            piece_length: self.piece_length,
            info_hash: self.info_hash@,
            info_hash_bytes: self.info_hash_bytes@,
            trackers: strings_view(self.trackers@),
        }
    }
}

struct Fields {
    name: String,
    total_size: u64,
    piece_length: u64,
    info_start: usize,
    info_end: usize,
    trackers: Vec<String>,
}

spec fn fields_agree(x: Fields, f: TorrentFields) -> bool {
    &&& x.name@ == f.name
    &&& x.total_size == f.total_size
    &&& x.piece_length == f.piece_length
    &&& x.info_start == f.info_start
    &&& x.info_end == f.info_end
    &&& strings_view(x.trackers@) == f.trackers
}

fn read_info(
    info: &Vec<(Vec<u8>, BencodeValue)>,
    trackers: Vec<String>,
    s: usize,
    e: usize,
) -> (r: Result<Fields, Halt<TorrentError>>)
    ensures
        match fields_from_info(entries_view(info@), strings_view(trackers@), s as int, e as int) {
            Step::Done(f) => r matches Ok(x) && fields_agree(x, f),
            Step::Fails(err) => r matches Err(Halt::Fails(x)) && x == err,
            Step::Panics => r matches Err(Halt::Panics),
        },
{
    let name = match dict_get(info, key_vec(3).as_slice()) {
        Some(nv) => match nv.as_string() {
            Some(n) => n.to_owned(),
            None => {
                return Err(Halt::Fails(TorrentError::MissingName));
            },
        },
        None => {
            return Err(Halt::Fails(TorrentError::MissingName));
        },
    };
    let piece_length = match dict_get(info, key_vec(4).as_slice()) {
        Some(v) => match v.as_int() {
            Some(pl) => pl as u64,
            None => {
                return Err(Halt::Fails(TorrentError::MissingPieceLength));
            },
        },
        None => {
            return Err(Halt::Fails(TorrentError::MissingPieceLength));
        },
    };
    let total_size = match total_size_of(info) {
        Ok(t) => t,
        Err(h) => {
            return Err(h);
        },
    };
    Ok(Fields { name, total_size, piece_length, info_start: s, info_end: e, trackers })
}

fn torrent_fields(data: &[u8]) -> (r: Result<Fields, Halt<TorrentError>>)
    requires
        data@.len() <= usize::MAX / 2,
    ensures
        match spec_torrent_fields(data@) {
            Step::Done(f) => r matches Ok(x) && fields_agree(x, f),
            Step::Fails(err) => r matches Err(Halt::Fails(x)) && x == err,
            Step::Panics => r matches Err(Halt::Panics),
        },
        r matches Ok(x) ==> x.info_start < x.info_end <= data@.len(),
{
    let (s, e) = match find_info_dict_bounds(data) {
        Err(_) => {
            return Err(Halt::Panics);
        },
        Ok(None) => {
            return Err(Halt::Fails(TorrentError::NoInfoDict));
        },
        Ok(Some(b)) => b,
    };
    let root = match parse_bencode(data, 0) {
        Err(Halt::Panics) => {
            return Err(Halt::Panics);
        },
        Err(Halt::Fails(err)) => {
            return Err(Halt::Fails(TorrentError::Bencode(err)));
        },
        Ok((v, _)) => v,
    };
    let entries = match root.as_dict() {
        Some(entries) => entries,
        None => {
            return Err(Halt::Fails(TorrentError::RootNotDict));
        },
    };
    let trackers = collect_trackers_exec(entries);
    if trackers.len() == 0 {
        return Err(Halt::Fails(TorrentError::NoHttpTrackers));
    }
    match dict_get(entries, key_vec(2).as_slice()) {
        None => Err(Halt::Fails(TorrentError::MissingInfo)),
        Some(v) => match v.as_dict() {
            Some(info) => read_info(info, trackers, s, e),
            None => Err(Halt::Fails(TorrentError::InfoNotDict)),
        },
    }
}

/// Parses a torrent file and extracts its metadata. The info hash is the
/// SHA-1 digest (20 bytes) of the raw bytes of the info dictionary.
pub fn parse_torrent(data: &[u8]) -> (res: Result<TorrentInfo, TorrentError>)
    requires
        data@.len() <= usize::MAX / 2,
        !(spec_torrent_fields(data@) is Panics),
    ensures
        match spec_torrent_fields(data@) {
            Step::Done(f) => res matches Ok(t) && t@ == torrent_spec(data@, f),
            Step::Fails(err) => res == Err::<TorrentInfo, TorrentError>(err),
            Step::Panics => false,
        },
        res matches Ok(t) ==> t.info_hash_bytes@.len() == 20,
{
    match torrent_fields(data) {
        Err(Halt::Fails(err)) => Err(err),
        Err(Halt::Panics) => Err(TorrentError::NoInfoDict),
        Ok(f) => {
            let info_bytes = copy_range(data, f.info_start, f.info_end);
            let info_hash_bytes = sha1_of(info_bytes.as_slice());
            let info_hash = url_encode_bytes(info_hash_bytes.as_slice());
            Ok(
                TorrentInfo {
                    name: f.name,
                    total_size: f.total_size,
                    piece_length: f.piece_length,
                    info_hash,
                    info_hash_bytes,
                    trackers: f.trackers,
                },
            )
        },
    }
}

/// Whether `data` cannot be read as a torrent at all: a byte string runs
/// past the end of the data, or a length or a sum runs past the integer
/// range.
pub fn torrent_parse_panics(data: &[u8]) -> (r: bool)
    requires
        data@.len() <= usize::MAX / 2,
    ensures
        r == (spec_torrent_fields(data@) is Panics),
{
    match torrent_fields(data) {
        Err(Halt::Panics) => true,
        _ => false,
    }
}

} // verus!
