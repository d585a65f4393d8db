//! Decimal numbers, characters and strings: what the parsers and the URL
//! builder need of them, with the standard library's behaviour stated.
use vstd::prelude::*;

verus! {

// ------------------------------------------------------------------
// Decimal text
// ------------------------------------------------------------------

/// ASCII `0`..=`9`.
pub open spec fn is_digit(b: u8) -> bool {
    48 <= b <= 57
}

pub open spec fn all_digits(s: Seq<u8>) -> bool {
    forall|i: int| 0 <= i < s.len() ==> is_digit(#[trigger] s[i])
}

/// The number that a string of ASCII digits denotes.
pub open spec fn digits_value(s: Seq<u8>) -> nat
    decreases s.len(),
{
    if s.len() == 0 {
        0
    } else {
        digits_value(s.drop_last()) * 10 + (s.last() - 48) as nat
    }
}

/// What `str::parse` gives for an unsigned integer type whose largest value
/// is `max`, on the UTF-8 text `text`: an optional `+`, then one or more
/// ASCII digits, whose value fits.
pub open spec fn parse_unsigned_text(text: Seq<u8>, max: int) -> Option<int> {
    let digits = if text.len() > 0 && text[0] == 43 {
        text.drop_first()
    } else {
        text
    };
    if digits.len() > 0 && all_digits(digits) && digits_value(digits) <= max {
        Some(digits_value(digits) as int)
    } else {
        None
    }
}

/// What `str::parse::<i64>` gives on `text`: an optional sign, then one or
/// more ASCII digits, whose value fits in an `i64`.
pub open spec fn parse_i64_text(text: Seq<u8>) -> Option<int> {
    if text.len() > 0 && text[0] == 45 {
        let digits = text.drop_first();
        if digits.len() > 0 && all_digits(digits) && digits_value(digits) <= 0x8000_0000_0000_0000 {
            Some(-(digits_value(digits) as int))
        } else {
            None
        }
    } else {
        parse_unsigned_text(text, i64::MAX as int)
    }
}

proof fn lemma_digits_value_prefix(s: Seq<u8>, k: int)
    requires
        0 <= k <= s.len(),
        all_digits(s),
    ensures
        digits_value(s.take(k)) <= digits_value(s),
    decreases s.len(),
{
    if k < s.len() {
        assert(s.drop_last().take(k) =~= s.take(k));
        lemma_digits_value_prefix(s.drop_last(), k);
    } else {
        assert(s.take(k) =~= s);
    }
}

proof fn lemma_digits_value_step(s: Seq<u8>, i: int)
    requires
        0 <= i < s.len(),
    ensures
        digits_value(s.take(i + 1)) == digits_value(s.take(i)) * 10 + (s[i] - 48) as nat,
{
    assert(s.take(i + 1).drop_last() =~= s.take(i));
}

/// Parses `data[from..end]` as one or more ASCII digits whose value is at
/// most `max`.
fn parse_digits(data: &[u8], from: usize, end: usize, max: u64) -> (res: Option<u64>)
    requires
        from <= end <= data@.len(),
        max >= 9,
    ensures
        ({
            let s = data@.subrange(from as int, end as int);
            match res {
                Some(v) => s.len() > 0 && all_digits(s) && digits_value(s) <= max && v == digits_value(s),
                None => !(s.len() > 0 && all_digits(s) && digits_value(s) <= max),
            }
        }),
{
    let ghost s = data@.subrange(from as int, end as int);
    if from == end {
        return None;
    }
    let mut i = from;
    let mut acc: u64 = 0;
    while i < end
        invariant
            from <= i <= end <= data@.len(),
            from < end,
            s == data@.subrange(from as int, end as int),
            all_digits(s.take(i - from)),
            acc == digits_value(s.take(i - from)),
            acc <= max,
            max >= 9,
        decreases end - i,
    {
        let b = data[i];
        if !(48 <= b && b <= 57) {
            proof {
                assert(s[i - from] == b);
            }
            return None;
        }
        let d = (b - 48) as u64;
        proof {
            lemma_digits_value_step(s, i - from);
        }
        if acc > (max - d) / 10 {
            proof {
                assert(acc * 10 + d > max) by (nonlinear_arith)
                    requires
                        acc > (max - d) / 10,
                        d <= 9,
                        max >= 9,
                ;
                if all_digits(s) {
                    lemma_digits_value_prefix(s, i - from + 1);
                }
            }
            return None;
        }
        proof {
            assert(acc * 10 + d <= max) by (nonlinear_arith)
                requires
                    acc <= (max - d) / 10,
                    d <= 9,
                    max >= 9,
            ;
            assert(all_digits(s.take(i - from + 1))) by {
                assert forall|j: int| 0 <= j < s.take(i - from + 1).len() implies is_digit(
                    #[trigger] s.take(i - from + 1)[j],
                ) by {
                    if j < i - from {
                        assert(s.take(i - from + 1)[j] == s.take(i - from)[j]);
                    }
                }
            }
        }
        acc = acc * 10 + d;
        i = i + 1;
    }
    proof {
        assert(s.take(end - from) =~= s);
    }
    Some(acc)
}

/// `str::parse::<usize>` on the bytes `data[from..end]` (text that is not
/// UTF-8 is refused by both, so the bytes can be read directly).
pub fn parse_usize_bytes(data: &[u8], from: usize, end: usize) -> (res: Option<usize>)
    requires
        from <= end <= data@.len(),
    ensures
        match res {
            Some(v) => parse_unsigned_text(data@.subrange(from as int, end as int), usize::MAX as int)
                == Some(v as int),
            None => parse_unsigned_text(data@.subrange(from as int, end as int), usize::MAX as int) is None,
        },
{
    let ghost text = data@.subrange(from as int, end as int);
    let mut start = from;
    if from < end && data[from] == 43 {
        start = from + 1;
        assert(data@.subrange(start as int, end as int) =~= text.drop_first());
    } else {
        assert(data@.subrange(start as int, end as int) =~= text);
    }
    match parse_digits(data, start, end, usize::MAX as u64) {
        Some(v) => Some(v as usize),
        None => None,
    }
}

/// `str::parse::<i64>` on the bytes `data[from..end]`.
pub fn parse_i64_bytes(data: &[u8], from: usize, end: usize) -> (res: Option<i64>)
    requires
        from <= end <= data@.len(),
    ensures
        match res {
            Some(v) => parse_i64_text(data@.subrange(from as int, end as int)) == Some(v as int),
            None => parse_i64_text(data@.subrange(from as int, end as int)) is None,
        },
{
    let ghost text = data@.subrange(from as int, end as int);
    if from < end && data[from] == 45 {
        assert(data@.subrange(from + 1, end as int) =~= text.drop_first());
        match parse_digits(data, from + 1, end, 0x8000_0000_0000_0000u64) {
            Some(v) => {
                if v == 0x8000_0000_0000_0000u64 {
                    Some(i64::MIN)
                } else {
                    let w = v as i64;
                    Some(-w)
                }
            },
            None => None,
        }
    } else {
        let mut start = from;
        if from < end && data[from] == 43 {
            start = from + 1;
            assert(data@.subrange(start as int, end as int) =~= text.drop_first());
        } else {
            assert(data@.subrange(start as int, end as int) =~= text);
        }
        match parse_digits(data, start, end, i64::MAX as u64) {
            Some(v) => Some(v as i64),
            None => None,
        }
    }
}

// ------------------------------------------------------------------
// Characters
// ------------------------------------------------------------------

/// The character of the decimal digit `d` (`d < 10`).
pub open spec fn digit_char(d: nat) -> char {
    ((d + 48) as u8) as char
}

/// The decimal text of `n`, as `to_string` writes an unsigned integer.
pub open spec fn decimal_chars(n: nat) -> Seq<char>
    decreases n,
{
    if n < 10 {
        seq![digit_char(n)]
    } else {
        decimal_chars(n / 10).push(digit_char(n % 10))
    }
}

/// The decimal text of `n`.
pub fn u64_decimal(n: u64) -> (res: Vec<char>)
    ensures
        res@ == decimal_chars(n as nat),
    decreases n,
{
    if n < 10 {
        let c = ((n as u8) + 48) as char;
        let mut v = Vec::new();
        v.push(c);
        proof {
            assert(v@ =~= seq![digit_char(n as nat)]);
        }
        v
    } else {
        let mut v = u64_decimal(n / 10);
        let c = (((n % 10) as u8) + 48) as char;
        v.push(c);
        v
    }
}

/// Lowercase hexadecimal digit of `d` (`d < 16`), as `{:x}` writes it.
pub open spec fn hex_lower(d: u8) -> char {
    if d < 10 {
        ((d + 48) as u8) as char
    } else {
        ((d + 87) as u8) as char
    }
}

pub fn hex_lower_char(d: u8) -> (c: char)
    requires
        d < 16,
    ensures
        c == hex_lower(d),
{
    if d < 10 {
        (d + 48) as char
    } else {
        (d + 87) as char
    }
}

// ------------------------------------------------------------------
// Strings
// ------------------------------------------------------------------

/// `String::push` appends one character.
pub assume_specification[ String::push ](s: &mut String, ch: char)
    ensures
        final(s)@ == old(s)@.push(ch),
;

#[verifier::external_type_specification]
#[verifier::external_body]
pub struct ExUtf8Error(core::str::Utf8Error);

/// `std::str::from_utf8` succeeds exactly on valid UTF-8, and then gives the
/// characters that the bytes encode.
pub assume_specification[ core::str::from_utf8 ](v: &[u8]) -> (res: Result<&str, core::str::Utf8Error>)
    ensures
        res is Ok <==> vstd::utf8::valid_utf8(v@),
        res matches Ok(s) ==> s@ == vstd::utf8::decode_utf8(v@),
;

/// The string whose characters are `chars`.
pub fn string_from_chars(chars: &Vec<char>) -> (res: String)
    ensures
        res@ == chars@,
{
    let mut res = String::new();
    let mut i: usize = 0;
    while i < chars.len()
        invariant
            i <= chars@.len(),
            res@ == chars@.take(i as int),
        decreases chars@.len() - i,
    {
        res.push(chars[i]);
        proof {
            assert(chars@.take(i + 1) =~= chars@.take(i as int).push(chars@[i as int]));
        }
        i = i + 1;
    }
    proof {
        assert(chars@.take(chars@.len() as int) =~= chars@);
    }
    res
}

/// The characters of `s`.
pub fn chars_of(s: &str) -> (res: Vec<char>)
    ensures
        res@ == s@,
{
    let n = s.unicode_len();
    let mut res: Vec<char> = Vec::new();
    let mut i: usize = 0;
    while i < n
        invariant
            n == s@.len(),
            i <= n,
            res@ == s@.take(i as int),
        decreases n - i,
    {
        res.push(s.get_char(i));
        proof {
            assert(s@.take(i + 1) =~= s@.take(i as int).push(s@[i as int]));
        }
        i = i + 1;
    }
    proof {
        assert(s@.take(n as int) =~= s@);
    }
    res
}

/// Appends the characters of `src` to `dst`.
pub fn extend_chars(dst: &mut Vec<char>, src: &Vec<char>)
    ensures
        final(dst)@ == old(dst)@ + src@,
{
    let mut i: usize = 0;
    while i < src.len()
        invariant
            i <= src@.len(),
            dst@ == old(dst)@ + src@.take(i as int),
        decreases src@.len() - i,
    {
        dst.push(src[i]);
        proof {
            assert(src@.take(i + 1) =~= src@.take(i as int).push(src@[i as int]));
        }
        i = i + 1;
    }
    proof {
        assert(src@.take(src@.len() as int) =~= src@);
    }
}

} // verus!
