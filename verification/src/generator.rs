//! Peer ids, announce keys, and the rounding of the announced byte counts.
use vstd::prelude::*;
use rand::Rng;
use crate::text::{chars_of, string_from_chars};

verus! {

#[verifier::external_type_specification]
#[verifier::external_body]
pub struct ExRegex(rand_regex::Regex);

#[verifier::external_type_specification]
#[verifier::external_body]
pub struct ExRegexError(rand_regex::Error);

/// Whether `rand_regex::Regex::compile` accepts `pattern` with this
/// `max_repeat` (the pattern is a valid regex without anchors or word
/// boundaries).
pub uninterp spec fn regex_compiles(pattern: Seq<char>, max_repeat: u32) -> bool;

/// Whether the regex that `rand_regex::Regex::compile` makes of `pattern`
/// with this `max_repeat` only draws valid UTF-8 (`Regex::is_utf8`).
pub uninterp spec fn regex_utf8(pattern: Seq<char>, max_repeat: u32) -> bool;

/// Whether `text` can be drawn from the regex that `rand_regex::Regex::compile`
/// makes of `pattern` with this `max_repeat` (for patterns whose repetitions
/// fit, `repeats_fit`): it matches the pattern, with each open repetition
/// taken at most `max_repeat` extra times.
pub uninterp spec fn regex_generates(pattern: Seq<char>, max_repeat: u32, text: Seq<char>) -> bool;

// ------------------------------------------------------------------
// How far a pattern's repetitions reach
// ------------------------------------------------------------------

/// The bound on `repeats_fit`: the product of the repetition counts times
/// the room that each character of the pattern can take when drawn.
pub const REPEAT_LIMIT: u64 = 0x1000_0000;

pub open spec fn is_ascii_digit(c: char) -> bool {
    48 <= (c as u32) <= 57
}

pub open spec fn is_ascii_alnum(c: char) -> bool {
    is_ascii_digit(c) || (65 <= (c as u32) <= 90) || (97 <= (c as u32) <= 122)
}

/// The number that a run of ASCII digits denotes.
pub open spec fn digit_run_value(s: Seq<char>) -> nat
    decreases s.len(),
{
    if s.len() == 0 {
        0
    } else {
        digit_run_value(s.drop_last()) * 10 + ((s.last() as u32) - 48) as nat
    }
}

/// The end of the run of ASCII digits that starts at `i`.
pub open spec fn run_end(p: Seq<char>, i: int) -> int
    decreases p.len() - i,
{
    if 0 <= i < p.len() && is_ascii_digit(p[i]) {
        run_end(p, i + 1)
    } else {
        i
    }
}

/// What the character at `i` can multiply a drawn count by: a `*`, `+` or
/// `?` at most `max_repeat + 1`; a number that can be a repetition count
/// (a run of digits after no letter or digit) at most itself plus
/// `max_repeat + 1`; anything else 1. A pattern's repetition operators are
/// among these characters, so every product of its repetition counts is at
/// most the product of these factors.
pub open spec fn repeat_factor(p: Seq<char>, i: int, max_repeat: u32) -> nat {
    let c = p[i];
    if c == '*' || c == '+' || c == '?' {
        (max_repeat + 1) as nat
    } else if is_ascii_digit(c) && (i == 0 || !is_ascii_alnum(p[i - 1])) {
        (digit_run_value(p.subrange(i, run_end(p, i))) + max_repeat + 1) as nat
    } else {
        1
    }
}

/// The product of the factors of the characters from `i` on.
pub open spec fn repeat_product(p: Seq<char>, i: int, max_repeat: u32) -> nat
    decreases p.len() - i,
{
    if i < 0 || i >= p.len() {
        1
    } else {
        repeat_factor(p, i, max_repeat) * repeat_product(p, i + 1, max_repeat)
    }
}

/// The repetitions of `pattern` reach so little that `rand_regex` neither
/// overflows its `u32` counts nor allocates more than `REPEAT_LIMIT` bytes
/// when it compiles the pattern or draws from it: the product of the factors
/// times four bytes per character of the pattern stays within the limit.
pub open spec fn repeats_fit(pattern: Seq<char>, max_repeat: u32) -> bool {
    repeat_product(pattern, 0, max_repeat) * (4 * pattern.len() + 4) <= REPEAT_LIMIT
}

proof fn lemma_repeat_product_positive(p: Seq<char>, i: int, max_repeat: u32)
    ensures
        repeat_product(p, i, max_repeat) >= 1,
    decreases p.len() - i,
{
    if 0 <= i < p.len() {
        lemma_repeat_product_positive(p, i + 1, max_repeat);
        let f = repeat_factor(p, i, max_repeat);
        let r = repeat_product(p, i + 1, max_repeat);
        assert(f >= 1);
        assert(f * r >= 1) by (nonlinear_arith)
            requires
                f >= 1,
                r >= 1,
        ;
    }
}

proof fn lemma_run_end(p: Seq<char>, i: int)
    requires
        0 <= i <= p.len(),
    ensures
        i <= run_end(p, i) <= p.len(),
        forall|k: int| i <= k < run_end(p, i) ==> is_ascii_digit(#[trigger] p[k]),
        run_end(p, i) == p.len() || !is_ascii_digit(p[run_end(p, i)]),
    decreases p.len() - i,
{
    if i < p.len() && is_ascii_digit(p[i]) {
        lemma_run_end(p, i + 1);
    }
}

proof fn lemma_digit_run_prefix(s: Seq<char>, k: int)
    requires
        0 <= k <= s.len(),
        forall|j: int| 0 <= j < s.len() ==> is_ascii_digit(#[trigger] s[j]),
    ensures
        digit_run_value(s.take(k)) <= digit_run_value(s),
    decreases s.len(),
{
    if k < s.len() {
        assert(s.drop_last().take(k) =~= s.take(k));
        assert forall|j: int| 0 <= j < s.drop_last().len() implies is_ascii_digit(#[trigger] s.drop_last()[j]) by {
            assert(s.drop_last()[j] == s[j]);
        }
        lemma_digit_run_prefix(s.drop_last(), k);
        assert(is_ascii_digit(s[s.len() - 1]));
    } else {
        assert(s.take(k) =~= s);
    }
}

fn digit_char(c: char) -> (r: bool)
    ensures
        r == is_ascii_digit(c),
{
    let u = c as u32;
    48 <= u && u <= 57
}

fn alnum_char(c: char) -> (r: bool)
    ensures
        r == is_ascii_alnum(c),
{
    let u = c as u32;
    (48 <= u && u <= 57) || (65 <= u && u <= 90) || (97 <= u && u <= 122)
}

/// The factor of the character at `i`, when it is within the limit.
fn repeat_factor_exec(p: &Vec<char>, i: usize, max_repeat: u32) -> (r: Option<u64>)
    requires
        i < p@.len(),
    ensures
        match r {
            Some(f) => f == repeat_factor(p@, i as int, max_repeat) && f <= REPEAT_LIMIT,
            None => repeat_factor(p@, i as int, max_repeat) > REPEAT_LIMIT,
        },
{
    let c = p[i];
    let f: u64;
    if c == '*' || c == '+' || c == '?' {
        f = max_repeat as u64 + 1;
    } else if digit_char(c) && (i == 0 || !alnum_char(p[i - 1])) {
        proof {
            lemma_run_end(p@, i as int);
        }
        let ghost e = run_end(p@, i as int);
        let mut j = i;
        let mut v: u64 = 0;
        assert(p@.subrange(i as int, i as int) =~= Seq::<char>::empty());
        while j < p.len() && digit_char(p[j])
            invariant
                i < p@.len(),
                c == p@[i as int],
                is_ascii_digit(c),
                i == 0 || !is_ascii_alnum(p@[i - 1]),
                i <= j <= p@.len(),
                e == run_end(p@, i as int),
                run_end(p@, j as int) == e,
                j <= e <= p@.len(),
                forall|k: int| i <= k < e ==> is_ascii_digit(#[trigger] p@[k]),
                v == digit_run_value(p@.subrange(i as int, j as int)),
                v <= REPEAT_LIMIT,
            decreases p@.len() - j,
        {
            let d = (p[j] as u32 - 48) as u64;
            proof {
                assert(p@.subrange(i as int, j + 1).drop_last() =~= p@.subrange(i as int, j as int));
                assert(p@.subrange(i as int, j + 1).last() == p@[j as int]);
                lemma_run_end(p@, j + 1);
                assert(run_end(p@, j as int) == run_end(p@, j + 1));
            }
            let w = v * 10 + d;
            assert(digit_run_value(p@.subrange(i as int, j + 1)) == w);
            if w > REPEAT_LIMIT {
                proof {
                    let run = p@.subrange(i as int, e);
                    assert(run.take(j + 1 - i) =~= p@.subrange(i as int, j + 1));
                    assert forall|k: int| 0 <= k < run.len() implies is_ascii_digit(#[trigger] run[k]) by {
                        assert(run[k] == p@[i + k]);
                    }
                    lemma_digit_run_prefix(run, j + 1 - i);
                    assert(c != '*' && c != '+' && c != '?');
                    assert(repeat_factor(p@, i as int, max_repeat) == (digit_run_value(run) + max_repeat + 1) as nat);
                }
                return None;
            }
            v = w;
            j = j + 1;
        }
        proof {
            lemma_run_end(p@, j as int);
        }
        f = v + max_repeat as u64 + 1;
    } else {
        f = 1;
    }
    if f > REPEAT_LIMIT {
        None
    } else {
        Some(f)
    }
}

/// Whether `pattern`'s repetitions fit (`repeats_fit`).
pub fn repeats_fit_exec(pattern: &str, max_repeat: u32) -> (r: bool)
    ensures
        r == repeats_fit(pattern@, max_repeat),
{
    let p = chars_of(pattern);
    let n = p.len();
    proof {
        lemma_repeat_product_positive(p@, 0, max_repeat);
    }
    if n > (REPEAT_LIMIT as usize) / 4 {
        proof {
            let t = repeat_product(p@, 0, max_repeat);
            assert(t * (4 * n + 4) > REPEAT_LIMIT) by (nonlinear_arith)
                requires
                    t >= 1,
                    n > REPEAT_LIMIT / 4,
            ;
        }
        return false;
    }
    let mut acc: u64 = 1;
    let mut i: usize = 0;
    while i < n
        invariant
            n == p@.len(),
            p@ == pattern@,
            n <= REPEAT_LIMIT / 4,
            i <= n,
            1 <= acc <= REPEAT_LIMIT,
            acc * repeat_product(p@, i as int, max_repeat) == repeat_product(p@, 0, max_repeat),
        decreases n - i,
    {
        proof {
            lemma_repeat_product_positive(p@, i + 1, max_repeat);
        }
        let ghost rest = repeat_product(p@, i + 1, max_repeat);
        let ghost total = repeat_product(p@, 0, max_repeat);
        let ghost fi = repeat_factor(p@, i as int, max_repeat);
        assert(repeat_product(p@, i as int, max_repeat) == fi * rest);
        match repeat_factor_exec(&p, i, max_repeat) {
            None => {
                proof {
                    assert(total >= fi) by (nonlinear_arith)
                        requires
                            acc * (fi * rest) == total,
                            acc >= 1,
                            rest >= 1,
                    ;
                    assert(total * (4 * n + 4) > REPEAT_LIMIT) by (nonlinear_arith)
                        requires
                            total >= fi,
                            fi > REPEAT_LIMIT,
                    ;
                }
                return false;
            },
            Some(f) => {
                assert(acc * f <= REPEAT_LIMIT * REPEAT_LIMIT) by (nonlinear_arith)
                    requires
                        acc <= REPEAT_LIMIT,
                        f <= REPEAT_LIMIT,
                ;
                let next = acc * f;
                assert(next * rest == total) by (nonlinear_arith)
                    requires
                        acc * (f * rest) == total,
                        next == acc * f,
                ;
                if next > REPEAT_LIMIT {
                    proof {
                        assert(total * (4 * n + 4) > REPEAT_LIMIT) by (nonlinear_arith)
                            requires
                                next * rest == total,
                                next > REPEAT_LIMIT,
                                rest >= 1,
                        ;
                    }
                    return false;
                }
                assert(next >= 1) by (nonlinear_arith)
                    requires
                        acc >= 1,
                        f == fi,
                        fi >= 1,
                        next == acc * f,
                ;
                acc = next;
            },
        }
        i = i + 1;
    }
    assert(repeat_product(p@, n as int, max_repeat) == 1);
    assert(acc * repeat_product(p@, n as int, max_repeat) == repeat_product(p@, 0, max_repeat));
    assert(acc == repeat_product(pattern@, 0, max_repeat)) by (nonlinear_arith)
        requires
            acc * repeat_product(p@, n as int, max_repeat) == repeat_product(p@, 0, max_repeat),
            repeat_product(p@, n as int, max_repeat) == 1,
            p@ == pattern@,
    ;
    assert(pattern@.len() == n);
    assert(acc * (4 * n + 4) <= 0x1000_0000 * 0x1000_0004) by (nonlinear_arith)
        requires
            acc <= REPEAT_LIMIT,
            n <= REPEAT_LIMIT / 4,
    ;
    let room = 4 * n as u64 + 4;
    assert(room == 4 * pattern@.len() + 4);
    acc * room <= REPEAT_LIMIT
}

/// A compiled regex, with what it was compiled from and whether it only
/// draws UTF-8.
struct CompiledRegex {
    regex: rand_regex::Regex,
    utf8: bool,
    pattern: Ghost<Seq<char>>,
    max_repeat: u32,
}

/// Calls `rand_regex::Regex::compile`, then `Regex::is_utf8` on the result,
/// for a pattern whose repetitions fit (others can overflow its counts).
/// Claimed: it succeeds exactly when `regex_compiles` holds of its arguments,
/// and `utf8` is `regex_utf8` of them.
#[verifier::external_body]
fn compile_regex(pattern: &str, max_repeat: u32) -> (res: Result<CompiledRegex, rand_regex::Error>)
    requires
        repeats_fit(pattern@, max_repeat),
    ensures
        res is Ok <==> regex_compiles(pattern@, max_repeat),
        res matches Ok(c) ==> c.pattern@ == pattern@ && c.max_repeat == max_repeat && c.utf8 == regex_utf8(
            pattern@,
            max_repeat,
        ),
{
    match rand_regex::Regex::compile(pattern, max_repeat) {
        Ok(regex) => {
            let utf8 = regex.is_utf8();
            Ok(CompiledRegex { regex, utf8, pattern: Ghost(pattern@), max_repeat })
        },
        Err(e) => Err(e),
    }
}

/// Samples the regex with `rand::thread_rng()` as a
/// `Result<String, FromUtf8Error>` (`None` for bytes that are not UTF-8).
/// Claimed: a regex that only draws UTF-8 always gives text, and the text
/// is one that the regex generates; which text, is left to chance.
#[verifier::external_body]
fn sample_regex(c: &CompiledRegex) -> (res: Option<String>)
    requires
        repeats_fit(c.pattern@, c.max_repeat),
    ensures
        c.utf8 ==> res is Some,
        res matches Some(s) ==> regex_generates(c.pattern@, c.max_repeat, s@),
{
    let sampled: Result<String, std::string::FromUtf8Error> = rand::thread_rng().sample(&c.regex);
    sampled.ok()
}

/// Calls `rand::thread_rng().gen::<[u8; 4]>()`: four random bytes, of
/// which nothing is claimed.
#[verifier::external_body]
fn random_bytes4() -> (res: [u8; 4]) {
    rand::thread_rng().gen()
}

/// Calls `rand::thread_rng().gen_range(lo..=hi)`. Claimed: the result lies
/// in the range (the range is not empty).
#[verifier::external_body]
pub(crate) fn random_in_range(lo: u32, hi: u32) -> (res: u32)
    requires
        lo <= hi,
    ensures
        lo <= res <= hi,
{
    rand::thread_rng().gen_range(lo..=hi)
}

/// Why a peer id cannot be made.
#[derive(Debug, Clone, Copy, PartialEq, Eq, Structural)]
pub enum GeneratorError {
    /// The pattern is not a regex that strings can be drawn from.
    InvalidRegex,
    /// The regex drew bytes that are not UTF-8.
    NotUtf8,
}

impl GeneratorError {
    /// The message of the error.
    pub open spec fn text(self) -> Seq<char> {
        match self {
            GeneratorError::InvalidRegex => "Invalid peer id regex"@,
            GeneratorError::NotUtf8 => "Peer id is not valid UTF-8"@,
        }
    }

    /// The message of the error.
    pub fn message(&self) -> (m: String)
        ensures
            m@ == self.text(),
    {
        let v: Vec<char> = match self {
            GeneratorError::InvalidRegex => chars_of("Invalid peer id regex"),
            GeneratorError::NotUtf8 => chars_of("Peer id is not valid UTF-8"),
        };
        string_from_chars(&v)
    }
}

pub struct PeerIdGenerator;

impl PeerIdGenerator {
    /// A peer id drawn at random from the regex `regex_pattern` (repeats
    /// bounded by 100); it is returned as drawn, not URL-encoded.
    /// A pattern whose repetitions reach too far to be drawn from safely
    /// (`repeats_fit`) is refused as invalid.
    pub fn generate(regex_pattern: &str) -> (res: Result<String, GeneratorError>)
        ensures
            !(repeats_fit(regex_pattern@, 100) && regex_compiles(regex_pattern@, 100)) <==> res
                == Err::<String, GeneratorError>(GeneratorError::InvalidRegex),
            repeats_fit(regex_pattern@, 100) && regex_compiles(regex_pattern@, 100) ==> (res is Ok || res
                == Err::<String, GeneratorError>(GeneratorError::NotUtf8)),
            repeats_fit(regex_pattern@, 100) && regex_compiles(regex_pattern@, 100) && regex_utf8(
                regex_pattern@,
                100,
            ) ==> res is Ok,
            res matches Ok(s) ==> regex_generates(regex_pattern@, 100, s@),
    {
        if !repeats_fit_exec(regex_pattern, 100) {
            return Err(GeneratorError::InvalidRegex);
        }
        let regex = match compile_regex(regex_pattern, 100) {
            Ok(r) => r,
            Err(_) => {
                return Err(GeneratorError::InvalidRegex);
            },
        };
        match sample_regex(&regex) {
            Some(peer_id) => Ok(peer_id),
            None => Err(GeneratorError::NotUtf8),
        }
    }
}

/// The key digit of the half byte `n`: one of the uppercase hex letters
/// `A` to `F`; `10` to `15` are written as hex writes them.
pub open spec fn key_letter(n: u8) -> char {
    if 10 <= n < 16 {
        ((55 + n) as u8) as char
    } else {
        ((65 + n % 6) as u8) as char
    }
}

/// The key text of four bytes: two uppercase hex letters per byte, one for
/// each half of it.
pub open spec fn key_text(b: Seq<u8>) -> Seq<char> {
    seq![
        key_letter(b[0] / 16),
        key_letter(b[0] % 16),
        key_letter(b[1] / 16),
        key_letter(b[1] % 16),
        key_letter(b[2] / 16),
        key_letter(b[2] % 16),
        key_letter(b[3] / 16),
        key_letter(b[3] % 16),
    ]
}

/// An uppercase hexadecimal letter.
pub open spec fn is_upper_hex(c: char) -> bool {
    'A' <= c <= 'F'
}

fn key_letter_char(n: u8) -> (c: char)
    ensures
        c == key_letter(n),
{
    if 10 <= n && n < 16 {
        (55 + n) as char
    } else {
        (65 + n % 6) as char
    }
}

pub struct KeyGenerator;

impl KeyGenerator {
    /// The key of four bytes: eight uppercase hex letters.
    pub fn format(bytes: [u8; 4]) -> (res: String)
        ensures
            res@ == key_text(bytes@),
    {
        let mut s = String::new();
        let mut i: usize = 0;
        while i < 4
            invariant
                i <= 4,
                s@.len() == 2 * i,
                forall|j: int| 0 <= j < 2 * i ==> s@[j] == key_text(bytes@)[j],
            decreases 4 - i,
        {
            let b = bytes[i];
            s.push(key_letter_char(b / 16));
            s.push(key_letter_char(b % 16));
            i = i + 1;
        }
        assert(s@ =~= key_text(bytes@));
        s
    }

    /// A random 8-character hex key, of the uppercase letters `A` to `F`.
    pub fn generate() -> (res: String)
        ensures
            res@.len() == 8,
            forall|i: int| 0 <= i < 8 ==> is_upper_hex(#[trigger] res@[i]),
            exists|b: Seq<u8>| b.len() == 4 && res@ == key_text(b),
    {
        let bytes = random_bytes4();
        let res = Self::format(bytes);
        proof {
            lemma_key_text_hex(bytes@);
        }
        res
    }
}

proof fn lemma_key_letter(n: u8)
    ensures
        is_upper_hex(key_letter(n)),
{
}

proof fn lemma_key_text_hex(b: Seq<u8>)
    requires
        b.len() == 4,
    ensures
        forall|i: int| 0 <= i < 8 ==> is_upper_hex(#[trigger] key_text(b)[i]),
{
    lemma_key_letter(b[0] / 16);
    lemma_key_letter(b[0] % 16);
    lemma_key_letter(b[1] / 16);
    lemma_key_letter(b[1] % 16);
    lemma_key_letter(b[2] / 16);
    lemma_key_letter(b[2] % 16);
    lemma_key_letter(b[3] / 16);
    lemma_key_letter(b[3] % 16);
}

/// The step by which uploaded bytes are announced: 64 KiB, whole groups
/// of four 16 KiB blocks.
pub const UPLOAD_ROUNDING: u64 = 65536;

/// `v` rounded down to a multiple of `unit`.
pub open spec fn round_down(v: u64, unit: u64) -> int {
    (v / unit) * unit
}

/// `value` plus `n` pieces of `piece` bytes.
pub open spec fn pieces_added(value: u64, n: u32, piece: u64) -> int {
    value + n * piece
}

/// Rounds announced values as qBittorrent does, by pieces of a torrent.
pub struct ValueRounder {
    piece_length: u64,
}

impl ValueRounder {
    pub closed spec fn piece(&self) -> u64 {
        self.piece_length
    }

    pub fn new(piece_length: u64) -> (r: Self)
        ensures
            r.piece() == piece_length,
    {
        Self { piece_length }
    }

    pub fn piece_length(&self) -> (p: u64)
        ensures
            p == self.piece(),
    {
        self.piece_length
    }

    /// Downloaded is sent as it is, uploaded rounded down to a multiple of
    /// 64 KiB, left rounded down to the piece length.
    pub fn round_values(&self, downloaded: u64, uploaded: u64, left: u64) -> (r: (u64, u64, u64))
        requires
            self.piece() > 0,
        ensures
            r.0 == downloaded,
            r.1 == round_down(uploaded, UPLOAD_ROUNDING),
            r.2 == round_down(left, self.piece()),
    {
        let rounded_downloaded = downloaded;
        let q = uploaded / UPLOAD_ROUNDING;
        proof {
            lemma_round_down(uploaded, UPLOAD_ROUNDING);
        }
        let rounded_uploaded = q * UPLOAD_ROUNDING;
        let p = self.piece_length;
        let ql = left / p;
        proof {
            lemma_round_down(left, p);
        }
        let rounded_left = ql * p;
        (rounded_downloaded, rounded_uploaded, rounded_left)
    }

    /// `value` plus `num_pieces` pieces.
    pub fn add_pieces(&self, value: u64, num_pieces: u32) -> (r: u64)
        requires
            value + num_pieces * self.piece() <= u64::MAX,
        ensures
            r == pieces_added(value, num_pieces, self.piece()),
    {
        proof {
            assert(0 <= num_pieces * self.piece()) by (nonlinear_arith);
        }
        value + (num_pieces as u64) * self.piece_length
    }

    /// `value` plus a random number of pieces, drawn from the range
    /// `num_pieces_range` (both ends included).
    pub fn add_random_pieces(&self, value: u64, num_pieces_range: (u32, u32)) -> (r: u64)
        requires
            num_pieces_range.0 <= num_pieces_range.1,
            value + num_pieces_range.1 * self.piece() <= u64::MAX,
        ensures
            exists|n: u32|
                num_pieces_range.0 <= n <= num_pieces_range.1 && r == #[trigger] pieces_added(
                    value,
                    n,
                    self.piece(),
                ),
    {
        let n = random_in_range(num_pieces_range.0, num_pieces_range.1);
        proof {
            assert(n * self.piece() <= num_pieces_range.1 * self.piece()) by (nonlinear_arith)
                requires
                    n <= num_pieces_range.1,
            ;
        }
        self.add_pieces(value, n)
    }
}

/// Rounding down to a multiple of `unit`: never above the value, less than
/// one unit below it, a multiple of the unit, and unchanged when applied
/// again.
pub proof fn lemma_round_down(v: u64, unit: u64)
    requires
        unit > 0,
    ensures
        0 <= round_down(v, unit) <= v,
        v - round_down(v, unit) < unit,
        round_down(v, unit) % (unit as int) == 0,
        round_down(round_down(v, unit) as u64, unit) == round_down(v, unit),
{
    let q = v / unit;
    let r = v % unit;
    assert(v == q * unit + r) by (nonlinear_arith)
        requires
            q == v / unit,
            r == v % unit,
            unit > 0,
    ;
    assert(0 <= q * unit) by (nonlinear_arith)
        requires
            0 <= q,
            unit > 0,
    ;
    assert((q * unit) % (unit as int) == 0) by (nonlinear_arith)
        requires
            unit > 0,
            q >= 0,
    ;
    let w = (q * unit) as u64;
    assert(w / unit == q) by (nonlinear_arith)
        requires
            w == q * unit,
            unit > 0,
            q >= 0,
    ;
}

/// Rounding the rounded values again changes nothing.
pub proof fn round_values_idempotent(rounder: ValueRounder, uploaded: u64, left: u64)
    requires
        rounder.piece() > 0,
    ensures
        round_down(round_down(uploaded, UPLOAD_ROUNDING) as u64, UPLOAD_ROUNDING) == round_down(
            uploaded,
            UPLOAD_ROUNDING,
        ),
        round_down(round_down(left, rounder.piece()) as u64, rounder.piece()) == round_down(
            left,
            rounder.piece(),
        ),
{
    lemma_round_down(uploaded, UPLOAD_ROUNDING);
    lemma_round_down(left, rounder.piece());
}

} // verus!
