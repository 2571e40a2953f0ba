use crate::parser::ident::{comment_opens_at, is_digit};
use crate::text::{at_char_start, byte_at, lemma_after_ascii_starts_char, lemma_ascii_starts_char};
use vstd::prelude::*;
use vstd::utf8::{is_continuation_byte, valid_utf8};

verus! {

/// Why a run of facts could not be parsed.
#[derive(Clone, Copy, Debug, PartialEq, Eq, Structural)]
pub enum TermError {
    InvalidEscape,
    InvalidInteger,
    InvalidReal,
    UnexpectedCharacter,
    UnexpectedEndOfFile,
    UnterminatedComment,
    UnterminatedQuotedAtom,
}

/// ASCII whitespace: space, tab, line feed, form feed, carriage return.
pub open spec fn is_ascii_whitespace(b: u8) -> bool {
    b == 0x20 || b == 0x09 || b == 0x0a || b == 0x0c || b == 0x0d
}

pub open spec fn ws_run_end(s: Seq<u8>, i: int) -> int
    decreases s.len() - i,
{
    if 0 <= i < s.len() && is_ascii_whitespace(s[i]) {
        ws_run_end(s, i + 1)
    } else {
        i
    }
}

pub proof fn lemma_ws_run_end(s: Seq<u8>, i: int)
    requires
        0 <= i <= s.len(),
    ensures
        i <= ws_run_end(s, i) <= s.len(),
        forall|k: int| i <= k < ws_run_end(s, i) ==> is_ascii_whitespace(#[trigger] s[k]),
    decreases s.len() - i,
{
    if i < s.len() && is_ascii_whitespace(s[i]) {
        lemma_ws_run_end(s, i + 1);
    }
}

/// Whether `s` holds `*/` at `j`.
pub open spec fn comment_closes_at(s: Seq<u8>, j: int) -> bool {
    0 <= j && j + 1 < s.len() && s[j] == 0x2a && s[j + 1] == 0x2f
}

/// The first `*/` at or after `j`.
pub open spec fn find_comment_close(s: Seq<u8>, j: int) -> Option<int>
    decreases s.len() - j,
{
    if j < 0 || j + 1 >= s.len() {
        None
    } else if comment_closes_at(s, j) {
        Some(j)
    } else {
        find_comment_close(s, j + 1)
    }
}

pub proof fn lemma_find_comment_close(s: Seq<u8>, j: int)
    requires
        0 <= j,
    ensures
        find_comment_close(s, j) matches Some(k) ==> j <= k && k + 2 <= s.len()
            && comment_closes_at(s, k),
    decreases s.len() - j,
{
    if j + 1 < s.len() && !comment_closes_at(s, j) {
        lemma_find_comment_close(s, j + 1);
    }
}

/// Skips whitespace and block comments from `i`: the offset after them, or an
/// unterminated comment with the offset where it opens.
pub open spec fn spec_scan_trivia(s: Seq<u8>, i: int) -> Result<int, (TermError, int)>
    decreases s.len() - i,
{
    let j = ws_run_end(s, i);
    if 0 <= i <= s.len() && comment_opens_at(s, j) {
        match find_comment_close(s, j + 2) {
            None => Err((TermError::UnterminatedComment, j)),
            Some(k) => {
                proof {
                    lemma_ws_run_end(s, i);
                    lemma_find_comment_close(s, j + 2);
                }
                spec_scan_trivia(s, k + 2)
            },
        }
    } else {
        Ok(j)
    }
}

pub proof fn lemma_scan_trivia(s: Seq<u8>, i: int)
    requires
        0 <= i <= s.len(),
    ensures
        match spec_scan_trivia(s, i) {
            Ok(e) => i <= e <= s.len(),
            Err((_, e)) => i <= e <= s.len(),
        },
    decreases s.len() - i,
{
    lemma_ws_run_end(s, i);
    let j = ws_run_end(s, i);
    if comment_opens_at(s, j) {
        lemma_find_comment_close(s, j + 2);
        if let Some(k) = find_comment_close(s, j + 2) {
            lemma_scan_trivia(s, k + 2);
        }
    }
}

/// White space and comments are skipped byte by byte: from a space, tab,
/// line feed, form feed or carriage return, skipping goes on from the next
/// byte as if it had started there.
pub proof fn lemma_trivia_skips_whitespace(s: Seq<u8>, i: int)
    requires
        0 <= i < s.len(),
        s[i] == 0x20 || s[i] == 0x09 || s[i] == 0x0a || s[i] == 0x0c || s[i] == 0x0d,
    ensures
        spec_scan_trivia(s, i) == spec_scan_trivia(s, i + 1),
{
    assert(ws_run_end(s, i) == ws_run_end(s, i + 1));
}

/// The first `*/` from `j` on is at `k` when none comes before it.
proof fn lemma_first_close(s: Seq<u8>, j: int, k: int)
    requires
        0 <= j <= k,
        k + 1 < s.len(),
        s[k] == 0x2a && s[k + 1] == 0x2f,
        forall|m: int| j <= m < k ==> !(#[trigger] s[m] == 0x2a && s[m + 1] == 0x2f),
    ensures
        find_comment_close(s, j) == Some(k),
    decreases k - j,
{
    if j < k {
        assert(!(s[j] == 0x2a && s[j + 1] == 0x2f));
        lemma_first_close(s, j + 1, k);
    }
}

/// No `*/` from `j` on.
proof fn lemma_no_close(s: Seq<u8>, j: int)
    requires
        0 <= j,
        forall|m: int| j <= m && m + 1 < s.len() ==> !(#[trigger] s[m] == 0x2a && s[m + 1] == 0x2f),
    ensures
        find_comment_close(s, j) is None,
    decreases s.len() - j,
{
    if j + 1 < s.len() {
        assert(!(s[j] == 0x2a && s[j + 1] == 0x2f));
        lemma_no_close(s, j + 1);
    }
}

/// A comment runs from `/*` to the first `*/` after it and is skipped as
/// white space is; one that is never closed is an unterminated comment,
/// reported where it opens.
pub proof fn lemma_trivia_skips_comment(s: Seq<u8>, i: int)
    requires
        0 <= i,
        i + 1 < s.len(),
        s[i] == 0x2f && s[i + 1] == 0x2a,
    ensures
        forall|k: int|
            i + 2 <= k && k + 1 < s.len() && s[k] == 0x2a && s[k + 1] == 0x2f && (forall|m: int|
                i + 2 <= m < k ==> !(#[trigger] s[m] == 0x2a && s[m + 1] == 0x2f)) ==> #[trigger] spec_scan_trivia(
                s,
                k + 2,
            ) == spec_scan_trivia(s, i),
        (forall|m: int| i + 2 <= m && m + 1 < s.len() ==> !(#[trigger] s[m] == 0x2a && s[m + 1] == 0x2f))
            ==> spec_scan_trivia(s, i) == Err::<int, (TermError, int)>((TermError::UnterminatedComment, i)),
{
    assert(ws_run_end(s, i) == i);
    assert forall|k: int|
        i + 2 <= k && k + 1 < s.len() && s[k] == 0x2a && s[k + 1] == 0x2f && (forall|m: int|
            i + 2 <= m < k ==> !(#[trigger] s[m] == 0x2a && s[m + 1] == 0x2f)) implies #[trigger] spec_scan_trivia(
            s,
            k + 2,
        ) == spec_scan_trivia(s, i) by {
        lemma_first_close(s, i + 2, k);
    }
    if forall|m: int| i + 2 <= m && m + 1 < s.len() ==> !(#[trigger] s[m] == 0x2a && s[m + 1] == 0x2f) {
        lemma_no_close(s, i + 2);
    }
}

/// The end of a run of white space from `i` is the first byte from `i` on
/// that is not white space.
proof fn lemma_ws_run_end_stops(s: Seq<u8>, i: int)
    requires
        0 <= i <= s.len(),
    ensures
        ws_run_end(s, i) < s.len() ==> !is_ascii_whitespace(s[ws_run_end(s, i)]),
    decreases s.len() - i,
{
    if i < s.len() && is_ascii_whitespace(s[i]) {
        lemma_ws_run_end_stops(s, i + 1);
    }
}

/// Skipping white space and comments stops at the end of the text or at a
/// byte that is neither a space, tab, line feed, form feed or carriage
/// return, nor the start of a comment.
pub proof fn lemma_trivia_stops(s: Seq<u8>, i: int)
    requires
        0 <= i <= s.len(),
    ensures
        spec_scan_trivia(s, i) matches Ok(e) ==> {
            &&& i <= e <= s.len()
            &&& e < s.len() ==> !(s[e] == 0x20 || s[e] == 0x09 || s[e] == 0x0a || s[e] == 0x0c || s[e] == 0x0d)
            &&& !comment_opens_at(s, e)
        },
    decreases s.len() - i,
{
    lemma_ws_run_end(s, i);
    lemma_ws_run_end_stops(s, i);
    let j = ws_run_end(s, i);
    if comment_opens_at(s, j) {
        lemma_find_comment_close(s, j + 2);
        if let Some(k) = find_comment_close(s, j + 2) {
            lemma_trivia_stops(s, k + 2);
        }
    }
}

pub fn is_ascii_whitespace_byte(b: u8) -> (r: bool)
    ensures
        r == is_ascii_whitespace(b),
{
    b == 0x20 || b == 0x09 || b == 0x0a || b == 0x0c || b == 0x0d
}

pub fn is_digit_byte(b: u8) -> (r: bool)
    ensures
        r == is_digit(b),
{
    0x30 <= b && b <= 0x39
}

/// A scan's result with its offsets taken as integers.
pub open spec fn lift_scan(r: Result<usize, (TermError, usize)>) -> Result<int, (TermError, int)> {
    match r {
        Ok(e) => Ok(e as int),
        Err((err, e)) => Err((err, e as int)),
    }
}

/// Skips whitespace and block comments from `offset`.
pub fn scan_trivia(bytes: &[u8], offset: usize) -> (r: Result<usize, (TermError, usize)>)
    requires
        offset <= bytes@.len(),
    ensures
        lift_scan(r) == spec_scan_trivia(bytes@, offset as int),
{
    let ghost s = bytes@;
    let ghost start = offset as int;
    let len = bytes.len();
    let mut pos = offset;
    loop
        invariant
            pos <= len,
            len == s.len(),
            s == bytes@,
            0 <= start <= len,
            start == offset as int,
            spec_scan_trivia(s, pos as int) == spec_scan_trivia(s, start),
        decreases len - pos,
    {
        let ghost here = pos as int;
        proof {
            lemma_ws_run_end(s, here);
        }
        while pos < len && is_ascii_whitespace_byte(bytes[pos])
            invariant
                here <= pos <= len,
                len == s.len(),
                s == bytes@,
                ws_run_end(s, pos as int) == ws_run_end(s, here),
            decreases len - pos,
        {
            pos += 1;
        }
        assert(ws_run_end(s, pos as int) == pos);
        if !(len - pos >= 2 && bytes[pos] == 0x2f && bytes[pos + 1] == 0x2a) {
            assert(!comment_opens_at(s, pos as int));
            assert(spec_scan_trivia(s, here) == Ok::<int, (TermError, int)>(pos as int));
            assert(spec_scan_trivia(s, start) == Ok::<int, (TermError, int)>(pos as int));
            return Ok(pos);
        }
        let mut k = pos + 2;
        while len - k >= 2 && !(bytes[k] == 0x2a && bytes[k + 1] == 0x2f)
            invariant
                pos + 2 <= k <= len,
                len == s.len(),
                s == bytes@,
                find_comment_close(s, k as int) == find_comment_close(s, pos + 2),
            decreases len - k,
        {
            k += 1;
        }
        if len - k < 2 {
            assert(find_comment_close(s, k as int) is None);
            assert(spec_scan_trivia(s, here) == Err::<int, (TermError, int)>((TermError::UnterminatedComment, pos as int)));
            return Err((TermError::UnterminatedComment, pos));
        }
        pos = k + 2;
    }
}


pub open spec fn digit_run_end(s: Seq<u8>, i: int) -> int
    decreases s.len() - i,
{
    if 0 <= i < s.len() && is_digit(s[i]) {
        digit_run_end(s, i + 1)
    } else {
        i
    }
}

pub proof fn lemma_digit_run_end(s: Seq<u8>, i: int)
    requires
        0 <= i <= s.len(),
    ensures
        i <= digit_run_end(s, i) <= s.len(),
        forall|k: int| i <= k < digit_run_end(s, i) ==> is_digit(#[trigger] s[k]),
        digit_run_end(s, i) < s.len() ==> !is_digit(s[digit_run_end(s, i)]),
    decreases s.len() - i,
{
    if i < s.len() && is_digit(s[i]) {
        lemma_digit_run_end(s, i + 1);
    }
}

/// The value of the decimal digits `s[i..j]`.
pub open spec fn digits_value(s: Seq<u8>, i: int, j: int) -> nat
    decreases j - i,
{
    if j <= i {
        0
    } else {
        digits_value(s, i, j - 1) * 10 + (s[j - 1] - 0x30) as nat
    }
}

pub proof fn lemma_digits_value_grows(s: Seq<u8>, i: int, j: int, k: int)
    requires
        i <= j <= k,
        forall|m: int| i <= m < k ==> is_digit(#[trigger] s[m]),
    ensures
        digits_value(s, i, j) <= digits_value(s, i, k),
    decreases k - j,
{
    if j < k {
        lemma_digits_value_grows(s, i, j, k - 1);
    }
}

/// What a number literal denotes: an integer, or a real number whose value
/// the literal's text gives.
#[derive(Clone, Copy, Debug, PartialEq, Eq, Structural)]
pub enum NumberToken {
    Integer(i32),
    Real,
}

pub open spec fn is_exponent_mark(b: u8) -> bool {
    b == 0x65 || b == 0x45
}

pub open spec fn is_sign(b: u8) -> bool {
    b == 0x2b || b == 0x2d
}

/// Where the integer part of a number at `offset` starts (after a minus sign).
pub open spec fn number_digits_start(s: Seq<u8>, offset: int) -> int {
    if 0 <= offset < s.len() && s[offset] == 0x2d {
        offset + 1
    } else {
        offset
    }
}

/// Whether a fraction (a dot and a digit) follows the integer part ending at `b`.
pub open spec fn has_fraction(s: Seq<u8>, b: int) -> bool {
    0 <= b && b + 1 < s.len() && s[b] == 0x2e && is_digit(s[b + 1])
}

/// The number literal at `offset`: `-`? digits (`.` digits)? ([eE] [+-]? digits)?,
/// an integer when it has neither fraction nor exponent (and must then fit in
/// `i32`), a real otherwise; with the offset after it. A real's value, and
/// whether it is finite, is read by the term parser.
pub open spec fn spec_scan_number(s: Seq<u8>, offset: int) -> Result<(NumberToken, int), TermError> {
    let a = number_digits_start(s, offset);
    let b = digit_run_end(s, a);
    let c = if has_fraction(s, b) {
        digit_run_end(s, b + 2)
    } else {
        b
    };
    if b == a {
        Err(TermError::UnexpectedCharacter)
    } else if 0 <= c < s.len() && is_exponent_mark(s[c]) {
        let d = if c + 1 < s.len() && is_sign(s[c + 1]) {
            c + 2
        } else {
            c + 1
        };
        let e = digit_run_end(s, d);
        if e == d {
            Err(TermError::InvalidReal)
        } else {
            Ok((NumberToken::Real, e))
        }
    } else if c != b {
        Ok((NumberToken::Real, c))
    } else {
        let v = digits_value(s, a, b);
        if a != offset {
            if v <= 0x8000_0000 {
                Ok((NumberToken::Integer((-v) as i32), b))
            } else {
                Err(TermError::InvalidInteger)
            }
        } else if v < 0x8000_0000 {
            Ok((NumberToken::Integer(v as i32), b))
        } else {
            Err(TermError::InvalidInteger)
        }
    }
}

/// The end of the run of digits from `i` is `j` when every byte from `i` to
/// `j` is a digit and none follows.
proof fn lemma_digit_run_to(s: Seq<u8>, i: int, j: int)
    requires
        0 <= i <= j <= s.len(),
        forall|k: int| i <= k < j ==> is_digit(#[trigger] s[k]),
        j == s.len() || !is_digit(s[j]),
    ensures
        digit_run_end(s, i) == j,
    decreases j - i,
{
    if i < j {
        lemma_digit_run_to(s, i + 1, j);
    }
}

/// The mantissa of a number at `offset`: an optional `-` (when `a` is past
/// it), digits from `a` to `b`, and, when `c` is past `b`, a `.` with
/// digits after it up to `c`.
pub open spec fn mantissa_at(s: Seq<u8>, offset: int, a: int, b: int, c: int) -> bool {
    &&& 0 <= offset
    &&& (a == offset || (a == offset + 1 && s[offset] == 0x2d))
    &&& a < b <= c <= s.len()
    &&& forall|k: int| a <= k < b ==> 0x30 <= #[trigger] s[k] <= 0x39
    &&& (c == b || (b + 1 < c && s[b] == 0x2e && forall|k: int| b + 1 <= k < c ==> 0x30 <= #[trigger] s[k] <= 0x39))
    &&& (c == s.len() || !(0x30 <= s[c] <= 0x39))
    &&& (c == b ==> !(b + 1 < s.len() && s[b] == 0x2e && 0x30 <= s[b + 1] <= 0x39))
}

/// The digits of a mantissa are read as scanning reads them.
proof fn lemma_mantissa_scan(s: Seq<u8>, offset: int, a: int, b: int, c: int)
    requires
        mantissa_at(s, offset, a, b, c),
    ensures
        number_digits_start(s, offset) == a,
        digit_run_end(s, a) == b,
        has_fraction(s, b) <==> c > b,
        c > b ==> digit_run_end(s, b + 2) == c,
{
    if a == offset {
        assert(0x30 <= s[a] <= 0x39);
    }
    if c > b {
        assert(!(0x30 <= s[b] <= 0x39));
        lemma_digit_run_to(s, a, b);
        assert(0x30 <= s[b + 1] <= 0x39);
        lemma_digit_run_to(s, b + 2, c);
    } else {
        lemma_digit_run_to(s, a, b);
    }
}

/// A mantissa, then `e` or `E`, then `+`, `-` or no sign, then digits up to
/// `e`, make a real that ends at `e`: either sign may follow the exponent
/// mark. Without a digit there, the real is refused.
pub proof fn lemma_exponent_real(s: Seq<u8>, offset: int, a: int, b: int, c: int, d: int, e: int)
    requires
        mantissa_at(s, offset, a, b, c),
        c + 1 <= d <= e <= s.len(),
        s[c] == 0x65 || s[c] == 0x45,
        d == c + 1 || (d == c + 2 && (s[c + 1] == 0x2b || s[c + 1] == 0x2d)),
        forall|k: int| d <= k < e ==> 0x30 <= #[trigger] s[k] <= 0x39,
        e == s.len() || !(0x30 <= s[e] <= 0x39),
    ensures
        d < e ==> spec_scan_number(s, offset) == Ok::<(NumberToken, int), TermError>((NumberToken::Real, e)),
        d == e && (d == c + 2 || c + 1 == s.len() || !(s[c + 1] == 0x2b || s[c + 1] == 0x2d))
            ==> spec_scan_number(s, offset) == Err::<(NumberToken, int), TermError>(TermError::InvalidReal),
{
    lemma_mantissa_scan(s, offset, a, b, c);
    if d == c + 1 && d < e {
        assert(0x30 <= s[c + 1] <= 0x39);
    }
    lemma_digit_run_to(s, d, e);
}

/// A mantissa with a fraction and no exponent is a real that ends after
/// the fraction.
pub proof fn lemma_fraction_real(s: Seq<u8>, offset: int, a: int, b: int, c: int)
    requires
        mantissa_at(s, offset, a, b, c),
        b < c,
        c == s.len() || !(s[c] == 0x65 || s[c] == 0x45),
    ensures
        spec_scan_number(s, offset) == Ok::<(NumberToken, int), TermError>((NumberToken::Real, c)),
{
    lemma_mantissa_scan(s, offset, a, b, c);
}

/// Digits with neither fraction nor exponent are an integer, read in base
/// ten, negated after a `-`; it must fit in `i32`.
pub proof fn lemma_integer_number(s: Seq<u8>, offset: int, a: int, b: int)
    requires
        mantissa_at(s, offset, a, b, b),
        b == s.len() || !(s[b] == 0x65 || s[b] == 0x45),
    ensures
        ({
            let v = digits_value(s, a, b);
            &&& a == offset && v < 0x8000_0000 ==> spec_scan_number(s, offset) == Ok::<(NumberToken, int), TermError>(
                (NumberToken::Integer(v as i32), b),
            )
            &&& a != offset && v <= 0x8000_0000 ==> spec_scan_number(s, offset) == Ok::<(NumberToken, int), TermError>(
                (NumberToken::Integer((-v) as i32), b),
            )
            &&& (a == offset && v >= 0x8000_0000) || (a != offset && v > 0x8000_0000) ==> spec_scan_number(s, offset)
                == Err::<(NumberToken, int), TermError>(TermError::InvalidInteger)
        }),
{
    lemma_mantissa_scan(s, offset, a, b, b);
}

/// The value of a run of digits is read in base ten, most significant
/// digit first.
pub proof fn lemma_decimal_value(s: Seq<u8>, i: int, j: int)
    requires
        i <= j < s.len(),
        0x30 <= s[j] <= 0x39,
    ensures
        digits_value(s, i, i) == 0,
        digits_value(s, i, j + 1) == digits_value(s, i, j) * 10 + (s[j] - 0x30),
{
}

/// Where no digit starts the number, after an optional `-`, there is none.
pub proof fn lemma_no_digits(s: Seq<u8>, offset: int)
    requires
        0 <= offset,
        ({
            let a = if offset < s.len() && s[offset] == 0x2d {
                offset + 1
            } else {
                offset
            };
            a >= s.len() || !(0x30 <= s[a] <= 0x39)
        }),
    ensures
        spec_scan_number(s, offset) == Err::<(NumberToken, int), TermError>(TermError::UnexpectedCharacter),
{
}

pub proof fn lemma_scan_number(s: Seq<u8>, offset: int)
    requires
        0 <= offset <= s.len(),
    ensures
        spec_scan_number(s, offset) matches Ok((_, e)) ==> offset < e <= s.len() && is_digit(
            s[e - 1],
        ) && s[offset] < 0x80,
{
    let a = number_digits_start(s, offset);
    lemma_digit_run_end(s, a);
    let b = digit_run_end(s, a);
    if has_fraction(s, b) {
        lemma_digit_run_end(s, b + 2);
    }
    let c = if has_fraction(s, b) {
        digit_run_end(s, b + 2)
    } else {
        b
    };
    if 0 <= c < s.len() && is_exponent_mark(s[c]) {
        let d = if c + 1 < s.len() && is_sign(s[c + 1]) {
            c + 2
        } else {
            c + 1
        };
        lemma_digit_run_end(s, d);
    }
}

fn digit_run(bytes: &[u8], from: usize) -> (r: usize)
    requires
        from <= bytes@.len(),
    ensures
        r == digit_run_end(bytes@, from as int),
{
    let ghost s = bytes@;
    let len = bytes.len();
    let mut i = from;
    while i < len && is_digit_byte(bytes[i])
        invariant
            from <= i <= len,
            len == s.len(),
            s == bytes@,
            digit_run_end(s, i as int) == digit_run_end(s, from as int),
        decreases len - i,
    {
        i += 1;
    }
    i
}

/// Reads the decimal digits `bytes[from..to]` as an `i32`, negated when
/// `negative`; `None` when the value does not fit.
fn read_i32(bytes: &[u8], from: usize, to: usize, negative: bool) -> (r: Option<i32>)
    requires
        from <= to <= bytes@.len(),
        forall|m: int| from <= m < to ==> is_digit(#[trigger] bytes@[m]),
    ensures
        ({
            let v = digits_value(bytes@, from as int, to as int);
            if negative {
                if v <= 0x8000_0000 {
                    r == Some((-v) as i32)
                } else {
                    r is None
                }
            } else if v < 0x8000_0000 {
                r == Some(v as i32)
            } else {
                r is None
            }
        }),
{
    let ghost s = bytes@;
    let mut acc: u64 = 0;
    let mut i = from;
    while i < to
        invariant
            from <= i <= to,
            to <= s.len(),
            s == bytes@,
            forall|m: int| from <= m < to ==> is_digit(#[trigger] s[m]),
            acc == digits_value(s, from as int, i as int),
            acc <= 0x8000_0000,
        decreases to - i,
    {
        let d = bytes[i] - 0x30;
        acc = acc * 10 + d as u64;
        i += 1;
        if acc > 0x8000_0000 {
            proof {
                lemma_digits_value_grows(s, from as int, i as int, to as int);
            }
            return None;
        }
    }
    if negative {
        if acc == 0x8000_0000 {
            Some(-2147483648i32)
        } else {
            Some(-(acc as i32))
        }
    } else if acc < 0x8000_0000 {
        Some(acc as i32)
    } else {
        None
    }
}

/// Scans the number literal at `offset`.
pub fn scan_number(bytes: &[u8], offset: usize) -> (r: Result<(NumberToken, usize), TermError>)
    ensures
        match r {
            Ok((t, e)) => spec_scan_number(bytes@, offset as int) == Ok::<
                (NumberToken, int),
                TermError,
            >((t, e as int)),
            Err(err) => spec_scan_number(bytes@, offset as int) == Err::<
                (NumberToken, int),
                TermError,
            >(err),
        },
{
    let ghost s = bytes@;
    let len = bytes.len();
    if offset > len {
        return Err(TermError::UnexpectedCharacter);
    }
    let a = if offset < len && bytes[offset] == 0x2d {
        offset + 1
    } else {
        offset
    };
    let b = digit_run(bytes, a);
    proof {
        lemma_digit_run_end(s, a as int);
    }
    if b == a {
        return Err(TermError::UnexpectedCharacter);
    }
    let fraction = len - b >= 2 && bytes[b] == 0x2e && is_digit_byte(bytes[b + 1]);
    let c = if fraction {
        digit_run(bytes, b + 2)
    } else {
        b
    };
    if c < len && (bytes[c] == 0x65 || bytes[c] == 0x45) {
        let d = if len - c >= 2 && (bytes[c + 1] == 0x2b || bytes[c + 1] == 0x2d) {
            c + 2
        } else {
            c + 1
        };
        let e = digit_run(bytes, d);
        if e == d {
            return Err(TermError::InvalidReal);
        }
        return Ok((NumberToken::Real, e));
    }
    if c != b {
        return Ok((NumberToken::Real, c));
    }
    match read_i32(bytes, a, b, a != offset) {
        Some(v) => Ok((NumberToken::Integer(v), b)),
        None => Err(TermError::InvalidInteger),
    }
}


/// A control character starts at `i`: C0 controls, DEL, or the two-byte
/// encodings of the C1 controls (U+0080 to U+009F).
pub open spec fn is_control_at(s: Seq<u8>, i: int) -> bool {
    0 <= i < s.len() && (s[i] < 0x20 || s[i] == 0x7f || (s[i] == 0xc2 && i + 1 < s.len() && 0x80
        <= s[i + 1] && s[i + 1] <= 0x9f))
}

/// From `k`, the end of the run of UTF-8 continuation bytes: where the character
/// that started before `k` ends.
pub open spec fn continuation_run_end(s: Seq<u8>, k: int) -> int
    decreases s.len() - k,
{
    if 0 <= k < s.len() && is_continuation_byte(s[k]) {
        continuation_run_end(s, k + 1)
    } else {
        k
    }
}

pub proof fn lemma_continuation_run_end(s: Seq<u8>, k: int)
    requires
        0 <= k <= s.len(),
    ensures
        k <= continuation_run_end(s, k) <= s.len(),
    decreases s.len() - k,
{
    if k < s.len() && is_continuation_byte(s[k]) {
        lemma_continuation_run_end(s, k + 1);
    }
}

pub open spec fn is_hex_digit(b: u8) -> bool {
    is_digit(b) || (0x41 <= b && b <= 0x46) || (0x61 <= b && b <= 0x66)
}

pub open spec fn hex_digit_value(b: u8) -> nat {
    if is_digit(b) {
        (b - 0x30) as nat
    } else if 0x41 <= b && b <= 0x46 {
        (b - 0x41 + 10) as nat
    } else {
        (b - 0x61 + 10) as nat
    }
}

/// The value of the hexadecimal digits `s[i..j]`.
pub open spec fn hex_value(s: Seq<u8>, i: int, j: int) -> nat
    decreases j - i,
{
    if j <= i {
        0
    } else {
        hex_value(s, i, j - 1) * 16 + hex_digit_value(s[j - 1])
    }
}

/// A Unicode scalar value: at most U+10FFFF and not a surrogate.
pub open spec fn is_scalar_value(v: nat) -> bool {
    v <= 0x10ffff && !(0xd800 <= v && v <= 0xdfff)
}

/// `n` hexadecimal digits at `i` that name a Unicode scalar value.
pub open spec fn unicode_escape_ok(s: Seq<u8>, i: int, n: int) -> bool {
    &&& 0 <= i
    &&& i + n <= s.len()
    &&& forall|m: int| i <= m < i + n ==> is_hex_digit(#[trigger] s[m])
    &&& is_scalar_value(hex_value(s, i, i + n))
}

/// The result of scanning a quoted atom whose content starts at `i`: the
/// offset of its closing quote, or an error and the offset where it arose.
/// Inside, `''` stands for a quote; `\` escapes one of `\ ' n r t`, or opens
/// `\uXXXX` or `\UXXXXXXXX`; control characters are refused.
pub open spec fn spec_scan_quoted(s: Seq<u8>, i: int) -> Result<int, (TermError, int)>
    decreases s.len() - i,
{
    if i < 0 || s.len() <= i {
        Err((TermError::UnterminatedQuotedAtom, i))
    } else if s[i] == 0x27 {
        if i + 1 < s.len() && s[i + 1] == 0x27 {
            spec_scan_quoted(s, i + 2)
        } else {
            Ok(i)
        }
    } else if s[i] == 0x5c {
        let e = i + 1;
        if s.len() <= e {
            Err((TermError::UnterminatedQuotedAtom, e))
        } else {
            let x = s[e];
            if x == 0x5c || x == 0x27 || x == 0x6e || x == 0x72 || x == 0x74 {
                spec_scan_quoted(s, e + 1)
            } else if x == 0x75 || x == 0x55 {
                let n = if x == 0x75 {
                    4int
                } else {
                    8int
                };
                if unicode_escape_ok(s, e + 1, n) {
                    spec_scan_quoted(s, e + 1 + n)
                } else {
                    Err((TermError::InvalidEscape, e + 1))
                }
            } else {
                Err((TermError::InvalidEscape, continuation_run_end(s, e + 1)))
            }
        }
    } else if is_control_at(s, i) {
        Err((TermError::UnexpectedCharacter, i))
    } else {
        spec_scan_quoted(s, i + 1)
    }
}

/// Inside a quoted atom: a lone quote closes it; two quotes, or a backslash
/// before one of `\ ' n r t`, are passed over together; a printable ASCII
/// byte is passed over; a control character is refused where it stands;
/// and the end of the text leaves the atom unterminated.
pub proof fn lemma_quoted_steps(s: Seq<u8>, i: int)
    requires
        0 <= i <= s.len(),
    ensures
        i == s.len() ==> spec_scan_quoted(s, i) == Err::<int, (TermError, int)>(
            (TermError::UnterminatedQuotedAtom, i),
        ),
        i < s.len() && s[i] == 0x27 && !(i + 1 < s.len() && s[i + 1] == 0x27) ==> spec_scan_quoted(s, i) == Ok::<
            int,
            (TermError, int),
        >(i),
        i + 1 < s.len() && s[i] == 0x27 && s[i + 1] == 0x27 ==> spec_scan_quoted(s, i) == spec_scan_quoted(s, i + 2),
        i + 1 < s.len() && s[i] == 0x5c && (s[i + 1] == 0x5c || s[i + 1] == 0x27 || s[i + 1] == 0x6e || s[i + 1]
            == 0x72 || s[i + 1] == 0x74) ==> spec_scan_quoted(s, i) == spec_scan_quoted(s, i + 2),
        i < s.len() && 0x20 <= s[i] <= 0x7e && s[i] != 0x27 && s[i] != 0x5c ==> spec_scan_quoted(s, i)
            == spec_scan_quoted(s, i + 1),
        i < s.len() && (s[i] < 0x20 || s[i] == 0x7f) ==> spec_scan_quoted(s, i) == Err::<int, (TermError, int)>(
            (TermError::UnexpectedCharacter, i),
        ),
{
}

pub proof fn lemma_scan_quoted(s: Seq<u8>, i: int)
    requires
        0 <= i <= s.len(),
    ensures
        match spec_scan_quoted(s, i) {
            Ok(e) => i <= e < s.len() && s[e] == 0x27,
            Err((_, e)) => i <= e <= s.len(),
        },
    decreases s.len() - i,
{
    if i < s.len() {
        if s[i] == 0x27 {
            if i + 1 < s.len() && s[i + 1] == 0x27 {
                lemma_scan_quoted(s, i + 2);
            }
        } else if s[i] == 0x5c {
            let e = i + 1;
            if e < s.len() {
                let x = s[e];
                if x == 0x5c || x == 0x27 || x == 0x6e || x == 0x72 || x == 0x74 {
                    lemma_scan_quoted(s, e + 1);
                } else if x == 0x75 || x == 0x55 {
                    let n = if x == 0x75 {
                        4int
                    } else {
                        8int
                    };
                    if unicode_escape_ok(s, e + 1, n) {
                        lemma_scan_quoted(s, e + 1 + n);
                    }
                } else {
                    lemma_continuation_run_end(s, e + 1);
                }
            }
        } else if !is_control_at(s, i) {
            lemma_scan_quoted(s, i + 1);
        }
    }
}

pub fn is_hex_digit_byte(b: u8) -> (r: bool)
    ensures
        r == is_hex_digit(b),
{
    (0x30 <= b && b <= 0x39) || (0x41 <= b && b <= 0x46) || (0x61 <= b && b <= 0x66)
}

pub fn hex_digit_value_of(b: u8) -> (r: u32)
    requires
        is_hex_digit(b),
    ensures
        r == hex_digit_value(b),
        r < 16,
{
    if 0x30 <= b && b <= 0x39 {
        (b - 0x30) as u32
    } else if 0x41 <= b && b <= 0x46 {
        (b - 0x41 + 10) as u32
    } else {
        (b - 0x61 + 10) as u32
    }
}

pub open spec fn pow16(k: nat) -> nat
    decreases k,
{
    if k == 0 {
        1
    } else {
        16 * pow16((k - 1) as nat)
    }
}

proof fn lemma_pow16_mono(a: nat, b: nat)
    requires
        a <= b,
    ensures
        pow16(a) <= pow16(b),
    decreases b - a,
{
    if a < b {
        lemma_pow16_mono(a, (b - 1) as nat);
    }
}

proof fn lemma_hex_value_bound(s: Seq<u8>, i: int, j: int)
    requires
        i <= j,
        forall|m: int| i <= m < j ==> is_hex_digit(#[trigger] s[m]),
    ensures
        hex_value(s, i, j) < pow16((j - i) as nat),
    decreases j - i,
{
    if i < j {
        lemma_hex_value_bound(s, i, j - 1);
        assert(hex_digit_value(s[j - 1]) < 16);
        let p = pow16((j - 1 - i) as nat);
        assert(pow16((j - i) as nat) == 16 * p);
        let h = hex_value(s, i, j - 1);
        let d = hex_digit_value(s[j - 1]);
        assert(h * 16 + d < 16 * p) by (nonlinear_arith)
            requires
                h < p,
                d < 16,
        ;
    }
}

/// The value of `n` (at most 8) hexadecimal digits at `i`, when they are all
/// there, are all hexadecimal and name a Unicode scalar value.
pub fn unicode_escape_value(bytes: &[u8], i: usize, n: usize) -> (r: Option<u32>)
    requires
        i <= bytes@.len(),
        n <= 8,
    ensures
        r is Some <==> unicode_escape_ok(bytes@, i as int, n as int),
        r matches Some(v) ==> v == hex_value(bytes@, i as int, i + n),
{
    let ghost s = bytes@;
    let len = bytes.len();
    if len - i < n {
        return None;
    }
    let mut acc: u64 = 0;
    let mut k: usize = 0;
    while k < n
        invariant
            k <= n,
            n <= 8,
            i + n <= s.len(),
            s == bytes@,
            len == s.len(),
            forall|m: int| i <= m < i + k ==> is_hex_digit(#[trigger] s[m]),
            acc == hex_value(s, i as int, i + k),
            acc < pow16(k as nat),
        decreases n - k,
    {
        let b = bytes[i + k];
        if !is_hex_digit_byte(b) {
            return None;
        }
        let d = hex_digit_value_of(b);
        proof {
            lemma_hex_value_bound(s, i as int, i + k + 1);
            lemma_pow16_mono((k + 1) as nat, 8);
            reveal_with_fuel(pow16, 9);
        }
        acc = acc * 16 + d as u64;
        k += 1;
    }
    if acc <= 0x10ffff && !(0xd800 <= acc && acc <= 0xdfff) {
        Some(acc as u32)
    } else {
        None
    }
}

/// Scans the content of a quoted atom that starts at `i`.
pub fn scan_quoted(bytes: &[u8], i: usize) -> (r: Result<usize, (TermError, usize)>)
    requires
        i <= bytes@.len(),
    ensures
        lift_scan(r) == spec_scan_quoted(bytes@, i as int),
{
    let ghost s = bytes@;
    let len = bytes.len();
    let mut pos = i;
    loop
        invariant
            pos <= len,
            len == s.len(),
            s == bytes@,
            i <= len,
            spec_scan_quoted(s, pos as int) == spec_scan_quoted(s, i as int),
        decreases len - pos,
    {
        if pos >= len {
            return Err((TermError::UnterminatedQuotedAtom, pos));
        }
        let b = bytes[pos];
        if b == 0x27 {
            if len - pos >= 2 && bytes[pos + 1] == 0x27 {
                pos += 2;
            } else {
                return Ok(pos);
            }
        } else if b == 0x5c {
            let e = pos + 1;
            if e >= len {
                return Err((TermError::UnterminatedQuotedAtom, e));
            }
            let x = bytes[e];
            if x == 0x5c || x == 0x27 || x == 0x6e || x == 0x72 || x == 0x74 {
                pos = e + 1;
            } else if x == 0x75 || x == 0x55 {
                let n: usize = if x == 0x75 {
                    4
                } else {
                    8
                };
                match unicode_escape_value(bytes, e + 1, n) {
                    Some(_) => {
                        pos = e + 1 + n;
                    },
                    None => {
                        return Err((TermError::InvalidEscape, e + 1));
                    },
                }
            } else {
                let mut k = e + 1;
                proof {
                    lemma_continuation_run_end(s, k as int);
                }
                while k < len && is_continuation(bytes[k])
                    invariant
                        e + 1 <= k <= len,
                        len == s.len(),
                        s == bytes@,
                        continuation_run_end(s, k as int) == continuation_run_end(s, e + 1),
                    decreases len - k,
                {
                    k += 1;
                }
                return Err((TermError::InvalidEscape, k));
            }
        } else if b < 0x20 || b == 0x7f || (b == 0xc2 && len - pos >= 2 && 0x80 <= bytes[pos + 1]
            && bytes[pos + 1] <= 0x9f) {
            return Err((TermError::UnexpectedCharacter, pos));
        } else {
            pos += 1;
        }
    }
}

pub fn is_continuation(b: u8) -> (r: bool)
    ensures
        r == is_continuation_byte(b),
{
    0x80 <= b && b <= 0xbf
}

} // verus!
