use vstd::prelude::*;
use vstd::string::StringSliceAdditionalSpecFns;

verus! {

/// ASCII letter.
pub open spec fn is_alpha(b: u8) -> bool {
    (0x41 <= b && b <= 0x5a) || (0x61 <= b && b <= 0x7a)
}

/// ASCII decimal digit.
pub open spec fn is_digit(b: u8) -> bool {
    0x30 <= b && b <= 0x39
}

/// ASCII letter or digit.
pub open spec fn is_alnum(b: u8) -> bool {
    is_alpha(b) || is_digit(b)
}

/// `$`, `?` or `#`: the bytes that may open or close a word name.
pub open spec fn spec_is_word_affix(b: u8) -> bool {
    b == 0x24 || b == 0x3f || b == 0x23
}

/// A byte that may start a word name.
pub open spec fn spec_is_word_ident_start(b: u8) -> bool {
    is_alpha(b) || spec_is_word_affix(b)
}

/// One of `&*+-./:<=>@\^~`, the bytes of symbol names.
pub open spec fn spec_is_symbol(b: u8) -> bool {
    b == 0x26 || b == 0x2a || b == 0x2b || b == 0x2d || b == 0x2e || b == 0x2f || b == 0x3a
        || b == 0x3c || b == 0x3d || b == 0x3e || b == 0x40 || b == 0x5c || b == 0x5e
        || b == 0x7e
}

/// Whether `s` holds the two bytes `/*` (a comment opener) at `i`.
pub open spec fn comment_opens_at(s: Seq<u8>, i: int) -> bool {
    0 <= i && i + 1 < s.len() && s[i] == 0x2f && s[i + 1] == 0x2a
}

/// The end of the run of letters and digits that starts at `i`.
pub open spec fn alnum_run_end(s: Seq<u8>, i: int) -> int
    decreases s.len() - i,
{
    if 0 <= i < s.len() && is_alnum(s[i]) {
        alnum_run_end(s, i + 1)
    } else {
        i
    }
}

pub proof fn lemma_alnum_run_end(s: Seq<u8>, i: int)
    ensures
        i <= alnum_run_end(s, i),
        0 <= i <= s.len() ==> alnum_run_end(s, i) <= s.len(),
        forall|k: int| i <= k < alnum_run_end(s, i) ==> is_alnum(#[trigger] s[k]),
        0 <= alnum_run_end(s, i) < s.len() ==> !is_alnum(s[alnum_run_end(s, i)]),
    decreases s.len() - i,
{
    if 0 <= i < s.len() && is_alnum(s[i]) {
        lemma_alnum_run_end(s, i + 1);
    }
}

/// From the end `e` of a run of letters and digits, the end of the word body:
/// further runs joined by single underscores.
pub open spec fn word_body_end(s: Seq<u8>, body_start: int, e: int) -> int
    decreases s.len() - e,
{
    if body_start < e && 0 <= e && e + 1 < s.len() && s[e] == 0x5f && is_alnum(s[e + 1]) {
        proof {
            lemma_alnum_run_end(s, e + 1);
        }
        word_body_end(s, body_start, alnum_run_end(s, e + 1))
    } else {
        e
    }
}

pub proof fn lemma_word_body_end(s: Seq<u8>, body_start: int, e: int)
    requires
        0 <= e <= s.len(),
    ensures
        e <= word_body_end(s, body_start, e) <= s.len(),
        body_start < e ==> body_start < word_body_end(s, body_start, e),
    decreases s.len() - e,
{
    if body_start < e && 0 <= e && e + 1 < s.len() && s[e] == 0x5f && is_alnum(s[e + 1]) {
        lemma_alnum_run_end(s, e + 1);
        lemma_word_body_end(s, body_start, alnum_run_end(s, e + 1));
    }
}

/// Every byte of `s` from `bs` to `e` is a letter or a digit, or an underscore
/// with a letter or digit on each side, both before `e`.
spec fn word_body_shape(s: Seq<u8>, bs: int, e: int) -> bool {
    forall|k: int|
        bs <= k < e ==> is_alnum(#[trigger] s[k]) || (s[k] == 0x5f && bs < k && k + 1 < e && is_alnum(s[k - 1])
            && is_alnum(s[k + 1]))
}

/// From the end `e` of a run of letters and digits that ends a well-formed
/// body, the body goes on as far as underscores join further runs, and no
/// further.
proof fn lemma_word_body_end_shape(s: Seq<u8>, bs: int, e: int)
    requires
        0 <= bs <= e <= s.len(),
        word_body_shape(s, bs, e),
        bs < e ==> is_alnum(s[e - 1]),
        !(e < s.len() && is_alnum(s[e])),
    ensures
        e <= word_body_end(s, bs, e) <= s.len(),
        word_body_shape(s, bs, word_body_end(s, bs, e)),
        bs < e ==> is_alnum(s[word_body_end(s, bs, e) - 1]),
        bs == e ==> word_body_end(s, bs, e) == e,
        !(word_body_end(s, bs, e) < s.len() && is_alnum(s[word_body_end(s, bs, e)])),
        !(bs < word_body_end(s, bs, e) && word_body_end(s, bs, e) + 1 < s.len() && s[word_body_end(s, bs, e)]
            == 0x5f && is_alnum(s[word_body_end(s, bs, e) + 1])),
    decreases s.len() - e,
{
    if bs < e && e + 1 < s.len() && s[e] == 0x5f && is_alnum(s[e + 1]) {
        lemma_alnum_run_end(s, e + 1);
        let e2 = alnum_run_end(s, e + 1);
        lemma_alnum_run_end(s, e + 2);
        assert(e2 == alnum_run_end(s, e + 2));
        assert(word_body_shape(s, bs, e2)) by {
            assert forall|k: int| bs <= k < e2 implies is_alnum(#[trigger] s[k]) || (s[k] == 0x5f && bs < k && k + 1
                < e2 && is_alnum(s[k - 1]) && is_alnum(s[k + 1])) by {
                if k < e {
                    assert(is_alnum(s[k]) || (s[k] == 0x5f && bs < k && k + 1 < e && is_alnum(s[k - 1]) && is_alnum(
                        s[k + 1],
                    )));
                } else if k > e {
                    assert(is_alnum(s[k]));
                }
            }
        }
        lemma_word_body_end_shape(s, bs, e2);
    }
}

/// A word name starts with an ASCII letter or one of `$?#`. After that
/// optional affix, its body is ASCII letters and digits in runs joined by
/// single underscores, as long as it can be, followed by an optional closing
/// affix when the body is not empty. So every underscore of the body stands
/// between letters or digits, and the name stops only where neither a
/// letter or digit nor an underscore followed by one comes next, whatever
/// the number of underscores.
pub proof fn lemma_word_name(s: Seq<u8>, offset: int)
    requires
        0 <= offset < s.len(),
        (0x41 <= s[offset] <= 0x5a) || (0x61 <= s[offset] <= 0x7a) || s[offset] == 0x24 || s[offset] == 0x3f
            || s[offset] == 0x23,
    ensures
        ({
            let ld = |x: u8| (0x30 <= x <= 0x39) || (0x41 <= x <= 0x5a) || (0x61 <= x <= 0x7a);
            let affix = |x: u8| x == 0x24 || x == 0x3f || x == 0x23;
            let bs = if affix(s[offset]) {
                offset + 1
            } else {
                offset
            };
            let r = spec_scan_word_ident(s, offset);
            let e = if bs < r && affix(s[r - 1]) {
                r - 1
            } else {
                r
            };
            &&& bs <= e <= r <= s.len()
            &&& affix(s[offset]) || bs < e
            &&& forall|k: int|
                bs <= k < e ==> ld(#[trigger] s[k]) || (s[k] == 0x5f && bs < k && k + 1 < e && ld(s[k - 1]) && ld(
                    s[k + 1],
                ))
            &&& !(e < s.len() && ld(s[e]))
            &&& !(bs < e && e + 1 < s.len() && s[e] == 0x5f && ld(s[e + 1]))
            &&& r == e + 1 <==> (bs < e && e < s.len() && affix(s[e]))
        }),
{
    let bs = if spec_is_word_affix(s[offset]) {
        offset + 1
    } else {
        offset
    };
    lemma_alnum_run_end(s, bs);
    let e0 = alnum_run_end(s, bs);
    assert(word_body_shape(s, bs, e0));
    lemma_word_body_end_shape(s, bs, e0);
    let e = word_body_end(s, bs, e0);
    let r = spec_scan_word_ident(s, offset);
    if !spec_is_word_affix(s[offset]) {
        assert(is_alnum(s[offset]));
        assert(bs < e0);
    }
    if bs < e && e < s.len() && spec_is_word_affix(s[e]) {
        assert(r == e + 1);
    } else {
        assert(r == e);
        if bs < e {
            assert(is_alnum(s[e - 1]));
        }
    }
}

/// A symbol name is the longest run of the bytes `&*+-./:<=>@\^~` that
/// starts at `offset` and does not run into a `/*`.
pub proof fn lemma_symbol_name(s: Seq<u8>, offset: int)
    requires
        0 <= offset < s.len(),
        ({
            let b = s[offset];
            b == 0x26 || b == 0x2a || b == 0x2b || b == 0x2d || b == 0x2e || b == 0x2f || b == 0x3a || b == 0x3c
                || b == 0x3d || b == 0x3e || b == 0x40 || b == 0x5c || b == 0x5e || b == 0x7e
        }),
    ensures
        ({
            let sym = |b: u8|
                b == 0x26 || b == 0x2a || b == 0x2b || b == 0x2d || b == 0x2e || b == 0x2f || b == 0x3a || b == 0x3c
                    || b == 0x3d || b == 0x3e || b == 0x40 || b == 0x5c || b == 0x5e || b == 0x7e;
            spec_scan_ident(s, offset) matches Some(e) && {
                &&& offset < e <= s.len()
                &&& forall|k: int| offset <= k < e ==> sym(#[trigger] s[k])
                &&& forall|k: int| offset < k < e ==> !(#[trigger] s[k] == 0x2f && k + 1 < s.len() && s[k + 1] == 0x2a)
                &&& e == s.len() || !sym(s[e]) || (e + 1 < s.len() && s[e] == 0x2f && s[e + 1] == 0x2a)
            }
        }),
{
    lemma_symbol_run_end(s, offset + 1);
    lemma_symbol_run_stops(s, offset + 1);
    let e = symbol_run_end(s, offset + 1);
    assert(spec_scan_ident(s, offset) == Some(e));
    assert forall|k: int| offset <= k < e implies spec_is_symbol(#[trigger] s[k]) by {}
    assert forall|k: int| offset < k < e implies !(#[trigger] s[k] == 0x2f && k + 1 < s.len() && s[k + 1] == 0x2a) by {
        assert(!comment_opens_at(s, k));
    }
}

/// The run of symbol bytes from `j` stops at the end, at a byte that is not
/// one, or at a `/*`, and meets no `/*` before.
proof fn lemma_symbol_run_stops(s: Seq<u8>, j: int)
    requires
        0 <= j <= s.len(),
    ensures
        symbol_run_end(s, j) == s.len() || !spec_is_symbol(s[symbol_run_end(s, j)]) || comment_opens_at(
            s,
            symbol_run_end(s, j),
        ),
        forall|k: int| j <= k < symbol_run_end(s, j) ==> !comment_opens_at(s, k),
    decreases s.len() - j,
{
    if j < s.len() && spec_is_symbol(s[j]) && !comment_opens_at(s, j) {
        lemma_symbol_run_stops(s, j + 1);
    }
}

/// The end of the word name that starts at `offset`: an optional affix, letters
/// and digits in runs joined by single underscores, and an optional closing affix
/// when the body is not empty. Where no body follows, only the affix is taken.
pub open spec fn spec_scan_word_ident(s: Seq<u8>, offset: int) -> int {
    let body_start = if 0 <= offset < s.len() && spec_is_word_affix(s[offset]) {
        offset + 1
    } else {
        offset
    };
    let e = word_body_end(s, body_start, alnum_run_end(s, body_start));
    if body_start < e && 0 <= e < s.len() && spec_is_word_affix(s[e]) {
        e + 1
    } else {
        e
    }
}

/// From `j`, the end of the run of symbol bytes that stops before a `/*`.
pub open spec fn symbol_run_end(s: Seq<u8>, j: int) -> int
    decreases s.len() - j,
{
    if 0 <= j < s.len() && spec_is_symbol(s[j]) && !comment_opens_at(s, j) {
        symbol_run_end(s, j + 1)
    } else {
        j
    }
}

pub proof fn lemma_symbol_run_end(s: Seq<u8>, j: int)
    ensures
        j <= symbol_run_end(s, j),
        0 <= j <= s.len() ==> symbol_run_end(s, j) <= s.len(),
        forall|k: int| j <= k < symbol_run_end(s, j) ==> spec_is_symbol(#[trigger] s[k]),
    decreases s.len() - j,
{
    if 0 <= j < s.len() && spec_is_symbol(s[j]) && !comment_opens_at(s, j) {
        lemma_symbol_run_end(s, j + 1);
    }
}

/// The end of the name (word or symbol) that starts at `offset`, if one does.
pub open spec fn spec_scan_ident(s: Seq<u8>, offset: int) -> Option<int> {
    if offset < 0 || s.len() <= offset {
        None
    } else if spec_is_word_ident_start(s[offset]) {
        Some(spec_scan_word_ident(s, offset))
    } else if spec_is_symbol(s[offset]) {
        Some(symbol_run_end(s, offset + 1))
    } else {
        None
    }
}

pub proof fn lemma_scan_word_ident_bounds(s: Seq<u8>, offset: int)
    requires
        0 <= offset <= s.len(),
    ensures
        offset <= spec_scan_word_ident(s, offset) <= s.len(),
        offset < s.len() && spec_is_word_ident_start(s[offset]) ==> offset
            < spec_scan_word_ident(s, offset),
{
    let body_start = if 0 <= offset < s.len() && spec_is_word_affix(s[offset]) {
        offset + 1
    } else {
        offset
    };
    lemma_alnum_run_end(s, body_start);
    lemma_word_body_end(s, body_start, alnum_run_end(s, body_start));
}

pub proof fn lemma_scan_ident_bounds(s: Seq<u8>, offset: int)
    requires
        0 <= offset <= s.len(),
    ensures
        spec_scan_ident(s, offset) matches Some(e) ==> offset < e <= s.len(),
{
    if offset < s.len() {
        lemma_scan_word_ident_bounds(s, offset);
        lemma_symbol_run_end(s, offset + 1);
    }
}

proof fn lemma_word_body_end_ascii(s: Seq<u8>, body_start: int, e: int)
    requires
        body_start < e <= s.len(),
        s[e - 1] < 0x80,
    ensures
        s[word_body_end(s, body_start, e) - 1] < 0x80,
    decreases s.len() - e,
{
    if body_start < e && 0 <= e && e + 1 < s.len() && s[e] == 0x5f && is_alnum(s[e + 1]) {
        lemma_alnum_run_end(s, e + 1);
        let e2 = alnum_run_end(s, e + 1);
        lemma_alnum_run_end(s, e + 2);
        assert(e2 == alnum_run_end(s, e + 2));
        assert(is_alnum(s[e2 - 1]));
        lemma_word_body_end_ascii(s, body_start, e2);
    }
}

/// A name starts and ends with ASCII bytes.
pub proof fn lemma_scan_ident_ascii(s: Seq<u8>, offset: int)
    requires
        0 <= offset <= s.len(),
    ensures
        spec_scan_ident(s, offset) matches Some(e) ==> s[offset] < 0x80 && s[e - 1] < 0x80,
{
    lemma_scan_ident_bounds(s, offset);
    if offset < s.len() {
        if spec_is_word_ident_start(s[offset]) {
            let bs = if spec_is_word_affix(s[offset]) {
                offset + 1
            } else {
                offset
            };
            lemma_alnum_run_end(s, bs);
            let e0 = alnum_run_end(s, bs);
            lemma_word_body_end(s, bs, e0);
            if e0 > bs {
                assert(is_alnum(s[e0 - 1]));
                lemma_word_body_end_ascii(s, bs, e0);
            } else {
                assert(word_body_end(s, bs, e0) == e0);
            }
        } else if spec_is_symbol(s[offset]) {
            lemma_symbol_run_end(s, offset + 1);
        }
    }
}

pub fn is_word_affix(byte: u8) -> (r: bool)
    ensures
        r == spec_is_word_affix(byte),
{
    byte == 0x24 || byte == 0x3f || byte == 0x23
}

pub fn is_alnum_byte(byte: u8) -> (r: bool)
    ensures
        r == is_alnum(byte),
{
    (0x41 <= byte && byte <= 0x5a) || (0x61 <= byte && byte <= 0x7a) || (0x30 <= byte && byte
        <= 0x39)
}

/// Whether `byte` may start a word name: an ASCII letter or one of `$?#`.
pub fn is_word_ident_start(byte: u8) -> (r: bool)
    ensures
        r == spec_is_word_ident_start(byte),
{
    (0x41 <= byte && byte <= 0x5a) || (0x61 <= byte && byte <= 0x7a) || is_word_affix(byte)
}

pub fn is_symbol(byte: u8) -> (r: bool)
    ensures
        r == spec_is_symbol(byte),
{
    byte == 0x26 || byte == 0x2a || byte == 0x2b || byte == 0x2d || byte == 0x2e || byte == 0x2f
        || byte == 0x3a || byte == 0x3c || byte == 0x3d || byte == 0x3e || byte == 0x40 || byte
        == 0x5c || byte == 0x5e || byte == 0x7e
}

fn alnum_at(bytes: &[u8], i: usize) -> (r: bool)
    ensures
        r == (i < bytes@.len() && is_alnum(bytes@[i as int])),
{
    i < bytes.len() && is_alnum_byte(bytes[i])
}

/// Byte-level form of `scan_word_ident`.
pub fn scan_word_ident_bytes(bytes: &[u8], offset: usize) -> (r: usize)
    ensures
        r == spec_scan_word_ident(bytes@, offset as int),
{
    let ghost s = bytes@;
    let len = bytes.len();
    let mut pos = offset;
    if pos < len && is_word_affix(bytes[pos]) {
        pos += 1;
    }
    let body_start = pos;
    proof {
        lemma_alnum_run_end(s, body_start as int);
    }
    if pos <= bytes.len() {
        while alnum_at(bytes, pos)
            invariant
                body_start <= pos <= bytes@.len(),
                alnum_run_end(s, pos as int) == alnum_run_end(s, body_start as int),
                s == bytes@,
                len == bytes@.len(),
            decreases bytes@.len() - pos,
        {
            pos += 1;
        }
        let ghost first_end = pos as int;
        assert(pos as int == alnum_run_end(s, body_start as int));
        while pos > body_start && pos < bytes.len() && bytes[pos] == 0x5f && alnum_at(
            bytes,
            pos + 1,
        )
            invariant
                body_start <= pos <= bytes@.len(),
                word_body_end(s, body_start as int, pos as int) == word_body_end(
                    s,
                    body_start as int,
                    first_end,
                ),
                s == bytes@,
                len == bytes@.len(),
            decreases bytes@.len() - pos,
        {
            pos += 1;
            let ghost run_start = pos as int;
            proof {
                lemma_alnum_run_end(s, run_start);
            }
            while alnum_at(bytes, pos)
                invariant
                    run_start <= pos <= bytes@.len(),
                    alnum_run_end(s, pos as int) == alnum_run_end(s, run_start),
                    s == bytes@,
                    len == bytes@.len(),
                decreases bytes@.len() - pos,
            {
                pos += 1;
            }
        }
        if pos > body_start && pos < bytes.len() && is_word_affix(bytes[pos]) {
            pos += 1;
        }
        pos
    } else {
        pos
    }
}

/// Scans the word name at `offset` and returns its end; where no word name
/// starts there, the end of an affix byte, or `offset` itself.
pub fn scan_word_ident(source: &str, offset: usize) -> (r: usize)
    ensures
        r == spec_scan_word_ident(source.spec_bytes(), offset as int),
{
    scan_word_ident_bytes(source.as_bytes(), offset)
}

/// Byte-level form of `scan_ident`.
pub fn scan_ident_bytes(bytes: &[u8], offset: usize) -> (r: Option<usize>)
    ensures
        r matches Some(e) ==> spec_scan_ident(bytes@, offset as int) == Some(e as int),
        r is None ==> spec_scan_ident(bytes@, offset as int) is None,
{
    if offset >= bytes.len() {
        return None;
    }
    let byte = bytes[offset];
    if is_word_ident_start(byte) {
        Some(scan_word_ident_bytes(bytes, offset))
    } else if is_symbol(byte) {
        let ghost s = bytes@;
        let mut end = offset + 1;
        while end < bytes.len() && is_symbol(bytes[end]) && !(bytes[end] == 0x2f && end + 1
            < bytes.len() && bytes[end + 1] == 0x2a)
            invariant
                offset < end <= bytes@.len(),
                symbol_run_end(s, end as int) == symbol_run_end(s, offset + 1),
                s == bytes@,
            decreases bytes@.len() - end,
        {
            end += 1;
        }
        Some(end)
    } else {
        None
    }
}

/// Scans the name that starts at `offset`, a word name or a run of symbol bytes
/// that stops before `/*`, and returns its end; `None` where no name starts.
pub fn scan_ident(source: &str, offset: usize) -> (r: Option<usize>)
    ensures
        r matches Some(e) ==> spec_scan_ident(source.spec_bytes(), offset as int) == Some(
            e as int,
        ),
        r is None ==> spec_scan_ident(source.spec_bytes(), offset as int) is None,
{
    scan_ident_bytes(source.as_bytes(), offset)
}

} // verus!
