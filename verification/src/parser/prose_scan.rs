use crate::parser::ident::{
    lemma_scan_word_ident_bounds, scan_word_ident_bytes, spec_is_word_ident_start,
    spec_scan_word_ident, is_word_ident_start,
};
use vstd::prelude::*;
use vstd::utf8::is_continuation_byte;

verus! {

/// `offset` starts a line: it is the start of the text, or follows a line feed.
pub open spec fn spec_is_start_of_line(s: Seq<u8>, offset: int) -> bool {
    offset == 0 || (0 < offset <= s.len() && s[offset - 1] == 0x0a)
}

pub fn is_start_of_line(bytes: &[u8], offset: usize) -> (r: bool)
    requires
        offset <= bytes@.len(),
    ensures
        r == spec_is_start_of_line(bytes@, offset as int),
{
    offset == 0 || bytes[offset - 1] == 0x0a
}

/// The end of the line break (`\n`, or `\r\n` within `end`) at `offset`, if one is there.
pub open spec fn spec_newline_end(s: Seq<u8>, offset: int, end: int) -> Option<int> {
    if 0 <= offset < s.len() && s[offset] == 0x0a {
        Some(offset + 1)
    } else if 0 <= offset && offset + 1 < end && offset + 1 < s.len() && s[offset] == 0x0d && s[offset
        + 1] == 0x0a {
        Some(offset + 2)
    } else {
        None
    }
}

/// A line break is a line feed, or a carriage return and a line feed that
/// both stand before `end`; it ends just after its line feed, and nothing
/// else is one.
pub proof fn lemma_line_break(s: Seq<u8>, offset: int, end: int)
    requires
        0 <= offset,
    ensures
        offset < s.len() && s[offset] == 0x0a ==> spec_newline_end(s, offset, end) == Some(offset + 1),
        offset + 2 <= end && offset + 2 <= s.len() && s[offset] == 0x0d && s[offset + 1] == 0x0a
            ==> spec_newline_end(s, offset, end) == Some(offset + 2),
        spec_newline_end(s, offset, end) matches Some(k) ==> {
            &&& offset < k <= offset + 2
            &&& k <= s.len()
            &&& s[k - 1] == 0x0a
            &&& (k == offset + 2 ==> s[offset] == 0x0d && k <= end)
        },
        offset >= s.len() || (s[offset] != 0x0a && s[offset] != 0x0d) ==> spec_newline_end(s, offset, end) is None,
{
}

pub fn scan_newline_sequence(bytes: &[u8], offset: usize, end: usize) -> (r: Option<usize>)
    requires
        offset <= bytes@.len(),
    ensures
        r matches Some(e) ==> spec_newline_end(bytes@, offset as int, end as int) == Some(e as int),
        r is None ==> spec_newline_end(bytes@, offset as int, end as int) is None,
{
    let len = bytes.len();
    if offset < len && bytes[offset] == 0x0a {
        Some(offset + 1)
    } else if offset < len && len - offset >= 2 && end >= offset && end - offset >= 2 && bytes[offset]
        == 0x0d && bytes[offset + 1] == 0x0a {
        Some(offset + 2)
    } else {
        None
    }
}

/// From `offset`, the end of the line (after its line break), or `end` if no
/// line break comes first.
pub open spec fn spec_end_of_line(s: Seq<u8>, offset: int, end: int) -> int
    decreases end - offset,
{
    if offset >= end {
        end
    } else {
        match spec_newline_end(s, offset, end) {
            Some(e) => e,
            None => spec_end_of_line(s, offset + 1, end),
        }
    }
}

pub proof fn lemma_end_of_line(s: Seq<u8>, offset: int, end: int)
    requires
        0 <= offset <= end <= s.len(),
    ensures
        offset <= spec_end_of_line(s, offset, end) <= end,
        spec_end_of_line(s, offset, end) == end || (spec_end_of_line(s, offset, end) > offset
            && s[spec_end_of_line(s, offset, end) - 1] == 0x0a),
    decreases end - offset,
{
    if offset < end {
        if spec_newline_end(s, offset, end) is None {
            lemma_end_of_line(s, offset + 1, end);
        }
    }
}

/// Whether a line break starts at `j`: a line feed, or a carriage return
/// with a line feed after it, before `end`.
pub open spec fn line_break_at(s: Seq<u8>, j: int, end: int) -> bool {
    (0 <= j < s.len() && s[j] == 0x0a) || (0 <= j && j + 1 < end && j + 1 < s.len() && s[j] == 0x0d && s[j
        + 1] == 0x0a)
}

/// The end of a line from `offset` is just after the first line break
/// that starts before `end`, or `end` when none does.
pub proof fn lemma_end_of_line_first_break(s: Seq<u8>, offset: int, end: int)
    requires
        0 <= offset <= end <= s.len(),
    ensures
        ({
            let k = spec_end_of_line(s, offset, end);
            ||| k == end && forall|j: int| offset <= j < end ==> !#[trigger] line_break_at(s, j, end)
            ||| exists|j: int|
                offset <= j < end && #[trigger] line_break_at(s, j, end) && (forall|i: int|
                    offset <= i < j ==> !#[trigger] line_break_at(s, i, end)) && k == (if s[j] == 0x0a {
                    j + 1
                } else {
                    j + 2
                })
        }),
    decreases end - offset,
{
    if offset < end {
        lemma_line_break(s, offset, end);
        if spec_newline_end(s, offset, end) is None {
            assert(!line_break_at(s, offset, end));
            lemma_end_of_line_first_break(s, offset + 1, end);
            let k = spec_end_of_line(s, offset, end);
            if exists|j: int|
                offset + 1 <= j < end && #[trigger] line_break_at(s, j, end) && (forall|i: int|
                    offset + 1 <= i < j ==> !#[trigger] line_break_at(s, i, end)) && k == (if s[j] == 0x0a {
                    j + 1
                } else {
                    j + 2
                }) {
                let j = choose|j: int|
                    offset + 1 <= j < end && #[trigger] line_break_at(s, j, end) && (forall|i: int|
                        offset + 1 <= i < j ==> !#[trigger] line_break_at(s, i, end)) && k == (if s[j] == 0x0a {
                        j + 1
                    } else {
                        j + 2
                    });
                assert forall|i: int| offset <= i < j implies !#[trigger] line_break_at(s, i, end) by {
                    if i > offset {
                        assert(offset + 1 <= i < j);
                    }
                }
            } else {
                assert forall|j: int| offset <= j < end implies !#[trigger] line_break_at(s, j, end) by {
                    if j > offset {
                        assert(offset + 1 <= j < end);
                    }
                }
            }
        } else {
            assert(line_break_at(s, offset, end));
        }
    }
}

/// Scanning back from `m`, the last byte that is neither a space nor a
/// tab, and only spaces and tabs after it up to `m`.
pub proof fn lemma_last_non_blank_bytes(s: Seq<u8>, m: int)
    requires
        0 <= m <= s.len(),
    ensures
        last_non_blank(s, m) matches Some(p) ==> 0 <= p < m && s[p] != 0x20 && s[p] != 0x09 && forall|k: int|
            p < k < m ==> #[trigger] s[k] == 0x20 || s[k] == 0x09,
        last_non_blank(s, m) is None ==> forall|k: int| 0 <= k < m ==> #[trigger] s[k] == 0x20 || s[k] == 0x09,
{
    lemma_last_non_blank(s, m);
}

pub fn scan_end_of_line(bytes: &[u8], offset: usize, end: usize) -> (r: usize)
    requires
        offset <= end <= bytes@.len(),
    ensures
        r == spec_end_of_line(bytes@, offset as int, end as int),
{
    let mut pos = offset;
    while pos < end
        invariant
            offset <= pos <= end,
            end <= bytes@.len(),
            spec_end_of_line(bytes@, pos as int, end as int) == spec_end_of_line(
                bytes@,
                offset as int,
                end as int,
            ),
        decreases end - pos,
    {
        if let Some(newline_end) = scan_newline_sequence(bytes, pos, end) {
            return newline_end;
        }
        pos += 1;
    }
    end
}

/// The first `@` at or after `i`.
pub open spec fn find_at(s: Seq<u8>, i: int) -> Option<int>
    decreases s.len() - i,
{
    if i < 0 || s.len() <= i {
        None
    } else if s[i] == 0x40 {
        Some(i)
    } else {
        find_at(s, i + 1)
    }
}

pub proof fn lemma_find_at(s: Seq<u8>, i: int)
    requires
        0 <= i,
    ensures
        find_at(s, i) matches Some(m) ==> i <= m < s.len() && s[m] == 0x40 && forall|k: int|
            i <= k < m ==> s[k] != 0x40,
        find_at(s, i) is None ==> forall|k: int| i <= k < s.len() ==> s[k] != 0x40,
    decreases s.len() - i,
{
    if i < s.len() && s[i] != 0x40 {
        lemma_find_at(s, i + 1);
    }
}

pub fn find_marker(bytes: &[u8], from: usize) -> (r: Option<usize>)
    requires
        from <= bytes@.len(),
    ensures
        r matches Some(m) ==> find_at(bytes@, from as int) == Some(m as int),
        r is None ==> find_at(bytes@, from as int) is None,
{
    let len = bytes.len();
    let mut i = from;
    while i < len
        invariant
            from <= i <= len,
            len == bytes@.len(),
            find_at(bytes@, i as int) == find_at(bytes@, from as int),
        decreases len - i,
    {
        if bytes[i] == 0x40 {
            return Some(i);
        }
        i += 1;
    }
    None
}

/// A space or a tab.
pub open spec fn is_blank(b: u8) -> bool {
    b == 0x20 || b == 0x09
}

/// Scanning back from `m`, the last byte before it that is not blank.
pub open spec fn last_non_blank(s: Seq<u8>, m: int) -> Option<int>
    decreases m,
{
    if m <= 0 {
        None
    } else if !is_blank(s[m - 1]) {
        Some(m - 1)
    } else {
        last_non_blank(s, m - 1)
    }
}

pub proof fn lemma_last_non_blank(s: Seq<u8>, m: int)
    requires
        0 <= m <= s.len(),
    ensures
        last_non_blank(s, m) matches Some(p) ==> 0 <= p < m && !is_blank(s[p]) && forall|k: int|
            p < k < m ==> is_blank(s[k]),
        last_non_blank(s, m) is None ==> forall|k: int| 0 <= k < m ==> is_blank(s[k]),
    decreases m,
{
    if m > 0 && is_blank(s[m - 1]) {
        lemma_last_non_blank(s, m - 1);
    }
}

/// The start of the character whose encoding holds byte `p`.
pub open spec fn char_start_of(s: Seq<u8>, p: int) -> int
    decreases p,
{
    if p > 0 && 0 <= p < s.len() && is_continuation_byte(s[p]) {
        char_start_of(s, p - 1)
    } else {
        p
    }
}

pub proof fn lemma_char_start_of(s: Seq<u8>, p: int)
    requires
        0 <= p < s.len(),
    ensures
        0 <= char_start_of(s, p) <= p,
    decreases p,
{
    if p > 0 && is_continuation_byte(s[p]) {
        lemma_char_start_of(s, p - 1);
    }
}

pub fn scan_last_non_blank(bytes: &[u8], m: usize) -> (r: Option<usize>)
    requires
        m <= bytes@.len(),
    ensures
        r matches Some(p) ==> last_non_blank(bytes@, m as int) == Some(p as int),
        r is None ==> last_non_blank(bytes@, m as int) is None,
{
    let mut k = m;
    while k > 0
        invariant
            k <= m <= bytes@.len(),
            last_non_blank(bytes@, k as int) == last_non_blank(bytes@, m as int),
        decreases k,
    {
        let b = bytes[k - 1];
        if !(b == 0x20 || b == 0x09) {
            return Some(k - 1);
        }
        k -= 1;
    }
    None
}

pub fn scan_char_start(bytes: &[u8], p: usize) -> (r: usize)
    requires
        p < bytes@.len(),
    ensures
        r == char_start_of(bytes@, p as int),
{
    let mut k = p;
    while k > 0 && 0x80 <= bytes[k] && bytes[k] <= 0xbf
        invariant
            k <= p < bytes@.len(),
            char_start_of(bytes@, k as int) == char_start_of(bytes@, p as int),
        decreases k,
    {
        k -= 1;
    }
    k
}

} // verus!
