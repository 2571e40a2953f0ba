use vstd::prelude::*;
use vstd::string::StringSliceAdditionalSpecFns;
use vstd::utf8::{is_char_boundary, is_continuation_byte, valid_utf8};

verus! {

/// Whether `i` is where a character starts in `b`, or its end.
pub open spec fn at_char_start(b: Seq<u8>, i: int) -> bool {
    0 <= i <= b.len() && (i == b.len() || !is_continuation_byte(b[i]))
}

/// ASCII bytes never continue a multi-byte character.
pub proof fn lemma_ascii_starts_char(b: Seq<u8>, i: int)
    requires
        0 <= i < b.len(),
        b[i] < 0x80,
    ensures
        at_char_start(b, i),
{
    lemma_ascii_not_continuation(b[i]);
}

proof fn lemma_ascii_not_continuation(x: u8)
    by (bit_vector)
    requires
        x < 0x80,
    ensures
        !is_continuation_byte(x),
        vstd::utf8::is_leading_byte_width_1(x),
{
}

proof fn lemma_leading_not_continuation(x: u8)
    by (bit_vector)
    requires
        vstd::utf8::is_leading_byte_width_1(x) || vstd::utf8::is_leading_byte_width_2(x)
            || vstd::utf8::is_leading_byte_width_3(x) || vstd::utf8::is_leading_byte_width_4(x),
    ensures
        !is_continuation_byte(x),
{
}

/// In valid UTF-8, the byte after an ASCII byte starts a character.
pub proof fn lemma_after_ascii_starts_char(b: Seq<u8>, i: int)
    requires
        valid_utf8(b),
        0 <= i < b.len(),
        b[i] < 0x80,
    ensures
        at_char_start(b, i + 1),
{
    if i + 1 < b.len() {
        lemma_ascii_starts_char(b, i);
        vstd::utf8::is_char_boundary_iff_not_is_continuation_byte(b, i);
        vstd::utf8::valid_utf8_split(b, i);
        let rest = b.subrange(i, b.len() as int);
        assert(rest[0] == b[i]);
        reveal_with_fuel(vstd::utf8::valid_utf8, 3);
        let tail = b.subrange(i + 1, b.len() as int);
        lemma_ascii_not_continuation(rest[0]);
        assert(vstd::utf8::length_of_first_scalar(rest) == 1);
        assert(vstd::utf8::pop_first_scalar(rest) =~= tail);
        assert(valid_utf8(tail));
        assert(tail[0] == b[i + 1]);
        assert(vstd::utf8::valid_first_scalar(tail));
        lemma_leading_not_continuation(tail[0]);
    }
}

/// The part of `s` between two character starts.
pub fn substring<'a>(s: &'a str, start: usize, end: usize) -> (r: &'a str)
    requires
        start <= end,
        at_char_start(s.spec_bytes(), start as int),
        at_char_start(s.spec_bytes(), end as int),
    ensures
        r.spec_bytes() == s.spec_bytes().subrange(start as int, end as int),
{
    let ghost b = s.spec_bytes();
    proof {
        vstd::utf8::encode_utf8_valid_utf8(s@);
        vstd::utf8::is_char_boundary_start_end_of_seq(b);
        if start < b.len() {
            vstd::utf8::is_char_boundary_iff_not_is_continuation_byte(b, start as int);
        }
    }
    let (_, rest) = s.split_at(start);
    let ghost r = rest.spec_bytes();
    proof {
        vstd::utf8::encode_utf8_valid_utf8(rest@);
        vstd::utf8::is_char_boundary_start_end_of_seq(r);
        if end - start < r.len() {
            assert(r[end - start] == b[end as int]);
            vstd::utf8::is_char_boundary_iff_not_is_continuation_byte(r, end - start);
        }
    }
    let (piece, _) = rest.split_at(end - start);
    proof {
        assert(piece.spec_bytes() =~= b.subrange(start as int, end as int));
    }
    piece
}

/// Whether two byte slices are equal.
pub fn bytes_equal(a: &[u8], b: &[u8]) -> (r: bool)
    ensures
        r == (a@ == b@),
{
    if a.len() != b.len() {
        return false;
    }
    let n = a.len();
    let mut i: usize = 0;
    while i < n
        invariant
            i <= n,
            n == a@.len(),
            n == b@.len(),
            forall|k: int| 0 <= k < i ==> a@[k] == b@[k],
        decreases n - i,
    {
        if a[i] != b[i] {
            return false;
        }
        i += 1;
    }
    assert(a@ =~= b@);
    true
}

/// The byte at `i`, if there is one.
pub fn byte_at(bytes: &[u8], i: usize) -> (r: Option<u8>)
    ensures
        r == (if i < bytes@.len() {
            Some(bytes@[i as int])
        } else {
            None
        }),
{
    if i < bytes.len() {
        Some(bytes[i])
    } else {
        None
    }
}

} // verus!
