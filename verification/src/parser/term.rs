use crate::parser::ident::{lemma_scan_ident_ascii, lemma_scan_ident_bounds, scan_ident_bytes, spec_scan_ident};
use crate::parser::operator::{def_key, valid_precedence, OperatorClass, OperatorConfig, OperatorDefinition};
use crate::parser::scan::{
    is_ascii_whitespace,
    digit_run_end, digits_value, lemma_digit_run_end, number_digits_start,
    hex_value, is_digit_byte, is_scalar_value, lemma_scan_number, lemma_scan_quoted, lemma_scan_trivia,
    scan_number, scan_quoted, scan_trivia, spec_scan_number, spec_scan_quoted, spec_scan_trivia,
    unicode_escape_ok, unicode_escape_value, NumberToken, TermError, ws_run_end, lemma_ws_run_end, find_comment_close,
    lemma_find_comment_close,
};
use crate::parser::ident::{comment_opens_at, is_digit};
use crate::text::substring;
use crate::term::{finite_bits, normal_bits, IntegerTerm, IntoTerm, RealTerm, Term, TermTable};
use crate::text::{at_char_start, lemma_after_ascii_starts_char, lemma_ascii_starts_char};
use vstd::prelude::*;
use vstd::string::StringSliceAdditionalSpecFns;
use vstd::utf8::{encode_scalar, valid_utf8};

verus! {

/// An atom as written: its body, and whether it was quoted (in which case the
/// body still holds its escapes).
#[derive(Clone, Copy, Debug)]
pub struct ParseAtom<'a> {
    body: &'a str,
    quoted: bool,
}

/// A real number literal as written, such as `-1.5e3`, with its finite
/// value.
#[derive(Clone, Copy, Debug)]
pub struct RealLiteral<'a> {
    text: &'a str,
    value: RealTerm,
}

impl<'a> RealLiteral<'a> {
    pub closed spec fn spec_text(self) -> &'a str {
        self.text
    }

    pub closed spec fn spec_value(self) -> RealTerm {
        self.value
    }

    /// The literal's text.
    pub fn text(&self) -> (r: &'a str)
        ensures
            r == self.spec_text(),
    {
        self.text
    }

    /// The literal's value.
    pub fn value(&self) -> (r: RealTerm)
        ensures
            r == self.spec_value(),
    {
        self.value
    }
}

/// `v` is the finite real that `parse_real` reads from `text`.
pub open spec fn real_value_read<'a, F: Fn(&'a str) -> Option<u32>>(parse_real: &F, text: &'a str, v: RealTerm) -> bool {
    exists|bits: u32|
        #[trigger] parse_real.ensures((text,), Some(bits)) && finite_bits(bits) && v.spec_bits() == normal_bits(bits)
}

/// `parse_real` reads no finite real from `text`.
pub open spec fn real_refused<'a, F: Fn(&'a str) -> Option<u32>>(parse_real: &F, text: &'a str) -> bool {
    exists|o: Option<u32>|
        #[trigger] parse_real.ensures((text,), o) && match o {
            Some(bits) => !finite_bits(bits),
            None => true,
        }
}

/// `v` is the real that `parse_real` reads from a real literal written in `s`.
pub open spec fn real_read<'a, F: Fn(&'a str) -> Option<u32>>(v: RealTerm, parse_real: &F, s: Seq<u8>) -> bool {
    exists|text: &'a str| text_written(text.spec_bytes(), s) && #[trigger] real_value_read(parse_real, text, v)
}

/// `parse_real` reads no finite real from the literal written in `s` from
/// `i` to `e`.
pub open spec fn real_refused_at<'a, F: Fn(&'a str) -> Option<u32>>(parse_real: &F, s: Seq<u8>, i: int, e: int) -> bool {
    exists|text: &'a str| text.spec_bytes() == s.subrange(i, e) && #[trigger] real_refused(parse_real, text)
}

/// A real literal is written at `i` in `s`, and `parse_real` reads no finite
/// real from it.
pub open spec fn real_refused_here<'a, F: Fn(&'a str) -> Option<u32>>(parse_real: &F, s: Seq<u8>, i: int) -> bool {
    spec_scan_number(s, i) matches Ok((NumberToken::Real, e)) && real_refused_at(parse_real, s, i, e)
}

/// A real number event carries the value `parse_real` reads from a literal
/// written in `s`.
pub open spec fn real_event_read<'a, F: Fn(&'a str) -> Option<u32>>(ev: ParseTerm<'a>, parse_real: &F, s: Seq<u8>) -> bool {
    ev matches ParseTerm::Number(ParseNumber::Real(lit)) ==> real_read(lit.spec_value(), parse_real, s)
}

/// What is read in a part of `s` is read in `s`.
pub proof fn lemma_real_read_within<'a, F: Fn(&'a str) -> Option<u32>>(
    ev: ParseTerm<'a>,
    parse_real: &F,
    s: Seq<u8>,
    i: int,
    j: int,
)
    requires
        0 <= i <= j <= s.len(),
        real_event_read(ev, parse_real, s.subrange(i, j)),
    ensures
        real_event_read(ev, parse_real, s),
{
    if let ParseTerm::Number(ParseNumber::Real(lit)) = ev {
        let text = choose|text: &'a str|
            text_written(text.spec_bytes(), s.subrange(i, j)) && #[trigger] real_value_read(parse_real, text, lit.spec_value());
        lemma_text_written_within(text.spec_bytes(), s, i, j);
    }
}

/// A number literal: an integer, or a real number given by its text.
#[derive(Clone, Copy, Debug)]
pub enum ParseNumber<'a> {
    Integer(IntegerTerm),
    Real(RealLiteral<'a>),
}

/// A parse event, in postfix order: atoms and numbers; a compound once its
/// arguments have been emitted, with their count; the end of a fact.
#[derive(Clone, Copy, Debug)]
pub enum ParseTerm<'a> {
    Atom(ParseAtom<'a>),
    Number(ParseNumber<'a>),
    Compound(ParseAtom<'a>, usize),
    FactEnd,
}

/// Where the run of bytes other than `'` and `\` that starts at `i` ends.
pub open spec fn plain_run_end(b: Seq<u8>, i: int) -> int
    decreases b.len() - i,
{
    if 0 <= i < b.len() && b[i] != 0x27 && b[i] != 0x5c {
        plain_run_end(b, i + 1)
    } else {
        i
    }
}

pub proof fn lemma_plain_run_end(b: Seq<u8>, i: int)
    requires
        0 <= i <= b.len(),
    ensures
        i <= plain_run_end(b, i) <= b.len(),
        plain_run_end(b, i) < b.len() ==> b[plain_run_end(b, i)] == 0x27 || b[plain_run_end(
            b,
            i,
        )] == 0x5c,
    decreases b.len() - i,
{
    if i < b.len() && b[i] != 0x27 && b[i] != 0x5c {
        lemma_plain_run_end(b, i + 1);
    }
}

/// The byte an escape `\x` stands for, where `x` is one of `\ ' n r t`.
pub open spec fn simple_escape(x: u8) -> Option<u8> {
    if x == 0x5c {
        Some(0x5cu8)
    } else if x == 0x27 {
        Some(0x27u8)
    } else if x == 0x6e {
        Some(0x0au8)
    } else if x == 0x72 {
        Some(0x0du8)
    } else if x == 0x74 {
        Some(0x09u8)
    } else {
        None
    }
}

/// In the body of a quoted atom, a backslash followed by a backslash, a
/// quote, `n`, `r` or `t` stands for the one byte backslash, quote, line
/// feed, carriage return or tab, and the text goes on after both bytes.
pub proof fn lemma_simple_escapes(b: Seq<u8>, i: int)
    requires
        0 <= i,
        i + 1 < b.len(),
        b[i] == 0x5c,
    ensures
        b[i + 1] == 0x5c ==> spec_unescape(b, i) == seq![0x5cu8] + spec_unescape(b, i + 2),
        b[i + 1] == 0x27 ==> spec_unescape(b, i) == seq![0x27u8] + spec_unescape(b, i + 2),
        b[i + 1] == 0x6e ==> spec_unescape(b, i) == seq![0x0au8] + spec_unescape(b, i + 2),
        b[i + 1] == 0x72 ==> spec_unescape(b, i) == seq![0x0du8] + spec_unescape(b, i + 2),
        b[i + 1] == 0x74 ==> spec_unescape(b, i) == seq![0x09u8] + spec_unescape(b, i + 2),
{
}

/// In the body of a quoted atom, two quotes stand for one, a byte that is
/// neither a quote nor a backslash stands for itself, and the text goes on
/// after them.
pub proof fn lemma_plain_and_quotes(b: Seq<u8>, i: int)
    requires
        0 <= i < b.len(),
    ensures
        b[i] == 0x27 && i + 1 < b.len() && b[i + 1] == 0x27 ==> spec_unescape(b, i) == seq![0x27u8] + spec_unescape(
            b,
            i + 2,
        ),
        b[i] != 0x27 && b[i] != 0x5c ==> spec_unescape(b, i) == seq![b[i]] + spec_unescape(b, i + 1),
        spec_unescape(b, b.len() as int) == Seq::<u8>::empty(),
{
    if b[i] != 0x27 && b[i] != 0x5c {
        lemma_plain_run_end(b, i);
        lemma_plain_run_end(b, i + 1);
        let p = plain_run_end(b, i);
        assert(p == plain_run_end(b, i + 1));
        if i + 1 < p {
            assert(spec_unescape(b, i + 1) == b.subrange(i + 1, p) + spec_unescape(b, p));
        } else {
            assert(spec_unescape(b, i + 1) == spec_unescape(b, p));
        }
        assert(b.subrange(i, p) =~= seq![b[i]] + b.subrange(i + 1, p));
    }
}

/// Hexadecimal digits are read in base sixteen, most significant first,
/// with `a` to `f` and `A` to `F` worth ten to fifteen.
pub proof fn lemma_hex_value(s: Seq<u8>, i: int, j: int)
    requires
        i <= j < s.len(),
        (0x30 <= s[j] <= 0x39) || (0x41 <= s[j] <= 0x46) || (0x61 <= s[j] <= 0x66),
    ensures
        hex_value(s, i, i) == 0,
        hex_value(s, i, j + 1) == hex_value(s, i, j) * 16 + (if s[j] <= 0x39 {
            s[j] - 0x30
        } else if s[j] <= 0x46 {
            s[j] - 0x37
        } else {
            s[j] - 0x57
        }),
{
}

/// In the body of a quoted atom, `\u` with four hexadecimal digits, or `\U`
/// with eight, that name a Unicode scalar value stands for the UTF-8
/// encoding of that scalar, and the text goes on after the digits.
pub proof fn lemma_unicode_escape(b: Seq<u8>, i: int, n: int)
    requires
        0 <= i,
        i + 2 + n <= b.len(),
        b[i] == 0x5c,
        (b[i + 1] == 0x75 && n == 4) || (b[i + 1] == 0x55 && n == 8),
        forall|m: int|
            i + 2 <= m < i + 2 + n ==> (0x30 <= #[trigger] b[m] <= 0x39) || (0x41 <= b[m] <= 0x46) || (0x61 <= b[m]
                <= 0x66),
        hex_value(b, i + 2, i + 2 + n) <= 0x10ffff,
        !(0xd800 <= hex_value(b, i + 2, i + 2 + n) <= 0xdfff),
    ensures
        spec_unescape(b, i) == encode_scalar(hex_value(b, i + 2, i + 2 + n) as u32) + spec_unescape(b, i + 2 + n),
{
    assert(unicode_escape_ok(b, i + 2, n));
}

/// The text that the body of a quoted atom stands for, from `i`: `''` is a
/// quote, `\\ \' \n \r \t` their characters, `\uXXXX` and `\UXXXXXXXX` the
/// UTF-8 encoding of the scalar they name; everything else stands for itself.
pub open spec fn spec_unescape(b: Seq<u8>, i: int) -> Seq<u8>
    decreases b.len() - i,
{
    if i < 0 || b.len() <= i {
        seq![]
    } else if b[i] == 0x27 {
        if i + 1 < b.len() && b[i + 1] == 0x27 {
            seq![0x27u8] + spec_unescape(b, i + 2)
        } else {
            seq![0x27u8] + spec_unescape(b, i + 1)
        }
    } else if b[i] == 0x5c {
        if i + 1 < b.len() && simple_escape(b[i + 1]) is Some {
            seq![simple_escape(b[i + 1]).unwrap()] + spec_unescape(b, i + 2)
        } else if i + 1 < b.len() && (b[i + 1] == 0x75 || b[i + 1] == 0x55) && unicode_escape_ok(
            b,
            i + 2,
            if b[i + 1] == 0x75 {
                4int
            } else {
                8int
            },
        ) {
            let n = if b[i + 1] == 0x75 {
                4int
            } else {
                8int
            };
            encode_scalar(hex_value(b, i + 2, i + 2 + n) as u32) + spec_unescape(b, i + 2 + n)
        } else {
            seq![0x5cu8] + spec_unescape(b, i + 1)
        }
    } else {
        proof {
            lemma_plain_run_end(b, i);
        }
        b.subrange(i, plain_run_end(b, i)) + spec_unescape(b, plain_run_end(b, i))
    }
}

/// The text an atom stands for: a quoted atom's body with its escapes
/// resolved, or an unquoted atom's body.
pub open spec fn atom_text(a: ParseAtom) -> Seq<u8> {
    if a.spec_quoted() {
        spec_unescape(a.spec_body().spec_bytes(), 0)
    } else {
        a.spec_body().spec_bytes()
    }
}

/// `t` is the text of an atom written in `s`: a slice of `s`, as a name is
/// written, or a slice with its escapes resolved, as a quoted atom is.
pub open spec fn atom_written(t: Seq<u8>, s: Seq<u8>) -> bool {
    exists|k: int, j: int|
        0 <= k <= j <= s.len() && (t == #[trigger] s.subrange(k, j) || t == spec_unescape(s.subrange(k, j), 0))
}

/// The text of an atom written in `s` is an atom text written in `s`.
pub proof fn lemma_atom_text_written(a: ParseAtom, s: Seq<u8>)
    requires
        written_in(a, s),
    ensures
        atom_written(atom_text(a), s),
{
    let b = a.spec_body().spec_bytes();
    let k = choose|k: int| 0 <= k && k + b.len() <= s.len() && #[trigger] s.subrange(k, k + b.len()) == b;
    assert(s.subrange(k, k + b.len()) == b);
}

/// `v` is written in `s` in decimal: a run of digits whose value is the
/// magnitude of `v`, after a `-` when `v` is negative.
pub open spec fn integer_written(v: i32, s: Seq<u8>) -> bool {
    exists|a: int, b: int|
        0 <= a < b <= s.len() && (forall|k: int| a <= k < b ==> is_digit(#[trigger] s[k]))
            && #[trigger] digits_value(s, a, b) == (if v < 0 { -v } else { v as int }) && (v < 0 ==> 1 <= a
            && s[a - 1] == 0x2d)
}

/// The atom or number that an event carries is written in `s`.
pub open spec fn event_written(ev: ParseTerm, s: Seq<u8>) -> bool {
    match ev {
        ParseTerm::Atom(a) => written_in(a, s),
        ParseTerm::Compound(a, _) => written_in(a, s),
        ParseTerm::Number(ParseNumber::Real(literal)) => text_written(literal.spec_text().spec_bytes(), s),
        ParseTerm::Number(ParseNumber::Integer(n)) => integer_written(n.spec_value(), s),
        _ => true,
    }
}

/// What reading a number at `offset` gives: the number scanned there, as an
/// integer term or as the text of a real literal, and the offset after it; or
/// the error of the scan.
pub open spec fn number_read(s: Seq<u8>, offset: int, r: Result<ParseNumber, TermError>, end: int) -> bool {
    match spec_scan_number(s, offset) {
        Ok((NumberToken::Integer(v), e)) => r matches Ok(ParseNumber::Integer(n)) && n.spec_value() == v && end == e,
        Ok((NumberToken::Real, e)) => (r matches Ok(ParseNumber::Real(lit)) && lit.spec_text().spec_bytes()
            == s.subrange(offset, e) && end == e) || (r == Err::<ParseNumber, TermError>(TermError::InvalidReal)
            && end == offset),
        Err(err) => r == Err::<ParseNumber, TermError>(err) && end == offset,
    }
}

/// What reading a quoted atom whose opening quote is at `offset` gives: the
/// atom whose body runs to the closing quote, and the offset after that quote;
/// or the scan's error and the offset where it arose.
pub open spec fn quoted_read(s: Seq<u8>, offset: int, r: Result<ParseAtom, TermError>, end: int) -> bool {
    match spec_scan_quoted(s, offset + 1) {
        Ok(close) => r matches Ok(a) && a.spec_quoted() && a.spec_body().spec_bytes() == s.subrange(offset + 1, close)
            && end == close + 1,
        Err((err, o)) => r == Err::<ParseAtom, TermError>(err) && end == o,
    }
}

/// What reading an atom at `offset` gives: a name, a quoted atom, or an error
/// for any other byte or for the end of the source.
pub open spec fn atom_read(s: Seq<u8>, offset: int, r: Result<ParseAtom, TermError>, end: int) -> bool {
    match spec_scan_ident(s, offset) {
        Some(e) => r matches Ok(a) && !a.spec_quoted() && a.spec_body().spec_bytes() == s.subrange(offset, e) && end
            == e,
        None => if offset < s.len() && s[offset] == 0x27 {
            quoted_read(s, offset, r, end)
        } else if offset < s.len() {
            r == Err::<ParseAtom, TermError>(TermError::UnexpectedCharacter) && end == offset
        } else {
            r == Err::<ParseAtom, TermError>(TermError::UnexpectedEndOfFile) && end == offset
        },
    }
}

/// The error of reading a number at `i`, if it fails.
pub open spec fn number_error(s: Seq<u8>, i: int) -> Option<TermError> {
    match spec_scan_number(s, i) {
        Ok(_) => None,
        Err(e) => Some(e),
    }
}

/// The error of reading an atom at `i`, if it fails.
pub open spec fn atom_error(s: Seq<u8>, i: int) -> Option<TermError> {
    match spec_scan_ident(s, i) {
        Some(_) => None,
        None => if i < s.len() && s[i] == 0x27 {
            match spec_scan_quoted(s, i + 1) {
                Ok(_) => None,
                Err((e, _)) => Some(e),
            }
        } else if i < s.len() {
            Some(TermError::UnexpectedCharacter)
        } else {
            Some(TermError::UnexpectedEndOfFile)
        },
    }
}

/// Whether a prefix operator that does not end its operand starts at `i`
/// (and no compound does).
pub open spec fn prefix_operator_here(
    s: Seq<u8>,
    i: int,
    ops: Option<Seq<OperatorDefinition>>,
    terminator: u8,
) -> bool {
    &&& !spec_compound_start(s, i)
    &&& ops matches Some(c) && operator_at(s, i, c, true)
    &&& spec_scan_ident(s, i) matches Some(e) && !spec_operator_end(s, e, terminator, ops)
}

/// The error, if any, of a step that reads an operand at `i`, the next byte
/// after white space and comments. At the root of a fact without operators
/// a digit is refused; elsewhere `-` and a digit begin a number. A prefix
/// operator, or `(` when there are operators, always succeeds; then the end
/// of the source is refused, a digit begins a number, and anything else an
/// atom.
pub open spec fn operand_error(
    s: Seq<u8>,
    i: int,
    plain_root: bool,
    ops: Option<Seq<OperatorDefinition>>,
    terminator: u8,
) -> Option<TermError> {
    if plain_root && i < s.len() && is_digit(s[i]) {
        Some(TermError::UnexpectedCharacter)
    } else if !plain_root && i + 1 < s.len() && s[i] == 0x2d && is_digit(s[i + 1]) {
        number_error(s, i)
    } else if prefix_operator_here(s, i, ops, terminator) {
        None
    } else if i >= s.len() {
        Some(TermError::UnexpectedEndOfFile)
    } else if s[i] == 0x28 && ops is Some {
        None
    } else if is_digit(s[i]) {
        number_error(s, i)
    } else {
        atom_error(s, i)
    }
}

/// Where a step that reads an operand at `i` stops when it fails: where the
/// scan of a quoted atom that does not close stops, and at `i` for every
/// other error.
pub open spec fn operand_error_offset(
    s: Seq<u8>,
    i: int,
    plain_root: bool,
    ops: Option<Seq<OperatorDefinition>>,
    terminator: u8,
) -> int {
    if plain_root && i < s.len() && is_digit(s[i]) {
        i
    } else if !plain_root && i + 1 < s.len() && s[i] == 0x2d && is_digit(s[i + 1]) {
        i
    } else if prefix_operator_here(s, i, ops, terminator) || i >= s.len() || (s[i] == 0x28 && ops is Some)
        || is_digit(s[i]) {
        i
    } else if spec_scan_ident(s, i) is None && s[i] == 0x27 {
        match spec_scan_quoted(s, i + 1) {
            Err((_, o)) => o,
            Ok(_) => i,
        }
    } else {
        i
    }
}

/// Where the atom that starts at `i` ends: after a name, or after a quoted
/// atom's closing quote.
pub open spec fn atom_end(s: Seq<u8>, i: int) -> int {
    match spec_scan_ident(s, i) {
        Some(e) => e,
        None => match spec_scan_quoted(s, i + 1) {
            Ok(close) => close + 1,
            Err(_) => i,
        },
    }
}

/// Where a step that reads an operand at `i` and gives no event stops: after
/// a prefix operator's name, after a group's `(`, or after the `(` that
/// follows a compound's functor.
pub open spec fn operand_skip(s: Seq<u8>, i: int, ops: Option<Seq<OperatorDefinition>>, terminator: u8) -> int {
    if prefix_operator_here(s, i, ops, terminator) {
        match spec_scan_ident(s, i) {
            Some(e) => e,
            None => i,
        }
    } else if i < s.len() && s[i] == 0x28 && ops is Some {
        i + 1
    } else {
        atom_end(s, i) + 1
    }
}

/// Whether a step that reads an operand at `i` (after white space and
/// comments) succeeds without an event.
pub open spec fn operand_quiet(
    s: Seq<u8>,
    i: int,
    plain_root: bool,
    ops: Option<Seq<OperatorDefinition>>,
    terminator: u8,
) -> bool {
    operand_error(s, i, plain_root, ops, terminator) is None && !operand_yields(s, i, plain_root, ops, terminator)
}

/// Where the step that ends a run of operand steps from offset `i` starts,
/// and whether it reads at the root of a fact without operators: steps that
/// give no event (prefix operators, groups, functors) are passed over, and the
/// first step that gives an event or fails ends the run.
pub open spec fn operand_run(
    s: Seq<u8>,
    i: int,
    plain_root: bool,
    ops: Option<Seq<OperatorDefinition>>,
    terminator: u8,
) -> (int, bool)
    decreases s.len() - i,
{
    match spec_scan_trivia(s, i) {
        Ok(j) => if operand_quiet(s, j, plain_root, ops, terminator) && i <= j && j < operand_skip(
            s,
            j,
            ops,
            terminator,
        ) <= s.len() {
            operand_run(s, operand_skip(s, j, ops, terminator), false, ops, terminator)
        } else {
            (i, plain_root)
        },
        Err(_) => (i, plain_root),
    }
}

/// The error, if any, of a step that reads an operand from offset `k`:
/// that of the white space and comments there, or of the operand after them.
pub open spec fn run_error(
    s: Seq<u8>,
    k: int,
    plain_root: bool,
    ops: Option<Seq<OperatorDefinition>>,
    terminator: u8,
) -> Option<TermError> {
    match spec_scan_trivia(s, k) {
        Err((e, _)) => Some(e),
        Ok(j) => operand_error(s, j, plain_root, ops, terminator),
    }
}

/// Where a step that reads an operand from offset `k` stops when the operand
/// after the white space and comments is refused.
pub open spec fn run_error_offset(
    s: Seq<u8>,
    k: int,
    plain_root: bool,
    ops: Option<Seq<OperatorDefinition>>,
    terminator: u8,
) -> Option<int> {
    match spec_scan_trivia(s, k) {
        Ok(j) => Some(operand_error_offset(s, j, plain_root, ops, terminator)),
        Err(_) => None,
    }
}

/// Whether a step that reads an operand from offset `k` gives an event when
/// it succeeds.
pub open spec fn run_yields(
    s: Seq<u8>,
    k: int,
    plain_root: bool,
    ops: Option<Seq<OperatorDefinition>>,
    terminator: u8,
) -> bool {
    match spec_scan_trivia(s, k) {
        Ok(j) => operand_yields(s, j, plain_root, ops, terminator),
        Err(_) => false,
    }
}

/// Whether `ev` is the event of a step that reads an operand from offset `k`.
pub open spec fn run_event(s: Seq<u8>, k: int, plain_root: bool, ev: ParseTerm) -> bool {
    match spec_scan_trivia(s, k) {
        Ok(j) => operand_event(s, j, plain_root, ev),
        Err(_) => false,
    }
}

/// Whether `ev` is the event a step that reads an operand at `i` gives: the
/// number read there, where a number begins (a digit, or elsewhere than at
/// the root of a fact without operators `-` and a digit); else the atom read
/// there.
pub open spec fn operand_event(s: Seq<u8>, i: int, plain_root: bool, ev: ParseTerm) -> bool {
    if (!plain_root && i + 1 < s.len() && s[i] == 0x2d && is_digit(s[i + 1])) || (i < s.len() && is_digit(s[i])) {
        ev matches ParseTerm::Number(n) && exists|e: int| #[trigger] number_read(s, i, Ok::<ParseNumber, TermError>(n), e)
    } else {
        ev matches ParseTerm::Atom(a) && exists|e: int| #[trigger] atom_read(s, i, Ok::<ParseAtom, TermError>(a), e)
    }
}

/// An atom read where no number begins is the event of an operand step.
proof fn lemma_atom_event(s: Seq<u8>, i: int, plain_root: bool, a: ParseAtom, e: int)
    requires
        atom_read(s, i, Ok::<ParseAtom, TermError>(a), e),
        !(!plain_root && i + 1 < s.len() && s[i] == 0x2d && is_digit(s[i + 1])),
        !(i < s.len() && is_digit(s[i])),
    ensures
        operand_event(s, i, plain_root, ParseTerm::Atom(a)),
{
    let ev = ParseTerm::Atom(a);
    assert(ev matches ParseTerm::Atom(b) && b == a);
    assert(exists|e2: int| #[trigger] atom_read(s, i, Ok::<ParseAtom, TermError>(a), e2));
    assert(ev matches ParseTerm::Atom(b) && exists|e2: int| #[trigger] atom_read(s, i, Ok::<ParseAtom, TermError>(b), e2));
}

/// Whether a step that reads an operand at `i` gives an event when it
/// succeeds: a number, or an atom that is not a compound's functor; a prefix
/// operator, a group's `(` or a functor and its `(` give none.
pub open spec fn operand_yields(
    s: Seq<u8>,
    i: int,
    plain_root: bool,
    ops: Option<Seq<OperatorDefinition>>,
    terminator: u8,
) -> bool {
    if !plain_root && i + 1 < s.len() && s[i] == 0x2d && is_digit(s[i + 1]) {
        true
    } else if prefix_operator_here(s, i, ops, terminator) {
        false
    } else if i >= s.len() {
        true
    } else if s[i] == 0x28 && ops is Some {
        false
    } else if is_digit(s[i]) {
        true
    } else {
        !(atom_end(s, i) < s.len() && s[atom_end(s, i)] == 0x28)
    }
}

/// An atom or number event carries text read from `s` between `i` and `j`.
pub open spec fn read_between(ev: ParseTerm, s: Seq<u8>, i: int, j: int) -> bool {
    (ev is Atom || ev is Number) ==> event_written(ev, s.subrange(i, j))
}

/// The end of a fact is the byte before `offset`: the terminator once the
/// parser is done, else `;`.
pub open spec fn fact_ended_at(s: Seq<u8>, offset: int, done: bool, terminator: u8) -> bool {
    0 < offset <= s.len() && s[offset - 1] == (if done {
        terminator
    } else {
        0x3bu8
    })
}

/// The value of digits read in a part of `s` is that of the same digits in `s`.
pub proof fn lemma_digits_value_within(s: Seq<u8>, i: int, j: int, a: int, b: int)
    requires
        0 <= i <= j <= s.len(),
        0 <= a <= b <= j - i,
    ensures
        digits_value(s.subrange(i, j), a, b) == digits_value(s, i + a, i + b),
    decreases b - a,
{
    if a < b {
        lemma_digits_value_within(s, i, j, a, b - 1);
    }
}

/// What stands in a part of `s` stands in `s`.
pub proof fn lemma_text_written_within(b: Seq<u8>, s: Seq<u8>, i: int, j: int)
    requires
        0 <= i <= j <= s.len(),
        text_written(b, s.subrange(i, j)),
    ensures
        text_written(b, s),
{
    let t = s.subrange(i, j);
    let k = choose|k: int| 0 <= k && k + b.len() <= t.len() && #[trigger] t.subrange(k, k + b.len()) == b;
    assert(s.subrange(i + k, i + k + b.len()) =~= t.subrange(k, k + b.len()));
}

/// The text of an atom written in a part of `s` is written in `s`.
pub proof fn lemma_atom_written_within(t: Seq<u8>, s: Seq<u8>, i: int, j: int)
    requires
        0 <= i <= j <= s.len(),
        atom_written(t, s.subrange(i, j)),
    ensures
        atom_written(t, s),
{
    let u = s.subrange(i, j);
    let (k, l) = choose|k: int, l: int|
        0 <= k <= l <= u.len() && (t == #[trigger] u.subrange(k, l) || t == spec_unescape(u.subrange(k, l), 0));
    assert(s.subrange(i + k, i + l) =~= u.subrange(k, l));
}

/// What an event carries, written in a part of `s`, is written in `s`.
pub proof fn lemma_event_written_within(ev: ParseTerm, s: Seq<u8>, i: int, j: int)
    requires
        0 <= i <= j <= s.len(),
        event_written(ev, s.subrange(i, j)),
    ensures
        event_written(ev, s),
{
    match ev {
        ParseTerm::Atom(a) => lemma_text_written_within(a.spec_body().spec_bytes(), s, i, j),
        ParseTerm::Compound(a, _) => lemma_text_written_within(a.spec_body().spec_bytes(), s, i, j),
        ParseTerm::Number(ParseNumber::Real(literal)) => lemma_text_written_within(
            literal.spec_text().spec_bytes(),
            s,
            i,
            j,
        ),
        ParseTerm::Number(ParseNumber::Integer(n)) => {
            let t = s.subrange(i, j);
            let v = n.spec_value();
            let (a, b) = choose|a: int, b: int|
                0 <= a < b <= t.len() && (forall|k: int| a <= k < b ==> is_digit(#[trigger] t[k]))
                    && #[trigger] digits_value(t, a, b) == (if v < 0 { -v } else { v as int }) && (v < 0 ==> 1
                    <= a && t[a - 1] == 0x2d);
            lemma_digits_value_within(s, i, j, a, b);
            assert forall|k: int| i + a <= k < i + b implies is_digit(#[trigger] s[k]) by {
                assert(t[k - i] == s[k]);
            }
            if v < 0 {
                assert(t[a - 1] == s[i + a - 1]);
            }
            assert(digits_value(s, i + a, i + b) == (if v < 0 { -v } else { v as int }));
        },
        _ => {},
    }
}

proof fn lemma_ws_run_end_stays(s: Seq<u8>, i: int)
    requires
        0 <= i <= s.len(),
    ensures
        ws_run_end(s, ws_run_end(s, i)) == ws_run_end(s, i),
    decreases s.len() - i,
{
    if i < s.len() && is_ascii_whitespace(s[i]) {
        lemma_ws_run_end_stays(s, i + 1);
    }
}

/// Skipping white space and comments where they end again stays there.
pub proof fn lemma_scan_trivia_stays(s: Seq<u8>, i: int)
    requires
        0 <= i <= s.len(),
        spec_scan_trivia(s, i) is Ok,
    ensures
        spec_scan_trivia(s, i) matches Ok(j) && spec_scan_trivia(s, j) == Ok::<int, (TermError, int)>(j),
    decreases s.len() - i,
{
    lemma_ws_run_end(s, i);
    let j = ws_run_end(s, i);
    if comment_opens_at(s, j) {
        lemma_find_comment_close(s, j + 2);
        let k = find_comment_close(s, j + 2)->Some_0;
        lemma_scan_trivia_stays(s, k + 2);
    } else {
        lemma_ws_run_end_stays(s, i);
    }
}

/// What an event carries, read between `i` and `j`, is read in any wider part.
pub proof fn lemma_read_between_widens(ev: ParseTerm, s: Seq<u8>, i: int, j: int, a: int, b: int)
    requires
        0 <= a <= i <= j <= b <= s.len(),
        read_between(ev, s, i, j),
    ensures
        read_between(ev, s, a, b),
{
    if ev is Atom || ev is Number {
        let t = s.subrange(a, b);
        assert(t.subrange(i - a, j - a) =~= s.subrange(i, j));
        lemma_event_written_within(ev, t, i - a, j - a);
    }
}

/// A frame of arguments has its functor written in `s`.
spec fn functor_written<'a>(f: Frame<'a>, s: Seq<u8>) -> bool {
    f.kind matches FrameKind::Arguments { functor, .. } ==> written_in(functor, s)
}

/// The atom's body stands in `s`: it is the text of a name, or the contents
/// of a quoted atom, written there.
pub open spec fn written_in(a: ParseAtom, s: Seq<u8>) -> bool {
    text_written(a.spec_body().spec_bytes(), s)
}

/// `b` stands in `s` at some position.
pub open spec fn text_written(b: Seq<u8>, s: Seq<u8>) -> bool {
    exists|k: int| 0 <= k && k + b.len() <= s.len() && #[trigger] s.subrange(k, k + b.len()) == b
}

impl<'a> ParseAtom<'a> {
    pub closed spec fn spec_body(self) -> &'a str {
        self.body
    }

    pub closed spec fn spec_quoted(self) -> bool {
        self.quoted
    }

    pub(crate) fn unquoted(body: &'a str) -> (r: Self)
        ensures
            r.spec_body() == body,
            !r.spec_quoted(),
    {
        ParseAtom { body, quoted: false }
    }

    pub(crate) fn quoted(body: &'a str) -> (r: Self)
        ensures
            r.spec_body() == body,
            r.spec_quoted(),
    {
        ParseAtom { body, quoted: true }
    }

    /// The atom's body as written.
    pub fn body(&self) -> (r: &'a str)
        ensures
            r == self.spec_body(),
    {
        self.body
    }

    /// Whether the atom was quoted.
    pub fn is_quoted(&self) -> (r: bool)
        ensures
            r == self.spec_quoted(),
    {
        self.quoted
    }

    /// The UTF-8 bytes of the text the atom stands for.
    pub fn value(&self) -> (r: Vec<u8>)
        ensures
            r@ == atom_text(*self),
    {
        if !self.quoted {
            let bytes = self.body.as_bytes();
            let mut out: Vec<u8> = Vec::new();
            let n = bytes.len();
            let mut i: usize = 0;
            while i < n
                invariant
                    i <= n,
                    n == bytes@.len(),
                    out@ == bytes@.take(i as int),
                decreases n - i,
            {
                out.push(bytes[i]);
                assert(out@ =~= bytes@.take(i + 1));
                i += 1;
            }
            assert(bytes@.take(n as int) =~= bytes@);
            out
        } else {
            unescape(self.body.as_bytes())
        }
    }
}

proof fn lemma_ascii_valid(x: u8)
    requires
        x < 0x80,
    ensures
        valid_utf8(seq![x]),
{
    reveal_with_fuel(vstd::utf8::valid_utf8, 2);
    let s = seq![x];
    assert(vstd::utf8::is_leading_byte_width_1(x)) by (bit_vector)
        requires
            x < 0x80,
    ;
    assert(vstd::utf8::pop_first_scalar(s) =~= Seq::<u8>::empty());
}

proof fn lemma_scalar_valid(v: nat)
    requires
        is_scalar_value(v),
    ensures
        valid_utf8(encode_scalar(v as u32)),
{
    let u = v as u32;
    let c = u as char;
    assert(vstd::utf8::is_scalar(u));
    assert(c as u32 == u);
    vstd::utf8::encode_utf8_valid_utf8(seq![c]);
    assert(vstd::utf8::encode_utf8(seq![c]) =~= encode_scalar(u) + vstd::utf8::encode_utf8(
        seq![c].drop_first(),
    ));
    assert(vstd::utf8::encode_utf8(seq![c].drop_first()) =~= Seq::<u8>::empty());
    assert(encode_scalar(u) + Seq::<u8>::empty() =~= encode_scalar(u));
}

/// Between two character starts, valid UTF-8 stays valid.
pub proof fn lemma_valid_between(b: Seq<u8>, i: int, k: int)
    requires
        valid_utf8(b),
        i <= k,
        at_char_start(b, i),
        at_char_start(b, k),
    ensures
        valid_utf8(b.subrange(i, k)),
{
    vstd::utf8::is_char_boundary_start_end_of_seq(b);
    if i < b.len() {
        vstd::utf8::is_char_boundary_iff_not_is_continuation_byte(b, i);
    }
    vstd::utf8::valid_utf8_split(b, i);
    let rest = b.subrange(i, b.len() as int);
    vstd::utf8::is_char_boundary_start_end_of_seq(rest);
    if k < b.len() {
        assert(rest[k - i] == b[k]);
        vstd::utf8::is_char_boundary_iff_not_is_continuation_byte(rest, k - i);
    }
    vstd::utf8::valid_utf8_split(rest, k - i);
    assert(rest.subrange(0, k - i) =~= b.subrange(i, k));
}

/// Resolving the escapes of valid UTF-8 gives valid UTF-8.
pub proof fn lemma_unescape_valid(b: Seq<u8>, i: int)
    requires
        valid_utf8(b),
        at_char_start(b, i),
    ensures
        valid_utf8(spec_unescape(b, i)),
    decreases b.len() - i,
{
    broadcast use vstd::utf8::valid_utf8_concat;

    if i < b.len() {
        if b[i] == 0x27 {
            lemma_ascii_valid(0x27);
            lemma_after_ascii_starts_char(b, i);
            if i + 1 < b.len() && b[i + 1] == 0x27 {
                lemma_after_ascii_starts_char(b, i + 1);
                lemma_unescape_valid(b, i + 2);
            } else {
                lemma_unescape_valid(b, i + 1);
            }
        } else if b[i] == 0x5c {
            lemma_after_ascii_starts_char(b, i);
            if i + 1 < b.len() && simple_escape(b[i + 1]) is Some {
                lemma_ascii_valid(simple_escape(b[i + 1]).unwrap());
                lemma_after_ascii_starts_char(b, i + 1);
                lemma_unescape_valid(b, i + 2);
            } else if i + 1 < b.len() && (b[i + 1] == 0x75 || b[i + 1] == 0x55) && unicode_escape_ok(
                b,
                i + 2,
                if b[i + 1] == 0x75 {
                    4int
                } else {
                    8int
                },
            ) {
                let n = if b[i + 1] == 0x75 {
                    4int
                } else {
                    8int
                };
                lemma_scalar_valid(hex_value(b, i + 2, i + 2 + n));
                let last = i + 2 + n - 1;
                assert(crate::parser::scan::is_hex_digit(b[last]));
                lemma_after_ascii_starts_char(b, last);
                lemma_unescape_valid(b, i + 2 + n);
            } else {
                lemma_ascii_valid(0x5c);
                lemma_unescape_valid(b, i + 1);
            }
        } else {
            lemma_plain_run_end(b, i);
            let k = plain_run_end(b, i);
            if k < b.len() {
                lemma_ascii_starts_char(b, k);
            }
            lemma_valid_between(b, i, k);
            lemma_unescape_valid(b, k);
        }
    }
}

/// The UTF-8 encoding of a Unicode scalar value.
fn encode_scalar_bytes(v: u32, out: &mut Vec<u8>)
    requires
        vstd::utf8::is_scalar(v),
    ensures
        final(out)@ == old(out)@ + encode_scalar(v),
{
    if v <= 0x7f {
        out.push((v & 0x7f) as u8);
    } else if v <= 0x7ff {
        out.push(0xc0 | ((v >> 6) & 0x1f) as u8);
        out.push(0x80 | (v & 0x3f) as u8);
    } else if v <= 0xffff {
        out.push(0xe0 | ((v >> 12) & 0x0f) as u8);
        out.push(0x80 | ((v >> 6) & 0x3f) as u8);
        out.push(0x80 | (v & 0x3f) as u8);
    } else {
        out.push(0xf0 | ((v >> 18) & 0x7) as u8);
        out.push(0x80 | ((v >> 12) & 0x3f) as u8);
        out.push(0x80 | ((v >> 6) & 0x3f) as u8);
        out.push(0x80 | (v & 0x3f) as u8);
    }
    assert(final(out)@ =~= old(out)@ + encode_scalar(v));
}

/// Resolves the escapes of a quoted atom's body.
fn unescape(bytes: &[u8]) -> (r: Vec<u8>)
    ensures
        r@ == spec_unescape(bytes@, 0),
{
    let ghost b = bytes@;
    let len = bytes.len();
    let mut out: Vec<u8> = Vec::new();
    let mut i: usize = 0;
    while i < len
        invariant
            i <= len,
            len == b.len(),
            b == bytes@,
            spec_unescape(b, 0) == out@ + spec_unescape(b, i as int),
        decreases len - i,
    {
        let ghost before = out@;
        let x = bytes[i];
        if x == 0x27 {
            out.push(0x27);
            if len - i >= 2 && bytes[i + 1] == 0x27 {
                i += 2;
            } else {
                i += 1;
            }
        } else if x == 0x5c {
            if len - i >= 2 {
                let y = bytes[i + 1];
                if y == 0x5c || y == 0x27 || y == 0x6e || y == 0x72 || y == 0x74 {
                    let c = if y == 0x5c {
                        0x5c
                    } else if y == 0x27 {
                        0x27
                    } else if y == 0x6e {
                        0x0a
                    } else if y == 0x72 {
                        0x0d
                    } else {
                        0x09
                    };
                    out.push(c);
                    i += 2;
                } else if y == 0x75 || y == 0x55 {
                    let n: usize = if y == 0x75 {
                        4
                    } else {
                        8
                    };
                    match unicode_escape_value(bytes, i + 2, n) {
                        Some(v) => {
                            assert(vstd::utf8::is_scalar(v));
                            encode_scalar_bytes(v, &mut out);
                            i = i + 2 + n;
                        },
                        None => {
                            out.push(0x5c);
                            i += 1;
                        },
                    }
                } else {
                    out.push(0x5c);
                    i += 1;
                }
            } else {
                out.push(0x5c);
                i += 1;
            }
        } else {
            let start = i;
            proof {
                lemma_plain_run_end(b, start as int);
            }
            while i < len && bytes[i] != 0x27 && bytes[i] != 0x5c
                invariant
                    start <= i <= len,
                    len == b.len(),
                    b == bytes@,
                    plain_run_end(b, i as int) == plain_run_end(b, start as int),
                    out@ == before + b.subrange(start as int, i as int),
                decreases len - i,
            {
                out.push(bytes[i]);
                assert(out@ =~= before + b.subrange(start as int, i + 1));
                i += 1;
            }
        }
        assert(spec_unescape(b, 0) == out@ + spec_unescape(b, i as int));
    }
    assert(out@ + spec_unescape(b, len as int) =~= out@);
    out
}

impl<'a> IntoTerm for ParseAtom<'a> {
    fn into_term(self, terms: &mut TermTable) -> (r: Term)
        ensures
            r matches Term::Atom(h) && final(terms).valid_atom(h) && final(terms).atoms()[h.0 as int]
                == atom_text(self),
            final(terms).compounds() == old(terms).compounds(),
            final(terms).atoms().len() >= old(terms).atoms().len(),
            final(terms).atoms().len() <= old(terms).atoms().len() + 1,
            forall|i: int| 0 <= i < old(terms).atoms().len() ==> final(terms).atoms()[i] == #[trigger] old(terms).atoms()[i],
            final(terms).atoms() == old(terms).atoms() || final(terms).atoms() == old(terms).atoms().push(
                atom_text(self),
            ),
    {
        let bytes = self.value();
        proof {
            vstd::utf8::encode_utf8_valid_utf8(self.body@);
            if self.quoted {
                lemma_unescape_valid(self.body.spec_bytes(), 0);
            }
        }
        Term::Atom(terms.atom_bytes(bytes.as_slice()))
    }
}


/// Whether the operators `c` define `name` with the given fixity.
pub open spec fn has_operator(c: Seq<OperatorDefinition>, name: Seq<u8>, prefix: bool) -> bool {
    exists|i: int| 0 <= i < c.len() && def_key(#[trigger] c[i]) == (name, prefix)
}

/// The definition that `c` gives `name` with the given fixity.
pub open spec fn operator_def(c: Seq<OperatorDefinition>, name: Seq<u8>, prefix: bool) -> OperatorDefinition {
    c[choose|i: int| 0 <= i < c.len() && def_key(#[trigger] c[i]) == (name, prefix)]
}

/// Whether a name that `c` defines as an operator of the given fixity starts at `offset`.
pub open spec fn operator_at(s: Seq<u8>, offset: int, c: Seq<OperatorDefinition>, prefix: bool) -> bool {
    match spec_scan_ident(s, offset) {
        Some(e) => has_operator(c, s.subrange(offset, e), prefix),
        None => false,
    }
}

/// Whether a name directly followed by `(` starts at `offset`.
pub open spec fn spec_compound_start(s: Seq<u8>, offset: int) -> bool {
    match spec_scan_ident(s, offset) {
        Some(e) => e < s.len() && s[e] == 0x28,
        None => false,
    }
}

/// Whether what follows `offset` (after whitespace and comments) ends an
/// operand: the end of the text, `)`, `,`, `;`, the terminator, or an
/// operator that can only be infix.
pub open spec fn spec_operator_end(
    s: Seq<u8>,
    offset: int,
    terminator: u8,
    ops: Option<Seq<OperatorDefinition>>,
) -> bool {
    match spec_scan_trivia(s, offset) {
        Err(_) => false,
        Ok(o) => if o < 0 || s.len() <= o {
            true
        } else {
            let b = s[o];
            b == 0x29 || b == 0x2c || b == 0x3b || b == terminator || (!spec_compound_start(s, o)
                && match ops {
                Some(c) => operator_at(s, o, c, false) && !operator_at(s, o, c, true),
                None => false,
            })
        },
    }
}

fn scan_compound_start(bytes: &[u8], offset: usize) -> (r: Option<usize>)
    requires
        offset <= bytes@.len(),
    ensures
        r is Some <==> spec_compound_start(bytes@, offset as int),
        r matches Some(e) ==> spec_scan_ident(bytes@, offset as int) == Some(e - 1),
{
    let end = match scan_ident_bytes(bytes, offset) {
        Some(end) => end,
        None => return None,
    };
    proof {
        lemma_scan_ident_bounds(bytes@, offset as int);
    }
    if end < bytes.len() && bytes[end] == 0x28 {
        Some(end + 1)
    } else {
        None
    }
}

/// An operator waiting for its right operand.
#[derive(Clone, Copy)]
struct PendingOperator<'a> {
    atom: ParseAtom<'a>,
    precedence: u16,
    class: OperatorClass,
    offset: usize,
    end: usize,
}

/// The highest precedence the right operand of `op` may have.
spec fn right_limit(op: PendingOperator) -> int {
    match op.class {
        OperatorClass::Xfx | OperatorClass::Yfx => op.precedence - 1,
        _ => op.precedence as int,
    }
}

/// The highest precedence the left operand of an infix `op` may have.
spec fn left_limit(op: PendingOperator) -> int {
    if op.class is Yfx {
        op.precedence as int
    } else {
        op.precedence - 1
    }
}

/// Whether the operands of `op` bind no looser than its class allows.
spec fn operands_fit(op: PendingOperator, right: Operand, left: Operand) -> bool {
    &&& right.precedence <= right_limit(op)
    &&& (op.class.spec_is_prefix() || left.precedence <= left_limit(op))
}

fn scan_operator<'a>(
    source: &'a str,
    offset: usize,
    operators: &'a OperatorConfig<'a>,
    prefix: bool,
) -> (r: Option<PendingOperator<'a>>)
    requires
        offset <= source.spec_bytes().len(),
    ensures
        r is Some <==> operator_at(source.spec_bytes(), offset as int, operators@, prefix),
        r matches Some(op) ==> {
            &&& op.offset == offset
            &&& offset < op.end <= source.spec_bytes().len()
            &&& spec_scan_ident(source.spec_bytes(), offset as int) == Some(op.end as int)
            &&& valid_precedence(op.precedence)
            &&& op.class.spec_is_prefix() == prefix
            &&& op.precedence == operator_def(
                operators@,
                source.spec_bytes().subrange(offset as int, op.end as int),
                prefix,
            ).precedence
            &&& op.class == operator_def(
                operators@,
                source.spec_bytes().subrange(offset as int, op.end as int),
                prefix,
            ).class
            &&& !op.atom.spec_quoted()
            &&& op.atom.spec_body().spec_bytes() == source.spec_bytes().subrange(offset as int, op.end as int)
            &&& written_in(op.atom, source.spec_bytes())
        },
{
    let bytes = source.as_bytes();
    let end = match scan_ident_bytes(bytes, offset) {
        Some(end) => end,
        None => return None,
    };
    proof {
        lemma_scan_ident_bounds(bytes@, offset as int);
        lemma_scan_ident_ascii(bytes@, offset as int);
        vstd::utf8::encode_utf8_valid_utf8(source@);
        lemma_ascii_starts_char(bytes@, offset as int);
        lemma_after_ascii_starts_char(bytes@, end - 1);
    }
    let name = substring(source, offset, end);
    proof {
        assert(bytes@.subrange(offset as int, offset + name.spec_bytes().len()) == name.spec_bytes());
    }
    match operators.get(name, prefix) {
        Some(operator) => {
            proof {
                let i = choose|i: int| 0 <= i < operators@.len() && operators@[i] == *operator;
                assert(def_key(operators@[i]) == (name.spec_bytes(), prefix));
                let j = choose|j: int|
                    0 <= j < operators@.len() && def_key(#[trigger] operators@[j]) == (name.spec_bytes(), prefix);
                if i != j {
                    if i < j {
                        assert(def_key(operators@[i]) != def_key(operators@[j]));
                    } else {
                        assert(def_key(operators@[j]) != def_key(operators@[i]));
                    }
                }
                assert(operator_def(operators@, name.spec_bytes(), prefix) == *operator);
            }
            Some(
                PendingOperator {
                    atom: ParseAtom::unquoted(name),
                    precedence: operator.precedence,
                    class: operator.class,
                    offset,
                    end,
                },
            )
        },
        None => {
            proof {
                if has_operator(operators@, bytes@.subrange(offset as int, end as int), prefix) {
                    let i = choose|i: int|
                        0 <= i < operators@.len() && def_key(#[trigger] operators@[i]) == (
                            bytes@.subrange(offset as int, end as int),
                            prefix,
                        );
                    assert(def_key(operators@[i]) != (name.spec_bytes(), prefix));
                }
            }
            None
        },
    }
}

fn scan_operator_end<'a>(
    source: &'a str,
    offset: usize,
    terminator: u8,
    operators: Option<&'a OperatorConfig<'a>>,
) -> (r: bool)
    requires
        offset <= source.spec_bytes().len(),
    ensures
        r == spec_operator_end(
            source.spec_bytes(),
            offset as int,
            terminator,
            match operators {
                Some(c) => Some(c@),
                None => None,
            },
        ),
{
    let bytes = source.as_bytes();
    let o = match scan_trivia(bytes, offset) {
        Ok(o) => o,
        Err(_) => return false,
    };
    proof {
        lemma_scan_trivia(bytes@, offset as int);
    }
    if o >= bytes.len() {
        return true;
    }
    let b = bytes[o];
    if b == 0x29 || b == 0x2c || b == 0x3b || b == terminator {
        return true;
    }
    if scan_compound_start(bytes, o).is_some() {
        return false;
    }
    match operators {
        Some(c) => scan_operator(source, o, c, false).is_some() && scan_operator(
            source,
            o,
            c,
            true,
        ).is_none(),
        None => false,
    }
}

/// An operand on the stack: its precedence, and whether it is a number.
#[derive(Clone, Copy)]
struct Operand {
    precedence: u16,
    is_number: bool,
}

/// What an expression frame is for.
#[derive(Clone, Copy)]
enum FrameKind<'a> {
    Root { start: usize },
    Group,
    Arguments { functor: ParseAtom<'a>, argument_count: usize },
}

/// A frame of the expression stack. Its operands and operators are the
/// entries of the parser's operand and operator stacks from these bases on,
/// up to the bases of the next frame.
#[derive(Clone, Copy)]
struct Frame<'a> {
    kind: FrameKind<'a>,
    operand_base: usize,
    operator_base: usize,
}

enum TermParserState {
    AwaitingFact,
    Operand,
    Operator,
    Done,
    Failed,
}

/// The number of operators among `ops` that take a left operand.
spec fn count_infix<'a>(ops: Seq<PendingOperator<'a>>) -> int
    decreases ops.len(),
{
    if ops.len() == 0 {
        0
    } else {
        count_infix(ops.drop_last()) + if ops.last().class.spec_is_prefix() {
            0int
        } else {
            1int
        }
    }
}

proof fn lemma_count_infix_push<'a>(ops: Seq<PendingOperator<'a>>, x: PendingOperator<'a>)
    ensures
        count_infix(ops.push(x)) == count_infix(ops) + if x.class.spec_is_prefix() {
            0int
        } else {
            1int
        },
{
    assert(ops.push(x).drop_last() =~= ops);
}

proof fn lemma_count_infix_bounds<'a>(ops: Seq<PendingOperator<'a>>)
    ensures
        0 <= count_infix(ops) <= ops.len(),
    decreases ops.len(),
{
    if ops.len() > 0 {
        lemma_count_infix_bounds(ops.drop_last());
    }
}

/// The arguments an arguments frame has completed.
spec fn frame_args(f: Frame) -> int {
    match f.kind {
        FrameKind::Arguments { argument_count, .. } => argument_count as int,
        _ => 0,
    }
}

spec fn sum_args<'a>(frames: Seq<Frame<'a>>) -> int
    decreases frames.len(),
{
    if frames.len() == 0 {
        0
    } else {
        sum_args(frames.drop_last()) + frame_args(frames.last())
    }
}

proof fn lemma_sum_args_push<'a>(frames: Seq<Frame<'a>>, f: Frame<'a>)
    ensures
        sum_args(frames.push(f)) == sum_args(frames) + frame_args(f),
{
    assert(frames.push(f).drop_last() =~= frames);
}

proof fn lemma_sum_args_nonneg<'a>(frames: Seq<Frame<'a>>)
    ensures
        sum_args(frames) >= 0,
    decreases frames.len(),
{
    if frames.len() > 0 {
        lemma_sum_args_nonneg(frames.drop_last());
    }
}

/// A parser of facts: terms separated by `;` and ended by a terminator byte,
/// with Prolog-style operators when given a configuration. It emits the
/// terms of each fact in postfix order.
pub struct TermParser<'a> {
    source: &'a str,
    terminator: u8,
    operators: Option<&'a OperatorConfig<'a>>,
    offset: usize,
    frames: Vec<Frame<'a>>,
    operands: Vec<Operand>,
    pending: Vec<PendingOperator<'a>>,
    state: TermParserState,
}

/// What a step reports back: an event, nothing yet, or an error.
pub type StepResult<'a> = Result<Option<ParseTerm<'a>>, TermError>;

impl<'a> TermParser<'a> {
    pub closed spec fn spec_source(&self) -> &'a str {
        self.source
    }

    pub closed spec fn spec_offset(&self) -> usize {
        self.offset
    }

    pub closed spec fn spec_terminator(&self) -> u8 {
        self.terminator
    }

    /// The parser has stopped: it reached the end of the facts, or failed.
    pub closed spec fn is_finished(&self) -> bool {
        self.state is Done || self.state is Failed
    }

    /// The parser reached the end of its facts, after their terminator.
    pub closed spec fn is_done(&self) -> bool {
        self.state is Done
    }

    /// Once done, the byte before the offset is the terminator.
    pub proof fn lemma_done_after_terminator(&self)
        requires
            self.wf(),
            self.is_done(),
        ensures
            0 < self.spec_offset() <= self.spec_source().spec_bytes().len(),
            self.spec_source().spec_bytes()[self.spec_offset() - 1] == self.spec_terminator(),
            self.spec_terminator() < 0x80,
    {
    }

    /// The offset never passes the end of the source.
    pub proof fn lemma_offset_bound(&self)
        requires
            self.wf(),
        ensures
            self.spec_offset() <= self.spec_source().spec_bytes().len(),
    {
    }

    /// Whether the parser was given an operator configuration.
    pub closed spec fn uses_operators(&self) -> bool {
        self.operators is Some
    }

    /// The definitions of the operator configuration the parser was given.
    pub closed spec fn operator_definitions(&self) -> Option<Seq<OperatorDefinition<'a>>> {
        self.ops_view()
    }

    /// Without operators, no operator is ever pending.
    pub proof fn lemma_no_operators(&self)
        requires
            self.wf(),
            !self.uses_operators(),
            !self.is_failed(),
        ensures
            self.pending_operators() == 0,
    {
    }

    /// The number of operators waiting for operands.
    pub closed spec fn pending_operators(&self) -> nat {
        self.pending@.len()
    }

    /// Once done, no term is pending.
    pub proof fn lemma_done_empty(&self)
        requires
            self.wf(),
            self.is_done(),
        ensures
            self.pending_terms() == 0,
    {
        self.lemma_between_facts_empty();
    }

    /// The parser failed.
    pub closed spec fn is_failed(&self) -> bool {
        self.state is Failed
    }

    /// The parser is between facts.
    pub closed spec fn is_between_facts(&self) -> bool {
        self.state is AwaitingFact || self.state is Done
    }

    /// The number of complete terms emitted in the current fact that no
    /// compound event has consumed yet.
    pub closed spec fn pending_terms(&self) -> int {
        self.operands@.len() + sum_args(self.frames@)
    }

    spec fn bytes_view(&self) -> Seq<u8> {
        self.source.spec_bytes()
    }

    spec fn ops_view(&self) -> Option<Seq<OperatorDefinition<'a>>> {
        match self.operators {
            Some(c) => Some(c@),
            None => None,
        }
    }

    spec fn last_frame(&self) -> Frame<'a> {
        self.frames@.last()
    }

    /// The operands of the last frame.
    spec fn last_operands(&self) -> int {
        self.operands@.len() - self.last_frame().operand_base
    }

    /// The infix operators of the last frame.
    spec fn last_infix(&self) -> int {
        count_infix(self.pending@.subrange(self.last_frame().operator_base as int, self.pending@.len() as int))
    }

    spec fn frames_wf(&self) -> bool {
        let n = self.frames@.len();
        &&& n > 0
        &&& forall|k: int| 0 <= k < n ==> functor_written(#[trigger] self.frames@[k], self.bytes_view())
        &&& self.frames@[0].kind is Root
        &&& self.frames@[0].operand_base == 0
        &&& self.frames@[0].operator_base == 0
        &&& forall|k: int| 0 < k < n ==> (#[trigger] self.frames@[k]).kind !is Root
        &&& forall|k: int|
            0 <= k < n ==> (#[trigger] self.frames@[k]).operand_base <= self.operands@.len()
                && self.frames@[k].operator_base <= self.pending@.len()
        &&& forall|k: int, j: int|
            0 <= k <= j < n ==> (#[trigger] self.frames@[k]).operand_base <= (
            #[trigger] self.frames@[j]).operand_base && self.frames@[k].operator_base
                <= self.frames@[j].operator_base
        &&& forall|k: int|
            #![trigger self.frames@[k + 1]]
            0 <= k && k + 1 < n ==> {
                let a = self.frames@[k];
                let b = self.frames@[k + 1];
                &&& b.operand_base - a.operand_base == count_infix(
                    self.pending@.subrange(a.operator_base as int, b.operator_base as int),
                )
            }
        &&& match self.frames@[0].kind {
            FrameKind::Root { start } => start <= self.bytes_view().len(),
            _ => true,
        }
        &&& forall|k: int| 0 <= k < n ==> frame_args(#[trigger] self.frames@[k]) <= self.offset
    }

    spec fn pending_wf(&self) -> bool {
        &&& forall|i: int|
            0 <= i < self.pending@.len() ==> valid_precedence((#[trigger] self.pending@[i]).precedence)
                && self.pending@[i].offset <= self.bytes_view().len() && written_in(
                self.pending@[i].atom,
                self.bytes_view(),
            )
        &&& forall|i: int| 0 <= i < self.pending@.len() ==> self.pending_defined(#[trigger] self.pending@[i])
    }

    /// A pending operator has the precedence and class that the
    /// configuration defines for its name and fixity.
    spec fn pending_defined(&self, op: PendingOperator<'a>) -> bool {
        match self.ops_view() {
            Some(c) => {
                let d = operator_def(c, op.atom.spec_body().spec_bytes(), op.class.spec_is_prefix());
                op.precedence == d.precedence && op.class == d.class
            },
            None => true,
        }
    }

    /// The parser's invariant.
    pub closed spec fn wf(&self) -> bool {
        &&& self.offset <= self.bytes_view().len()
        &&& self.bytes_view().len() <= usize::MAX
        &&& (self.state !is Failed && self.operators is None ==> self.pending@.len() == 0)
        &&& self.terminator < 0x80
        &&& match self.state {
            TermParserState::AwaitingFact => {
                &&& self.frames@.len() == 0
                &&& self.operands@.len() == 0
                &&& self.pending@.len() == 0
            },
            TermParserState::Done => {
                &&& self.frames@.len() == 0
                &&& self.operands@.len() == 0
                &&& self.pending@.len() == 0
                &&& 0 < self.offset
                &&& self.bytes_view()[self.offset - 1] == self.terminator
            },
            TermParserState::Operand => {
                &&& self.frames_wf()
                &&& self.pending_wf()
                &&& self.last_operands() == self.last_infix()
            },
            TermParserState::Operator => {
                &&& self.frames_wf()
                &&& self.pending_wf()
                &&& self.last_operands() == self.last_infix() + 1
            },
            TermParserState::Failed => true,
        }
    }

    /// How far the parser is from the end: each step that emits nothing
    /// brings it closer.
    spec fn measure(&self) -> int {
        2 * (self.bytes_view().len() - self.offset) + if self.state is AwaitingFact {
            1int
        } else {
            0int
        }
    }

    /// A parser at the start of `source`, whose facts end at `terminator`
    /// (an ASCII byte), using `operators` if given.
    pub fn new(source: &'a str, terminator: u8, operators: Option<&'a OperatorConfig<'a>>) -> (r: Self)
        requires
            terminator < 0x80,
        ensures
            r.wf(),
            r.spec_source() == source,
            r.spec_offset() == 0,
            r.spec_terminator() == terminator,
            !r.is_finished(),
            !r.is_done(),
            !r.is_failed(),
            r.uses_operators() == (operators is Some),
            r.operator_definitions() == (match operators {
                Some(c) => Some(c@),
                None => None::<Seq<OperatorDefinition<'a>>>,
            }),
            r.is_between_facts(),
            r.pending_terms() == 0,
    {
        let _len = source.as_bytes().len();
        let r = TermParser {
            source,
            terminator,
            operators,
            offset: 0,
            frames: Vec::new(),
            operands: Vec::new(),
            pending: Vec::new(),
            state: TermParserState::AwaitingFact,
        };
        assert(sum_args(r.frames@) == 0);
        r
    }

    /// The offset in the source up to which the parser has read.
    pub fn offset(&self) -> (r: usize)
        ensures
            r == self.spec_offset(),
    {
        self.offset
    }
}


/// How an event changes the number of pending terms: atoms and numbers add
/// one; a compound of `n` arguments takes `n` and adds one; the end of a fact
/// takes the one term of the fact.
pub open spec fn event_effect(ev: ParseTerm, before: int, after: int) -> bool {
    match ev {
        ParseTerm::Atom(_) => after == before + 1,
        ParseTerm::Number(_) => after == before + 1,
        ParseTerm::Compound(_, n) => 1 <= n <= before && after == before - n + 1,
        ParseTerm::FactEnd => before == 1 && after == 0,
    }
}

/// Reads the atom at `offset` of `source`: a name, or a quoted atom; with
/// the offset after it, or where the error arose.
pub fn read_atom<'a>(source: &'a str, offset: usize) -> (r: (Result<ParseAtom<'a>, TermError>, usize))
    requires
        offset <= source.spec_bytes().len(),
    ensures
        atom_read(source.spec_bytes(), offset as int, r.0, r.1 as int),
        r.1 <= source.spec_bytes().len(),
        r.0 is Ok ==> offset < r.1,
{
    let mut p = TermParser {
        source,
        terminator: 0x2e,
        operators: None,
        offset,
        frames: Vec::new(),
        operands: Vec::new(),
        pending: Vec::new(),
        state: TermParserState::Operand,
    };
    let r = p.parse_atom();
    (r, p.offset)
}

/// Reads the number at `offset` of `source`; a real literal's value is
/// read with `parse_real`, and one without a finite value is refused where
/// it stands.
pub fn read_number<'a, F: Fn(&'a str) -> Option<u32>>(source: &'a str, offset: usize, parse_real: &F) -> (r: (
    Result<ParseNumber<'a>, TermError>,
    usize,
))
    requires
        offset <= source.spec_bytes().len(),
        forall|text: &'a str| #[trigger] parse_real.requires((text,)),
    ensures
        number_read(source.spec_bytes(), offset as int, r.0, r.1 as int),
        r.1 <= source.spec_bytes().len(),
        r.0 is Ok ==> offset < r.1,
        spec_scan_number(source.spec_bytes(), offset as int) matches Ok((_, e)) ==> (r.0 is Err ==> real_refused_at(
            parse_real,
            source.spec_bytes(),
            offset as int,
            e,
        )),
{
    let mut p = TermParser {
        source,
        terminator: 0x2e,
        operators: None,
        offset,
        frames: Vec::new(),
        operands: Vec::new(),
        pending: Vec::new(),
        state: TermParserState::Operand,
    };
    let r = p.parse_number(parse_real);
    (r, p.offset)
}

impl<'a> TermParser<'a> {
    spec fn same_setup(&self, other: &Self) -> bool {
        &&& self.source == other.source
        &&& self.terminator == other.terminator
        &&& self.operators == other.operators
    }

    /// What a step guarantees, given the state before it.
    spec fn step_post(old: Self, new: Self, r: StepResult<'a>) -> bool {
        &&& new.same_setup(&old)
        &&& new.offset <= new.bytes_view().len()
        &&& new.bytes_view().len() <= usize::MAX
        &&& match r {
            Ok(None) => {
                &&& new.wf()
                &&& old.offset <= new.offset
                &&& (new.offset > old.offset || new.pending@.len() == old.pending@.len())
                &&& !new.is_finished()
                &&& new.measure() < old.measure()
                &&& new.pending_terms() == old.pending_terms()
            },
            Ok(Some(ev)) => {
                &&& new.wf()
                &&& old.offset <= new.offset
                &&& (new.offset > old.offset || new.pending@.len() < old.pending@.len())
                &&& event_effect(ev, old.pending_terms(), new.pending_terms())
                &&& (ev is FactEnd <==> new.is_between_facts())
                &&& !new.is_failed()
                &&& (ev is Compound ==> ev->Compound_1 >= 1)
                &&& event_written(ev, new.bytes_view())
            },
            Err(_) => true,
        }
    }

    fn bytes(&self) -> (r: &'a [u8])
        ensures
            r@ == self.bytes_view(),
    {
        self.source.as_bytes()
    }

    fn peek(&self) -> (r: Option<u8>)
        ensures
            r == (if self.offset < self.bytes_view().len() {
                Some(self.bytes_view()[self.offset as int])
            } else {
                None
            }),
    {
        crate::text::byte_at(self.bytes(), self.offset)
    }

    fn peek_next(&self) -> (r: Option<u8>)
        ensures
            r == (if self.offset + 1 < self.bytes_view().len() {
                Some(self.bytes_view()[self.offset + 1])
            } else {
                None
            }),
    {
        let bytes = self.bytes();
        if self.offset < bytes.len() {
            crate::text::byte_at(bytes, self.offset + 1)
        } else {
            None
        }
    }

    fn find_operator(&self, prefix: bool) -> (r: Option<PendingOperator<'a>>)
        requires
            self.offset <= self.bytes_view().len(),
        ensures
            r is Some <==> (self.ops_view() matches Some(c) && operator_at(
                self.bytes_view(),
                self.offset as int,
                c,
                prefix,
            )),
            r matches Some(op) ==> {
                &&& op.offset == self.offset
                &&& self.offset < op.end <= self.bytes_view().len()
                &&& spec_scan_ident(self.bytes_view(), self.offset as int) == Some(op.end as int)
                &&& (self.ops_view() matches Some(c) && op.precedence == operator_def(
                    c,
                    self.bytes_view().subrange(self.offset as int, op.end as int),
                    prefix,
                ).precedence && op.class == operator_def(
                    c,
                    self.bytes_view().subrange(self.offset as int, op.end as int),
                    prefix,
                ).class)
                &&& valid_precedence(op.precedence)
                &&& op.class.spec_is_prefix() == prefix
                &&& written_in(op.atom, self.bytes_view())
                &&& !op.atom.spec_quoted()
                &&& op.atom.spec_body().spec_bytes() == self.bytes_view().subrange(self.offset as int, op.end as int)
                &&& self.pending_defined(op)
            },
    {
        match self.operators {
            Some(c) => scan_operator(self.source, self.offset, c, prefix),
            None => None,
        }
    }

    fn find_operator_end(&self, offset: usize) -> (r: bool)
        requires
            offset <= self.bytes_view().len(),
        ensures
            r == spec_operator_end(self.bytes_view(), offset as int, self.terminator, self.ops_view()),
    {
        scan_operator_end(self.source, offset, self.terminator, self.operators)
    }

    /// Skips whitespace and comments.
    fn skip_trivia(&mut self) -> (r: Result<(), TermError>)
        requires
            old(self).offset <= old(self).bytes_view().len(),
        ensures
            final(self).same_setup(old(self)),
            final(self).frames == old(self).frames,
            final(self).operands == old(self).operands,
            final(self).pending == old(self).pending,
            final(self).state == old(self).state,
            old(self).offset <= final(self).offset <= final(self).bytes_view().len(),
            r is Ok <==> spec_scan_trivia(old(self).bytes_view(), old(self).offset as int) is Ok,
            r is Ok ==> spec_scan_trivia(old(self).bytes_view(), old(self).offset as int) == Ok::<
                int,
                (TermError, int),
            >(final(self).offset as int),
            spec_scan_trivia(old(self).bytes_view(), old(self).offset as int) matches Err((e, o)) ==> r == Err::<
                (),
                TermError,
            >(e) && final(self).offset == o,
    {
        let bytes = self.bytes();
        proof {
            lemma_scan_trivia(bytes@, self.offset as int);
        }
        match scan_trivia(bytes, self.offset) {
            Ok(end) => {
                self.offset = end;
                Ok(())
            },
            Err((error, offset)) => {
                self.offset = offset;
                Err(error)
            },
        }
    }

    /// Reads the number literal at the offset.
    fn parse_number<F: Fn(&'a str) -> Option<u32>>(&mut self, parse_real: &F) -> (r: Result<
        ParseNumber<'a>,
        TermError,
    >)
        requires
            old(self).offset <= old(self).bytes_view().len(),
            forall|text: &'a str| #[trigger] parse_real.requires((text,)),
        ensures
            r matches Ok(ParseNumber::Real(lit)) ==> real_value_read(parse_real, lit.spec_text(), lit.spec_value()),
            spec_scan_number(old(self).bytes_view(), old(self).offset as int) matches Ok((_, e)) ==> (r is Err
                ==> real_refused_at(parse_real, old(self).bytes_view(), old(self).offset as int, e)),
            final(self).same_setup(old(self)),
            final(self).frames == old(self).frames,
            final(self).operands == old(self).operands,
            final(self).pending == old(self).pending,
            final(self).state == old(self).state,
            r is Ok ==> old(self).offset < final(self).offset <= final(self).bytes_view().len(),
            r is Err ==> final(self).offset == old(self).offset,
            r matches Ok(n) ==> event_written(ParseTerm::Number(n), old(self).bytes_view()),
            r matches Ok(n) ==> event_written(
                ParseTerm::Number(n),
                old(self).bytes_view().subrange(old(self).offset as int, final(self).offset as int),
            ),
            number_read(old(self).bytes_view(), old(self).offset as int, r, final(self).offset as int),
    {
        let bytes = self.bytes();
        let start = self.offset;
        proof {
            lemma_scan_number(bytes@, start as int);
        }
        let (token, end) = scan_number(bytes, start)?;
        self.offset = end;
        match token {
            NumberToken::Integer(v) => {
                let n = IntegerTerm::new(v);
                proof {
                    let s = bytes@;
                    let a = number_digits_start(s, start as int);
                    lemma_digit_run_end(s, a);
                    let b = digit_run_end(s, a);
                    assert(digits_value(s, a, b) == (if v < 0 { -v } else { v as int }));
                    assert(integer_written(v, s));
                    let t = s.subrange(start as int, end as int);
                    lemma_digits_value_within(s, start as int, end as int, a - start, b - start);
                    assert forall|k: int| a - start <= k < b - start implies is_digit(#[trigger] t[k]) by {
                        assert(t[k] == s[start + k]);
                    }
                    if v < 0 {
                        assert(t[a - start - 1] == s[a - 1]);
                    }
                    assert(digits_value(t, a - start, b - start) == (if v < 0 { -v } else { v as int }));
                }
                Ok(ParseNumber::Integer(n))
            },
            NumberToken::Real => {
                proof {
                    vstd::utf8::encode_utf8_valid_utf8(self.source@);
                    lemma_ascii_starts_char(bytes@, start as int);
                    lemma_after_ascii_starts_char(bytes@, end - 1);
                }
                let text = substring(self.source, start, end);
                proof {
                    assert(bytes@.subrange(start as int, start + text.spec_bytes().len()) == text.spec_bytes());
                }
                let bits = match parse_real(text) {
                    Some(bits) => bits,
                    None => {
                        self.offset = start;
                        proof {
                            assert(parse_real.ensures((text,), None::<u32>));
                            assert(real_refused(parse_real, text));
                            assert(text.spec_bytes() =~= bytes@.subrange(start as int, end as int));
                        }
                        return Err(TermError::InvalidReal);
                    },
                };
                if bits & 0x7f80_0000u32 == 0x7f80_0000u32 {
                    self.offset = start;
                    proof {
                        assert(parse_real.ensures((text,), Some(bits)));
                        assert(real_refused(parse_real, text));
                        assert(text.spec_bytes() =~= bytes@.subrange(start as int, end as int));
                    }
                    return Err(TermError::InvalidReal);
                }
                let literal = RealLiteral { text, value: RealTerm::new(bits) };
                proof {
                    assert(parse_real.ensures((text,), Some(bits)));
                    assert(bytes@.subrange(start as int, start + text.spec_bytes().len()) == text.spec_bytes());
                    assert(literal.spec_text() == text);
                    assert(text_written(text.spec_bytes(), bytes@));
                    assert(bytes@.subrange(start as int, end as int).subrange(0, 0int + text.spec_bytes().len())
                        =~= text.spec_bytes());
                }
                Ok(ParseNumber::Real(literal))
            },
        }
    }

    /// Reads the atom at the offset: a name, or a quoted atom.
    fn parse_atom(&mut self) -> (r: Result<ParseAtom<'a>, TermError>)
        requires
            old(self).offset <= old(self).bytes_view().len(),
        ensures
            final(self).same_setup(old(self)),
            final(self).frames == old(self).frames,
            final(self).operands == old(self).operands,
            final(self).pending == old(self).pending,
            final(self).state == old(self).state,
            final(self).offset <= final(self).bytes_view().len(),
            r is Ok ==> old(self).offset < final(self).offset,
            r matches Ok(a) ==> written_in(a, old(self).bytes_view()),
            r matches Ok(a) ==> written_in(
                a,
                old(self).bytes_view().subrange(old(self).offset as int, final(self).offset as int),
            ),
            atom_read(old(self).bytes_view(), old(self).offset as int, r, final(self).offset as int),
    {
        let bytes = self.bytes();
        let start = self.offset;
        if let Some(end) = scan_ident_bytes(bytes, start) {
            proof {
                lemma_scan_ident_bounds(bytes@, start as int);
                lemma_scan_ident_ascii(bytes@, start as int);
                vstd::utf8::encode_utf8_valid_utf8(self.source@);
                lemma_ascii_starts_char(bytes@, start as int);
                lemma_after_ascii_starts_char(bytes@, end - 1);
            }
            self.offset = end;
            let body = substring(self.source, start, end);
            proof {
                assert(bytes@.subrange(start as int, start + body.spec_bytes().len()) == body.spec_bytes());
                assert(bytes@.subrange(start as int, end as int).subrange(0, 0int + body.spec_bytes().len())
                    =~= body.spec_bytes());
            }
            return Ok(ParseAtom::unquoted(body));
        }
        match self.peek() {
            Some(b) => {
                if b == 0x27 {
                    self.parse_quoted_atom()
                } else {
                    Err(TermError::UnexpectedCharacter)
                }
            },
            None => Err(TermError::UnexpectedEndOfFile),
        }
    }

    /// Reads the quoted atom whose opening quote is at the offset.
    fn parse_quoted_atom(&mut self) -> (r: Result<ParseAtom<'a>, TermError>)
        requires
            old(self).offset < old(self).bytes_view().len(),
            old(self).bytes_view()[old(self).offset as int] == 0x27,
        ensures
            final(self).same_setup(old(self)),
            final(self).frames == old(self).frames,
            final(self).operands == old(self).operands,
            final(self).pending == old(self).pending,
            final(self).state == old(self).state,
            final(self).offset <= final(self).bytes_view().len(),
            r is Ok ==> old(self).offset < final(self).offset,
            r matches Ok(a) ==> a.spec_quoted(),
            r matches Ok(a) ==> written_in(a, old(self).bytes_view()),
            r matches Ok(a) ==> written_in(
                a,
                old(self).bytes_view().subrange(old(self).offset as int, final(self).offset as int),
            ),
            quoted_read(old(self).bytes_view(), old(self).offset as int, r, final(self).offset as int),
    {
        let bytes = self.bytes();
        let len = bytes.len();
        assert(self.offset < len);
        self.offset = self.offset + 1;
        let content_start = self.offset;
        proof {
            lemma_scan_quoted(bytes@, content_start as int);
        }
        match scan_quoted(bytes, content_start) {
            Ok(content_end) => {
                proof {
                    vstd::utf8::encode_utf8_valid_utf8(self.source@);
                    lemma_after_ascii_starts_char(bytes@, content_start - 1);
                    lemma_ascii_starts_char(bytes@, content_end as int);
                }
                self.offset = content_end + 1;
                let body = substring(self.source, content_start, content_end);
                proof {
                    assert(bytes@.subrange(content_start as int, content_start + body.spec_bytes().len())
                        == body.spec_bytes());
                    assert(bytes@.subrange(content_start - 1, content_end + 1).subrange(
                        1,
                        1 + body.spec_bytes().len() as int,
                    ) =~= body.spec_bytes());
                }
                Ok(ParseAtom::quoted(body))
            },
            Err((error, offset)) => {
                self.offset = offset;
                Err(error)
            },
        }
    }
}


impl<'a> TermParser<'a> {
    /// Opens the root frame of a fact.
    fn begin_parsing_operand(&mut self) -> (r: StepResult<'a>)
        requires
            old(self).wf(),
            old(self).state is AwaitingFact,
        ensures
            Self::step_post(*old(self), *final(self), r),
            r == Ok::<Option<ParseTerm<'a>>, TermError>(None),
            final(self).state is Operand,
            final(self).frames@.len() == 1,
            final(self).offset == old(self).offset,
    {
        self.frames.push(
            Frame { kind: FrameKind::Root { start: self.offset }, operand_base: 0, operator_base: 0 },
        );
        self.state = TermParserState::Operand;
        proof {
            assert(self.frames@.len() == 1);
            lemma_sum_args_push(Seq::<Frame<'a>>::empty(), self.frames@[0]);
            assert(Seq::<Frame<'a>>::empty().push(self.frames@[0]) =~= self.frames@);
            assert(self.pending@.subrange(0, 0) =~= Seq::<PendingOperator<'a>>::empty());
        }
        Ok(None)
    }

    /// Records a completed operand in the last frame.
    fn finish_parsing_operand(&mut self, is_number: bool)
        requires
            old(self).frames_wf(),
            old(self).last_operands() == old(self).last_infix(),
            old(self).offset <= old(self).bytes_view().len(),
        ensures
            final(self).frames_wf(),
            final(self).last_operands() == final(self).last_infix() + 1,
            final(self).state is Operator,
            final(self).same_setup(old(self)),
            final(self).offset == old(self).offset,
            final(self).frames == old(self).frames,
            final(self).pending == old(self).pending,
            final(self).operands@ == old(self).operands@.push(
                Operand { precedence: 0, is_number },
            ),
    {
        self.operands.push(Operand { precedence: 0, is_number });
        self.state = TermParserState::Operator;
    }

    /// Whether the last frame has pending operators.
    fn last_frame_has_operators(&self) -> (r: bool)
        requires
            self.frames_wf(),
        ensures
            r == (self.pending@.len() > self.last_frame().operator_base),
    {
        let last = self.frames[self.frames.len() - 1];
        self.pending.len() > last.operator_base
    }

    /// Reads what may start an operand: a prefix operator, an opening
    /// parenthesis, a number, an atom, or the functor of a compound.
    #[verifier::spinoff_prover]
    fn step_operand<F: Fn(&'a str) -> Option<u32>>(&mut self, parse_real: &F) -> (r: StepResult<'a>)
        requires
            old(self).wf(),
            old(self).state is Operand,
            forall|text: &'a str| #[trigger] parse_real.requires((text,)),
        ensures
            r matches Ok(Some(ev)) ==> real_event_read(ev, parse_real, final(self).bytes_view()),
            r matches Ok(Some(ParseTerm::Number(n))) ==> number_read(
                old(self).bytes_view(),
                old(self).offset as int,
                Ok::<ParseNumber, TermError>(n),
                final(self).offset as int,
            ),
            r matches Ok(Some(ParseTerm::Atom(a))) ==> atom_read(
                old(self).bytes_view(),
                old(self).offset as int,
                Ok::<ParseAtom, TermError>(a),
                final(self).offset as int,
            ),
            Self::step_post(*old(self), *final(self), r),
            r matches Ok(Some(ev)) ==> read_between(
                ev,
                final(self).bytes_view(),
                old(self).offset as int,
                final(self).offset as int,
            ) && ev !is FactEnd,
            r matches Ok(Some(ev)) ==> operand_event(
                old(self).bytes_view(),
                old(self).offset as int,
                old(self).operators is None && old(self).frames@.len() == 1,
                ev,
            ),
            operand_error(
                old(self).bytes_view(),
                old(self).offset as int,
                old(self).operators is None && old(self).frames@.len() == 1,
                old(self).ops_view(),
                old(self).terminator,
            ) matches Some(e) ==> r == Err::<Option<ParseTerm<'a>>, TermError>(e),
            operand_error(
                old(self).bytes_view(),
                old(self).offset as int,
                old(self).operators is None && old(self).frames@.len() == 1,
                old(self).ops_view(),
                old(self).terminator,
            ) is None ==> r is Ok || (r == Err::<Option<ParseTerm<'a>>, TermError>(TermError::InvalidReal)
                && real_refused_here(parse_real, old(self).bytes_view(), old(self).offset as int)),
            r is Ok ==> (r matches Ok(Some(_)) <==> operand_yields(
                old(self).bytes_view(),
                old(self).offset as int,
                old(self).operators is None && old(self).frames@.len() == 1,
                old(self).ops_view(),
                old(self).terminator,
            )),
            operand_quiet(
                old(self).bytes_view(),
                old(self).offset as int,
                old(self).operators is None && old(self).frames@.len() == 1,
                old(self).ops_view(),
                old(self).terminator,
            ) ==> r == Ok::<Option<ParseTerm<'a>>, TermError>(None),
            r == Ok::<Option<ParseTerm<'a>>, TermError>(None) ==> {
                &&& final(self).offset == operand_skip(
                    old(self).bytes_view(),
                    old(self).offset as int,
                    old(self).ops_view(),
                    old(self).terminator,
                )
                &&& old(self).offset < final(self).offset
                &&& final(self).state is Operand
                &&& !(final(self).operators is None && final(self).frames@.len() == 1)
            },
            r is Err ==> final(self).offset == operand_error_offset(
                old(self).bytes_view(),
                old(self).offset as int,
                old(self).operators is None && old(self).frames@.len() == 1,
                old(self).ops_view(),
                old(self).terminator,
            ),
    {
        let ghost old_self = *self;
        let plain_root = self.operators.is_none() && self.frames.len() == 1;
        let next_byte = self.peek();
        if plain_root {
            if let Some(b) = next_byte {
                if is_digit_byte(b) {
                    return Err(TermError::UnexpectedCharacter);
                }
            }
        }
        if !plain_root && next_byte == Some(0x2du8) {
            if let Some(b) = self.peek_next() {
                if is_digit_byte(b) {
                    let number = self.parse_number(parse_real)?;
                    let ghost after_number = self.offset;
                    self.finish_parsing_operand(true);
                    proof {
                        self.lemma_push_operand_keeps_frames(old_self);
                    }
                    proof {
                        assert(number_read(
                            old_self.bytes_view(),
                            old_self.offset as int,
                            Ok::<ParseNumber, TermError>(number),
                            after_number as int,
                        ));
                    }
                    return Ok(Some(ParseTerm::Number(number)));
                }
            }
        }
        if scan_compound_start(self.bytes(), self.offset).is_none() {
            if let Some(operator) = self.find_operator(true) {
                if !self.find_operator_end(operator.end) {
                    self.offset = operator.end;
                    self.pending.push(operator);
                    proof {
                        self.lemma_push_operator_keeps_frames(old_self);
                    }
                    return Ok(None);
                }
            }
        }
        match self.peek() {
            Some(b) => {
                if b == 0x28 && self.operators.is_some() {
                    self.offset = self.offset + 1;
                    self.frames.push(
                        Frame {
                            kind: FrameKind::Group,
                            operand_base: self.operands.len(),
                            operator_base: self.pending.len(),
                        },
                    );
                    proof {
                        self.lemma_push_frame_keeps_frames(old_self);
                    }
                    Ok(None)
                } else if is_digit_byte(b) {
                    let number = self.parse_number(parse_real)?;
                    let ghost after_number = self.offset;
                    self.finish_parsing_operand(true);
                    proof {
                        self.lemma_push_operand_keeps_frames(old_self);
                    }
                    proof {
                        assert(number_read(
                            old_self.bytes_view(),
                            old_self.offset as int,
                            Ok::<ParseNumber, TermError>(number),
                            after_number as int,
                        ));
                    }
                    Ok(Some(ParseTerm::Number(number)))
                } else {
                    let atom = self.parse_atom()?;
                    let ghost after_atom = self.offset;
                    if self.peek() == Some(0x28u8) {
                        self.offset = self.offset + 1;
                        self.frames.push(
                            Frame {
                                kind: FrameKind::Arguments { functor: atom, argument_count: 0 },
                                operand_base: self.operands.len(),
                                operator_base: self.pending.len(),
                            },
                        );
                        proof {
                            self.lemma_push_frame_keeps_frames(old_self);
                        }
                        Ok(None)
                    } else {
                        self.finish_parsing_operand(false);
                        proof {
                            self.lemma_push_operand_keeps_frames(old_self);
                        }
                        proof {
                            assert(atom_read(
                                old_self.bytes_view(),
                                old_self.offset as int,
                                Ok::<ParseAtom, TermError>(atom),
                                after_atom as int,
                            ));
                            lemma_atom_event(
                                old_self.bytes_view(),
                                old_self.offset as int,
                                plain_root,
                                atom,
                                after_atom as int,
                            );
                        }
                        Ok(Some(ParseTerm::Atom(atom)))
                    }
                }
            },
            None => Err(TermError::UnexpectedEndOfFile),
        }
    }

    proof fn lemma_push_operand_keeps_frames(&self, before: Self)
        requires
            before.wf(),
            before.state is Operand,
            self.same_setup(&before),
            self.frames_wf(),
            self.state is Operator,
            self.frames == before.frames,
            self.pending == before.pending,
            self.operands@ == before.operands@.push(self.operands@.last()),
            self.operands@.len() > 0,
            before.offset < self.offset <= self.bytes_view().len(),
            self.last_operands() == self.last_infix() + 1,
        ensures
            self.wf(),
            self.pending_terms() == before.pending_terms() + 1,
    {
        assert forall|k: int| 0 <= k < self.frames@.len() implies frame_args(
            #[trigger] self.frames@[k],
        ) <= self.offset by {
            assert(frame_args(before.frames@[k]) <= before.offset);
        }
    }

    proof fn lemma_push_operator_keeps_frames(&self, before: Self)
        requires
            self.operators is Some,
            before.wf(),
            before.state is Operand,
            self.same_setup(&before),
            self.state is Operand,
            self.frames == before.frames,
            self.operands == before.operands,
            self.pending@ == before.pending@.push(self.pending@.last()),
            self.pending@.last().class.spec_is_prefix(),
            valid_precedence(self.pending@.last().precedence),
            self.pending_defined(self.pending@.last()),
            written_in(self.pending@.last().atom, self.bytes_view()),
            self.pending@.last().offset == before.offset,
            before.offset < self.offset <= self.bytes_view().len(),
        ensures
            self.wf(),
            self.pending_terms() == before.pending_terms(),
            self.measure() < before.measure(),
    {
        let n = self.frames@.len();
        let last = self.frames@[n - 1];
        assert forall|k: int|
            #![trigger self.frames@[k + 1]]
            0 <= k && k + 1 < n implies {
                let a = self.frames@[k];
                let b = self.frames@[k + 1];
                &&& b.operand_base - a.operand_base == count_infix(
                    self.pending@.subrange(a.operator_base as int, b.operator_base as int),
                )
            } by {
            let a = self.frames@[k];
            let b = self.frames@[k + 1];
            assert(b.operator_base <= before.pending@.len());
            assert(self.pending@.subrange(a.operator_base as int, b.operator_base as int)
                =~= before.pending@.subrange(a.operator_base as int, b.operator_base as int));
        }
        assert forall|k: int| 0 <= k < n implies frame_args(#[trigger] self.frames@[k])
            <= self.offset by {
            assert(frame_args(before.frames@[k]) <= before.offset);
        }
        assert forall|i: int| 0 <= i < self.pending@.len() implies valid_precedence(
            (#[trigger] self.pending@[i]).precedence,
        ) && self.pending@[i].offset <= self.bytes_view().len() && written_in(
            self.pending@[i].atom,
            self.bytes_view(),
        ) by {
            if i < before.pending@.len() {
                assert(self.pending@[i] == before.pending@[i]);
            }
        }
        assert forall|k: int| 0 <= k < n implies functor_written(#[trigger] self.frames@[k], self.bytes_view()) by {
            assert(functor_written(before.frames@[k], before.bytes_view()));
        }
        let old_ops = before.pending@.subrange(last.operator_base as int, before.pending@.len() as int);
        assert(self.pending@.subrange(last.operator_base as int, self.pending@.len() as int)
            =~= old_ops.push(self.pending@.last()));
        lemma_count_infix_push(old_ops, self.pending@.last());
    }

    proof fn lemma_push_frame_keeps_frames(&self, before: Self)
        requires
            before.wf(),
            before.state is Operand,
            self.same_setup(&before),
            self.state is Operand,
            self.operands == before.operands,
            self.pending == before.pending,
            self.frames@ == before.frames@.push(self.frames@.last()),
            self.frames@.last().kind !is Root,
            frame_args(self.frames@.last()) == 0,
            self.frames@.last().operand_base == self.operands@.len(),
            self.frames@.last().operator_base == self.pending@.len(),
            before.offset < self.offset <= self.bytes_view().len(),
            functor_written(self.frames@.last(), self.bytes_view()),
        ensures
            self.wf(),
            self.pending_terms() == before.pending_terms(),
            self.measure() < before.measure(),
    {
        let n = self.frames@.len();
        assert forall|k: int|
            #![trigger self.frames@[k + 1]]
            0 <= k && k + 1 < n implies {
                let a = self.frames@[k];
                let b = self.frames@[k + 1];
                &&& b.operand_base - a.operand_base == count_infix(
                    self.pending@.subrange(a.operator_base as int, b.operator_base as int),
                )
            } by {
            if k + 1 < n - 1 {
                assert(self.frames@[k] == before.frames@[k]);
                assert(self.frames@[k + 1] == before.frames@[k + 1]);
            } else {
                assert(self.frames@[k] == before.frames@.last());
            }
        }
        assert forall|k: int| 0 <= k < n implies frame_args(#[trigger] self.frames@[k])
            <= self.offset by {
            if k < n - 1 {
                assert(self.frames@[k] == before.frames@[k]);
                assert(frame_args(before.frames@[k]) <= before.offset);
            }
        }
        assert forall|k: int| 0 < k < n implies (#[trigger] self.frames@[k]).kind !is Root by {
            if k < n - 1 {
                assert(self.frames@[k] == before.frames@[k]);
            }
        }
        assert forall|k: int| 0 <= k < n implies (#[trigger] self.frames@[k]).operand_base
            <= self.operands@.len() && self.frames@[k].operator_base <= self.pending@.len() by {
            if k < n - 1 {
                assert(self.frames@[k] == before.frames@[k]);
            }
        }
        assert forall|k: int| 0 <= k < n implies functor_written(#[trigger] self.frames@[k], self.bytes_view()) by {
            if k < n - 1 {
                assert(self.frames@[k] == before.frames@[k]);
                assert(functor_written(before.frames@[k], before.bytes_view()));
            }
        }
        assert forall|i: int| 0 <= i < self.pending@.len() implies valid_precedence(
            (#[trigger] self.pending@[i]).precedence,
        ) && self.pending@[i].offset <= self.bytes_view().len() && written_in(
            self.pending@[i].atom,
            self.bytes_view(),
        ) by {
            assert(before.pending@[i] == self.pending@[i]);
        }
        assert(self.frames@[0] == before.frames@[0]);
        lemma_sum_args_push(before.frames@, self.frames@.last());
        assert(self.pending@.subrange(self.pending@.len() as int, self.pending@.len() as int)
            =~= Seq::<PendingOperator<'a>>::empty());
    }
}


impl<'a> TermParser<'a> {
    /// Pops the last pending operator and its operands, and emits the
    /// compound they form, after checking the operands' precedences against
    /// the operator's class.
    fn reduce_operator(&mut self) -> (r: StepResult<'a>)
        requires
            old(self).wf(),
            old(self).state is Operator,
            old(self).pending@.len() > old(self).last_frame().operator_base,
        ensures
            Self::step_post(*old(self), *final(self), r),
            r is Ok ==> r matches Ok(Some(ParseTerm::Compound(_, _))),
            ({
                let op = old(self).pending@.last();
                let n = old(self).operands@.len();
                let fit = operands_fit(op, old(self).operands@[n - 1], old(self).operands@[n - 2]);
                &&& fit ==> r == Ok::<Option<ParseTerm<'a>>, TermError>(
                    Some(ParseTerm::Compound(op.atom, if op.class.spec_is_prefix() { 1 } else { 2 })),
                )
                &&& !fit ==> r == Err::<Option<ParseTerm<'a>>, TermError>(TermError::UnexpectedCharacter)
                    && final(self).offset == op.offset
                &&& fit ==> final(self).offset == old(self).offset
                &&& fit ==> final(self).operands@ == old(self).operands@.subrange(
                    0,
                    n - if op.class.spec_is_prefix() { 1int } else { 2int },
                ).push(Operand { precedence: op.precedence, is_number: false })
                    && final(self).pending@ == old(self).pending@.drop_last()
            }),
    {
        let ghost before = *self;
        let ghost lb = self.last_frame().operator_base as int;
        let ghost sub = self.pending@.subrange(lb, self.pending@.len() as int);
        proof {
            assert(sub.drop_last() =~= self.pending@.subrange(lb, self.pending@.len() - 1));
            lemma_count_infix_bounds(sub.drop_last());
            assert(sub.last() == self.pending@.last());
        }
        let operator = self.pending.pop().unwrap();
        let right = self.operands.pop().unwrap();
        let right_limit = match operator.class {
            OperatorClass::Xfx | OperatorClass::Yfx => operator.precedence - 1,
            OperatorClass::Xfy | OperatorClass::Fy => operator.precedence,
        };
        if right.precedence > right_limit {
            self.offset = operator.offset;
            return Err(TermError::UnexpectedCharacter);
        }
        let prefix = operator.class.is_prefix();
        let arity: usize = if prefix {
            1
        } else {
            2
        };
        if !prefix {
            let left = self.operands.pop().unwrap();
            let left_limit = match operator.class {
                OperatorClass::Yfx => operator.precedence,
                _ => operator.precedence - 1,
            };
            if left.precedence > left_limit {
                self.offset = operator.offset;
                return Err(TermError::UnexpectedCharacter);
            }
        }
        self.operands.push(Operand { precedence: operator.precedence, is_number: false });
        proof {
            let n = self.frames@.len();
            assert forall|k: int|
                #![trigger self.frames@[k + 1]]
                0 <= k && k + 1 < n implies {
                    let a = self.frames@[k];
                    let b = self.frames@[k + 1];
                    &&& b.operand_base - a.operand_base == count_infix(
                        self.pending@.subrange(a.operator_base as int, b.operator_base as int),
                    )
                } by {
                let a = self.frames@[k];
                let b = self.frames@[k + 1];
                assert(before.frames@[k + 1].operator_base <= before.frames@[n - 1].operator_base);
                assert(self.pending@.subrange(a.operator_base as int, b.operator_base as int)
                    =~= before.pending@.subrange(a.operator_base as int, b.operator_base as int));
            }
            assert forall|k: int| 0 <= k < n implies (#[trigger] self.frames@[k]).operand_base
                <= self.operands@.len() && self.frames@[k].operator_base <= self.pending@.len() by {
                assert(before.frames@[k].operand_base <= before.frames@[n - 1].operand_base);
            }
            assert forall|i: int| 0 <= i < self.pending@.len() implies valid_precedence(
                (#[trigger] self.pending@[i]).precedence,
            ) && self.pending@[i].offset <= self.bytes_view().len() by {
                assert(self.pending@[i] == before.pending@[i]);
            }
            assert(self.pending@.subrange(lb, self.pending@.len() as int) =~= sub.drop_last());
            assert(self.frames_wf());
            assert(self.last_operands() == self.last_infix() + 1);
            assert(self.wf());
            assert(self.pending_terms() == before.pending_terms() - arity + 1);
            lemma_sum_args_nonneg(before.frames@);
        }
        Ok(Some(ParseTerm::Compound(operator.atom, arity)))
    }
}


impl<'a> TermParser<'a> {
    /// The error, if any, of reducing the last pending operator: its operands
    /// must bind no looser than its class allows.
    spec fn reduce_error(&self) -> Option<TermError> {
        let n = self.operands@.len();
        if operands_fit(self.pending@.last(), self.operands@[n - 1], self.operands@[n - 2]) {
            None
        } else {
            Some(TermError::UnexpectedCharacter)
        }
    }

    /// The error, if any, of closing the last frame at `i`: a fact ends at
    /// the terminator or `;` (and is not a lone number), a group at `)`, and
    /// an argument at `,` or `)`.
    spec fn close_error(&self, i: int) -> Option<TermError> {
        let s = self.bytes_view();
        if i >= s.len() && !(self.last_frame().kind is Root && self.operands@.last().is_number) {
            Some(TermError::UnexpectedEndOfFile)
        } else {
            let ok = match self.last_frame().kind {
                FrameKind::Root { .. } => !self.operands@.last().is_number && (s[i] == self.terminator || s[i]
                    == 0x3b),
                FrameKind::Group => s[i] == 0x29,
                FrameKind::Arguments { .. } => s[i] == 0x2c || s[i] == 0x29,
            };
            if ok {
                None
            } else {
                Some(TermError::UnexpectedCharacter)
            }
        }
    }

    /// What reducing the last pending operator gives: its compound, with the
    /// offset left where it was, when its operands fit its class; else an
    /// error at the operator.
    spec fn reduce_outcome(old: Self, new: Self, r: StepResult<'a>) -> bool {
        let op = old.pending@.last();
        let n = old.operands@.len();
        if operands_fit(op, old.operands@[n - 1], old.operands@[n - 2]) {
            r == Ok::<Option<ParseTerm<'a>>, TermError>(
                Some(ParseTerm::Compound(op.atom, if op.class.spec_is_prefix() { 1 } else { 2 })),
            ) && new.offset == old.offset
        } else {
            r == Err::<Option<ParseTerm<'a>>, TermError>(TermError::UnexpectedCharacter) && new.offset == op.offset
        }
    }

    /// What closing the last frame at the offset gives: the end of the fact
    /// after its terminator or `;`; the end of a group after `)`; the next
    /// argument after `,`, or the compound after `)`. An error leaves the
    /// offset where it was, but for a fact that is a lone number, whose error
    /// is at the fact's start.
    spec fn close_outcome(old: Self, new: Self, r: StepResult<'a>) -> bool {
        let s = old.bytes_view();
        let i = old.offset as int;
        match old.last_frame().kind {
            FrameKind::Root { start } => if old.operands@.last().is_number {
                r is Err && new.offset == start
            } else if i < s.len() && (s[i] == old.terminator || s[i] == 0x3b) {
                &&& r == Ok::<Option<ParseTerm<'a>>, TermError>(Some(ParseTerm::FactEnd))
                &&& new.offset == i + 1
                &&& (new.state is Done <==> s[i] == old.terminator)
            } else {
                r is Err && new.offset == i
            },
            FrameKind::Group => if i < s.len() && s[i] == 0x29 {
                r == Ok::<Option<ParseTerm<'a>>, TermError>(None) && new.offset == i + 1
            } else {
                r is Err && new.offset == i
            },
            FrameKind::Arguments { functor, argument_count } => if i < s.len() && s[i] == 0x2c {
                r == Ok::<Option<ParseTerm<'a>>, TermError>(None) && new.offset == i + 1 && new.state is Operand
                    && new.frames@.len() == old.frames@.len()
            } else if i < s.len() && s[i] == 0x29 {
                r == Ok::<Option<ParseTerm<'a>>, TermError>(
                    Some(ParseTerm::Compound(functor, (argument_count + 1) as usize)),
                ) && new.offset == i + 1
            } else {
                r is Err && new.offset == i
            },
        }
    }

    /// What a step after an operand gives, the next byte being at the
    /// offset: an infix operator there first reduces a pending one that binds
    /// tighter (or as tight, when the new one is `yfx`); is refused, at its
    /// place, after an `xfx` one of its own precedence when it is `xfx` too;
    /// and is otherwise taken, with the precedence and class that the
    /// configuration gives it. Without one, a pending operator is reduced, or
    /// else the last frame closes.
    spec fn operator_step(old: Self, new: Self, r: StepResult<'a>) -> bool {
        let s = old.bytes_view();
        let i = old.offset as int;
        let has_pending = old.pending@.len() > old.last_frame().operator_base;
        let prev = old.pending@.last();
        match (old.ops_view(), spec_scan_ident(s, i)) {
            (Some(c), Some(e)) if operator_at(s, i, c, false) => {
                let d = operator_def(c, s.subrange(i, e), false);
                if has_pending && (prev.precedence < d.precedence || (prev.precedence == d.precedence
                    && d.class is Yfx)) {
                    Self::reduce_outcome(old, new, r)
                } else if has_pending && prev.precedence == d.precedence && prev.class is Xfx && d.class is Xfx {
                    r == Err::<Option<ParseTerm<'a>>, TermError>(TermError::UnexpectedCharacter) && new.offset == i
                } else {
                    &&& r == Ok::<Option<ParseTerm<'a>>, TermError>(None)
                    &&& new.offset == e
                    &&& new.state is Operand
                    &&& new.pending@.len() == old.pending@.len() + 1
                    &&& new.pending@.drop_last() == old.pending@
                    &&& new.pending@.last().atom.spec_body().spec_bytes() == s.subrange(i, e)
                    &&& new.pending@.last().precedence == d.precedence
                    &&& new.pending@.last().class == d.class
                    &&& new.pending@.last().offset == i
                }
            },
            _ => if has_pending {
                Self::reduce_outcome(old, new, r)
            } else {
                Self::close_outcome(old, new, r)
            },
        }
    }

    /// Whether a step after an operand, the next byte being at `i`, gives an
    /// event when it succeeds: the compound of a reduced operator, the end
    /// of a fact, or a compound whose arguments close.
    spec fn operator_yields(&self, i: int) -> bool {
        let s = self.bytes_view();
        let has_pending = self.pending@.len() > self.last_frame().operator_base;
        let prev = self.pending@.last();
        match (self.ops_view(), spec_scan_ident(s, i)) {
            (Some(c), Some(e)) if operator_at(s, i, c, false) => {
                let d = operator_def(c, s.subrange(i, e), false);
                has_pending && (prev.precedence < d.precedence || (prev.precedence == d.precedence && d.class is Yfx))
            },
            _ => has_pending || match self.last_frame().kind {
                FrameKind::Root { .. } => true,
                FrameKind::Group => false,
                FrameKind::Arguments { .. } => i < s.len() && s[i] == 0x29,
            },
        }
    }

    /// Where an operand is next due after a step that follows an operand and
    /// gives nothing: after an infix operator that is taken, or after the `,`
    /// that passes to a compound's next argument.
    pub closed spec fn operator_continues(&self) -> Option<int> {
        let s = self.bytes_view();
        let has_pending = self.pending@.len() > self.last_frame().operator_base;
        let prev = self.pending@.last();
        match spec_scan_trivia(s, self.offset as int) {
            Ok(j) => match (self.ops_view(), spec_scan_ident(s, j)) {
                (Some(c), Some(e)) if operator_at(s, j, c, false) => {
                    let d = operator_def(c, s.subrange(j, e), false);
                    if has_pending && (prev.precedence < d.precedence || (prev.precedence == d.precedence
                        && d.class is Yfx)) {
                        None
                    } else if has_pending && prev.precedence == d.precedence && prev.class is Xfx && d.class is Xfx {
                        None
                    } else {
                        Some(e)
                    }
                },
                _ => if !has_pending && self.last_frame().kind is Arguments && j < s.len() && s[j] == 0x2c {
                    Some(j + 1)
                } else {
                    None
                },
            },
            Err(_) => None,
        }
    }

    /// Whether the next call reads an operand: inside a fact where an operand
    /// is due; between facts with only white space and comments before the
    /// next fact; or after an operand, when an infix operator is taken or a
    /// `,` passes to the next argument.
    pub closed spec fn reads_operand(&self) -> bool {
        ||| self.state is Operand
        ||| (self.state is AwaitingFact && spec_scan_trivia(self.bytes_view(), self.offset as int) is Ok)
        ||| (self.state is Operator && self.operator_continues() is Some)
    }

    /// Where the step that ends the next call's run of operand steps starts,
    /// and whether it reads at the root of a fact without operators.
    pub closed spec fn run_end(&self) -> (int, bool) {
        let s = self.bytes_view();
        if self.state is AwaitingFact {
            match spec_scan_trivia(s, self.offset as int) {
                Ok(j) => operand_run(s, j, self.operators is None, self.ops_view(), self.terminator),
                Err(_) => (self.offset as int, false),
            }
        } else if self.state is Operator {
            match self.operator_continues() {
                Some(k) => operand_run(s, k, false, self.ops_view(), self.terminator),
                None => (self.offset as int, false),
            }
        } else {
            operand_run(
                s,
                self.offset as int,
                self.operators is None && self.frames@.len() == 1,
                self.ops_view(),
                self.terminator,
            )
        }
    }

    /// The error, if any, of the next call: when it reads an operand first,
    /// that of the step that ends its run of operand steps (prefix
    /// operators, groups and functors are passed over); between facts
    /// otherwise, that of the white space and comments; else that of the
    /// first step.
    pub closed spec fn next_error(&self) -> Option<TermError> {
        if self.reads_operand() {
            let (k, pr) = self.run_end();
            run_error(self.bytes_view(), k, pr, self.ops_view(), self.terminator)
        } else if self.state is AwaitingFact {
            match spec_scan_trivia(self.bytes_view(), self.offset as int) {
                Err((e, _)) => Some(e),
                Ok(_) => None,
            }
        } else {
            self.step_error()
        }
    }

    /// Where the parser stops when the next call fails in the step that ends
    /// its run of operand steps.
    pub closed spec fn next_error_offset(&self) -> Option<int> {
        if self.reads_operand() {
            let (k, pr) = self.run_end();
            run_error_offset(self.bytes_view(), k, pr, self.ops_view(), self.terminator)
        } else {
            None
        }
    }

    /// Where the step that ends the next call's run of operand steps reads
    /// its operand, when the call reads one.
    pub closed spec fn next_read_offset(&self) -> Option<int> {
        if self.reads_operand() {
            let (k, _) = self.run_end();
            match spec_scan_trivia(self.bytes_view(), k) {
                Ok(j) => Some(j),
                Err(_) => None,
            }
        } else {
            None
        }
    }

    /// Whether the step of the next call that may give an event gives one
    /// when it succeeds: the one that ends the run of operand steps, or else
    /// the first.
    pub closed spec fn next_yields(&self) -> bool {
        if self.reads_operand() {
            let (k, pr) = self.run_end();
            run_yields(self.bytes_view(), k, pr, self.ops_view(), self.terminator)
        } else if self.state is AwaitingFact {
            false
        } else {
            self.step_yields()
        }
    }

    /// Whether `ev` is the event a step after an operand gives, the next byte
    /// being at `i`: the compound of the pending operator reduced (of one
    /// argument when it is a prefix operator, else two), the end of the fact,
    /// or the compound of the functor whose arguments close.
    spec fn operator_event(&self, i: int, ev: ParseTerm<'a>) -> bool {
        let s = self.bytes_view();
        let has_pending = self.pending@.len() > self.last_frame().operator_base;
        let prev = self.pending@.last();
        let reduced = ParseTerm::Compound(prev.atom, if prev.class.spec_is_prefix() { 1 } else { 2 });
        match (self.ops_view(), spec_scan_ident(s, i)) {
            (Some(c), Some(e)) if operator_at(s, i, c, false) => ev == reduced,
            _ => if has_pending {
                ev == reduced
            } else {
                match self.last_frame().kind {
                    FrameKind::Root { .. } => ev == ParseTerm::<'a>::FactEnd,
                    FrameKind::Group => false,
                    FrameKind::Arguments { functor, argument_count } => ev == ParseTerm::Compound(
                        functor,
                        (argument_count + 1) as usize,
                    ),
                }
            },
        }
    }

    /// Whether `ev` is the event the next step gives, when it gives one.
    pub closed spec fn step_event(&self, ev: ParseTerm<'a>) -> bool {
        let s = self.bytes_view();
        match spec_scan_trivia(s, self.offset as int) {
            Ok(j) => match self.state {
                TermParserState::Operand => operand_event(s, j, self.operators is None && self.frames@.len() == 1, ev),
                TermParserState::Operator => self.operator_event(j, ev),
                _ => false,
            },
            Err(_) => false,
        }
    }

    /// Whether `ev` is the event the next call gives, when that step gives
    /// one: the operand read by the step that ends the run of operand steps,
    /// or else the event of the first step.
    pub closed spec fn next_event(&self, ev: ParseTerm<'a>) -> bool {
        if self.reads_operand() {
            let (k, pr) = self.run_end();
            run_event(self.bytes_view(), k, pr, ev)
        } else {
            self.step_event(ev)
        }
    }

    /// Whether the next step gives an event when it succeeds.
    pub closed spec fn step_yields(&self) -> bool {
        let s = self.bytes_view();
        match spec_scan_trivia(s, self.offset as int) {
            Ok(j) => match self.state {
                TermParserState::Operand => operand_yields(
                    s,
                    j,
                    self.operators is None && self.frames@.len() == 1,
                    self.ops_view(),
                    self.terminator,
                ),
                TermParserState::Operator => self.operator_yields(j),
                _ => false,
            },
            Err(_) => false,
        }
    }

    /// The error, if any, of a step after an operand, with the next byte
    /// (after white space and comments) at `i`. An infix operator there
    /// first reduces a pending operator that binds tighter (or as tight, when
    /// the new one is `yfx`), is refused after an `xfx` one of its own
    /// precedence when it is `xfx` too, and is otherwise taken. Without an
    /// infix operator, a pending operator is reduced, or else the frame closes.
    spec fn operator_step_error(&self, i: int) -> Option<TermError> {
        let s = self.bytes_view();
        let has_pending = self.pending@.len() > self.last_frame().operator_base;
        let prev = self.pending@.last();
        match (self.ops_view(), spec_scan_ident(s, i)) {
            (Some(c), Some(e)) if operator_at(s, i, c, false) => {
                let d = operator_def(c, s.subrange(i, e), false);
                if has_pending && (prev.precedence < d.precedence || (prev.precedence == d.precedence
                    && d.class is Yfx)) {
                    self.reduce_error()
                } else if has_pending && prev.precedence == d.precedence && prev.class is Xfx && d.class is Xfx {
                    Some(TermError::UnexpectedCharacter)
                } else {
                    None
                }
            },
            _ => if has_pending {
                self.reduce_error()
            } else {
                self.close_error(i)
            },
        }
    }

    /// The error, if any, that the scanning rules give for the next step:
    /// skipping white space and comments, then opening a fact, reading an
    /// operand, or what follows an operand (a pending operator reduced, an
    /// infix one taken, or the frame closed).
    pub closed spec fn step_error(&self) -> Option<TermError> {
        let s = self.bytes_view();
        match spec_scan_trivia(s, self.offset as int) {
            Err((e, _)) => Some(e),
            Ok(j) => match self.state {
                TermParserState::AwaitingFact => None,
                TermParserState::Operand => operand_error(
                    s,
                    j,
                    self.operators is None && self.frames@.len() == 1,
                    self.ops_view(),
                    self.terminator,
                ),
                TermParserState::Operator => self.operator_step_error(j),
                _ => Some(TermError::UnexpectedEndOfFile),
            },
        }
    }

    /// After an operand: an infix operator (which may first reduce the
    /// pending one of higher or equal binding), the reduction of pending
    /// operators, or the end of the frame: the end of the fact, a closing
    /// parenthesis, or the next argument of a compound.
    fn step_operator(&mut self) -> (r: StepResult<'a>)
        requires
            old(self).wf(),
            old(self).state is Operator,
        ensures
            Self::step_post(*old(self), *final(self), r),
            r matches Ok(Some(ev)) ==> !(ev is Atom || ev is Number),
            r matches Ok(Some(ParseTerm::FactEnd)) ==> fact_ended_at(
                final(self).bytes_view(),
                final(self).offset as int,
                final(self).state is Done,
                final(self).terminator,
            ),
            r is Err <==> old(self).operator_step_error(old(self).offset as int) is Some,
            r matches Err(e) ==> old(self).operator_step_error(old(self).offset as int) == Some(e),
            Self::operator_step(*old(self), *final(self), r),
            r is Ok ==> (r matches Ok(Some(_)) <==> old(self).operator_yields(old(self).offset as int)),
            r matches Ok(Some(ev)) ==> old(self).operator_event(old(self).offset as int, ev),
    {
        let ghost before = *self;
        if let Some(operator) = self.find_operator(false) {
            if self.last_frame_has_operators() {
                let previous = self.pending[self.pending.len() - 1];
                if previous.precedence < operator.precedence || (previous.precedence
                    == operator.precedence && operator.class == OperatorClass::Yfx) {
                    return self.reduce_operator();
                }
                if previous.precedence == operator.precedence && previous.class == OperatorClass::Xfx
                    && operator.class == OperatorClass::Xfx {
                    self.offset = operator.offset;
                    return Err(TermError::UnexpectedCharacter);
                }
            }
            self.offset = operator.end;
            self.pending.push(operator);
            self.state = TermParserState::Operand;
            proof {
                self.lemma_push_infix_keeps_frames(before);
                assert(self.pending@.drop_last() =~= before.pending@);
                assert(self.pending@.last() == operator);
            }
            return Ok(None);
        }
        if self.last_frame_has_operators() {
            return self.reduce_operator();
        }
        let operand = self.operands.pop().unwrap();
        let last_index = self.frames.len() - 1;
        let last = self.frames[last_index];
        match last.kind {
            FrameKind::Root { start } => {
                if operand.is_number {
                    self.offset = start;
                    return Err(TermError::UnexpectedCharacter);
                }
                match self.peek() {
                    Some(b) => {
                        if b == self.terminator {
                            self.state = TermParserState::Done;
                        } else if b == 0x3b {
                            self.state = TermParserState::AwaitingFact;
                        } else {
                            return Err(TermError::UnexpectedCharacter);
                        }
                    },
                    None => {
                        return Err(TermError::UnexpectedEndOfFile);
                    },
                }
                self.offset = self.offset + 1;
                proof {
                    self.lemma_root_close(before);
                }
                self.frames.clear();
                self.operands.clear();
                self.pending.clear();
                proof {
                    assert(sum_args(self.frames@) == 0);
                }
                Ok(Some(ParseTerm::FactEnd))
            },
            FrameKind::Group => {
                match self.peek() {
                    Some(b) => {
                        if b == 0x29 {
                            self.offset = self.offset + 1;
                        } else {
                            return Err(TermError::UnexpectedCharacter);
                        }
                    },
                    None => {
                        return Err(TermError::UnexpectedEndOfFile);
                    },
                }
                proof {
                    self.lemma_inner_close(before);
                }
                self.frames.pop();
                self.operands.push(Operand { precedence: 0, is_number: operand.is_number });
                proof {
                    self.lemma_group_closed(before);
                }
                Ok(None)
            },
            FrameKind::Arguments { functor, argument_count } => {
                proof {
                    assert(frame_args(before.frames@[last_index as int]) <= before.offset);
                }
                match self.peek() {
                    Some(b) => {
                        if b == 0x2c {
                            self.offset = self.offset + 1;
                            self.frames.set(
                                last_index,
                                Frame {
                                    kind: FrameKind::Arguments {
                                        functor,
                                        argument_count: argument_count + 1,
                                    },
                                    operand_base: last.operand_base,
                                    operator_base: last.operator_base,
                                },
                            );
                            self.state = TermParserState::Operand;
                            proof {
                                self.lemma_next_argument(before);
                            }
                            Ok(None)
                        } else if b == 0x29 {
                            self.offset = self.offset + 1;
                            proof {
                                self.lemma_inner_close(before);
                            }
                            self.frames.pop();
                            proof {
                                self.lemma_arguments_closed(before);
                            }
                            self.finish_parsing_operand(false);
                            proof {
                                self.lemma_compound_done(before);
                            }
                            Ok(Some(ParseTerm::Compound(functor, argument_count + 1)))
                        } else {
                            Err(TermError::UnexpectedCharacter)
                        }
                    },
                    None => Err(TermError::UnexpectedEndOfFile),
                }
            },
        }
    }
}


impl<'a> TermParser<'a> {
    proof fn lemma_push_infix_keeps_frames(&self, before: Self)
        requires
            self.operators is Some,
            before.wf(),
            before.state is Operator,
            self.same_setup(&before),
            self.state is Operand,
            self.frames == before.frames,
            self.operands == before.operands,
            self.pending@ == before.pending@.push(self.pending@.last()),
            !self.pending@.last().class.spec_is_prefix(),
            valid_precedence(self.pending@.last().precedence),
            self.pending_defined(self.pending@.last()),
            written_in(self.pending@.last().atom, self.bytes_view()),
            self.pending@.last().offset == before.offset,
            before.offset < self.offset <= self.bytes_view().len(),
        ensures
            self.wf(),
            self.pending_terms() == before.pending_terms(),
            self.measure() < before.measure(),
    {
        let n = self.frames@.len();
        let last = self.frames@[n - 1];
        assert forall|k: int|
            #![trigger self.frames@[k + 1]]
            0 <= k && k + 1 < n implies {
                let a = self.frames@[k];
                let b = self.frames@[k + 1];
                &&& b.operand_base - a.operand_base == count_infix(
                    self.pending@.subrange(a.operator_base as int, b.operator_base as int),
                )
            } by {
            let a = self.frames@[k];
            let b = self.frames@[k + 1];
            assert(b.operator_base <= before.pending@.len());
            assert(self.pending@.subrange(a.operator_base as int, b.operator_base as int)
                =~= before.pending@.subrange(a.operator_base as int, b.operator_base as int));
        }
        assert forall|k: int| 0 <= k < n implies frame_args(#[trigger] self.frames@[k])
            <= self.offset by {
            assert(frame_args(before.frames@[k]) <= before.offset);
        }
        assert forall|i: int| 0 <= i < self.pending@.len() implies valid_precedence(
            (#[trigger] self.pending@[i]).precedence,
        ) && self.pending@[i].offset <= self.bytes_view().len() && written_in(
            self.pending@[i].atom,
            self.bytes_view(),
        ) by {
            if i < before.pending@.len() {
                assert(self.pending@[i] == before.pending@[i]);
            }
        }
        assert forall|k: int| 0 <= k < n implies functor_written(#[trigger] self.frames@[k], self.bytes_view()) by {
            assert(functor_written(before.frames@[k], before.bytes_view()));
        }
        let old_ops = before.pending@.subrange(last.operator_base as int, before.pending@.len() as int);
        assert(self.pending@.subrange(last.operator_base as int, self.pending@.len() as int)
            =~= old_ops.push(self.pending@.last()));
        lemma_count_infix_push(old_ops, self.pending@.last());
    }

    /// The root frame, with no pending operator, holds the fact's one term.
    proof fn lemma_root_close(&self, before: Self)
        requires
            before.wf(),
            before.state is Operator,
            before.pending@.len() == before.last_frame().operator_base,
            before.last_frame().kind is Root,
        ensures
            before.pending_terms() == 1,
            before.frames@.len() == 1,
    {
        let n = before.frames@.len();
        if n > 1 {
            assert(before.frames@[n - 1].kind !is Root);
        }
        assert(before.pending@.subrange(0, before.pending@.len() as int) =~= Seq::<
            PendingOperator<'a>,
        >::empty());
        assert(before.frames@ =~= Seq::<Frame<'a>>::empty().push(before.frames@[0]));
        lemma_sum_args_push(Seq::<Frame<'a>>::empty(), before.frames@[0]);
    }

    /// An inner frame with no pending operator holds exactly one operand.
    proof fn lemma_inner_close(&self, before: Self)
        requires
            before.wf(),
            before.state is Operator,
            before.pending@.len() == before.last_frame().operator_base,
            before.last_frame().kind !is Root,
        ensures
            before.frames@.len() >= 2,
            before.operands@.len() == before.last_frame().operand_base + 1,
    {
        let n = before.frames@.len();
        if n == 1 {
            assert(before.frames@[0].kind is Root);
        }
        assert(before.pending@.subrange(
            before.last_frame().operator_base as int,
            before.pending@.len() as int,
        ) =~= Seq::<PendingOperator<'a>>::empty());
    }

    /// After popping an inner frame, its parent's counts line up again.
    proof fn lemma_parent_restored(&self, before: Self)
        requires
            before.wf(),
            before.state is Operator,
            before.frames@.len() >= 2,
            before.pending@.len() == before.last_frame().operator_base,
            self.frames@ == before.frames@.drop_last(),
            self.pending == before.pending,
            self.same_setup(&before),
            before.offset <= self.offset <= self.bytes_view().len(),
            before.last_frame().operand_base <= self.operands@.len(),
            forall|i: int|
                0 <= i < before.last_frame().operand_base ==> self.operands@[i]
                    == before.operands@[i],
        ensures
            self.frames_wf(),
            self.last_operands() == self.operands@.len() - before.last_frame().operand_base
                + self.last_infix(),
            sum_args(self.frames@) == sum_args(before.frames@) - frame_args(before.last_frame()),
    {
        let n = before.frames@.len();
        let m = self.frames@.len();
        assert(m == n - 1);
        assert forall|k: int| 0 < k < m implies (#[trigger] self.frames@[k]).kind !is Root by {
            assert(self.frames@[k] == before.frames@[k]);
        }
        assert forall|k: int| 0 <= k < m implies (#[trigger] self.frames@[k]).operand_base
            <= self.operands@.len() && self.frames@[k].operator_base <= self.pending@.len() by {
            assert(self.frames@[k] == before.frames@[k]);
            assert(before.frames@[k].operand_base <= before.frames@[n - 1].operand_base);
        }
        assert forall|k: int, j: int| 0 <= k <= j < m implies (
        #[trigger] self.frames@[k]).operand_base <= (#[trigger] self.frames@[j]).operand_base
            && self.frames@[k].operator_base <= self.frames@[j].operator_base by {
            assert(self.frames@[k] == before.frames@[k]);
            assert(self.frames@[j] == before.frames@[j]);
        }
        assert forall|k: int|
            #![trigger self.frames@[k + 1]]
            0 <= k && k + 1 < m implies {
                let a = self.frames@[k];
                let b = self.frames@[k + 1];
                &&& b.operand_base - a.operand_base == count_infix(
                    self.pending@.subrange(a.operator_base as int, b.operator_base as int),
                )
            } by {
            assert(self.frames@[k] == before.frames@[k]);
            assert(self.frames@[k + 1] == before.frames@[k + 1]);
        }
        assert forall|k: int| 0 <= k < m implies frame_args(#[trigger] self.frames@[k])
            <= self.offset by {
            assert(self.frames@[k] == before.frames@[k]);
            assert(frame_args(before.frames@[k]) <= before.offset);
        }
        assert(self.frames@[0] == before.frames@[0]);
        let p = before.frames@[n - 2];
        assert(self.last_frame() == p);
        let l = before.frames@[n - 1];
        assert(before.frames@[(n - 2) + 1] == l);
        assert(l.operand_base - p.operand_base == count_infix(
            before.pending@.subrange(p.operator_base as int, l.operator_base as int),
        ));
    }

    proof fn lemma_group_closed(&self, before: Self)
        requires
            before.wf(),
            before.state is Operator,
            before.frames@.len() >= 2,
            before.pending@.len() == before.last_frame().operator_base,
            before.last_frame().kind is Group,
            before.operands@.len() == before.last_frame().operand_base + 1,
            self.frames@ == before.frames@.drop_last(),
            self.pending == before.pending,
            self.operands@ == before.operands@.drop_last().push(self.operands@.last()),
            self.operands@.len() > 0,
            self.same_setup(&before),
            self.state is Operator,
            self.offset == before.offset + 1,
            self.offset <= self.bytes_view().len(),
        ensures
            self.wf(),
            self.pending_terms() == before.pending_terms(),
            self.measure() < before.measure(),
            !self.is_finished(),
    {
        self.lemma_parent_restored(before);
    }

    proof fn lemma_next_argument(&self, before: Self)
        requires
            before.wf(),
            before.state is Operator,
            before.pending@.len() == before.last_frame().operator_base,
            before.last_frame().kind is Arguments,
            before.operands@.len() == before.last_frame().operand_base + 1,
            self.frames@.len() == before.frames@.len(),
            forall|k: int|
                0 <= k < before.frames@.len() - 1 ==> #[trigger] self.frames@[k]
                    == before.frames@[k],
            self.last_frame().kind is Arguments,
            self.last_frame().operand_base == before.last_frame().operand_base,
            self.last_frame().operator_base == before.last_frame().operator_base,
            frame_args(self.last_frame()) == frame_args(before.last_frame()) + 1,
            self.pending == before.pending,
            self.operands@ == before.operands@.drop_last(),
            self.same_setup(&before),
            self.state is Operand,
            self.offset == before.offset + 1,
            self.offset <= self.bytes_view().len(),
            functor_written(self.last_frame(), self.bytes_view()),
        ensures
            self.wf(),
            self.pending_terms() == before.pending_terms(),
            self.measure() < before.measure(),
            !self.is_finished(),
    {
        let n = self.frames@.len();
        assert(self.frames@.drop_last() =~= before.frames@.drop_last());
        assert forall|k: int| 0 <= k < n implies functor_written(#[trigger] self.frames@[k], self.bytes_view()) by {
            if k < n - 1 {
                assert(functor_written(before.frames@[k], before.bytes_view()));
            }
        }
        if n > 1 {
            assert(self.frames@[0] == before.frames@[0]);
        } else {
            assert(before.frames@[0].kind is Root);
        }
        assert forall|k: int| 0 < k < n implies (#[trigger] self.frames@[k]).kind !is Root by {
            if k < n - 1 {
                assert(self.frames@[k] == before.frames@[k]);
            }
        }
        assert forall|k: int| 0 <= k < n implies (#[trigger] self.frames@[k]).operand_base
            <= self.operands@.len() && self.frames@[k].operator_base <= self.pending@.len() by {
            if k < n - 1 {
                assert(self.frames@[k] == before.frames@[k]);
                assert(before.frames@[k].operand_base <= before.frames@[n - 1].operand_base);
            }
        }
        assert forall|k: int, j: int| 0 <= k <= j < n implies (
        #[trigger] self.frames@[k]).operand_base <= (#[trigger] self.frames@[j]).operand_base
            && self.frames@[k].operator_base <= self.frames@[j].operator_base by {
            assert(before.frames@[k].operand_base <= before.frames@[j].operand_base);
            if k < n - 1 {
                assert(self.frames@[k] == before.frames@[k]);
            }
            if j < n - 1 {
                assert(self.frames@[j] == before.frames@[j]);
            }
        }
        assert forall|k: int|
            #![trigger self.frames@[k + 1]]
            0 <= k && k + 1 < n implies {
                let a = self.frames@[k];
                let b = self.frames@[k + 1];
                &&& b.operand_base - a.operand_base == count_infix(
                    self.pending@.subrange(a.operator_base as int, b.operator_base as int),
                )
            } by {
            assert(self.frames@[k] == before.frames@[k]);
            assert(before.frames@[k + 1].operand_base == self.frames@[k + 1].operand_base);
            assert(before.frames@[k + 1].operator_base == self.frames@[k + 1].operator_base);
        }
        assert forall|k: int| 0 <= k < n implies frame_args(#[trigger] self.frames@[k])
            <= self.offset by {
            assert(frame_args(before.frames@[k]) <= before.offset);
            if k < n - 1 {
                assert(self.frames@[k] == before.frames@[k]);
            }
        }
        assert(self.pending@.subrange(
            self.last_frame().operator_base as int,
            self.pending@.len() as int,
        ) =~= Seq::<PendingOperator<'a>>::empty());
    }

    proof fn lemma_arguments_closed(&self, before: Self)
        requires
            before.wf(),
            before.state is Operator,
            before.frames@.len() >= 2,
            before.pending@.len() == before.last_frame().operator_base,
            before.last_frame().kind is Arguments,
            before.operands@.len() == before.last_frame().operand_base + 1,
            self.frames@ == before.frames@.drop_last(),
            self.pending == before.pending,
            self.operands@ == before.operands@.drop_last(),
            self.same_setup(&before),
            self.offset == before.offset + 1,
            self.offset <= self.bytes_view().len(),
        ensures
            self.frames_wf(),
            self.last_operands() == self.last_infix(),
            sum_args(self.frames@) == sum_args(before.frames@) - frame_args(before.last_frame()),
    {
        self.lemma_parent_restored(before);
    }

    proof fn lemma_compound_done(&self, before: Self)
        requires
            before.wf(),
            before.state is Operator,
            before.last_frame().kind is Arguments,
            before.operands@.len() == before.last_frame().operand_base + 1,
            self.frames_wf(),
            self.last_operands() == self.last_infix() + 1,
            self.state is Operator,
            self.pending == before.pending,
            self.operands@.len() == before.operands@.len(),
            sum_args(self.frames@) == sum_args(before.frames@) - frame_args(before.last_frame()),
            self.same_setup(&before),
            self.offset == before.offset + 1,
            self.offset <= self.bytes_view().len(),
            self.frames@ == before.frames@.drop_last(),
        ensures
            self.wf(),
            event_effect(
                ParseTerm::Compound(before.last_frame().kind->functor, (frame_args(before.last_frame()) + 1) as usize),
                before.pending_terms(),
                self.pending_terms(),
            ),
    {
        assert forall|k: int| 0 <= k < self.frames@.len() implies frame_args(
            #[trigger] self.frames@[k],
        ) <= self.offset by {
            assert(frame_args(before.frames@[k]) <= before.offset);
        }
        assert(before.frames@.drop_last().push(before.last_frame()) =~= before.frames@);
        lemma_sum_args_push(before.frames@.drop_last(), before.last_frame());
        lemma_sum_args_nonneg(before.frames@.drop_last());
    }
}


impl<'a> TermParser<'a> {
    fn step<F: Fn(&'a str) -> Option<u32>>(&mut self, parse_real: &F) -> (r: StepResult<'a>)
        requires
            old(self).wf(),
            !old(self).is_finished(),
            forall|text: &'a str| #[trigger] parse_real.requires((text,)),
        ensures
            r matches Ok(Some(ev)) ==> real_event_read(ev, parse_real, final(self).bytes_view()),
            Self::step_post(*old(self), *final(self), r),
            r matches Ok(Some(ev)) ==> read_between(
                ev,
                final(self).bytes_view(),
                old(self).offset as int,
                final(self).offset as int,
            ),
            r matches Ok(Some(ParseTerm::FactEnd)) ==> fact_ended_at(
                final(self).bytes_view(),
                final(self).offset as int,
                final(self).state is Done,
                final(self).terminator,
            ),
            old(self).step_error() matches Some(e) ==> r == Err::<Option<ParseTerm<'a>>, TermError>(e),
            old(self).step_error() is None ==> r is Ok || (r == Err::<Option<ParseTerm<'a>>, TermError>(
                TermError::InvalidReal,
            ) && old(self).state is Operand && (spec_scan_trivia(old(self).bytes_view(), old(self).offset as int) matches Ok(
                j,
            ) && real_refused_here(parse_real, old(self).bytes_view(), j))),
            r is Ok ==> (r matches Ok(Some(_)) <==> old(self).step_yields()),
            r matches Ok(Some(ev)) ==> old(self).step_event(ev),
            old(self).state is AwaitingFact && spec_scan_trivia(old(self).bytes_view(), old(self).offset as int) is Ok
                ==> r == Ok::<Option<ParseTerm<'a>>, TermError>(None),
            old(self).state is Operator ==> (old(self).operator_continues() matches Some(k) ==> {
                &&& r == Ok::<Option<ParseTerm<'a>>, TermError>(None)
                &&& final(self).state is Operand
                &&& final(self).offset == k
                &&& !(final(self).operators is None && final(self).frames@.len() == 1)
            }),
            old(self).state is Operand ==> (spec_scan_trivia(old(self).bytes_view(), old(self).offset as int) matches Ok(
                j,
            ) ==> {
                &&& operand_quiet(
                    old(self).bytes_view(),
                    j,
                    old(self).operators is None && old(self).frames@.len() == 1,
                    old(self).ops_view(),
                    old(self).terminator,
                ) ==> r == Ok::<Option<ParseTerm<'a>>, TermError>(None)
                &&& r == Ok::<Option<ParseTerm<'a>>, TermError>(None) ==> {
                    &&& final(self).offset == operand_skip(
                        old(self).bytes_view(),
                        j,
                        old(self).ops_view(),
                        old(self).terminator,
                    )
                    &&& j < final(self).offset
                    &&& final(self).state is Operand
                    &&& !(final(self).operators is None && final(self).frames@.len() == 1)
                }
                &&& r is Err ==> final(self).offset == operand_error_offset(
                    old(self).bytes_view(),
                    j,
                    old(self).operators is None && old(self).frames@.len() == 1,
                    old(self).ops_view(),
                    old(self).terminator,
                )
            }),
            old(self).state is AwaitingFact && r is Ok ==> {
                &&& final(self).state is Operand
                &&& final(self).frames@.len() == 1
                &&& spec_scan_trivia(old(self).bytes_view(), old(self).offset as int) == Ok::<int, (TermError, int)>(
                    final(self).offset as int,
                )
            },
    {
        let ghost before = *self;
        match self.state {
            TermParserState::AwaitingFact => {
                self.skip_trivia()?;
                proof {
                    assert(self.wf());
                }
                self.begin_parsing_operand()
            },
            TermParserState::Operand => {
                self.skip_trivia()?;
                proof {
                    self.lemma_trivia_keeps(before);
                }
                let ghost mid = self.offset;
                let r = self.step_operand(parse_real);
                proof {
                    if let Ok(Some(ev)) = r {
                        lemma_read_between_widens(
                            ev,
                            self.bytes_view(),
                            mid as int,
                            self.offset as int,
                            before.offset as int,
                            self.offset as int,
                        );
                    }
                }
                r
            },
            TermParserState::Operator => {
                self.skip_trivia()?;
                proof {
                    self.lemma_trivia_keeps(before);
                }
                self.step_operator()
            },
            _ => Err(TermError::UnexpectedEndOfFile),
        }
    }

    proof fn lemma_trivia_keeps(&self, before: Self)
        requires
            before.wf(),
            before.state is Operand || before.state is Operator,
            self.same_setup(&before),
            self.frames == before.frames,
            self.operands == before.operands,
            self.pending == before.pending,
            self.state == before.state,
            before.offset <= self.offset <= self.bytes_view().len(),
        ensures
            self.wf(),
            self.measure() <= before.measure(),
            self.pending_terms() == before.pending_terms(),
    {
        assert forall|k: int| 0 <= k < self.frames@.len() implies frame_args(
            #[trigger] self.frames@[k],
        ) <= self.offset by {
            assert(frame_args(before.frames@[k]) <= before.offset);
        }
    }

    /// The next event, or the error that stops the parser, or `None` once the
    /// parser has stopped. Between facts the number of pending terms is zero;
    /// atoms and numbers add one, a compound of `n` arguments takes `n` of them
    /// and adds one, and the end of a fact takes the fact's single term. An
    /// atom or number is read from the part of the source that the call
    /// passes over, and a fact ends at `;`, or at the terminator, after which
    /// the parser is done. Where an operand is due, prefix operators, groups
    /// and functors are passed over, and the operand that follows is the
    /// answer; elsewhere the answer comes from the first step. The call fails
    /// exactly as `next_error` says, stopping where `next_error_offset` says,
    /// and when it gives an event that event is the one `next_event` names;
    /// a real literal is read with `parse_real`, and one without a finite
    /// value is refused where it stands, at the offset `next_read_offset`
    /// gives. Between facts, `lemma_next_between_facts` unfolds these in
    /// terms of the source alone.
    pub fn next<F: Fn(&'a str) -> Option<u32>>(&mut self, parse_real: &F) -> (r: Option<
        Result<ParseTerm<'a>, TermError>,
    >)
        requires
            old(self).wf(),
            forall|text: &'a str| #[trigger] parse_real.requires((text,)),
        ensures
            final(self).is_failed() ==> final(self).is_finished(),
            !old(self).is_finished() ==> (old(self).next_error() matches Some(e) ==> r == Some(
                Err::<ParseTerm<'a>, TermError>(e),
            )),
            !old(self).is_finished() && old(self).next_error() is None && old(self).next_yields() ==> (r matches Some(
                Ok(ev),
            ) ==> old(self).next_event(ev)),
            !old(self).is_finished() && old(self).next_error() is None && old(self).next_yields() ==> (r matches Some(
                Ok(_),
            ) || (r == Some(Err::<ParseTerm<'a>, TermError>(TermError::InvalidReal)) && (old(self).next_read_offset() matches Some(
                j,
            ) && real_refused_here(parse_real, old(self).spec_source().spec_bytes(), j)))),
            !old(self).is_finished() && r is Some && r->Some_0 is Err ==> (old(self).next_error_offset() matches Some(
                o,
            ) ==> final(self).spec_offset() == o),
            r matches Some(Ok(ev)) ==> real_event_read(ev, parse_real, final(self).spec_source().spec_bytes()),
            final(self).wf(),
            final(self).spec_source() == old(self).spec_source(),
            final(self).spec_terminator() == old(self).spec_terminator(),
            final(self).uses_operators() == old(self).uses_operators(),
            final(self).spec_offset() <= final(self).spec_source().spec_bytes().len(),
            old(self).is_finished() ==> r is None && *final(self) == *old(self),
            final(self).is_finished() ==> final(self).is_done() || final(self).is_failed(),
            r is None <==> old(self).is_finished(),
            r matches Some(Err(_)) ==> final(self).is_failed(),
            r matches Some(Ok(ev)) ==> {
                &&& old(self).spec_offset() <= final(self).spec_offset()
                &&& (final(self).spec_offset() > old(self).spec_offset()
                    || final(self).pending_operators() < old(self).pending_operators())
                &&& event_effect(ev, old(self).pending_terms(), final(self).pending_terms())
                &&& !final(self).is_failed()
                &&& (ev is FactEnd <==> final(self).is_between_facts())
                &&& (ev is Compound ==> ev->Compound_1 >= 1)
                &&& event_written(ev, final(self).spec_source().spec_bytes())
                &&& read_between(
                    ev,
                    final(self).spec_source().spec_bytes(),
                    old(self).spec_offset() as int,
                    final(self).spec_offset() as int,
                )
                &&& (ev is FactEnd ==> fact_ended_at(
                    final(self).spec_source().spec_bytes(),
                    final(self).spec_offset() as int,
                    final(self).is_done(),
                    final(self).spec_terminator(),
                ))
            },
            final(self).is_between_facts() ==> final(self).pending_terms() == 0,
            final(self).is_done() ==> final(self).is_between_facts(),
    {
        loop
            invariant
                self.wf(),
                self.same_setup(old(self)),
                self.pending_terms() == old(self).pending_terms(),
                old(self).offset <= self.offset,
                self.offset > old(self).offset || self.pending@.len() == old(self).pending@.len(),
                old(self).is_finished() ==> *self == *old(self),
                self.is_finished() ==> *self == *old(self),
                old(self).reads_operand() ==> *self == *old(self) || (self.state is Operand && self.run_end()
                    == old(self).run_end()),
                !old(self).reads_operand() && (old(self).step_error() is Some || old(self).step_yields()) ==> *self
                    == *old(self),
                forall|text: &'a str| #[trigger] parse_real.requires((text,)),
            decreases self.measure(),
        {
            proof {
                self.lemma_between_facts_empty();
            }
            if self.is_done_or_failed() {
                return None;
            }
            let ghost at = self.offset;
            let ghost before = *self;
            proof {
                self.lemma_run_here(*old(self));
            }
            match self.step(parse_real) {
                Ok(Some(event)) => {
                    proof {
                        self.lemma_between_facts_empty();
                        lemma_read_between_widens(
                            event,
                            self.bytes_view(),
                            at as int,
                            self.offset as int,
                            old(self).offset as int,
                            self.offset as int,
                        );
                    }
                    return Some(Ok(event));
                },
                Ok(None) => {
                    proof {
                        Self::lemma_run_moves(before, *self, *old(self));
                    }
                },
                Err(error) => {
                    self.state = TermParserState::Failed;
                    return Some(Err(error));
                },
            }
        }
    }

    /// When the step about to be taken within a call ends its run of
    /// operand steps, or is the call's first, the call's error, event and
    /// error offset are those of this step.
    proof fn lemma_run_here(&self, start: Self)
        requires
            self.wf(),
            !self.is_finished(),
            start.reads_operand() ==> *self == start || (self.state is Operand && self.run_end() == start.run_end()),
            !start.reads_operand() && (start.step_error() is Some || start.step_yields()) ==> *self == start,
            self.same_setup(&start),
        ensures
            start.reads_operand() && self.state is Operand && !(spec_scan_trivia(self.bytes_view(), self.offset as int) matches Ok(j)
                && operand_quiet(
                self.bytes_view(),
                j,
                self.operators is None && self.frames@.len() == 1,
                self.ops_view(),
                self.terminator,
            )) ==> {
                &&& start.next_error() == self.step_error()
                &&& start.next_yields() == self.step_yields()
                &&& forall|ev: ParseTerm<'a>| #[trigger] start.next_event(ev) == self.step_event(ev)
                &&& start.next_read_offset() == (match spec_scan_trivia(self.bytes_view(), self.offset as int) {
                    Ok(j) => Some(j),
                    Err(_) => None::<int>,
                })
                &&& start.next_error_offset() == (match spec_scan_trivia(self.bytes_view(), self.offset as int) {
                    Ok(j) => Some(operand_error_offset(
                        self.bytes_view(),
                        j,
                        self.operators is None && self.frames@.len() == 1,
                        self.ops_view(),
                        self.terminator,
                    )),
                    Err(_) => None::<int>,
                })
            },
            !start.reads_operand() && *self == start ==> {
                &&& start.next_error() == self.step_error()
                &&& start.next_yields() == self.step_yields()
                &&& forall|ev: ParseTerm<'a>| #[trigger] start.next_event(ev) == self.step_event(ev)
            },
    {
        let s = self.bytes_view();
        let pr = self.operators is None && self.frames@.len() == 1;
        if start.reads_operand() && self.state is Operand && !(spec_scan_trivia(s, self.offset as int) matches Ok(j)
            && operand_quiet(s, j, pr, self.ops_view(), self.terminator)) {
            assert(self.run_end() == operand_run(s, self.offset as int, pr, self.ops_view(), self.terminator));
            assert(self.run_end() == (self.offset as int, pr));
        }
        if !start.reads_operand() && *self == start {
            if start.state is AwaitingFact {
                assert(spec_scan_trivia(s, self.offset as int) is Err);
            }
        }
    }

    /// A step that gives nothing keeps the run of the call that takes it.
    proof fn lemma_run_moves(before: Self, after: Self, start: Self)
        requires
            before.wf(),
            !before.is_finished(),
            start.reads_operand() ==> before == start || (before.state is Operand && before.run_end() == start.run_end()),
            !start.reads_operand() && (start.step_error() is Some || start.step_yields()) ==> before == start,
            before.step_error() is None,
            !before.step_yields(),
            before.state is AwaitingFact && spec_scan_trivia(before.bytes_view(), before.offset as int) is Ok ==> {
                &&& after.state is Operand
                &&& after.frames@.len() == 1
                &&& spec_scan_trivia(before.bytes_view(), before.offset as int) == Ok::<int, (TermError, int)>(
                    after.offset as int,
                )
            },
            before.state is Operand ==> (spec_scan_trivia(before.bytes_view(), before.offset as int) matches Ok(j) ==> {
                &&& after.offset == operand_skip(before.bytes_view(), j, before.ops_view(), before.terminator)
                &&& j < after.offset <= after.bytes_view().len()
                &&& after.state is Operand
                &&& !(after.operators is None && after.frames@.len() == 1)
            }),
            before.state is Operator ==> (before.operator_continues() matches Some(k) ==> {
                &&& after.state is Operand
                &&& after.offset == k
                &&& !(after.operators is None && after.frames@.len() == 1)
            }),
            after.same_setup(&before),
            after.offset <= after.bytes_view().len(),
        ensures
            start.reads_operand() ==> after == start || (after.state is Operand && after.run_end() == start.run_end()),
    {
        let s = before.bytes_view();
        if start.reads_operand() {
            if before.state is Operator {
                assert(before == start);
            } else if before.state is AwaitingFact {
                let j = spec_scan_trivia(s, before.offset as int)->Ok_0;
                lemma_scan_trivia_stays(s, before.offset as int);
                assert(after.run_end() == operand_run(s, j, before.operators is None, before.ops_view(), before.terminator));
            } else {
                let pr = before.operators is None && before.frames@.len() == 1;
                crate::parser::scan::lemma_scan_trivia(s, before.offset as int);
                let j = spec_scan_trivia(s, before.offset as int)->Ok_0;
                assert(operand_quiet(s, j, pr, before.ops_view(), before.terminator));
                assert(before.run_end() == operand_run(s, after.offset as int, false, before.ops_view(), before.terminator));
            }
        }
    }

    /// Between facts, the next call passes over the white space and comments
    /// and then reads the next fact's first operand: its error, event and
    /// error offset are those of the step that ends the run of operand steps
    /// from there.
    pub proof fn lemma_next_between_facts(&self)
        requires
            self.wf(),
            self.is_between_facts(),
            !self.is_done(),
        ensures
            spec_scan_trivia(self.spec_source().spec_bytes(), self.spec_offset() as int) matches Err((e, _)) ==> {
                &&& self.next_error() == Some(e)
                &&& !self.next_yields()
                &&& self.next_error_offset() is None
            },
            spec_scan_trivia(self.spec_source().spec_bytes(), self.spec_offset() as int) matches Ok(j) ==> {
                let s = self.spec_source().spec_bytes();
                let ops = self.operator_definitions();
                let (k, pr) = operand_run(s, j, !self.uses_operators(), ops, self.spec_terminator());
                &&& self.next_error() == run_error(s, k, pr, ops, self.spec_terminator())
                &&& self.next_yields() == run_yields(s, k, pr, ops, self.spec_terminator())
                &&& self.next_error_offset() == run_error_offset(s, k, pr, ops, self.spec_terminator())
                &&& self.next_read_offset() == (match spec_scan_trivia(s, k) {
                    Ok(j2) => Some(j2),
                    Err(_) => None::<int>,
                })
                &&& forall|ev: ParseTerm<'a>| #[trigger] self.next_event(ev) == run_event(s, k, pr, ev)
            },
    {
    }

    proof fn lemma_between_facts_empty(&self)
        requires
            self.wf(),
        ensures
            self.is_between_facts() ==> self.pending_terms() == 0,
    {
        if self.is_between_facts() {
            assert(self.frames@ =~= Seq::<Frame<'a>>::empty());
        }
    }

    fn is_done_or_failed(&self) -> (r: bool)
        ensures
            r == self.is_finished(),
    {
        match self.state {
            TermParserState::Done | TermParserState::Failed => true,
            _ => false,
        }
    }
}

} // verus!
