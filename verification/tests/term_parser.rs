use ilk::parser::operator::{OperatorClass, OperatorConfig, OperatorDefinition};
use ilk::parser::scan::TermError;
use ilk::parser::term::{ParseNumber, ParseTerm, TermParser};

/// The single-precision bits of a literal's finite value.
fn parse_real(text: &str) -> Option<u32> {
    text.parse::<f32>().ok().filter(|v| v.is_finite()).map(|v| v.to_bits())
}

/// The events of `source` as short strings, up to the first error.
fn events(source: &str, operators: Option<&OperatorConfig<'_>>) -> (Vec<String>, Option<TermError>) {
    let mut parser = TermParser::new(source, b'.', operators);
    let mut out = Vec::new();
    while let Some(event) = parser.next(&parse_real) {
        match event {
            Ok(ParseTerm::Atom(a)) => out.push(String::from_utf8(a.value()).unwrap()),
            Ok(ParseTerm::Number(ParseNumber::Integer(v))) => out.push(format!("#{}", v.value())),
            Ok(ParseTerm::Number(ParseNumber::Real(r))) => out.push(format!("~{}", r.text())),
            Ok(ParseTerm::Compound(a, n)) => {
                out.push(format!("{}/{}", String::from_utf8(a.value()).unwrap(), n))
            }
            Ok(ParseTerm::FactEnd) => out.push(".".to_string()),
            Err(e) => return (out, Some(e)),
        }
    }
    (out, None)
}

fn strs(v: &[&str]) -> Vec<String> {
    v.iter().map(|s| s.to_string()).collect()
}

#[test]
fn compound_events_come_after_their_arguments() {
    let (evs, err) = events("foo(bar, 1).", None);
    assert_eq!(err, None);
    assert_eq!(evs, strs(&["bar", "#1", "foo/2", "."]));
}

#[test]
fn nested_compounds_and_several_facts() {
    let (evs, err) = events("f(g(a), b); c.", None);
    assert_eq!(err, None);
    assert_eq!(evs, strs(&["a", "g/1", "b", "f/2", ".", "c", "."]));
}

#[test]
fn numbers_integer_and_real() {
    let (evs, err) = events("n(-12, 3.25, 1e3, 0).", None);
    assert_eq!(err, None);
    assert_eq!(evs, strs(&["#-12", "~3.25", "~1e3", "#0", "n/4", "."]));
}

#[test]
fn integer_out_of_range() {
    let (_, err) = events("n(2147483648).", None);
    assert_eq!(err, Some(TermError::InvalidInteger));
    let (evs, err) = events("n(-2147483648, 2147483647).", None);
    assert_eq!(err, None);
    assert_eq!(evs, strs(&["#-2147483648", "#2147483647", "n/2", "."]));
}

#[test]
fn a_number_alone_is_no_fact() {
    let (_, err) = events("12.", None);
    assert_eq!(err, Some(TermError::UnexpectedCharacter));
}

#[test]
fn exponent_needs_digits() {
    let (_, err) = events("n(1e).", None);
    assert_eq!(err, Some(TermError::InvalidReal));
}

#[test]
fn quoted_atoms_are_unescaped() {
    let (evs, err) = events("'it''s'; 'a\\nb'; 'tab\\tq\\'s'.", None);
    assert_eq!(err, None);
    assert_eq!(evs, strs(&["it's", ".", "a\nb", ".", "tab\tq's", "."]));
}

#[test]
fn unicode_escapes_in_quoted_atoms() {
    let (evs, err) = events("'\\u00e9\\U0001F600'.", None);
    assert_eq!(err, None);
    assert_eq!(evs, strs(&["é😀", "."]));
}

#[test]
fn invalid_escape_is_refused() {
    let (_, err) = events("'\\q'.", None);
    assert_eq!(err, Some(TermError::InvalidEscape));
}

#[test]
fn unterminated_quoted_atom() {
    let (_, err) = events("'abc", None);
    assert_eq!(err, Some(TermError::UnterminatedQuotedAtom));
}

#[test]
fn comments_are_skipped_and_must_end() {
    let (evs, err) = events("/* note */ a /* x */ .", None);
    assert_eq!(err, None);
    assert_eq!(evs, strs(&["a", "."]));
    let (_, err) = events("a /* open", None);
    assert_eq!(err, Some(TermError::UnterminatedComment));
}

#[test]
fn end_of_input_inside_a_fact() {
    let (_, err) = events("f(a", None);
    assert_eq!(err, Some(TermError::UnexpectedEndOfFile));
}

#[test]
fn unexpected_character() {
    let (_, err) = events("f(,).", None);
    assert_eq!(err, Some(TermError::UnexpectedCharacter));
}

#[test]
fn terminator_ends_the_facts() {
    let (evs, err) = events("a. b.", None);
    assert_eq!(err, None);
    assert_eq!(evs, strs(&["a", "."]));
}

#[test]
fn semicolons_separate_facts() {
    let (evs, err) = events("a; b(c).", None);
    assert_eq!(err, None);
    assert_eq!(evs, strs(&["a", ".", "c", "b/1", "."]));
}

#[test]
fn infix_operators_follow_precedence_and_associativity() {
    let defs = [
        OperatorDefinition { name: "+", precedence: 500, class: OperatorClass::Yfx },
        OperatorDefinition { name: "*", precedence: 400, class: OperatorClass::Yfx },
        OperatorDefinition { name: "^", precedence: 200, class: OperatorClass::Xfy },
    ];
    let config = OperatorConfig::new(&defs).unwrap();
    let (evs, err) = events("a + b * c.", Some(&config));
    assert_eq!(err, None);
    assert_eq!(evs, strs(&["a", "b", "c", "*/2", "+/2", "."]));
    let (evs, err) = events("a + b + c.", Some(&config));
    assert_eq!(err, None);
    assert_eq!(evs, strs(&["a", "b", "+/2", "c", "+/2", "."]));
    let (evs, err) = events("a ^ b ^ c.", Some(&config));
    assert_eq!(err, None);
    assert_eq!(evs, strs(&["a", "b", "c", "^/2", "^/2", "."]));
}

#[test]
fn prefix_operator() {
    let defs = [
        OperatorDefinition { name: "\\+", precedence: 900, class: OperatorClass::Fy },
        OperatorDefinition { name: "=", precedence: 700, class: OperatorClass::Xfx },
    ];
    let config = OperatorConfig::new(&defs).unwrap();
    let (evs, err) = events("\\+ a = b.", Some(&config));
    assert_eq!(err, None);
    assert_eq!(evs, strs(&["a", "b", "=/2", "\\+/1", "."]));
}

#[test]
fn parentheses_group_operands() {
    let defs = [
        OperatorDefinition { name: "+", precedence: 500, class: OperatorClass::Yfx },
        OperatorDefinition { name: "*", precedence: 400, class: OperatorClass::Yfx },
    ];
    let config = OperatorConfig::new(&defs).unwrap();
    let (evs, err) = events("(a + b) * c.", Some(&config));
    assert_eq!(err, None);
    assert_eq!(evs, strs(&["a", "b", "+/2", "c", "*/2", "."]));
}

#[test]
fn offset_reports_progress() {
    let mut parser = TermParser::new("abc.", b'.', None);
    assert_eq!(parser.offset(), 0);
    while parser.next(&parse_real).is_some() {}
    assert_eq!(parser.offset(), 4);
}

#[test]
fn atoms_are_read_where_the_parser_passes_and_facts_end_at_their_separator() {
    let source = "f( alpha , 'b c' ); gamma.";
    let mut parser = TermParser::new(source, b'.', None);
    let mut seen = Vec::new();
    let mut before = parser.offset();
    while let Some(event) = parser.next(&parse_real) {
        let after = parser.offset();
        let passed = &source[before..after];
        match event.unwrap() {
            ParseTerm::Atom(a) => {
                assert!(passed.contains(a.body()));
                seen.push(format!("atom {} in {:?}", a.body(), passed));
            }
            ParseTerm::Compound(a, n) => seen.push(format!("{}/{}", a.body(), n)),
            ParseTerm::Number(_) => unreachable!(),
            ParseTerm::FactEnd => {
                let last = source.as_bytes()[after - 1];
                seen.push(format!("end {}", last as char));
            }
        }
        before = after;
    }
    assert_eq!(
        seen,
        vec![
            "atom alpha in \"f( alpha\"".to_string(),
            "atom b c in \" , 'b c'\"".to_string(),
            "f/2".to_string(),
            "end ;".to_string(),
            "atom gamma in \" gamma\"".to_string(),
            "end .".to_string(),
        ]
    );
}

#[test]
fn a_real_without_finite_value_is_refused_where_it_stands() {
    let mut parser = TermParser::new("n(1e99).", b'.', None);
    assert!(matches!(parser.next(&parse_real), Some(Err(TermError::InvalidReal))));
    assert_eq!(parser.offset(), 2);
    assert!(parser.next(&parse_real).is_none());
}

#[test]
fn equal_yfx_operators_group_to_the_left() {
    let defs = [OperatorDefinition { name: "-", precedence: 500, class: OperatorClass::Yfx }];
    let config = OperatorConfig::new(&defs).unwrap();
    let mut parser = TermParser::new("a-b-c}", b'}', Some(&config));
    assert!(matches!(parser.next(&parse_real), Some(Ok(ParseTerm::Atom(a))) if a.body() == "a"));
    assert!(matches!(parser.next(&parse_real), Some(Ok(ParseTerm::Atom(a))) if a.body() == "b"));
    assert!(matches!(parser.next(&parse_real), Some(Ok(ParseTerm::Compound(a, 2))) if a.body() == "-"));
    assert_eq!(parser.offset(), 3);
    assert!(matches!(parser.next(&parse_real), Some(Ok(ParseTerm::Atom(a))) if a.body() == "c"));
    assert!(matches!(parser.next(&parse_real), Some(Ok(ParseTerm::Compound(a, 2))) if a.body() == "-"));
    assert!(matches!(parser.next(&parse_real), Some(Ok(ParseTerm::FactEnd))));
}

#[test]
fn equal_xfx_operators_do_not_chain() {
    let defs = [OperatorDefinition { name: "=", precedence: 700, class: OperatorClass::Xfx }];
    let config = OperatorConfig::new(&defs).unwrap();
    let mut parser = TermParser::new("a=b=c}", b'}', Some(&config));
    assert!(matches!(parser.next(&parse_real), Some(Ok(ParseTerm::Atom(_)))));
    assert!(matches!(parser.next(&parse_real), Some(Ok(ParseTerm::Atom(_)))));
    assert!(matches!(parser.next(&parse_real), Some(Err(TermError::UnexpectedCharacter))));
    assert_eq!(parser.offset(), 3);
}

#[test]
fn a_number_fact_is_refused_where_it_starts() {
    let mut parser = TermParser::new("1}", b'}', None);
    assert!(matches!(parser.next(&parse_real), Some(Err(TermError::UnexpectedCharacter))));
    assert_eq!(parser.offset(), 0);
}

#[test]
fn a_prefix_operator_applies_to_a_group() {
    let defs = [OperatorDefinition { name: "-", precedence: 200, class: OperatorClass::Fy }];
    let config = OperatorConfig::new(&defs).unwrap();
    let (evs, err) = events("- (a).", Some(&config));
    assert_eq!(err, None);
    assert_eq!(evs, strs(&["a", "-/1", "."]));
}

#[test]
fn the_first_argument_comes_after_its_functor_is_passed_over() {
    let mut parser = TermParser::new("f(g(a)).", b'.', None);
    match parser.next(&parse_real) {
        Some(Ok(ParseTerm::Atom(a))) => assert_eq!(a.value(), b"a".to_vec()),
        other => panic!("unexpected {:?}", other.map(|r| r.is_ok())),
    }
    assert_eq!(parser.offset(), 5);
}

#[test]
fn an_unterminated_quoted_atom_stops_where_its_scan_stops() {
    let mut parser = TermParser::new("f('abc", b'.', None);
    assert!(matches!(parser.next(&parse_real), Some(Err(TermError::UnterminatedQuotedAtom))));
    assert_eq!(parser.offset(), 6);
}

#[test]
fn facts_of_a_marker_in_postfix_order() {
    let mut parser = TermParser::new("has(alice, item(lantern, 1)); name(alice, 'Alice')}", b'}', None);
    let mut out = Vec::new();
    while let Some(event) = parser.next(&parse_real) {
        match event.unwrap() {
            ParseTerm::Atom(a) => out.push(String::from_utf8(a.value()).unwrap()),
            ParseTerm::Number(ParseNumber::Integer(v)) => out.push(format!("#{}", v.value())),
            ParseTerm::Number(ParseNumber::Real(r)) => out.push(format!("~{}", r.text())),
            ParseTerm::Compound(a, n) => out.push(format!("{}/{}", String::from_utf8(a.value()).unwrap(), n)),
            ParseTerm::FactEnd => out.push(".".to_string()),
        }
    }
    assert_eq!(
        out,
        strs(&["alice", "lantern", "#1", "item/2", "has/2", ".", "alice", "Alice", "name/2", "."])
    );
    assert_eq!(parser.offset(), 51);
}
