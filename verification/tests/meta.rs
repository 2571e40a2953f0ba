use ilk::meta::{read_operator_definition, Definitions, MetaError};
use ilk::parser::operator::{OperatorClass, OperatorError};
use ilk::parser::scan::TermError;
use ilk::term::{IntegerTerm, Term, TermTable};

fn parse_real(text: &str) -> Option<u32> {
    text.parse::<f32>().ok().filter(|v| v.is_finite()).map(|v| v.to_bits())
}

fn load(source: &str) -> (Definitions, Result<(), MetaError>) {
    let mut definitions = Definitions::new();
    let result = definitions.load_source(source, &parse_real);
    (definitions, result)
}

#[test]
fn operator_definitions_are_loaded() {
    let (definitions, result) = load("op(700, xfx, '=>'). op(200, fy, -); op(500, yfx, +).");
    assert_eq!(result, Ok(()));
    assert_eq!(definitions.len(), 3);
    let config = definitions.config().unwrap().unwrap();
    let arrow = config.get("=>", false).unwrap();
    assert_eq!(arrow.precedence, 700);
    assert_eq!(arrow.class, OperatorClass::Xfx);
    assert_eq!(config.get("-", true).unwrap().precedence, 200);
    assert_eq!(config.get("+", false).unwrap().class, OperatorClass::Yfx);
}

#[test]
fn no_definitions_give_no_configuration() {
    let (definitions, result) = load("  /* nothing */ ");
    assert_eq!(result, Ok(()));
    assert_eq!(definitions.len(), 0);
    assert!(definitions.config().unwrap().is_none());
}

#[test]
fn loading_twice_adds_to_the_definitions() {
    let mut definitions = Definitions::new();
    assert_eq!(definitions.load_source("op(700, xfx, =).", &parse_real), Ok(()));
    assert_eq!(definitions.load_source("op(400, yfx, *).", &parse_real), Ok(()));
    assert_eq!(definitions.len(), 2);
}

#[test]
fn duplicates_are_refused_by_the_configuration() {
    let (definitions, result) = load("op(700, xfx, =). op(600, xfy, =).");
    assert_eq!(result, Ok(()));
    assert!(matches!(definitions.config(), Err(OperatorError::Duplicate)));
}

#[test]
fn a_fact_must_be_a_compound() {
    assert_eq!(load("foo.").1, Err(MetaError::ExpectedOperatorDeclaration));
}

#[test]
fn only_op_is_supported() {
    assert_eq!(load("foo(1, xfx, a).").1, Err(MetaError::UnsupportedDeclaration("foo".to_string())));
}

#[test]
fn op_needs_an_integer_and_two_atoms() {
    assert_eq!(load("op(1, xfx).").1, Err(MetaError::ExpectedOperatorArguments));
    assert_eq!(load("op(a, xfx, b).").1, Err(MetaError::ExpectedOperatorArguments));
    assert_eq!(load("op(1, xfx, f(b)).").1, Err(MetaError::ExpectedOperatorArguments));
}

#[test]
fn precedence_must_fit_in_16_bits() {
    assert_eq!(load("op(70000, xfx, a).").1, Err(MetaError::InvalidPrecedence));
    assert_eq!(load("op(-1, xfx, a).").1, Err(MetaError::InvalidPrecedence));
}

#[test]
fn reals_are_read_and_must_be_finite() {
    assert_eq!(load("op(1.5, xfx, a).").1, Err(MetaError::ExpectedOperatorArguments));
    assert_eq!(load("op(1e99, xfx, a).").1, Err(MetaError::Term(TermError::InvalidReal)));
}

#[test]
fn unknown_operator_type() {
    assert_eq!(load("op(700, xfz, a).").1, Err(MetaError::UnsupportedOperatorType("xfz".to_string())));
}

#[test]
fn configuration_checks_each_definition() {
    assert_eq!(load("op(0, xfx, a).").1, Err(MetaError::Operator(OperatorError::InvalidPrecedence)));
    assert_eq!(load("op(700, xfx, 'a b').").1, Err(MetaError::Operator(OperatorError::InvalidName)));
}

#[test]
fn syntax_errors_are_reported() {
    assert_eq!(load("op(700").1, Err(MetaError::Term(TermError::UnexpectedEndOfFile)));
    assert_eq!(load("/* open").1, Err(MetaError::Term(TermError::UnterminatedComment)));
}

#[test]
fn definitions_before_an_error_are_kept() {
    let (definitions, result) = load("op(700, xfx, =). foo.");
    assert_eq!(result, Err(MetaError::ExpectedOperatorDeclaration));
    assert_eq!(definitions.len(), 1);
}

#[test]
fn read_a_definition_from_a_term() {
    let mut terms = TermTable::new();
    let op = terms.atom("op");
    let xfy = terms.atom("xfy");
    let name = terms.atom("^");
    let root = terms.compound(op, &[Term::Integer(IntegerTerm::new(200)), Term::Atom(xfy), Term::Atom(name)]);
    let definition = read_operator_definition(Term::Compound(root), &terms).unwrap();
    let borrowed = definition.borrowed();
    assert_eq!(borrowed.name, "^");
    assert_eq!(borrowed.precedence, 200);
    assert_eq!(borrowed.class, OperatorClass::Xfy);
    assert!(matches!(
        read_operator_definition(Term::Atom(op), &terms),
        Err(MetaError::ExpectedOperatorDeclaration)
    ));
}

#[test]
fn a_semicolon_asks_for_another_fact() {
    let (definitions, result) = load("op(700, xfx, =);   ");
    assert_eq!(result, Err(MetaError::Term(TermError::UnexpectedEndOfFile)));
    assert_eq!(definitions.len(), 1);
}

#[test]
fn white_space_and_comments_may_follow_the_last_fact() {
    let (definitions, result) = load("op(700, xfx, =). /* done */ \n");
    assert_eq!(result, Ok(()));
    assert_eq!(definitions.len(), 1);
}

#[test]
fn a_fact_that_is_a_number_is_refused() {
    assert_eq!(load("700.").1, Err(MetaError::Term(TermError::UnexpectedCharacter)));
}

#[test]
fn an_unknown_declaration_names_its_functor() {
    assert_eq!(load("dynamic(foo, 1, 2).").1, Err(MetaError::UnsupportedDeclaration("dynamic".to_string())));
}

#[test]
fn a_fact_needs_its_end() {
    assert_eq!(load("op(700, xfx, =) op(200, fy, -).").1, Err(MetaError::Term(TermError::UnexpectedCharacter)));
}
