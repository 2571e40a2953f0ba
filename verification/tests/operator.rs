use ilk::parser::operator::{OperatorClass, OperatorConfig, OperatorDefinition, OperatorError};

fn def(name: &str, precedence: u16, class: OperatorClass) -> OperatorDefinition<'_> {
    OperatorDefinition { name, precedence, class }
}

#[test]
fn lookup_by_name_and_fixity() {
    let defs = [def("+", 500, OperatorClass::Yfx), def("-", 200, OperatorClass::Fy), def("-", 500, OperatorClass::Yfx)];
    let config = OperatorConfig::new(&defs).unwrap();
    let plus = config.get("+", false).unwrap();
    assert_eq!(plus.precedence, 500);
    assert_eq!(plus.class, OperatorClass::Yfx);
    assert!(config.get("+", true).is_none());
    assert_eq!(config.get("-", true).unwrap().precedence, 200);
    assert_eq!(config.get("-", false).unwrap().precedence, 500);
    assert!(config.get("*", false).is_none());
}

#[test]
fn precedence_must_be_between_1_and_1200() {
    assert!(matches!(OperatorConfig::new(&[def("+", 0, OperatorClass::Xfx)]), Err(OperatorError::InvalidPrecedence)));
    assert!(matches!(OperatorConfig::new(&[def("+", 1201, OperatorClass::Xfx)]), Err(OperatorError::InvalidPrecedence)));
    assert!(OperatorConfig::new(&[def("+", 1, OperatorClass::Xfx)]).is_ok());
    assert!(OperatorConfig::new(&[def("+", 1200, OperatorClass::Xfx)]).is_ok());
}

#[test]
fn name_must_be_one_identifier() {
    assert!(matches!(OperatorConfig::new(&[def("a b", 100, OperatorClass::Xfx)]), Err(OperatorError::InvalidName)));
    assert!(matches!(OperatorConfig::new(&[def("", 100, OperatorClass::Xfx)]), Err(OperatorError::InvalidName)));
    assert!(matches!(OperatorConfig::new(&[def("/*", 100, OperatorClass::Xfx)]), Err(OperatorError::InvalidName)));
    assert!(matches!(OperatorConfig::new(&[def("(", 100, OperatorClass::Xfx)]), Err(OperatorError::InvalidName)));
    assert!(OperatorConfig::new(&[def("is", 700, OperatorClass::Xfx)]).is_ok());
    assert!(OperatorConfig::new(&[def("=..", 700, OperatorClass::Xfx)]).is_ok());
}

#[test]
fn duplicate_infix_definitions_are_refused() {
    let defs = [def("+", 500, OperatorClass::Yfx), def("+", 400, OperatorClass::Xfx)];
    assert!(matches!(OperatorConfig::new(&defs), Err(OperatorError::Duplicate)));
}

#[test]
fn first_error_wins() {
    let defs = [def("+", 500, OperatorClass::Yfx), def("+", 0, OperatorClass::Xfx), def("a b", 500, OperatorClass::Xfx)];
    assert!(matches!(OperatorConfig::new(&defs), Err(OperatorError::InvalidPrecedence)));
}

#[test]
fn empty_and_default_configs_define_nothing() {
    let config = OperatorConfig::new(&[]).unwrap();
    assert!(config.get("+", false).is_none());
    let config: OperatorConfig<'_> = OperatorConfig::default();
    assert!(config.get("+", false).is_none());
    let copy = config.clone();
    assert!(copy.get("+", false).is_none());
}

#[test]
fn only_fy_is_prefix() {
    assert!(OperatorClass::Fy.is_prefix());
    assert!(!OperatorClass::Xfx.is_prefix());
    assert!(!OperatorClass::Xfy.is_prefix());
    assert!(!OperatorClass::Yfx.is_prefix());
}
