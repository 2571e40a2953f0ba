use ilk::term::{IntegerTerm, RealTerm, Term, TermTable};

#[test]
fn atoms_are_interned() {
    let mut table = TermTable::new();
    let a = table.atom("lantern");
    let b = table.atom("alice");
    assert_eq!(table.atom("lantern"), a);
    assert_ne!(a, b);
    assert_eq!(table.atom_value(a), "lantern");
    assert_eq!(table.atom_value(b), "alice");
}

#[test]
fn atom_bytes_match_atom() {
    let mut table = TermTable::new();
    let a = table.atom("é");
    assert_eq!(table.atom_bytes("é".as_bytes()), a);
}

#[test]
fn compounds_are_interned_with_their_arguments() {
    let mut table = TermTable::new();
    let f = table.atom("item");
    let x = table.atom("lantern");
    let args = [Term::Atom(x), Term::Integer(IntegerTerm::new(1))];
    let c = table.compound(f, &args);
    assert_eq!(table.compound(f, &args), c);
    let other = table.compound(f, &[Term::Atom(x)]);
    assert_ne!(other, c);
    let (functor, stored) = table.compound_value(c);
    assert_eq!(functor, f);
    assert_eq!(stored, &args[..]);
}

#[test]
fn default_table_is_empty() {
    let mut table = TermTable::default();
    assert!(table.room_left());
    let a = table.atom("x");
    assert_eq!(a.0, 0);
}

#[test]
fn numbers_keep_their_values() {
    assert_eq!(IntegerTerm::new(-5).value(), -5);
    let r = RealTerm::new(2.5f32.to_bits());
    assert_eq!(f32::from_bits(r.value()), 2.5);
}

#[test]
fn negative_zero_is_stored_as_zero() {
    let r = RealTerm::new((-0.0f32).to_bits());
    assert_eq!(r.value(), 0);
    assert_eq!(r, RealTerm::new(0.0f32.to_bits()));
}
