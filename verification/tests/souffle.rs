use ilk::compiler::{Event, RegionId, TermId};
use ilk::term::RealTerm;
use ilk::writer::souffle::{write_i32, write_row, write_symbol, write_u64, Table};

fn symbol(value: &str) -> String {
    let mut out = Vec::new();
    write_symbol(&mut out, value);
    String::from_utf8(out).unwrap()
}

fn row(event: Event<'_, &str>, real_text: &str) -> (Table, String) {
    let mut out = b"prefix;".to_vec();
    let table = write_row(&mut out, &event, real_text);
    let text = String::from_utf8(out).unwrap();
    (table, text.strip_prefix("prefix;").unwrap().to_string())
}

#[test]
fn plain_symbols_are_written_as_they_are() {
    assert_eq!(symbol("lantern"), "lantern");
    assert_eq!(symbol("a b"), "a b");
}

#[test]
fn symbols_with_separators_are_quoted() {
    assert_eq!(symbol(""), "\"\"");
    assert_eq!(symbol("a,b"), "\"a,b\"");
    assert_eq!(symbol("a\tb"), "\"a\tb\"");
    assert_eq!(symbol("line\n"), "\"line\n\"");
    assert_eq!(symbol("cr\r"), "\"cr\r\"");
    assert_eq!(symbol("say \"hi\""), "\"say \"\"hi\"\"\"");
}

#[test]
fn numbers_in_decimal() {
    let mut out = Vec::new();
    write_u64(&mut out, 0);
    out.push(b' ');
    write_u64(&mut out, 1234567890123);
    out.push(b' ');
    write_i32(&mut out, -2147483648);
    out.push(b' ');
    write_i32(&mut out, 42);
    assert_eq!(String::from_utf8(out).unwrap(), "0 1234567890123 -2147483648 42");
}

#[test]
fn rows_of_each_table() {
    assert_eq!(row(Event::Text("Hello\n"), ""), (Table::Text, "Hello\n".to_string()));
    assert_eq!(row(Event::RegionStart(RegionId(3), 17), ""), (Table::RegionStart, "3\t17\n".to_string()));
    assert_eq!(row(Event::RegionEnd(RegionId(3), 20), ""), (Table::RegionEnd, "3\t20\n".to_string()));
    assert_eq!(row(Event::Assertion(TermId(5), RegionId(2)), ""), (Table::Assertion, "5\t2\n".to_string()));
    assert_eq!(row(Event::Parent(RegionId(0), RegionId(2)), ""), (Table::Parent, "0\t2\n".to_string()));
    assert_eq!(row(Event::Ancestor(RegionId(1), RegionId(2)), ""), (Table::Ancestor, "1\t2\n".to_string()));
    assert_eq!(row(Event::Atom(TermId(4), "a,b"), ""), (Table::Atom, "4,\"a,b\"\n".to_string()));
    assert_eq!(row(Event::Integer(TermId(6), -7), ""), (Table::Integer, "6\t-7\n".to_string()));
    let half = RealTerm::new(0.5f32.to_bits());
    assert_eq!(row(Event::Real(TermId(8), half), "0.5"), (Table::Real, "8\t0.5\n".to_string()));
    assert_eq!(row(Event::Compound(TermId(9), TermId(4)), ""), (Table::Compound, "9\t4\n".to_string()));
    assert_eq!(row(Event::Argument(TermId(9), 1, TermId(6)), ""), (Table::Argument, "9\t1\t6\n".to_string()));
}

#[test]
fn table_files() {
    let names: Vec<&str> = Table::all().into_iter().map(|t| t.file_name()).collect();
    assert_eq!(
        names,
        vec![
            "text.txt",
            "region_start.facts",
            "region_end.facts",
            "assertion.facts",
            "parent.facts",
            "ancestor.facts",
            "atom.facts",
            "integer.facts",
            "real.facts",
            "compound.facts",
            "argument.facts",
        ]
    );
}

#[test]
fn each_table_has_its_place_among_all() {
    let tables = Table::all();
    assert_eq!(tables.len(), 11);
    for (index, table) in tables.iter().enumerate() {
        assert_eq!(table.position(), index);
    }
    assert_eq!(Table::Text.position(), 0);
    assert_eq!(Table::Argument.position(), 10);
}
