use ilk::compiler::{CompileError, Compiler, Event, RegionId, TermId};
use ilk::parser::prose::{ProseError, ProseParser};
use ilk::parser::scan::TermError;
use ilk::term::RealTerm;

fn parse_real(text: &str) -> Option<u32> {
    text.parse::<f32>().ok().map(|v| v.to_bits())
}

fn compile(source: &str) -> (Vec<Event<'_, String>>, Option<CompileError>) {
    let mut compiler = Compiler::new(ProseParser::new(source));
    let mut events = Vec::new();
    let mut error = None;
    let real = |text: &str| parse_real(text);
    while let Some(event) = compiler.next(&real) {
        match event {
            Ok(event) => events.push(owned(event)),
            Err(e) => {
                error = Some(e);
                break;
            }
        }
    }
    (events, error)
}

fn owned<'s>(event: Event<'s, &str>) -> Event<'s, String> {
    match event {
        Event::Text(t) => Event::Text(t),
        Event::RegionStart(r, o) => Event::RegionStart(r, o),
        Event::RegionEnd(r, o) => Event::RegionEnd(r, o),
        Event::Assertion(t, r) => Event::Assertion(t, r),
        Event::Parent(o, i) => Event::Parent(o, i),
        Event::Ancestor(o, i) => Event::Ancestor(o, i),
        Event::Atom(id, v) => Event::Atom(id, v.to_string()),
        Event::Integer(id, v) => Event::Integer(id, v),
        Event::Real(id, v) => Event::Real(id, v),
        Event::Compound(id, f) => Event::Compound(id, f),
        Event::Argument(c, k, t) => Event::Argument(c, k, t),
    }
}

fn text_of(events: &[Event<'_, String>]) -> String {
    let mut text = String::new();
    for event in events {
        if let Event::Text(t) = event {
            text.push_str(t);
        }
    }
    text
}

fn region_bounds(events: &[Event<'_, String>]) -> Vec<(u32, u32, u32)> {
    let mut starts = Vec::new();
    let mut bounds = Vec::new();
    for event in events {
        match event {
            Event::RegionStart(r, o) => starts.push((r.value(), *o)),
            Event::RegionEnd(r, o) => {
                let start = starts.iter().find(|(id, _)| *id == r.value()).unwrap().1;
                bounds.push((r.value(), start, *o));
            }
            _ => {}
        }
    }
    bounds.sort();
    bounds
}

fn pairs(events: &[Event<'_, String>], ancestors: bool) -> Vec<(u32, u32)> {
    let mut found = Vec::new();
    for event in events {
        match (event, ancestors) {
            (Event::Ancestor(o, i), true) | (Event::Parent(o, i), false) => found.push((o.value(), i.value())),
            _ => {}
        }
    }
    found.sort();
    found
}

fn atom(id: u32, value: &str) -> Event<'static, String> {
    Event::Atom(TermId(id), value.to_string())
}

#[test]
fn point_assertion_at_start_of_text() {
    let (events, error) = compile("@{start}Hello World!");
    assert_eq!(error, None);
    assert_eq!(
        events,
        vec![
            Event::RegionStart(RegionId(0), 0),
            atom(0, "start"),
            Event::Assertion(TermId(0), RegionId(0)),
            Event::RegionEnd(RegionId(0), 0),
            Event::Text("Hello World!"),
        ]
    );
}

#[test]
fn several_facts_with_compounds() {
    let (events, error) =
        compile("@{has(alice, item(lantern, 1)); name(alice, 'Alice')}Alice picked up the lantern.");
    assert_eq!(error, None);
    assert_eq!(
        events,
        vec![
            Event::RegionStart(RegionId(0), 0),
            atom(0, "alice"),
            atom(1, "lantern"),
            Event::Integer(TermId(2), 1),
            atom(3, "item"),
            Event::Compound(TermId(4), TermId(3)),
            Event::Argument(TermId(4), 0, TermId(1)),
            Event::Argument(TermId(4), 1, TermId(2)),
            atom(5, "has"),
            Event::Compound(TermId(6), TermId(5)),
            Event::Argument(TermId(6), 0, TermId(0)),
            Event::Argument(TermId(6), 1, TermId(4)),
            Event::Assertion(TermId(6), RegionId(0)),
            atom(7, "Alice"),
            atom(8, "name"),
            Event::Compound(TermId(9), TermId(8)),
            Event::Argument(TermId(9), 0, TermId(0)),
            Event::Argument(TermId(9), 1, TermId(7)),
            Event::Assertion(TermId(9), RegionId(0)),
            Event::RegionEnd(RegionId(0), 0),
            Event::Text("Alice picked up the lantern."),
        ]
    );
}

#[test]
fn overlapping_labeled_regions() {
    let (events, error) = compile(
        "@a<has(alice, lantern)|Alice and @<has(franklin, lantern); has(franklin, match)|Franklin picked up lanterns@a>, but only Franklin picked up an extra match.@>",
    );
    assert_eq!(error, None);
    assert_eq!(region_bounds(&events), vec![(0, 0, 37), (1, 10, 82)]);
    assert_eq!(pairs(&events, true), vec![]);
    assert_eq!(pairs(&events, false), vec![]);
    assert_eq!(
        text_of(&events),
        "Alice and Franklin picked up lanterns, but only Franklin picked up an extra match."
    );
    let assertions: Vec<_> = events
        .iter()
        .filter_map(|e| match e {
            Event::Assertion(t, r) => Some((t.value(), r.value())),
            _ => None,
        })
        .collect();
    assert_eq!(assertions, vec![(3, 0), (5, 1), (7, 1)]);
}

#[test]
fn region_inside_two_overlapping_regions() {
    let (events, error) = compile("@a<area(a)|Alpha @<area(b)|Beta @<item|child@> gamma@a> delta@>");
    assert_eq!(error, None);
    assert_eq!(region_bounds(&events), vec![(0, 0, 22), (1, 6, 28), (2, 11, 16)]);
    assert_eq!(pairs(&events, false), vec![(0, 2), (1, 2)]);
    assert_eq!(pairs(&events, true), vec![(0, 2), (1, 2)]);
}

#[test]
fn unlabeled_region() {
    let (events, error) = compile("@<has(alice, lantern)|Alice picked up the lantern.@>");
    assert_eq!(error, None);
    assert_eq!(region_bounds(&events), vec![(0, 0, 28)]);
    assert_eq!(text_of(&events), "Alice picked up the lantern.");
}

#[test]
fn block_markers_and_indentation_leave_the_text() {
    let (events, error) = compile(
        "Alice cleared her throat.\n@[speech(alice)|\n  Hello, Franklin.\n  Have you seen my lantern?\n@]\nShe waited.\n",
    );
    assert_eq!(error, None);
    assert_eq!(
        text_of(&events),
        "Alice cleared her throat.\nHello, Franklin.\nHave you seen my lantern?\nShe waited.\n"
    );
    assert_eq!(region_bounds(&events), vec![(0, 26, 69)]);
}

#[test]
fn nested_blocks() {
    let (events, error) = compile("@[outer|\n  one\n  @[inner|\n    two\n  @]\n  three\n@]\n");
    assert_eq!(error, None);
    assert_eq!(text_of(&events), "one\ntwo\nthree\n");
    assert_eq!(region_bounds(&events), vec![(0, 0, 14), (1, 4, 8)]);
    assert_eq!(pairs(&events, false), vec![(0, 1)]);
    assert_eq!(pairs(&events, true), vec![(0, 1)]);
}

#[test]
fn three_levels_give_parents_and_ancestors() {
    let (events, error) = compile("@<a|x@<b|y@<c|z@>@>@>");
    assert_eq!(error, None);
    assert_eq!(pairs(&events, false), vec![(0, 1), (1, 2)]);
    assert_eq!(pairs(&events, true), vec![(0, 1), (0, 2), (1, 2)]);
}

#[test]
fn sibling_regions_share_a_parent() {
    let (events, error) = compile("@<p|@<a|x@> @<b|y@>@>");
    assert_eq!(error, None);
    assert_eq!(pairs(&events, false), vec![(0, 1), (0, 2)]);
    assert_eq!(pairs(&events, true), vec![(0, 1), (0, 2)]);
}

#[test]
fn real_numbers_are_interned_by_value() {
    let (events, error) = compile("@{x(1.5, -2, 1.50)}a");
    assert_eq!(error, None);
    let half = RealTerm::new(1.5f32.to_bits());
    assert_eq!(
        events,
        vec![
            Event::RegionStart(RegionId(0), 0),
            Event::Real(TermId(0), half),
            Event::Integer(TermId(1), -2),
            atom(2, "x"),
            Event::Compound(TermId(3), TermId(2)),
            Event::Argument(TermId(3), 0, TermId(0)),
            Event::Argument(TermId(3), 1, TermId(1)),
            Event::Argument(TermId(3), 2, TermId(0)),
            Event::Assertion(TermId(3), RegionId(0)),
            Event::RegionEnd(RegionId(0), 0),
            Event::Text("a"),
        ]
    );
}

#[test]
fn terms_seen_before_get_no_new_event() {
    let (events, error) = compile("@{a; a; f(a)}x@{f(a)}y");
    assert_eq!(error, None);
    assert_eq!(
        events,
        vec![
            Event::RegionStart(RegionId(0), 0),
            atom(0, "a"),
            Event::Assertion(TermId(0), RegionId(0)),
            Event::Assertion(TermId(0), RegionId(0)),
            atom(1, "f"),
            Event::Compound(TermId(2), TermId(1)),
            Event::Argument(TermId(2), 0, TermId(0)),
            Event::Assertion(TermId(2), RegionId(0)),
            Event::RegionEnd(RegionId(0), 0),
            Event::Text("x"),
            Event::RegionStart(RegionId(1), 1),
            Event::Assertion(TermId(2), RegionId(1)),
            Event::RegionEnd(RegionId(1), 1),
            Event::Text("y"),
        ]
    );
}

#[test]
fn offsets_count_bytes_of_the_text() {
    let (events, error) = compile("é@{a}b");
    assert_eq!(error, None);
    assert_eq!(region_bounds(&events), vec![(0, 2, 2)]);
}

#[test]
fn real_without_finite_value_is_refused() {
    let (events, error) = compile("@{x(1e99)}a");
    assert_eq!(
        error,
        Some(CompileError::Parse { error: ProseError::Term(TermError::InvalidReal), offset: 4 })
    );
    assert_eq!(events, vec![Event::RegionStart(RegionId(0), 0)]);
}

#[test]
fn real_the_caller_cannot_read_is_refused() {
    let source = "@{x(2.5)}a";
    let mut compiler = Compiler::new(ProseParser::new(source));
    let nothing = |_: &str| None;
    assert_eq!(compiler.next(&nothing), Some(Ok(Event::RegionStart(RegionId(0), 0))));
    assert_eq!(
        compiler.next(&nothing),
        Some(Err(CompileError::Parse { error: ProseError::Term(TermError::InvalidReal), offset: 4 }))
    );
    assert_eq!(compiler.next(&nothing), None);
}

#[test]
fn infinite_bits_are_refused() {
    let source = "@{x(2.5)}a";
    let mut compiler = Compiler::new(ProseParser::new(source));
    let infinity = |_: &str| Some(f32::INFINITY.to_bits());
    assert_eq!(compiler.next(&infinity), Some(Ok(Event::RegionStart(RegionId(0), 0))));
    assert_eq!(
        compiler.next(&infinity),
        Some(Err(CompileError::Parse { error: ProseError::Term(TermError::InvalidReal), offset: 4 }))
    );
}

#[test]
fn parse_error_gives_its_offset() {
    let (events, error) = compile("@{f(}x");
    assert_eq!(
        error,
        Some(CompileError::Parse { error: ProseError::Term(TermError::UnexpectedCharacter), offset: 4 })
    );
    assert_eq!(events, vec![Event::RegionStart(RegionId(0), 0)]);
}

#[test]
fn unmatched_region_end_is_refused() {
    let (events, error) = compile("a@>b");
    assert_eq!(error, Some(CompileError::Parse { error: ProseError::UnmatchedRegionEnd, offset: 1 }));
    assert_eq!(events, vec![Event::Text("a")]);
}

#[test]
fn unmatched_region_start_is_refused() {
    let (_, error) = compile("@<a|b");
    assert_eq!(error, Some(CompileError::Parse { error: ProseError::UnmatchedRegionStart, offset: 0 }));
}

#[test]
fn compiler_stops_after_an_error() {
    let mut compiler = Compiler::new(ProseParser::new("a@>b"));
    let real = |text: &str| parse_real(text);
    assert_eq!(compiler.next(&real), Some(Ok(Event::Text("a"))));
    assert!(matches!(compiler.next(&real), Some(Err(_))));
    assert_eq!(compiler.next(&real), None);
    assert_eq!(compiler.next(&real), None);
}

#[test]
fn plain_text_compiles_to_itself() {
    let (events, error) = compile("Hello World!");
    assert_eq!(error, None);
    assert_eq!(events, vec![Event::Text("Hello World!")]);
}

#[test]
fn empty_document_gives_nothing() {
    let (events, error) = compile("");
    assert_eq!(error, None);
    assert_eq!(events, vec![]);
}

#[test]
fn ids_read_back_their_values() {
    assert_eq!(RegionId(7).value(), 7);
    assert_eq!(TermId(9).value(), 9);
}

#[test]
fn nesting_events_follow_region_end_in_order() {
    let (events, error) = compile("@<p|@<q|@<a|x@> @<b|y@>@>@>");
    assert_eq!(error, None);
    let nesting: Vec<Event<'_, String>> = events
        .into_iter()
        .filter(|e| matches!(e, Event::RegionEnd(..) | Event::Parent(..) | Event::Ancestor(..)))
        .collect();
    assert_eq!(
        nesting,
        vec![
            Event::RegionEnd(RegionId(2), 1),
            Event::Ancestor(RegionId(0), RegionId(2)),
            Event::Ancestor(RegionId(1), RegionId(2)),
            Event::RegionEnd(RegionId(3), 3),
            Event::Ancestor(RegionId(0), RegionId(3)),
            Event::Ancestor(RegionId(1), RegionId(3)),
            Event::RegionEnd(RegionId(1), 3),
            Event::Parent(RegionId(1), RegionId(2)),
            Event::Parent(RegionId(1), RegionId(3)),
            Event::Ancestor(RegionId(0), RegionId(1)),
            Event::RegionEnd(RegionId(0), 3),
            Event::Parent(RegionId(0), RegionId(1)),
        ]
    );
}
