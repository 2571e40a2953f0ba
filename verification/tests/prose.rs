use ilk::parser::prose::{ProseChunk, ProseError, ProseParser};
use ilk::parser::term::ParseTerm;

/// The single-precision bits of a literal's finite value.
fn parse_real(text: &str) -> Option<u32> {
    text.parse::<f32>().ok().filter(|v| v.is_finite()).map(|v| v.to_bits())
}

/// The chunks of `source` as short strings, up to the first error.
fn chunks(source: &str) -> (Vec<String>, Option<(ProseError, usize)>) {
    let mut parser = ProseParser::new(source);
    let mut out = Vec::new();
    while let Some(chunk) = parser.next(&parse_real) {
        match chunk {
            Ok(ProseChunk::Text(t)) => out.push(format!("text {:?}", t)),
            Ok(ProseChunk::RegionStart { id }) => out.push(format!("start {}", id)),
            Ok(ProseChunk::RegionEnd { id }) => out.push(format!("end {}", id)),
            Ok(ProseChunk::TermEvent(ParseTerm::Atom(a))) => {
                out.push(format!("atom {}", String::from_utf8(a.value()).unwrap()))
            }
            Ok(ProseChunk::TermEvent(ParseTerm::Compound(a, n))) => {
                out.push(format!("compound {}/{}", String::from_utf8(a.value()).unwrap(), n))
            }
            Ok(ProseChunk::TermEvent(ParseTerm::Number(_))) => out.push("number".to_string()),
            Ok(ProseChunk::TermEvent(ParseTerm::FactEnd)) => out.push("fact".to_string()),
            Err(e) => return (out, Some((e, parser.offset()))),
        }
    }
    (out, None)
}

fn strs(v: &[&str]) -> Vec<String> {
    v.iter().map(|s| s.to_string()).collect()
}

#[test]
fn point_marker_then_text() {
    let (out, err) = chunks("@{start}Hello");
    assert_eq!(err, None);
    assert_eq!(out, strs(&["start 0", "atom start", "fact", "end 0", "text \"Hello\""]));
}

#[test]
fn region_marker_around_text() {
    let (out, err) = chunks("a @<f(x)|b@> c");
    assert_eq!(err, None);
    assert_eq!(
        out,
        strs(&["text \"a \"", "start 0", "atom x", "compound f/1", "fact", "text \"b\"", "end 0", "text \" c\""])
    );
}

#[test]
fn escaped_at_sign_is_text() {
    let (out, err) = chunks("mail@@example");
    assert_eq!(err, None);
    let text: String = out.iter().map(|s| s.trim_start_matches("text \"").trim_end_matches('"')).collect();
    assert_eq!(text, "mail@example");
}

#[test]
fn labeled_regions_close_by_label() {
    let (out, err) = chunks("@a<x|1@<y|2@a>3@>");
    assert_eq!(err, None);
    assert_eq!(
        out,
        strs(&[
            "start 0", "atom x", "fact", "text \"1\"", "start 1", "atom y", "fact", "text \"2\"", "end 0",
            "text \"3\"", "end 1",
        ])
    );
}

#[test]
fn label_in_use_is_refused() {
    let (_, err) = chunks("@a<x|@a<y|z@a>@a>");
    assert_eq!(err.map(|e| e.0), Some(ProseError::ConflictingRegionLabel));
}

#[test]
fn end_without_start_is_refused() {
    let (_, err) = chunks("x@>");
    assert_eq!(err, Some((ProseError::UnmatchedRegionEnd, 1)));
    let (_, err) = chunks("@b>");
    assert_eq!(err.map(|e| e.0), Some(ProseError::UnmatchedRegionEnd));
}

#[test]
fn start_without_end_is_refused() {
    let (_, err) = chunks("@<x|text");
    assert_eq!(err, Some((ProseError::UnmatchedRegionStart, 0)));
    let (_, err) = chunks("@[x|\ntext\n");
    assert_eq!(err.map(|e| e.0), Some(ProseError::UnmatchedRegionStart));
}

#[test]
fn bad_facts_are_term_errors() {
    let (_, err) = chunks("@{f(}x");
    assert!(matches!(err, Some((ProseError::Term(_), 4))));
}

#[test]
fn block_lines_lose_their_indentation() {
    let (out, err) = chunks("@[b|\n    one\n    two\n@]\n");
    assert_eq!(err, None);
    let text: String = out
        .iter()
        .filter(|s| s.starts_with("text"))
        .map(|s| s.trim_start_matches("text \"").trim_end_matches('"'))
        .collect();
    assert_eq!(text, "one\\ntwo\\n");
}

#[test]
fn block_line_with_less_indentation_is_refused() {
    let (_, err) = chunks("@[b|\n    one\n  two\n@]\n");
    assert_eq!(err.map(|e| e.0), Some(ProseError::InvalidIndentation));
}

#[test]
fn parser_stops_after_an_error() {
    let mut parser = ProseParser::new("x@>");
    assert!(matches!(parser.next(&parse_real), Some(Ok(ProseChunk::Text("x")))));
    assert!(matches!(parser.next(&parse_real), Some(Err(ProseError::UnmatchedRegionEnd))));
    assert!(parser.next(&parse_real).is_none());
}

#[test]
fn empty_text_makes_no_chunk() {
    assert!(ProseChunk::from_nonempty_text("").is_none());
    assert!(matches!(ProseChunk::from_nonempty_text("a"), Some(ProseChunk::Text("a"))));
}

#[test]
fn point_marker_alone_on_a_block_line() {
    let (out, err) = chunks("@[b|\n@{y}\n@]");
    assert_eq!(err, None);
    assert_eq!(
        out,
        strs(&["start 0", "atom b", "fact", "start 1", "atom y", "fact", "end 1", "text \"\\n\"", "end 0"])
    );
}

#[test]
fn plain_text_is_one_chunk() {
    let (out, err) = chunks("no markers here\n  at all\r\n");
    assert_eq!(err, None);
    assert_eq!(out, strs(&["text \"no markers here\\n  at all\\r\\n\""]));
}

#[test]
fn block_marker_must_start_its_line() {
    let (out, err) = chunks("x @[b|\ny\n@]\n");
    assert_eq!(out, strs(&[]));
    assert_eq!(err, Some((ProseError::UnexpectedCharacter, 0)));
}

#[test]
fn block_marker_must_end_its_line() {
    let (out, err) = chunks("@[b| x\ny\n@]\n");
    assert_eq!(out, strs(&["start 0", "atom b", "fact"]));
    assert_eq!(err, Some((ProseError::UnexpectedCharacter, 5)));
}

#[test]
fn block_prefix_is_that_of_its_first_line() {
    let (out, err) = chunks("@[b|\n\ty\n\t\tz\n@]\n");
    assert_eq!(err, None);
    assert_eq!(out, strs(&["start 0", "atom b", "fact", "text \"y\\n\"", "text \"\\tz\\n\"", "end 0"]));
}

#[test]
fn blank_lines_in_a_block_stay() {
    let (out, err) = chunks("@[b|\n  y\n\n  z\n@]\n");
    assert_eq!(err, None);
    assert_eq!(
        out,
        strs(&["start 0", "atom b", "fact", "text \"y\\n\"", "text \"\\n\"", "text \"z\\n\"", "end 0"])
    );
}

#[test]
fn markers_inside_block_lines() {
    let (out, err) = chunks("@[b|\n  y @{p} z\n@]\n");
    assert_eq!(err, None);
    assert_eq!(
        out,
        strs(&[
            "start 0", "atom b", "fact", "text \"y \"", "start 1", "atom p", "fact", "end 1", "text \" z\\n\"",
            "end 0",
        ])
    );
}

#[test]
fn a_label_can_be_used_again_once_closed() {
    let (out, err) = chunks("@a<x|1@a>@a<y|2@a>");
    assert_eq!(err, None);
    assert_eq!(
        out,
        strs(&[
            "start 0", "atom x", "fact", "text \"1\"", "end 0", "start 1", "atom y", "fact", "text \"2\"", "end 1",
        ])
    );
}

#[test]
fn unmatched_region_end_is_reported_at_its_marker() {
    let mut parser = ProseParser::new("@>x");
    assert!(matches!(parser.next(&parse_real), Some(Err(ProseError::UnmatchedRegionEnd))));
    assert_eq!(parser.offset(), 0);
}

#[test]
fn a_labeled_close_ends_its_region_and_leaves_the_anonymous_one() {
    let (evs, err) = chunks("@L<p|a @<q|b@L> c@>");
    assert_eq!(err, None);
    assert_eq!(
        evs,
        strs(&[
            "start 0", "atom p", "fact", "text \"a \"", "start 1", "atom q", "fact", "text \"b\"", "end 0",
            "text \" c\"", "end 1",
        ])
    );
}

#[test]
fn open_region_at_the_end_is_reported_at_the_latest_opening() {
    let (_, err) = chunks("@<p|a @<q|b");
    assert_eq!(err, Some((ProseError::UnmatchedRegionStart, 6)));
}

#[test]
fn a_block_marker_after_text_on_its_line_is_refused() {
    let (out, err) = chunks("x @[a|\n");
    assert!(out.is_empty());
    assert_eq!(err, Some((ProseError::UnexpectedCharacter, 0)));
}

#[test]
fn an_escaped_at_gives_one_at() {
    let (out, err) = chunks("@@");
    assert_eq!(err, None);
    assert_eq!(out, strs(&["text \"@\""]));
}
