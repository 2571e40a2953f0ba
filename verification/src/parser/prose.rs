use crate::parser::ident::{
    is_word_ident_start, lemma_scan_word_ident_bounds, scan_word_ident_bytes,
    spec_is_word_ident_start, spec_scan_word_ident,
};
use crate::parser::prose_scan::{
    char_start_of, find_at, find_marker, is_blank, is_start_of_line, last_non_blank,
    lemma_char_start_of, lemma_end_of_line, lemma_find_at, lemma_last_non_blank, scan_char_start,
    scan_end_of_line, scan_last_non_blank, scan_newline_sequence, spec_end_of_line,
    spec_is_start_of_line, spec_newline_end,
};
use crate::parser::scan::TermError;
use crate::parser::term::{
    event_effect, event_written, lemma_event_written_within, lemma_real_read_within, real_event_read, real_refused_here, ParseTerm,
    TermParser,
};
use crate::text::{at_char_start, bytes_equal, lemma_after_ascii_starts_char, lemma_ascii_starts_char, substring};
use vstd::prelude::*;
use vstd::string::StringSliceAdditionalSpecFns;

verus! {

/// Why a document could not be parsed.
#[derive(Clone, Copy, Debug, PartialEq, Eq, Structural)]
pub enum ProseError {
    ConflictingRegionLabel,
    InvalidIndentation,
    UnexpectedCharacter,
    UnmatchedRegionEnd,
    UnmatchedRegionStart,
    Term(TermError),
}

impl From<TermError> for ProseError {
    fn from(error: TermError) -> (r: Self)
        ensures
            r == ProseError::Term(error),
    {
        ProseError::Term(error)
    }
}

impl vstd::std_specs::convert::FromSpecImpl<TermError> for ProseError {
    open spec fn obeys_from_spec() -> bool {
        true
    }

    open spec fn from_spec(v: TermError) -> Self {
        ProseError::Term(v)
    }
}

/// A piece of a parsed document: text, the start or end of a region, or an
/// event of the facts asserted at a marker.
#[derive(Clone, Copy, Debug)]
pub enum ProseChunk<'a> {
    Text(&'a str),
    RegionStart { id: usize },
    RegionEnd { id: usize },
    TermEvent(ParseTerm<'a>),
}

impl<'a> ProseChunk<'a> {
    /// A text chunk, unless the text is empty.
    pub fn from_nonempty_text(text: &'a str) -> (r: Option<Self>)
        ensures
            text.spec_bytes().len() == 0 ==> r is None,
            text.spec_bytes().len() > 0 ==> r == Some(ProseChunk::Text(text)),
    {
        if text.as_bytes().len() == 0 {
            return None;
        }
        Some(ProseChunk::Text(text))
    }
}

/// A marker: an `@` and what follows it.
#[derive(Clone, Copy, Debug)]
pub enum Marker<'a> {
    EscapedAt { marker_start: usize },
    PointStart { marker_start: usize, body_start: usize },
    RegionOpenStart { label: Option<&'a str>, marker_start: usize, body_start: usize },
    RegionClose { label: Option<&'a str>, marker_start: usize, marker_end: usize },
    BlockOpenStart { marker_start: usize, body_start: usize },
    BlockClose { marker_start: usize },
    Invalid { marker_start: usize },
}

impl<'a> Marker<'a> {
    pub open spec fn spec_marker_start(self) -> usize {
        match self {
            Marker::EscapedAt { marker_start } => marker_start,
            Marker::PointStart { marker_start, .. } => marker_start,
            Marker::RegionOpenStart { marker_start, .. } => marker_start,
            Marker::RegionClose { marker_start, .. } => marker_start,
            Marker::BlockOpenStart { marker_start, .. } => marker_start,
            Marker::BlockClose { marker_start } => marker_start,
            Marker::Invalid { marker_start } => marker_start,
        }
    }

    /// Where the `@` of the marker is.
    pub fn marker_start(&self) -> (r: usize)
        ensures
            r == self.spec_marker_start(),
    {
        match *self {
            Marker::EscapedAt { marker_start } => marker_start,
            Marker::PointStart { marker_start, .. } => marker_start,
            Marker::RegionOpenStart { marker_start, .. } => marker_start,
            Marker::RegionClose { marker_start, .. } => marker_start,
            Marker::BlockOpenStart { marker_start, .. } => marker_start,
            Marker::BlockClose { marker_start } => marker_start,
            Marker::Invalid { marker_start } => marker_start,
        }
    }

    pub open spec fn spec_block_depth(self, open_blocks: usize) -> Option<usize> {
        match self {
            Marker::BlockOpenStart { .. } => Some(open_blocks),
            Marker::BlockClose { .. } => if open_blocks > 0 {
                Some((open_blocks - 1) as usize)
            } else {
                None
            },
            _ => None,
        }
    }

    /// For a block marker, the number of blocks that enclose its line: all
    /// open blocks for an opening marker, all but the innermost for a
    /// closing one; `None` for other markers, and for a closing marker when
    /// no block is open.
    pub fn block_depth(self, open_blocks: usize) -> (r: Option<usize>)
        ensures
            r == self.spec_block_depth(open_blocks),
    {
        match self {
            Marker::BlockOpenStart { .. } => Some(open_blocks),
            Marker::BlockClose { .. } => if open_blocks > 0 {
                Some(open_blocks - 1)
            } else {
                None
            },
            _ => None,
        }
    }
}

/// Whether `label` holds the bytes `s[from..to]`.
pub open spec fn label_is(label: Option<&str>, s: Seq<u8>, from: int, to: int) -> bool {
    match label {
        Some(l) => l.spec_bytes() == s.subrange(from, to),
        None => false,
    }
}

/// The marker whose `@` is at `offset`: `@@` an escaped `@`; `@{` a point;
/// `@<` and `@label<` the opening of a region; `@[` of a block; `@>` and
/// `@label>` the closing of a region; `@]` of a block; anything else invalid.
pub open spec fn spec_marker(s: Seq<u8>, offset: int, m: Marker) -> bool {
    &&& m.spec_marker_start() == offset
    &&& if offset + 1 >= s.len() {
        m is Invalid
    } else {
        let b = s[offset + 1];
        if b == 0x40 {
            m is EscapedAt
        } else if b == 0x7b {
            m matches Marker::PointStart { body_start, .. } && body_start == offset + 2
        } else if b == 0x3c {
            m matches Marker::RegionOpenStart { label, body_start, .. } && label is None
                && body_start == offset + 2
        } else if b == 0x5b {
            m matches Marker::BlockOpenStart { body_start, .. } && body_start == offset + 2
        } else if b == 0x3e {
            m matches Marker::RegionClose { label, marker_end, .. } && label is None && marker_end
                == offset + 2
        } else if b == 0x5d {
            m is BlockClose
        } else if spec_is_word_ident_start(b) {
            let e = spec_scan_word_ident(s, offset + 1);
            if e < s.len() && s[e] == 0x3c {
                m matches Marker::RegionOpenStart { label, body_start, .. } && label_is(
                    label,
                    s,
                    offset + 1,
                    e,
                ) && body_start == e + 1
            } else if e < s.len() && s[e] == 0x3e {
                m matches Marker::RegionClose { label, marker_end, .. } && label_is(
                    label,
                    s,
                    offset + 1,
                    e,
                ) && marker_end == e + 1
            } else {
                m is Invalid
            }
        } else {
            m is Invalid
        }
    }
}

/// Reads the marker whose `@` is at `offset`.
pub fn scan_marker<'a>(source: &'a str, offset: usize) -> (r: Marker<'a>)
    requires
        offset < source.spec_bytes().len(),
        source.spec_bytes()[offset as int] == 0x40,
    ensures
        spec_marker(source.spec_bytes(), offset as int, r),
{
    let bytes = source.as_bytes();
    let len = bytes.len();
    if len - offset < 2 {
        return Marker::Invalid { marker_start: offset };
    }
    let b = bytes[offset + 1];
    if b == 0x40 {
        Marker::EscapedAt { marker_start: offset }
    } else if b == 0x7b {
        Marker::PointStart { marker_start: offset, body_start: offset + 2 }
    } else if b == 0x3c {
        Marker::RegionOpenStart { label: None, marker_start: offset, body_start: offset + 2 }
    } else if b == 0x5b {
        Marker::BlockOpenStart { marker_start: offset, body_start: offset + 2 }
    } else if b == 0x3e {
        Marker::RegionClose { label: None, marker_start: offset, marker_end: offset + 2 }
    } else if b == 0x5d {
        Marker::BlockClose { marker_start: offset }
    } else if is_word_ident_start(b) {
        let label_start = offset + 1;
        let label_end = scan_word_ident_bytes(bytes, label_start);
        proof {
            lemma_scan_word_ident_bounds(bytes@, label_start as int);
        }
        if label_end < len && (bytes[label_end] == 0x3c || bytes[label_end] == 0x3e) {
            proof {
                vstd::utf8::encode_utf8_valid_utf8(source@);
                lemma_after_ascii_starts_char(bytes@, offset as int);
                lemma_ascii_starts_char(bytes@, label_end as int);
            }
            let label = Some(substring(source, label_start, label_end));
            if bytes[label_end] == 0x3c {
                Marker::RegionOpenStart { label, marker_start: offset, body_start: label_end + 1 }
            } else {
                Marker::RegionClose { label, marker_start: offset, marker_end: label_end + 1 }
            }
        } else {
            Marker::Invalid { marker_start: offset }
        }
    } else {
        Marker::Invalid { marker_start: offset }
    }
}


/// An open region: its id, and where its opening marker is.
#[derive(Clone, Copy, Debug)]
struct Region {
    id: usize,
    marker_start: usize,
}

/// An open labeled region.
#[derive(Clone, Copy, Debug)]
struct LabeledRegion<'a> {
    label: &'a str,
    region: Region,
}

/// An open block, with the indentation of its lines once a line set it.
#[derive(Clone, Copy, Debug)]
struct Block<'a> {
    region: Region,
    indent: Option<&'a str>,
}

/// What to do once the facts of a marker have been parsed.
#[derive(Clone, Copy, Debug)]
enum MarkerContinuation<'a> {
    PointEnd { id: usize },
    RegionOpenEnd { id: usize, label: Option<&'a str>, marker_start: usize },
    BlockOpenEnd { id: usize, marker_start: usize },
}

/// Where the current run of text ends.
#[derive(Clone, Copy, Debug)]
enum TextBoundary<'a> {
    EndOfFile,
    Inline(Marker<'a>),
    Block { prefix_start: usize, block_depth: usize, marker: Marker<'a> },
}

#[derive(Clone, Copy, Debug)]
enum BlockLineEnd {
    EndOfFile,
    InlineMarker,
    BlockMarker,
}

enum ProseParserState<'a> {
    Idle,
    EmittingText { boundary: TextBoundary<'a> },
    EmittingFacts,
    FinishingBlockEnd,
    Done,
    Failed,
}

spec fn cont_id(c: MarkerContinuation) -> usize {
    match c {
        MarkerContinuation::PointEnd { id } => id,
        MarkerContinuation::RegionOpenEnd { id, .. } => id,
        MarkerContinuation::BlockOpenEnd { id, .. } => id,
    }
}

spec fn region_ids(v: Seq<Region>) -> Set<usize> {
    Set::new(|id: usize| exists|i: int| 0 <= i < v.len() && (#[trigger] v[i]).id == id)
}

spec fn labeled_view<'a>(v: Seq<LabeledRegion<'a>>) -> Seq<Region> {
    v.map_values(|l: LabeledRegion<'a>| l.region)
}

spec fn block_view<'a>(v: Seq<Block<'a>>) -> Seq<Region> {
    v.map_values(|b: Block<'a>| b.region)
}

/// Region ids that strictly increase along the sequence.
spec fn increasing(v: Seq<Region>) -> bool {
    forall|i: int, j: int| 0 <= i < j < v.len() ==> (#[trigger] v[i]).id < (#[trigger] v[j]).id
}

/// Every id below `bound`.
spec fn below(v: Seq<Region>, bound: int) -> bool {
    forall|i: int| 0 <= i < v.len() ==> (#[trigger] v[i]).id < bound
}

/// Every opening marker within the text.
spec fn markers_within(v: Seq<Region>, len: int) -> bool {
    forall|i: int| 0 <= i < v.len() ==> (#[trigger] v[i]).marker_start < len
}

spec fn disjoint(a: Seq<Region>, b: Seq<Region>) -> bool {
    forall|i: int, j: int|
        0 <= i < a.len() && 0 <= j < b.len() ==> (#[trigger] a[i]).id != (#[trigger] b[j]).id
}

/// A parser of Ilk documents: text with markers that assert facts at points
/// and over regions and blocks of the text.
pub struct ProseParser<'a> {
    source: &'a str,
    offset: usize,
    next_region_id: usize,
    labeled_regions: Vec<LabeledRegion<'a>>,
    anonymous_regions: Vec<Region>,
    blocks: Vec<Block<'a>>,
    state: ProseParserState<'a>,
    facts: TermParser<'a>,
    facts_base: usize,
    facts_cont: MarkerContinuation<'a>,
}

impl<'a> ProseParser<'a> {
    pub closed spec fn spec_source(&self) -> &'a str {
        self.source
    }

    pub closed spec fn spec_offset(&self) -> usize {
        self.offset
    }

    /// The id the next region will get: the number of regions started so far.
    pub closed spec fn next_id(&self) -> usize {
        self.next_region_id
    }

    /// The ids of the regions started and not yet ended.
    pub closed spec fn open_regions(&self) -> Set<usize> {
        region_ids(self.anonymous_regions@).union(region_ids(labeled_view(self.labeled_regions@))).union(
            region_ids(block_view(self.blocks@)),
        ).union(
            if self.state is EmittingFacts {
                set![cont_id(self.facts_cont)]
            } else {
                Set::empty()
            },
        )
    }

    pub closed spec fn is_finished(&self) -> bool {
        self.state is Done || self.state is Failed
    }

    /// What is left of the source from the offset is plain text: no marker
    /// is left in it, no block is open, and the parser is between chunks.
    pub closed spec fn plain_rest(&self) -> bool {
        &&& (self.state is Idle || self.state == (ProseParserState::EmittingText {
            boundary: TextBoundary::EndOfFile,
        }))
        &&& self.blocks@.len() == 0
        &&& find_at(self.bytes_view(), self.offset as int) is None
    }

    /// With no region open, outside facts, no region is recorded.
    proof fn lemma_open_empty(&self)
        requires
            self.open_regions() == Set::<usize>::empty(),
            !(self.state is EmittingFacts),
        ensures
            self.anonymous_regions@.len() == 0,
            self.labeled_regions@.len() == 0,
            self.blocks@.len() == 0,
    {
        if self.anon_view().len() > 0 {
            lemma_ids_nonempty(self.anon_view());
            assert(self.open_regions().contains(self.anon_view()[0].id));
        }
        if self.labeled_regions_view().len() > 0 {
            lemma_ids_nonempty(self.labeled_regions_view());
            assert(self.open_regions().contains(self.labeled_regions_view()[0].id));
        }
        if self.blocks_view().len() > 0 {
            lemma_ids_nonempty(self.blocks_view());
            assert(self.open_regions().contains(self.blocks_view()[0].id));
        }
    }

    /// The parser is inside the facts of a marker.
    pub closed spec fn in_facts(&self) -> bool {
        self.state is EmittingFacts
    }

    /// The parser of the facts being read.
    pub closed spec fn facts_parser(&self) -> TermParser<'a> {
        self.facts
    }

    /// How many blocks are open.
    pub closed spec fn open_block_count(&self) -> nat {
        self.blocks@.len()
    }

    /// `p` has just begun the facts of a marker whose body starts at
    /// `body_start`: a parser without operators for the rest of the source,
    /// at its start and between facts, that stops at `terminator`.
    pub open spec fn facts_opened(p: Self, body_start: int, terminator: u8) -> bool {
        &&& p.in_facts()
        &&& p.facts_parser().wf()
        &&& p.facts_parser().is_between_facts()
        &&& !p.facts_parser().is_done()
        &&& !p.facts_parser().is_failed()
        &&& !p.facts_parser().uses_operators()
        &&& p.facts_parser().spec_offset() == 0
        &&& p.facts_parser().spec_terminator() == terminator
        &&& p.facts_parser().spec_source().spec_bytes() == p.spec_source().spec_bytes().subrange(
            body_start,
            p.spec_source().spec_bytes().len() as int,
        )
    }

    /// The region whose marker holds the facts being parsed.
    pub closed spec fn facts_region(&self) -> usize {
        cont_id(self.facts_cont)
    }

    /// The terms emitted in the current fact that no compound event has
    /// consumed yet (zero outside facts).
    pub closed spec fn pending_terms(&self) -> int {
        if self.state is EmittingFacts {
            self.facts.pending_terms()
        } else {
            0
        }
    }

    /// How much of the source is left.
    pub open spec fn remaining(&self) -> int {
        self.spec_source().spec_bytes().len() - self.spec_offset()
    }

    /// How much of the current facts is left (zero outside facts).
    pub closed spec fn facts_remaining(&self) -> int {
        if self.state is EmittingFacts {
            self.facts.spec_source().spec_bytes().len() - self.facts.spec_offset()
        } else {
            0
        }
    }

    /// The operators pending in the current facts (zero outside facts).
    pub closed spec fn facts_pending(&self) -> int {
        if self.state is EmittingFacts {
            self.facts.pending_operators() as int
        } else {
            0
        }
    }

    /// Progress, in lexicographic order: less source left, or as much and less
    /// of the facts left, or as much and fewer pending operators.
    pub open spec fn progressed(new: Self, old: Self) -> bool {
        ||| new.remaining() < old.remaining()
        ||| new.remaining() == old.remaining() && new.facts_remaining() < old.facts_remaining()
        ||| new.remaining() == old.remaining() && new.facts_remaining() == old.facts_remaining()
            && new.facts_pending() < old.facts_pending()
    }

    /// No loss of progress.
    pub open spec fn not_regressed(new: Self, old: Self) -> bool {
        ||| Self::progressed(new, old)
        ||| new.remaining() == old.remaining() && new.facts_remaining() == old.facts_remaining()
            && new.facts_pending() == old.facts_pending()
    }

    /// What a chunk tells of the facts: term events come from the facts of
    /// the region last opened and change the pending terms as `event_effect`
    /// says; a region start enters the facts of that region with no term
    /// pending; every other chunk comes between facts.
    pub open spec fn facts_effect(c: ProseChunk, old: Self, new: Self) -> bool {
        match c {
            ProseChunk::TermEvent(ev) => {
                &&& old.in_facts()
                &&& new.in_facts()
                &&& new.facts_region() == old.facts_region()
                &&& event_effect(ev, old.pending_terms(), new.pending_terms())
            },
            ProseChunk::RegionStart { id } => {
                &&& new.in_facts()
                &&& new.facts_region() == id
                &&& old.pending_terms() == 0
                &&& new.pending_terms() == 0
            },
            _ => {
                &&& !new.in_facts()
                &&& old.pending_terms() == 0
                &&& new.pending_terms() == 0
            },
        }
    }

    /// The offset never passes the end of the source.
    pub proof fn lemma_offset_bound(&self)
        requires
            self.wf(),
        ensures
            self.spec_offset() <= self.spec_source().spec_bytes().len(),
    {
    }

    /// The region whose facts are being parsed is open.
    pub proof fn lemma_facts_region_open(&self)
        requires
            self.wf(),
            self.in_facts(),
        ensures
            self.open_regions().contains(self.facts_region()),
    {
    }

    /// The measures of progress are never negative.
    pub proof fn lemma_progress_bounds(&self)
        requires
            self.wf(),
        ensures
            self.remaining() >= 0,
            self.facts_remaining() >= 0,
            self.facts_pending() >= 0,
    {
        if self.state is EmittingFacts {
            self.facts.lemma_offset_bound();
        }
    }

    pub closed spec fn is_failed(&self) -> bool {
        self.state is Failed
    }

    spec fn bytes_view(&self) -> Seq<u8> {
        self.source.spec_bytes()
    }

    spec fn anon_view(&self) -> Seq<Region> {
        self.anonymous_regions@
    }

    spec fn labeled_regions_view(&self) -> Seq<Region> {
        labeled_view(self.labeled_regions@)
    }

    spec fn blocks_view(&self) -> Seq<Region> {
        block_view(self.blocks@)
    }

    /// The bound below which every stored region id lies.
    spec fn stored_bound(&self) -> int {
        if self.state is EmittingFacts {
            self.next_region_id - 1
        } else {
            self.next_region_id as int
        }
    }

    spec fn regions_wf(&self) -> bool {
        let len = self.bytes_view().len() as int;
        let bound = self.stored_bound();
        &&& increasing(self.anon_view())
        &&& increasing(self.labeled_regions_view())
        &&& increasing(self.blocks_view())
        &&& below(self.anon_view(), bound)
        &&& below(self.labeled_regions_view(), bound)
        &&& below(self.blocks_view(), bound)
        &&& markers_within(self.anon_view(), len)
        &&& markers_within(self.labeled_regions_view(), len)
        &&& markers_within(self.blocks_view(), len)
        &&& disjoint(self.anon_view(), self.labeled_regions_view())
        &&& disjoint(self.anon_view(), self.blocks_view())
        &&& disjoint(self.labeled_regions_view(), self.blocks_view())
        &&& forall|i: int, j: int|
            0 <= i < j < self.labeled_regions@.len() ==> (#[trigger] self.labeled_regions@[i]).label.spec_bytes()
                != (#[trigger] self.labeled_regions@[j]).label.spec_bytes()
        &&& forall|i: int|
            0 <= i < self.blocks@.len() ==> match (#[trigger] self.blocks@[i]).indent {
                Some(ind) => forall|k: int|
                    0 <= k < ind.spec_bytes().len() ==> is_blank(#[trigger] ind.spec_bytes()[k]),
                None => true,
            }
    }

    spec fn boundary_wf(&self, b: TextBoundary<'a>) -> bool {
        let s = self.bytes_view();
        match b {
            TextBoundary::EndOfFile => true,
            TextBoundary::Inline(m) => {
                &&& self.offset <= m.spec_marker_start() < s.len()
                &&& s[m.spec_marker_start() as int] == 0x40
                &&& spec_marker(s, m.spec_marker_start() as int, m)
            },
            TextBoundary::Block { prefix_start, block_depth, marker } => {
                &&& self.offset <= prefix_start <= marker.spec_marker_start() < s.len()
                &&& s[marker.spec_marker_start() as int] == 0x40
                &&& spec_marker(s, marker.spec_marker_start() as int, marker)
                &&& at_char_start(s, prefix_start as int)
                &&& block_depth <= self.blocks@.len()
                &&& forall|k: int|
                    prefix_start <= k < marker.spec_marker_start() ==> is_blank(#[trigger] s[k])
            },
        }
    }

    spec fn facts_wf(&self) -> bool {
        let s = self.bytes_view();
        &&& self.facts.wf()
        &&& self.facts_base <= s.len()
        &&& self.facts.spec_source().spec_bytes() == s.subrange(self.facts_base as int, s.len() as int)
        &&& !self.facts.is_failed()
        &&& self.offset == self.facts_base
        &&& self.next_region_id >= 1
        &&& cont_id(self.facts_cont) == self.next_region_id - 1
        &&& match self.facts_cont {
            MarkerContinuation::RegionOpenEnd { label, marker_start, .. } => {
                &&& marker_start < s.len()
                &&& match label {
                    Some(l) => forall|i: int|
                        0 <= i < self.labeled_regions@.len() ==> (
                        #[trigger] self.labeled_regions@[i]).label.spec_bytes() != l.spec_bytes(),
                    None => true,
                }
            },
            MarkerContinuation::BlockOpenEnd { marker_start, .. } => marker_start < s.len(),
            _ => true,
        }
    }

    /// The parser's invariant.
    pub closed spec fn wf(&self) -> bool {
        let s = self.bytes_view();
        &&& self.offset <= s.len()
        &&& s.len() <= usize::MAX
        &&& (self.state !is Failed ==> {
            &&& self.regions_wf()
            &&& at_char_start(s, self.offset as int)
            &&& self.next_region_id <= self.offset
        })
        &&& match self.state {
            ProseParserState::EmittingText { boundary } => self.boundary_wf(boundary),
            ProseParserState::EmittingFacts => self.facts_wf(),
            ProseParserState::Done => {
                &&& self.anonymous_regions@.len() == 0
                &&& self.labeled_regions@.len() == 0
                &&& self.blocks@.len() == 0
            },
            _ => true,
        }
    }

    /// A parser at the start of `source`.
    pub fn new(source: &'a str) -> (r: Self)
        ensures
            r.wf(),
            r.spec_source() == source,
            r.spec_offset() == 0,
            r.next_id() == 0,
            r.open_regions() == Set::<usize>::empty(),
            !r.is_finished(),
            !r.in_facts(),
            r.pending_terms() == 0,
            r.plain_rest() == (find_at(source.spec_bytes(), 0) is None),
    {
        let _len = source.as_bytes().len();
        let r = ProseParser {
            source,
            offset: 0,
            next_region_id: 0,
            labeled_regions: Vec::new(),
            anonymous_regions: Vec::new(),
            blocks: Vec::new(),
            state: ProseParserState::Idle,
            facts: TermParser::new("", 0x7c, None),
            facts_base: 0,
            facts_cont: MarkerContinuation::PointEnd { id: 0 },
        };
        proof {
            vstd::utf8::encode_utf8_valid_utf8(source@);
            vstd::utf8::is_char_boundary_start_end_of_seq(source.spec_bytes());
            if source.spec_bytes().len() > 0 {
                vstd::utf8::is_char_boundary_iff_not_is_continuation_byte(source.spec_bytes(), 0);
                vstd::utf8::is_char_boundary_start_end_of_seq(source.spec_bytes());
            }
            assert(r.open_regions() =~= Set::<usize>::empty());
        }
        r
    }

    /// The offset in the source the parser has reached (after an error, the
    /// offset of the error).
    pub fn offset(&self) -> (r: usize)
        ensures
            r == self.spec_offset(),
    {
        self.offset
    }
}


proof fn lemma_ids_push(v: Seq<Region>, r: Region)
    ensures
        region_ids(v.push(r)) == region_ids(v).insert(r.id),
{
    assert forall|id: usize| region_ids(v.push(r)).contains(id) <==> region_ids(v).insert(
        r.id,
    ).contains(id) by {
        if region_ids(v).contains(id) {
            let i = choose|i: int| 0 <= i < v.len() && (#[trigger] v[i]).id == id;
            assert(v.push(r)[i] == v[i]);
        }
        if region_ids(v.push(r)).contains(id) {
            let i = choose|i: int| 0 <= i < v.push(r).len() && (#[trigger] v.push(r)[i]).id == id;
            if i < v.len() {
                assert(v.push(r)[i] == v[i]);
            }
        }
        if id == r.id {
            assert(v.push(r)[v.len() as int] == r);
        }
    }
    assert(region_ids(v.push(r)) =~= region_ids(v).insert(r.id));
}

proof fn lemma_ids_remove(v: Seq<Region>, i: int)
    requires
        increasing(v),
        0 <= i < v.len(),
    ensures
        region_ids(v.remove(i)) == region_ids(v).remove(v[i].id),
        increasing(v.remove(i)),
{
    let w = v.remove(i);
    assert forall|id: usize| region_ids(w).contains(id) <==> region_ids(v).remove(v[i].id).contains(
        id,
    ) by {
        if region_ids(w).contains(id) {
            let k = choose|k: int| 0 <= k < w.len() && (#[trigger] w[k]).id == id;
            if k < i {
                assert(w[k] == v[k]);
            } else {
                assert(w[k] == v[k + 1]);
            }
        }
        if region_ids(v).remove(v[i].id).contains(id) {
            let k = choose|k: int| 0 <= k < v.len() && (#[trigger] v[k]).id == id;
            if k < i {
                assert(w[k] == v[k]);
            } else {
                assert(k != i);
                assert(w[k - 1] == v[k]);
            }
        }
    }
    assert(region_ids(w) =~= region_ids(v).remove(v[i].id));
    assert forall|a: int, b: int| 0 <= a < b < w.len() implies (#[trigger] w[a]).id < (
    #[trigger] w[b]).id by {
        let a2 = if a < i {
            a
        } else {
            a + 1
        };
        let b2 = if b < i {
            b
        } else {
            b + 1
        };
        assert(w[a] == v[a2]);
        assert(w[b] == v[b2]);
    }
}

impl<'a> ProseParser<'a> {
    /// `t` is the slice of the source that ends at the offset of `p` and
    /// starts at or after `from`.
    pub open spec fn text_ends_at(t: &str, from: int, p: Self) -> bool {
        exists|k: int|
            from <= k < p.spec_offset() && t.spec_bytes() == p.spec_source().spec_bytes().subrange(
                k,
                p.spec_offset() as int,
            )
    }
}

/// The next chunk is a text chunk holding `b`.
pub open spec fn gives_text<'a>(r: Option<Result<ProseChunk<'a>, ProseError>>, b: Seq<u8>) -> bool {
    r matches Some(Ok(ProseChunk::Text(t))) && t.spec_bytes() == b
}

spec fn step_gives_text<'a>(r: Result<Option<ProseChunk<'a>>, ProseError>, b: Seq<u8>) -> bool {
    r matches Ok(Some(ProseChunk::Text(t))) && t.spec_bytes() == b
}

proof fn lemma_ids_nonempty(v: Seq<Region>)
    requires
        v.len() > 0,
    ensures
        region_ids(v).contains(v[0].id),
{
}

proof fn lemma_ids_empty(v: Seq<Region>)
    requires
        v.len() == 0,
    ensures
        region_ids(v) == Set::<usize>::empty(),
{
    assert(region_ids(v) =~= Set::<usize>::empty());
}

impl<'a> ProseParser<'a> {
    fn bytes(&self) -> (r: &'a [u8])
        ensures
            r@ == self.bytes_view(),
    {
        self.source.as_bytes()
    }

    /// Allocates the next region id.
    fn new_region_id(&mut self) -> (r: usize)
        requires
            old(self).next_region_id < usize::MAX,
        ensures
            r == old(self).next_region_id,
            final(self).next_region_id == old(self).next_region_id + 1,
            final(self).source == old(self).source,
            final(self).offset == old(self).offset,
            final(self).labeled_regions == old(self).labeled_regions,
            final(self).anonymous_regions == old(self).anonymous_regions,
            final(self).blocks == old(self).blocks,
            final(self).state == old(self).state,
            final(self).facts == old(self).facts,
            final(self).facts_base == old(self).facts_base,
            final(self).facts_cont == old(self).facts_cont,
    {
        let id = self.next_region_id;
        self.next_region_id = self.next_region_id + 1;
        id
    }

    /// Skips the blanks and the line break that end a block marker's line.
    fn skip_block_marker_line_end(&mut self) -> (r: Result<(), ProseError>)
        requires
            old(self).offset <= old(self).bytes_view().len(),
            old(self).bytes_view().len() <= usize::MAX,
            at_char_start(old(self).bytes_view(), old(self).offset as int),
        ensures
            final(self).source == old(self).source,
            final(self).next_region_id == old(self).next_region_id,
            final(self).labeled_regions == old(self).labeled_regions,
            final(self).anonymous_regions == old(self).anonymous_regions,
            final(self).blocks == old(self).blocks,
            final(self).state == old(self).state,
            final(self).facts == old(self).facts,
            final(self).facts_base == old(self).facts_base,
            final(self).facts_cont == old(self).facts_cont,
            old(self).offset <= final(self).offset <= final(self).bytes_view().len(),
            r is Ok ==> at_char_start(final(self).bytes_view(), final(self).offset as int),
            r == Err::<(), ProseError>(ProseError::UnexpectedCharacter) || r is Ok,
            ({
                let s = old(self).bytes_view();
                let b = blank_run_end(s, old(self).offset as int, s.len() as int);
                if b == s.len() {
                    r is Ok && final(self).offset == b
                } else if let Some(e) = spec_newline_end(s, b, s.len() as int) {
                    r is Ok && final(self).offset == e
                } else {
                    r is Err && final(self).offset == b
                }
            }),
    {
        let bytes = self.bytes();
        let len = bytes.len();
        let start = self.offset;
        let mut pos = start;
        while pos < len && (bytes[pos] == 0x20 || bytes[pos] == 0x09)
            invariant
                start <= pos <= len,
                len == bytes@.len(),
                pos == start || (pos > 0 && is_blank(bytes@[pos - 1])),
                blank_run_end(bytes@, start as int, len as int) == blank_run_end(bytes@, pos as int, len as int),
            decreases len - pos,
        {
            pos = pos + 1;
        }
        self.offset = pos;
        proof {
            vstd::utf8::encode_utf8_valid_utf8(self.source@);
            if pos > start {
                lemma_after_ascii_starts_char(bytes@, pos - 1);
            }
        }
        if pos == len {
            return Ok(());
        }
        if let Some(newline_end) = scan_newline_sequence(bytes, pos, len) {
            proof {
                lemma_after_ascii_starts_char(bytes@, newline_end - 1);
            }
            self.offset = newline_end;
            return Ok(());
        }
        Err(ProseError::UnexpectedCharacter)
    }
}


/// The first non-blank byte in `s[i..end)`, or `end`.
spec fn blank_run_end(s: Seq<u8>, i: int, end: int) -> int
    decreases end - i,
{
    if i < end && 0 <= i < s.len() && is_blank(s[i]) {
        blank_run_end(s, i + 1, end)
    } else {
        i
    }
}

/// The indentation each block has set for its lines, if it has.
spec fn indent_view<'a>(v: Seq<Block<'a>>) -> Seq<Option<Seq<u8>>> {
    v.map_values(
        |b: Block<'a>|
            match b.indent {
                Some(i) => Some(i.spec_bytes()),
                None => None,
            },
    )
}

/// Whether the line part from `pos` to `end` starts with the indentation of
/// each of the blocks in turn: a block that has set none takes the blanks
/// found there.
spec fn indents_fit(s: Seq<u8>, inds: Seq<Option<Seq<u8>>>, pos: int, end: int) -> bool
    decreases inds.len(),
{
    if inds.len() == 0 {
        true
    } else {
        let ind = match inds[0] {
            Some(i) => i,
            None => s.subrange(pos, blank_run_end(s, pos, end)),
        };
        &&& pos + ind.len() <= end
        &&& s.subrange(pos, pos + ind.len()) == ind
        &&& indents_fit(s, inds.drop_first(), pos + ind.len(), end)
    }
}

/// Where the blocks' indentation ends, read from `pos` as `indents_fit`
/// reads it.
spec fn indents_end(s: Seq<u8>, inds: Seq<Option<Seq<u8>>>, pos: int, end: int) -> int
    decreases inds.len(),
{
    if inds.len() == 0 {
        pos
    } else {
        let ind = match inds[0] {
            Some(i) => i,
            None => s.subrange(pos, blank_run_end(s, pos, end)),
        };
        indents_end(s, inds.drop_first(), pos + ind.len(), end)
    }
}

/// The text of a line inside blocks from `o` up to `end`, as the parser
/// gives it: the rest of a line already begun, up to its line break; a blank
/// line's line break alone; or the line with the blocks' indentation
/// stripped. `None` when only blanks before a block marker (or the end of the
/// text) remain.
spec fn block_line_text(s: Seq<u8>, inds: Seq<Option<Seq<u8>>>, o: int, end: int, inline: bool) -> Option<
    Seq<u8>,
> {
    let p = blank_run_end(s, o, end);
    if !spec_is_start_of_line(s, o) {
        Some(s.subrange(o, spec_end_of_line(s, o, end)))
    } else if p < end {
        match spec_newline_end(s, p, end) {
            Some(e) => Some(s.subrange(p, e)),
            None => {
                let le = spec_end_of_line(s, p, end);
                Some(s.subrange(indents_end(s, inds, o, le), le))
            },
        }
    } else if inline {
        Some(s.subrange(indents_end(s, inds, o, end), end))
    } else {
        None
    }
}

/// Whether the line from `o` up to `end` starts with the blocks'
/// indentation where the parser checks it: on a line with text, or before an
/// inline marker.
spec fn block_line_ok(s: Seq<u8>, inds: Seq<Option<Seq<u8>>>, o: int, end: int, inline: bool) -> bool {
    let p = blank_run_end(s, o, end);
    if !spec_is_start_of_line(s, o) {
        true
    } else if p < end {
        spec_newline_end(s, p, end) is Some || indents_fit(s, inds, o, spec_end_of_line(s, p, end))
    } else if inline {
        indents_fit(s, inds, o, end)
    } else {
        true
    }
}

/// Whether an open region carries the label `l`.
spec fn has_label<'a>(regions: Seq<LabeledRegion<'a>>, l: Seq<u8>) -> bool {
    exists|i: int| 0 <= i < regions.len() && (#[trigger] regions[i]).label.spec_bytes() == l
}

/// Whether a region end with this label (or none) has an open region to
/// close: a labeled one with the label, or an anonymous one.
spec fn can_close<'a>(p: ProseParser<'a>, label: Option<&'a str>) -> bool {
    match label {
        Some(l) => has_label(p.labeled_regions@, l.spec_bytes()),
        None => p.anonymous_regions@.len() > 0,
    }
}

/// What closing a region with this label (or none) gives: the end of the
/// open region with the label, taken out of the labeled ones; or the end of
/// the anonymous region opened last, taken off their stack. The other open
/// regions stay as they were.
spec fn region_closed<'a>(old: ProseParser<'a>, new: ProseParser<'a>, label: Option<&'a str>, r: Result<
    Option<ProseChunk<'a>>,
    ProseError,
>) -> bool {
    match label {
        Some(l) => exists|k: int|
            0 <= k < old.labeled_regions@.len() && (#[trigger] old.labeled_regions@[k]).label.spec_bytes()
                == l.spec_bytes() && r == Ok::<Option<ProseChunk<'a>>, ProseError>(
                Some(ProseChunk::RegionEnd { id: old.labeled_regions@[k].region.id }),
            ) && new.labeled_regions@ == old.labeled_regions@.remove(k) && new.anonymous_regions
                == old.anonymous_regions,
        None => {
            &&& r == Ok::<Option<ProseChunk<'a>>, ProseError>(
                Some(ProseChunk::RegionEnd { id: old.anonymous_regions@.last().id }),
            )
            &&& new.anonymous_regions@ == old.anonymous_regions@.drop_last()
            &&& new.labeled_regions == old.labeled_regions
        },
    }
}

/// Whether the line of a block marker ends at `i`: blanks, then the end of
/// the text or a line break.
spec fn marker_line_ends(s: Seq<u8>, i: int) -> bool {
    let b = blank_run_end(s, i, s.len() as int);
    b == s.len() || spec_newline_end(s, b, s.len() as int) is Some
}

proof fn lemma_blank_run_end(s: Seq<u8>, i: int, end: int)
    requires
        0 <= i <= end <= s.len(),
    ensures
        i <= blank_run_end(s, i, end) <= end,
        forall|k: int| i <= k < blank_run_end(s, i, end) ==> is_blank(#[trigger] s[k]),
    decreases end - i,
{
    if i < end && is_blank(s[i]) {
        lemma_blank_run_end(s, i + 1, end);
    }
}

impl<'a> ProseParser<'a> {
    spec fn unchanged_but_blocks_offset(&self, other: &Self) -> bool {
        &&& self.source == other.source
        &&& self.next_region_id == other.next_region_id
        &&& self.labeled_regions == other.labeled_regions
        &&& self.anonymous_regions == other.anonymous_regions
        &&& self.state == other.state
        &&& self.facts == other.facts
        &&& self.facts_base == other.facts_base
        &&& self.facts_cont == other.facts_cont
        &&& block_view(self.blocks@) == block_view(other.blocks@)
    }

    /// Strips the indentation of the blocks that enclose a line from the
    /// line's `start`; the first line of a block sets its indentation (its
    /// leading blanks). The rest of the line up to `end` is returned.
    fn parse_block_indent(&mut self, start: usize, end: usize, depth: usize) -> (r: Result<
        &'a str,
        ProseError,
    >)
        requires
            old(self).regions_wf(),
            old(self).bytes_view().len() <= usize::MAX,
            start <= end <= old(self).bytes_view().len(),
            at_char_start(old(self).bytes_view(), start as int),
            at_char_start(old(self).bytes_view(), end as int),
            depth <= old(self).blocks@.len(),
        ensures
            final(self).unchanged_but_blocks_offset(old(self)),
            block_view(final(self).blocks@) == block_view(old(self).blocks@),
            final(self).regions_wf(),
            final(self).blocks@.len() == old(self).blocks@.len(),
            match r {
                Ok(t) => {
                    &&& final(self).offset == old(self).offset
                    &&& exists|k: int|
                        start <= k <= end && t.spec_bytes() == old(self).bytes_view().subrange(
                            k,
                            end as int,
                        ) && at_char_start(old(self).bytes_view(), k)
                },
                Err(e) => e == ProseError::InvalidIndentation && final(self).offset == start,
            },
            r is Ok <==> indents_fit(
                old(self).bytes_view(),
                indent_view(old(self).blocks@).take(depth as int),
                start as int,
                end as int,
            ),
            r matches Ok(t) ==> t.spec_bytes() == old(self).bytes_view().subrange(
                indents_end(
                    old(self).bytes_view(),
                    indent_view(old(self).blocks@).take(depth as int),
                    start as int,
                    end as int,
                ),
                end as int,
            ),
    {
        let bytes = self.bytes();
        let ghost s = bytes@;
        let len = bytes.len();
        let mut pos = start;
        let mut i: usize = 0;
        proof {
            vstd::utf8::encode_utf8_valid_utf8(self.source@);
        }
        while i < depth
            invariant
                i <= depth <= self.blocks@.len(),
                start <= pos <= end <= len,
                len == s.len(),
                s == bytes@,
                s == self.bytes_view(),
                vstd::utf8::valid_utf8(s),
                at_char_start(s, pos as int),
                at_char_start(s, end as int),
                self.unchanged_but_blocks_offset(old(self)),
                self.offset == old(self).offset,
                self.regions_wf(),
                self.blocks@.len() == old(self).blocks@.len(),
                indent_view(self.blocks@).subrange(i as int, depth as int) == indent_view(old(self).blocks@).subrange(
                    i as int,
                    depth as int,
                ),
                indents_fit(s, indent_view(old(self).blocks@).take(depth as int), start as int, end as int)
                    == indents_fit(s, indent_view(old(self).blocks@).subrange(i as int, depth as int), pos as int, end as int),
                indents_end(s, indent_view(old(self).blocks@).take(depth as int), start as int, end as int)
                    == indents_end(s, indent_view(old(self).blocks@).subrange(i as int, depth as int), pos as int, end as int),
            decreases depth - i,
        {
            let ghost inds = indent_view(self.blocks@).subrange(i as int, depth as int);
            let ghost blocks0 = self.blocks@;
            proof {
                assert(inds[0] == indent_view(self.blocks@)[i as int]);
                assert(inds.drop_first() =~= indent_view(self.blocks@).subrange(i + 1, depth as int));
            }
            let block = self.blocks[i];
            let indent = match block.indent {
                Some(indent) => indent,
                None => {
                    let mut e = pos;
                    while e < end && (bytes[e] == 0x20 || bytes[e] == 0x09)
                        invariant
                            pos <= e <= end <= len,
                            len == s.len(),
                            s == bytes@,
                            forall|k: int| pos <= k < e ==> is_blank(#[trigger] s[k]),
                            blank_run_end(s, pos as int, end as int) == blank_run_end(s, e as int, end as int),
                        decreases end - e,
                    {
                        e = e + 1;
                    }
                    proof {
                        if e > pos {
                            lemma_after_ascii_starts_char(s, e - 1);
                        }
                        assert(blank_run_end(s, e as int, end as int) == e);
                    }
                    let indent = substring(self.source, pos, e);
                    self.blocks.set(i, Block { region: block.region, indent: Some(indent) });
                    proof {
                        assert(block_view(self.blocks@) =~= block_view(old(self).blocks@));
                        assert forall|j: int| 0 <= j < self.blocks@.len() implies match (
                        #[trigger] self.blocks@[j]).indent {
                            Some(ind) => forall|k: int|
                                0 <= k < ind.spec_bytes().len() ==> is_blank(
                                    #[trigger] ind.spec_bytes()[k],
                                ),
                            None => true,
                        } by {
                            if j == i {
                                assert forall|k: int| 0 <= k < indent.spec_bytes().len() implies is_blank(
                                    #[trigger] indent.spec_bytes()[k],
                                ) by {
                                    assert(indent.spec_bytes()[k] == s[pos + k]);
                                }
                            }
                        }
                    }
                    indent
                },
            };
            let expected = indent.as_bytes();
            let n = expected.len();
            proof {
                assert(expected@ == match inds[0] {
                    Some(x) => x,
                    None => s.subrange(pos as int, blank_run_end(s, pos as int, end as int)),
                });
                assert forall|k: int| 0 <= k < n implies is_blank(#[trigger] expected@[k]) by {
                    let ind = indent;
                    assert(self.blocks@[i as int].indent == Some(ind));
                }
            }
            if end - pos < n || !bytes_equal(&bytes[pos..pos + n], expected) {
                self.offset = start;
                proof {
                    if pos + n <= end {
                        assert(bytes@.subrange(pos as int, pos + n) == s.subrange(pos as int, pos + n));
                    }
                }
                return Err(ProseError::InvalidIndentation);
            }
            proof {
                if n > 0 {
                    assert(s[pos + n - 1] == expected@[n - 1]);
                    lemma_after_ascii_starts_char(s, pos + n - 1);
                }
                assert(bytes@.subrange(pos as int, pos + n) == s.subrange(pos as int, pos + n));
                assert(indent_view(self.blocks@).subrange(i + 1, depth as int) =~= indent_view(blocks0).subrange(
                    i + 1,
                    depth as int,
                ));
                let x = indent_view(old(self).blocks@).subrange(i as int, depth as int);
                assert(x == inds);
                assert(x.drop_first() =~= indent_view(old(self).blocks@).subrange(i + 1, depth as int));
                assert(s.subrange(pos as int, pos + n) == expected@);
                assert(indents_fit(s, x, pos as int, end as int) == indents_fit(s, x.drop_first(), pos + n, end as int));
                assert(indents_end(s, x, pos as int, end as int) == indents_end(s, x.drop_first(), pos + n, end as int));
            }
            pos = pos + n;
            i = i + 1;
        }
        Ok(substring(self.source, pos, end))
    }
}


impl<'a> ProseParser<'a> {
    /// Reads the text of a line inside blocks, up to `end`: the rest of a line
    /// already begun; a blank line's line break; or a line with the blocks'
    /// indentation stripped. At the end, the blanks before a marker are kept
    /// as text only when the marker is inline.
    fn parse_block_line(&mut self, end: usize, ending: BlockLineEnd) -> (r: Result<
        Option<&'a str>,
        ProseError,
    >)
        requires
            old(self).regions_wf(),
            old(self).bytes_view().len() <= usize::MAX,
            old(self).offset <= end <= old(self).bytes_view().len(),
            at_char_start(old(self).bytes_view(), old(self).offset as int),
            at_char_start(old(self).bytes_view(), end as int),
        ensures
            final(self).unchanged_but_blocks_offset(old(self)),
            block_view(final(self).blocks@) == block_view(old(self).blocks@),
            final(self).regions_wf(),
            final(self).blocks@.len() == old(self).blocks@.len(),
            match r {
                Ok(t) => {
                    &&& old(self).offset <= final(self).offset <= end
                    &&& at_char_start(final(self).bytes_view(), final(self).offset as int)
                    &&& (t is None ==> final(self).offset == end)
                    &&& (t matches Some(text) ==> exists|k: int|
                        old(self).offset <= k <= final(self).offset && text.spec_bytes()
                            == old(self).bytes_view().subrange(k, final(self).offset as int))
                },
                Err(_) => final(self).offset == old(self).offset,
            },
            ({
                let s = old(self).bytes_view();
                let o = old(self).offset as int;
                let p = blank_run_end(s, o, end as int);
                let inds = indent_view(old(self).blocks@);
                if !spec_is_start_of_line(s, o) {
                    r is Ok
                } else if p < end {
                    if spec_newline_end(s, p, end as int) is Some {
                        r is Ok
                    } else {
                        r is Ok <==> indents_fit(s, inds, o, spec_end_of_line(s, p, end as int))
                    }
                } else if ending is InlineMarker {
                    r is Ok <==> indents_fit(s, inds, o, end as int)
                } else {
                    r == Ok::<Option<&'a str>, ProseError>(None)
                }
            }),
            r is Ok <==> block_line_ok(
                old(self).bytes_view(),
                indent_view(old(self).blocks@),
                old(self).offset as int,
                end as int,
                ending is InlineMarker,
            ),
            r is Err ==> r == Err::<Option<&'a str>, ProseError>(ProseError::InvalidIndentation),
            r matches Ok(t) ==> match block_line_text(
                old(self).bytes_view(),
                indent_view(old(self).blocks@),
                old(self).offset as int,
                end as int,
                ending is InlineMarker,
            ) {
                Some(b) => t matches Some(text) && text.spec_bytes() == b,
                None => t is None,
            },
    {
        let bytes = self.bytes();
        let ghost s = bytes@;
        let len = bytes.len();
        proof {
            vstd::utf8::encode_utf8_valid_utf8(self.source@);
        }
        if !is_start_of_line(bytes, self.offset) {
            let line_end = scan_end_of_line(bytes, self.offset, end);
            proof {
                lemma_end_of_line(s, self.offset as int, end as int);
                if line_end < end {
                    lemma_after_ascii_starts_char(s, line_end - 1);
                }
            }
            let text = substring(self.source, self.offset, line_end);
            self.offset = line_end;
            return Ok(Some(text));
        }
        let line_start = self.offset;
        let mut pos = line_start;
        while pos < end && (bytes[pos] == 0x20 || bytes[pos] == 0x09)
            invariant
                line_start <= pos <= end <= len,
                len == s.len(),
                s == bytes@,
                pos == line_start || (pos > 0 && is_blank(s[pos - 1])),
                blank_run_end(s, line_start as int, end as int) == blank_run_end(s, pos as int, end as int),
            decreases end - pos,
        {
            pos = pos + 1;
        }
        proof {
            assert(indent_view(self.blocks@).take(self.blocks@.len() as int) =~= indent_view(self.blocks@));
        }
        proof {
            if pos > line_start {
                lemma_after_ascii_starts_char(s, pos - 1);
            }
        }
        if pos < end {
            if let Some(newline_end) = scan_newline_sequence(bytes, pos, end) {
                proof {
                    lemma_after_ascii_starts_char(s, newline_end - 1);
                }
                let text = substring(self.source, pos, newline_end);
                self.offset = newline_end;
                assert(text.spec_bytes() == s.subrange(pos as int, self.offset as int));
                return Ok(Some(text));
            }
            let line_end = scan_end_of_line(bytes, pos, end);
            proof {
                lemma_end_of_line(s, pos as int, end as int);
                if line_end < end {
                    lemma_after_ascii_starts_char(s, line_end - 1);
                }
            }
            let depth = self.blocks.len();
            let text = self.parse_block_indent(line_start, line_end, depth)?;
            self.offset = line_end;
            proof {
                let k = choose|k: int|
                    line_start <= k <= line_end && text.spec_bytes() == s.subrange(k, line_end as int)
                        && at_char_start(s, k);
                assert(text.spec_bytes() == s.subrange(k, self.offset as int));
            }
            return Ok(Some(text));
        }
        match ending {
            BlockLineEnd::InlineMarker => {
                let depth = self.blocks.len();
                let text = self.parse_block_indent(line_start, end, depth)?;
                self.offset = end;
                proof {
                    let k = choose|k: int|
                        line_start <= k <= end && text.spec_bytes() == s.subrange(k, end as int)
                            && at_char_start(s, k);
                    assert(text.spec_bytes() == s.subrange(k, self.offset as int));
                }
                Ok(Some(text))
            },
            _ => {
                self.offset = end;
                Ok(None)
            },
        }
    }
}


/// Where the blanks before a block marker at `m` start: after the line break
/// before them, or at the start of the text.
pub open spec fn line_prefix(s: Seq<u8>, m: int) -> int {
    match last_non_blank(s, m) {
        Some(q) => q + 1,
        None => 0,
    }
}

impl<'a> ProseParser<'a> {
    /// What `find_boundary` finds: the end of the text if no `@` follows; an
    /// inline marker; or a block marker, which must stand alone on its line
    /// (else the error is at the character before it on the line).
    spec fn boundary_spec(&self, r: Result<TextBoundary<'a>, usize>) -> bool {
        let s = self.bytes_view();
        let o = self.offset as int;
        match find_at(s, o) {
            None => r matches Ok(TextBoundary::EndOfFile),
            Some(m) => match r {
                Ok(TextBoundary::Inline(mk)) => spec_marker(s, m, mk) && mk.spec_block_depth(
                    self.blocks@.len() as usize,
                ) is None,
                Ok(TextBoundary::Block { prefix_start, block_depth, marker }) => {
                    &&& spec_marker(s, m, marker)
                    &&& (last_non_blank(s, m) is None || (last_non_blank(s, m) matches Some(q) && s[q] == 0x0a))
                    &&& marker.spec_block_depth(self.blocks@.len() as usize) == Some(block_depth)
                    &&& prefix_start == if line_prefix(s, m) < o {
                        o
                    } else {
                        line_prefix(s, m)
                    }
                },
                Ok(TextBoundary::EndOfFile) => false,
                Err(p) => {
                    &&& exists|mk: Marker<'a>|
                        spec_marker(s, m, mk) && (#[trigger] mk.spec_block_depth(
                            self.blocks@.len() as usize,
                        )) is Some
                    &&& last_non_blank(s, m) matches Some(q) && s[q] != 0x0a && p == char_start_of(
                        s,
                        q,
                    )
                },
            },
        }
    }

    fn find_boundary(&self) -> (r: Result<TextBoundary<'a>, usize>)
        requires
            self.offset <= self.bytes_view().len(),
            self.bytes_view().len() <= usize::MAX,
            at_char_start(self.bytes_view(), self.offset as int),
        ensures
            self.boundary_spec(r),
            r matches Ok(b) ==> self.boundary_wf(b),
            r matches Err(p) ==> p <= self.bytes_view().len(),
    {
        let bytes = self.bytes();
        let ghost s = bytes@;
        proof {
            lemma_find_at(s, self.offset as int);
        }
        match find_marker(bytes, self.offset) {
            Some(marker_start) => {
                let marker = scan_marker(self.source, marker_start);
                match marker.block_depth(self.blocks.len()) {
                    Some(block_depth) => {
                        proof {
                            lemma_last_non_blank(s, marker_start as int);
                        }
                        let prefix_start = match scan_last_non_blank(bytes, marker_start) {
                            None => 0,
                            Some(previous) => {
                                if bytes[previous] == 0x0a {
                                    previous + 1
                                } else {
                                    proof {
                                        lemma_char_start_of(s, previous as int);
                                    }
                                    return Err(scan_char_start(bytes, previous));
                                }
                            },
                        };
                        let prefix_start = if prefix_start < self.offset {
                            self.offset
                        } else {
                            prefix_start
                        };
                        proof {
                            vstd::utf8::encode_utf8_valid_utf8(self.source@);
                            if prefix_start > self.offset {
                                lemma_after_ascii_starts_char(s, prefix_start - 1);
                            }
                        }
                        Ok(TextBoundary::Block { prefix_start, block_depth, marker })
                    },
                    None => Ok(TextBoundary::Inline(marker)),
                }
            },
            None => Ok(TextBoundary::EndOfFile),
        }
    }
}


/// How a chunk changes the regions: a region start opens the next id; a
/// region end closes a region that is open; nothing else changes them.
pub open spec fn chunk_effect(
    c: ProseChunk,
    open_before: Set<usize>,
    open_after: Set<usize>,
    next_before: usize,
    next_after: usize,
) -> bool {
    match c {
        ProseChunk::RegionStart { id } => {
            &&& id == next_before
            &&& next_after == next_before + 1
            &&& !open_before.contains(id)
            &&& open_after == open_before.insert(id)
        },
        ProseChunk::RegionEnd { id } => {
            &&& open_before.contains(id)
            &&& open_after == open_before.remove(id)
            &&& next_after == next_before
        },
        _ => open_after == open_before && next_after == next_before,
    }
}

/// Whether the chunks before `k` start region `x`.
pub open spec fn started_before(cs: Seq<ProseChunk>, k: int, x: usize) -> bool {
    exists|i: int| 0 <= i < k && #[trigger] cs[i] == (ProseChunk::RegionStart { id: x })
}

/// Whether the chunks before `k` end region `x`.
pub open spec fn ended_before(cs: Seq<ProseChunk>, k: int, x: usize) -> bool {
    exists|i: int| 0 <= i < k && #[trigger] cs[i] == (ProseChunk::RegionEnd { id: x })
}

/// Chunks given one after another from a new parser: each changes the open
/// regions and the next id as `chunk_effect` says, from no open region and
/// id zero.
pub open spec fn chunk_stream(cs: Seq<ProseChunk>, opens: Seq<Set<usize>>, nexts: Seq<usize>) -> bool {
    &&& opens.len() == cs.len() + 1
    &&& nexts.len() == cs.len() + 1
    &&& opens[0] == Set::<usize>::empty()
    &&& nexts[0] == 0
    &&& forall|i: int| 0 <= i < cs.len() ==> chunk_effect(#[trigger] cs[i], opens[i], opens[i + 1], nexts[i], nexts[i + 1])
}

proof fn lemma_stream_state(cs: Seq<ProseChunk>, opens: Seq<Set<usize>>, nexts: Seq<usize>, k: int)
    requires
        chunk_stream(cs, opens, nexts),
        0 <= k <= cs.len(),
    ensures
        forall|x: usize| #[trigger] started_before(cs, k, x) <==> x < nexts[k],
        forall|x: usize| #[trigger] opens[k].contains(x) <==> x < nexts[k] && !ended_before(cs, k, x),
        forall|x: usize| #[trigger] ended_before(cs, k, x) ==> x < nexts[k],
    decreases k,
{
    if k > 0 {
        lemma_stream_state(cs, opens, nexts, k - 1);
        let c = cs[k - 1];
        assert(chunk_effect(c, opens[k - 1], opens[k], nexts[k - 1], nexts[k]));
        assert forall|x: usize| #[trigger] started_before(cs, k, x) <==> x < nexts[k] by {
            assert(started_before(cs, k - 1, x) <==> x < nexts[k - 1]);
            if started_before(cs, k - 1, x) {
                let i = choose|i: int| 0 <= i < k - 1 && #[trigger] cs[i] == (ProseChunk::RegionStart { id: x });
                assert(0 <= i < k && cs[i] == (ProseChunk::RegionStart { id: x }));
            }
            if started_before(cs, k, x) {
                let i = choose|i: int| 0 <= i < k && #[trigger] cs[i] == (ProseChunk::RegionStart { id: x });
                if i < k - 1 {
                    assert(started_before(cs, k - 1, x));
                }
            }
            match c {
                ProseChunk::RegionStart { id } => {
                    if x == id {
                        assert(cs[k - 1] == (ProseChunk::RegionStart { id: x }));
                    }
                    if started_before(cs, k, x) && !started_before(cs, k - 1, x) {
                        assert(cs[k - 1] == (ProseChunk::RegionStart { id: x }));
                    }
                },
                _ => {
                    if started_before(cs, k, x) && !started_before(cs, k - 1, x) {
                        let i = choose|i: int| 0 <= i < k && #[trigger] cs[i] == (ProseChunk::RegionStart { id: x });
                        assert(i == k - 1);
                    }
                },
            }
        }
        assert forall|x: usize| #[trigger] opens[k].contains(x) <==> x < nexts[k] && !ended_before(cs, k, x) by {
            assert(opens[k - 1].contains(x) <==> x < nexts[k - 1] && !ended_before(cs, k - 1, x));
            if ended_before(cs, k - 1, x) {
                let i = choose|i: int| 0 <= i < k - 1 && #[trigger] cs[i] == (ProseChunk::RegionEnd { id: x });
                assert(0 <= i < k && cs[i] == (ProseChunk::RegionEnd { id: x }));
            }
            if ended_before(cs, k, x) && !ended_before(cs, k - 1, x) {
                let i = choose|i: int| 0 <= i < k && #[trigger] cs[i] == (ProseChunk::RegionEnd { id: x });
                assert(i == k - 1);
            }
            assert(ended_before(cs, k - 1, x) ==> x < nexts[k - 1]);
            match c {
                ProseChunk::RegionEnd { id } => {
                    if x == id {
                        assert(cs[k - 1] == (ProseChunk::RegionEnd { id: x }));
                        assert(ended_before(cs, k, x));
                    }
                },
                _ => {},
            }
        }
        assert forall|x: usize| #[trigger] ended_before(cs, k, x) implies x < nexts[k] by {
            assert(ended_before(cs, k - 1, x) ==> x < nexts[k - 1]);
            assert(opens[k - 1].contains(x) <==> x < nexts[k - 1] && !ended_before(cs, k - 1, x));
            if !ended_before(cs, k - 1, x) {
                let i = choose|i: int| 0 <= i < k && #[trigger] cs[i] == (ProseChunk::RegionEnd { id: x });
                if i < k - 1 {
                    assert(ended_before(cs, k - 1, x));
                }
            }
        }
    }
}

/// Over the chunks a parser gives: regions start with the ids 0, 1, 2, ...
/// in order, each once; a region ends only after it has started, and at
/// most once; and when no region is left open, every region that started
/// has ended.
pub proof fn lemma_chunk_stream(cs: Seq<ProseChunk>, opens: Seq<Set<usize>>, nexts: Seq<usize>)
    requires
        chunk_stream(cs, opens, nexts),
    ensures
        forall|i: int|
            0 <= i < cs.len() && #[trigger] cs[i] is RegionStart ==> cs[i]->RegionStart_id == nexts[i] && !started_before(
                cs,
                i,
                cs[i]->RegionStart_id,
            ),
        forall|x: usize| #[trigger] started_before(cs, cs.len() as int, x) <==> x < nexts[cs.len() as int],
        forall|j: int|
            0 <= j < cs.len() && #[trigger] cs[j] is RegionEnd ==> started_before(cs, j, cs[j]->RegionEnd_id)
                && !ended_before(cs, j, cs[j]->RegionEnd_id),
        opens[cs.len() as int] == Set::<usize>::empty() ==> forall|x: usize|
            started_before(cs, cs.len() as int, x) ==> #[trigger] ended_before(cs, cs.len() as int, x),
{
    lemma_stream_state(cs, opens, nexts, cs.len() as int);
    assert forall|i: int|
        0 <= i < cs.len() && #[trigger] cs[i] is RegionStart implies cs[i]->RegionStart_id == nexts[i] && !started_before(
            cs,
            i,
            cs[i]->RegionStart_id,
        ) by {
        lemma_stream_state(cs, opens, nexts, i);
        assert(chunk_effect(cs[i], opens[i], opens[i + 1], nexts[i], nexts[i + 1]));
    }
    assert forall|j: int|
        0 <= j < cs.len() && #[trigger] cs[j] is RegionEnd implies started_before(cs, j, cs[j]->RegionEnd_id)
            && !ended_before(cs, j, cs[j]->RegionEnd_id) by {
        lemma_stream_state(cs, opens, nexts, j);
        assert(chunk_effect(cs[j], opens[j], opens[j + 1], nexts[j], nexts[j + 1]));
        assert(opens[j].contains(cs[j]->RegionEnd_id));
    }
    if opens[cs.len() as int] == Set::<usize>::empty() {
        assert forall|x: usize| started_before(cs, cs.len() as int, x) implies #[trigger] ended_before(
            cs,
            cs.len() as int,
            x,
        ) by {
            assert(!opens[cs.len() as int].contains(x));
        }
    }
}

proof fn lemma_push_fresh(v: Seq<Region>, r: Region, bound: int)
    requires
        increasing(v),
        below(v, bound),
        r.id >= bound,
    ensures
        increasing(v.push(r)),
        below(v.push(r), r.id + 1),
{
    assert forall|i: int, j: int| 0 <= i < j < v.push(r).len() implies (#[trigger] v.push(
        r,
    )[i]).id < (#[trigger] v.push(r)[j]).id by {
        assert(v.push(r)[i] == v[i]);
        if j < v.len() {
            assert(v.push(r)[j] == v[j]);
        }
    }
    assert forall|i: int| 0 <= i < v.push(r).len() implies (#[trigger] v.push(r)[i]).id < r.id
        + 1 by {
        if i < v.len() {
            assert(v.push(r)[i] == v[i]);
        }
    }
}

proof fn lemma_below_mono(v: Seq<Region>, a: int, b: int)
    requires
        below(v, a),
        a <= b,
    ensures
        below(v, b),
{
}

proof fn lemma_disjoint_push(a: Seq<Region>, b: Seq<Region>, r: Region, bound: int)
    requires
        disjoint(a, b),
        below(a, bound),
        r.id >= bound,
    ensures
        disjoint(a, b.push(r)),
        disjoint(b.push(r), a),
{
    assert forall|i: int, j: int| 0 <= i < a.len() && 0 <= j < b.push(r).len() implies (
    #[trigger] a[i]).id != (#[trigger] b.push(r)[j]).id by {
        if j < b.len() {
            assert(b.push(r)[j] == b[j]);
        }
    }
    assert forall|i: int, j: int| 0 <= i < b.push(r).len() && 0 <= j < a.len() implies (
    #[trigger] b.push(r)[i]).id != (#[trigger] a[j]).id by {
        if i < b.len() {
            assert(b.push(r)[i] == b[i]);
        }
    }
}

proof fn lemma_disjoint_sym(a: Seq<Region>, b: Seq<Region>)
    requires
        disjoint(a, b),
    ensures
        disjoint(b, a),
{
    assert forall|i: int, j: int| 0 <= i < b.len() && 0 <= j < a.len() implies (
    #[trigger] b[i]).id != (#[trigger] a[j]).id by {
        assert(a[j].id != b[i].id);
    }
}

proof fn lemma_remove_keeps(v: Seq<Region>, i: int, bound: int, len: int, other: Seq<Region>)
    requires
        0 <= i < v.len(),
        below(v, bound),
        markers_within(v, len),
        disjoint(v, other),
    ensures
        below(v.remove(i), bound),
        markers_within(v.remove(i), len),
        disjoint(v.remove(i), other),
        disjoint(other, v.remove(i)),
{
    let w = v.remove(i);
    assert forall|k: int| 0 <= k < w.len() implies #[trigger] w[k] == v[if k < i {
        k
    } else {
        k + 1
    }] by {}
    assert forall|k: int| 0 <= k < w.len() implies (#[trigger] w[k]).id < bound by {
        assert(w[k] == v[if k < i {
            k
        } else {
            k + 1
        }]);
    }
    assert forall|k: int| 0 <= k < w.len() implies (#[trigger] w[k]).marker_start < len by {
        assert(w[k] == v[if k < i {
            k
        } else {
            k + 1
        }]);
    }
    assert forall|a: int, b: int| 0 <= a < w.len() && 0 <= b < other.len() implies (
    #[trigger] w[a]).id != (#[trigger] other[b]).id by {
        assert(w[a] == v[if a < i {
            a
        } else {
            a + 1
        }]);
    }
    lemma_disjoint_sym(w, other);
}

proof fn lemma_labeled_push<'a>(v: Seq<LabeledRegion<'a>>, x: LabeledRegion<'a>)
    ensures
        labeled_view(v.push(x)) == labeled_view(v).push(x.region),
{
    assert(labeled_view(v.push(x)) =~= labeled_view(v).push(x.region));
}

proof fn lemma_labeled_remove<'a>(v: Seq<LabeledRegion<'a>>, i: int)
    requires
        0 <= i < v.len(),
    ensures
        labeled_view(v.remove(i)) == labeled_view(v).remove(i),
{
    assert(labeled_view(v.remove(i)) =~= labeled_view(v).remove(i));
}

proof fn lemma_block_push<'a>(v: Seq<Block<'a>>, x: Block<'a>)
    ensures
        block_view(v.push(x)) == block_view(v).push(x.region),
{
    assert(block_view(v.push(x)) =~= block_view(v).push(x.region));
}

proof fn lemma_block_pop<'a>(v: Seq<Block<'a>>)
    requires
        v.len() > 0,
    ensures
        block_view(v.drop_last()) == block_view(v).remove(v.len() - 1),
{
    assert(block_view(v.drop_last()) =~= block_view(v).remove(v.len() - 1));
}

impl<'a> ProseParser<'a> {
    /// How far the parser is from the end: each step that emits nothing
    /// brings it closer.
    spec fn measure(&self) -> int {
        5 * (self.bytes_view().len() - self.offset) + match self.state {
            ProseParserState::Done => 0int,
            ProseParserState::Failed => 0int,
            ProseParserState::EmittingText { .. } => 1int,
            ProseParserState::Idle => 2int,
            ProseParserState::FinishingBlockEnd => 3int,
            ProseParserState::EmittingFacts => 4int,
        }
    }

    spec fn step_post(old: Self, new: Self, r: Result<Option<ProseChunk<'a>>, ProseError>) -> bool {
        &&& new.source == old.source
        &&& new.offset <= new.bytes_view().len()
        &&& new.bytes_view().len() <= usize::MAX
        &&& match r {
            Ok(None) => {
                &&& new.wf()
                &&& !new.is_failed()
                &&& new.measure() < old.measure()
                &&& new.open_regions() == old.open_regions()
                &&& new.next_region_id == old.next_region_id
                &&& Self::not_regressed(new, old)
                &&& !new.in_facts()
                &&& new.pending_terms() == old.pending_terms()
            },
            Ok(Some(c)) => {
                &&& new.wf()
                &&& !new.is_finished()
                &&& chunk_effect(
                    c,
                    old.open_regions(),
                    new.open_regions(),
                    old.next_region_id,
                    new.next_region_id,
                )
                &&& (c matches ProseChunk::Text(t) ==> t.spec_bytes().len() > 0)
                &&& (c matches ProseChunk::Text(t) ==> Self::text_ends_at(t, old.offset as int, new))
                &&& (c matches ProseChunk::TermEvent(ev) ==> event_written(ev, new.bytes_view()))
                &&& Self::progressed(new, old)
                &&& Self::facts_effect(c, old, new)
            },
            Err(_) => true,
        }
    }

    /// Starts parsing the facts of a marker, whose body starts at `body_start`.
    fn begin_parsing_facts(&mut self, body_start: usize, terminator: u8, cont: MarkerContinuation<'a>)
        requires
            body_start <= old(self).bytes_view().len(),
            at_char_start(old(self).bytes_view(), body_start as int),
            terminator < 0x80,
        ensures
            final(self).source == old(self).source,
            final(self).next_region_id == old(self).next_region_id,
            final(self).labeled_regions == old(self).labeled_regions,
            final(self).anonymous_regions == old(self).anonymous_regions,
            final(self).blocks == old(self).blocks,
            final(self).state is EmittingFacts,
            final(self).facts_base == body_start,
            final(self).offset == body_start,
            final(self).facts_cont == cont,
            final(self).facts.wf(),
            !final(self).facts.is_failed(),
            final(self).facts.spec_offset() == 0,
            final(self).facts.pending_terms() == 0,
            final(self).facts.spec_source().spec_bytes() == old(self).bytes_view().subrange(
                body_start as int,
                old(self).bytes_view().len() as int,
            ),
            Self::facts_opened(*final(self), body_start as int, terminator),
    {
        let len = self.source.as_bytes().len();
        proof {
            vstd::utf8::encode_utf8_valid_utf8(self.source@);
            vstd::utf8::is_char_boundary_start_end_of_seq(self.source.spec_bytes());
        }
        let body = substring(self.source, body_start, len);
        self.offset = body_start;
        self.facts = TermParser::new(body, terminator, None);
        self.facts_base = body_start;
        self.facts_cont = cont;
        self.state = ProseParserState::EmittingFacts;
    }
}


impl<'a> ProseParser<'a> {
    /// Finds the open labeled region with this label.
    fn find_label(&self, label: &str) -> (r: Option<usize>)
        ensures
            match r {
                Some(i) => i < self.labeled_regions@.len() && self.labeled_regions@[i as int].label.spec_bytes()
                    == label.spec_bytes(),
                None => forall|i: int|
                    0 <= i < self.labeled_regions@.len() ==> (
                    #[trigger] self.labeled_regions@[i]).label.spec_bytes() != label.spec_bytes(),
            },
    {
        let wanted = label.as_bytes();
        let mut i: usize = 0;
        while i < self.labeled_regions.len()
            invariant
                i <= self.labeled_regions@.len(),
                wanted@ == label.spec_bytes(),
                forall|k: int|
                    0 <= k < i ==> (#[trigger] self.labeled_regions@[k]).label.spec_bytes()
                        != label.spec_bytes(),
            decreases self.labeled_regions@.len() - i,
        {
            if bytes_equal(self.labeled_regions[i].label.as_bytes(), wanted) {
                return Some(i);
            }
            i += 1;
        }
        None
    }

    /// Opens a region at a marker: allocates its id and starts on its facts.
    fn open_region_at(
        &mut self,
        body_start: usize,
        terminator: u8,
        cont: MarkerContinuation<'a>,
    ) -> (r: Result<Option<ProseChunk<'a>>, ProseError>)
        requires
            old(self).wf(),
            old(self).state is Idle,
            old(self).offset < body_start <= old(self).bytes_view().len(),
            at_char_start(old(self).bytes_view(), body_start as int),
            terminator < 0x80,
            cont_id(cont) == old(self).next_region_id,
            match cont {
                MarkerContinuation::RegionOpenEnd { label, marker_start, .. } => {
                    &&& marker_start < old(self).bytes_view().len()
                    &&& match label {
                        Some(l) => forall|i: int|
                            0 <= i < old(self).labeled_regions@.len() ==> (
                            #[trigger] old(self).labeled_regions@[i]).label.spec_bytes()
                                != l.spec_bytes(),
                        None => true,
                    }
                },
                MarkerContinuation::BlockOpenEnd { marker_start, .. } => marker_start
                    < old(self).bytes_view().len(),
                _ => true,
            },
        ensures
            Self::step_post(*old(self), *final(self), r),
            r == Ok::<Option<ProseChunk<'a>>, ProseError>(
                Some(ProseChunk::RegionStart { id: old(self).next_region_id }),
            ),
            Self::facts_opened(*final(self), body_start as int, terminator),
    {
        let id = self.new_region_id();
        self.begin_parsing_facts(body_start, terminator, cont);
        proof {
            let before = *old(self);
            assert forall|i: int| 0 <= i < before.anon_view().len() implies (
            #[trigger] before.anon_view()[i]).id != id by {}
            assert(!region_ids(before.anon_view()).contains(id));
            assert(!region_ids(before.labeled_regions_view()).contains(id)) by {
                if region_ids(before.labeled_regions_view()).contains(id) {
                    let i = choose|i: int|
                        0 <= i < before.labeled_regions_view().len() && (
                        #[trigger] before.labeled_regions_view()[i]).id == id;
                }
            }
            assert(!region_ids(before.blocks_view()).contains(id)) by {
                if region_ids(before.blocks_view()).contains(id) {
                    let i = choose|i: int|
                        0 <= i < before.blocks_view().len() && (#[trigger] before.blocks_view()[i]).id
                            == id;
                }
            }
            assert(self.open_regions() =~= before.open_regions().insert(id));
        }
        Ok(Some(ProseChunk::RegionStart { id }))
    }
}


impl<'a> ProseParser<'a> {
    /// Closes the region named by a closing marker whose `@` is at the
    /// offset: the labeled region with that label, or the innermost open
    /// unlabeled region.
    fn close_region(&mut self, label: Option<&'a str>, marker_end: usize) -> (r: Result<
        Option<ProseChunk<'a>>,
        ProseError,
    >)
        requires
            old(self).wf(),
            old(self).state is Idle,
            old(self).offset < marker_end <= old(self).bytes_view().len(),
            at_char_start(old(self).bytes_view(), marker_end as int),
        ensures
            Self::step_post(*old(self), *final(self), r),
            r is Err ==> r == Err::<Option<ProseChunk<'a>>, ProseError>(
                ProseError::UnmatchedRegionEnd,
            ) && final(self).offset == old(self).offset,
            r is Ok ==> final(self).offset == marker_end,
            r matches Ok(c) ==> c matches Some(ProseChunk::RegionEnd { .. }),
            r is Ok <==> can_close(*old(self), label),
            r is Ok ==> region_closed(*old(self), *final(self), label, r) && final(self).blocks == old(self).blocks,
    {
        let marker_start = self.offset;
        let ghost before = *self;
        let region = match label {
            Some(label) => match self.find_label(label) {
                Some(i) => {
                    let entry = self.labeled_regions.remove(i);
                    proof {
                        lemma_labeled_remove(before.labeled_regions@, i as int);
                        lemma_ids_remove(before.labeled_regions_view(), i as int);
                        lemma_remove_keeps(
                            before.labeled_regions_view(),
                            i as int,
                            before.stored_bound(),
                            before.bytes_view().len() as int,
                            before.anon_view(),
                        );
                        lemma_disjoint_sym(before.anon_view(), before.labeled_regions_view());
                        lemma_remove_keeps(
                            before.labeled_regions_view(),
                            i as int,
                            before.stored_bound(),
                            before.bytes_view().len() as int,
                            before.anon_view(),
                        );
                        lemma_remove_keeps(
                            before.labeled_regions_view(),
                            i as int,
                            before.stored_bound(),
                            before.bytes_view().len() as int,
                            before.blocks_view(),
                        );
                        assert(entry.region == before.labeled_regions_view()[i as int]);
                        assert forall|a: int, b: int|
                            0 <= a < b < self.labeled_regions@.len() implies (
                            #[trigger] self.labeled_regions@[a]).label.spec_bytes() != (
                            #[trigger] self.labeled_regions@[b]).label.spec_bytes() by {
                            let a2 = if a < i {
                                a
                            } else {
                                a + 1
                            };
                            let b2 = if b < i {
                                b
                            } else {
                                b + 1
                            };
                            assert(self.labeled_regions@[a] == before.labeled_regions@[a2]);
                            assert(self.labeled_regions@[b] == before.labeled_regions@[b2]);
                        }
                        let id = entry.region.id;
                        assert(!region_ids(before.anon_view()).contains(id)) by {
                            if region_ids(before.anon_view()).contains(id) {
                                let k = choose|k: int|
                                    0 <= k < before.anon_view().len() && (
                                    #[trigger] before.anon_view()[k]).id == id;
                                assert(before.anon_view()[k].id != before.labeled_regions_view()[i as int].id);
                            }
                        }
                        assert(!region_ids(before.blocks_view()).contains(id)) by {
                            if region_ids(before.blocks_view()).contains(id) {
                                let k = choose|k: int|
                                    0 <= k < before.blocks_view().len() && (
                                    #[trigger] before.blocks_view()[k]).id == id;
                                assert(before.labeled_regions_view()[i as int].id != before.blocks_view()[k].id);
                            }
                        }
                        assert(region_ids(before.labeled_regions_view()).contains(id));
                        assert(self.open_regions() =~= before.open_regions().remove(id));
                    }
                    Some(entry.region)
                },
                None => None,
            },
            None => {
                let popped = self.anonymous_regions.pop();
                match popped {
                    Some(region) => {
                        proof {
                            let n = before.anon_view().len();
                            assert(self.anonymous_regions@ =~= before.anon_view().remove(n - 1));
                            lemma_ids_remove(before.anon_view(), n - 1);
                            lemma_remove_keeps(
                                before.anon_view(),
                                n - 1,
                                before.stored_bound(),
                                before.bytes_view().len() as int,
                                before.labeled_regions_view(),
                            );
                            lemma_remove_keeps(
                                before.anon_view(),
                                n - 1,
                                before.stored_bound(),
                                before.bytes_view().len() as int,
                                before.blocks_view(),
                            );
                            let id = region.id;
                            assert(region == before.anon_view()[n - 1]);
                            assert(!region_ids(before.labeled_regions_view()).contains(id)) by {
                                if region_ids(before.labeled_regions_view()).contains(id) {
                                    let k = choose|k: int|
                                        0 <= k < before.labeled_regions_view().len() && (
                                        #[trigger] before.labeled_regions_view()[k]).id == id;
                                    assert(before.anon_view()[n - 1].id != before.labeled_regions_view()[k].id);
                                }
                            }
                            assert(!region_ids(before.blocks_view()).contains(id)) by {
                                if region_ids(before.blocks_view()).contains(id) {
                                    let k = choose|k: int|
                                        0 <= k < before.blocks_view().len() && (
                                        #[trigger] before.blocks_view()[k]).id == id;
                                    assert(before.anon_view()[n - 1].id != before.blocks_view()[k].id);
                                }
                            }
                            assert(region_ids(before.anon_view()).contains(id));
                            assert(self.open_regions() =~= before.open_regions().remove(id));
                        }
                        Some(region)
                    },
                    None => None,
                }
            },
        };
        match region {
            Some(region) => {
                self.offset = marker_end;
                Ok(Some(ProseChunk::RegionEnd { id: region.id }))
            },
            None => {
                self.offset = marker_start;
                Err(ProseError::UnmatchedRegionEnd)
            },
        }
    }
}


proof fn lemma_marker_bounds(s: Seq<u8>, offset: int, m: Marker)
    requires
        0 <= offset < s.len(),
        spec_marker(s, offset, m),
    ensures
        m matches Marker::PointStart { body_start, .. } ==> offset + 1 < body_start <= s.len()
            && s[body_start - 1] < 0x80,
        m matches Marker::RegionOpenStart { body_start, .. } ==> offset + 1 < body_start <= s.len()
            && s[body_start - 1] < 0x80,
        m matches Marker::BlockOpenStart { body_start, .. } ==> offset + 1 < body_start <= s.len()
            && s[body_start - 1] < 0x80,
        m matches Marker::RegionClose { marker_end, .. } ==> offset + 1 < marker_end <= s.len()
            && s[marker_end - 1] < 0x80,
        m is BlockClose ==> offset + 2 <= s.len() && s[offset + 1] < 0x80,
        m is EscapedAt ==> offset + 2 <= s.len() && s[offset + 1] == 0x40,
{
    if offset + 1 < s.len() {
        let b = s[offset + 1];
        if b != 0x40 && b != 0x7b && b != 0x3c && b != 0x5b && b != 0x3e && b != 0x5d
            && spec_is_word_ident_start(b) {
            lemma_scan_word_ident_bounds(s, offset + 1);
        }
    }
}

impl<'a> ProseParser<'a> {
    /// Closes the innermost open block at a `@]` whose `@` is at the offset.
    fn close_block(&mut self) -> (r: Result<Option<ProseChunk<'a>>, ProseError>)
        requires
            old(self).wf(),
            old(self).state is Idle,
            old(self).offset + 2 <= old(self).bytes_view().len(),
            at_char_start(old(self).bytes_view(), old(self).offset + 2),
        ensures
            Self::step_post(*old(self), *final(self), r),
            r is Err ==> r == Err::<Option<ProseChunk<'a>>, ProseError>(
                ProseError::UnmatchedRegionEnd,
            ) && final(self).offset == old(self).offset,
            r matches Ok(c) ==> c matches Some(ProseChunk::RegionEnd { .. }),
            r is Ok <==> old(self).blocks@.len() > 0,
            r is Ok ==> r == Ok::<Option<ProseChunk<'a>>, ProseError>(
                Some(ProseChunk::RegionEnd { id: old(self).blocks@.last().region.id }),
            ) && final(self).blocks@ == old(self).blocks@.drop_last() && final(self).offset == old(self).offset + 2,
    {
        let marker_start = self.offset;
        let ghost before = *self;
        match self.blocks.pop() {
            Some(block) => {
                self.offset = marker_start + 2;
                self.state = ProseParserState::FinishingBlockEnd;
                proof {
                    let n = before.blocks@.len();
                    assert(self.blocks@ == before.blocks@.drop_last());
                    lemma_block_pop(before.blocks@);
                    lemma_ids_remove(before.blocks_view(), n - 1);
                    lemma_remove_keeps(
                        before.blocks_view(),
                        n - 1,
                        before.stored_bound(),
                        before.bytes_view().len() as int,
                        before.anon_view(),
                    );
                    lemma_remove_keeps(
                        before.blocks_view(),
                        n - 1,
                        before.stored_bound(),
                        before.bytes_view().len() as int,
                        before.labeled_regions_view(),
                    );
                    lemma_disjoint_sym(before.anon_view(), before.blocks_view());
                    lemma_disjoint_sym(before.labeled_regions_view(), before.blocks_view());
                    let id = block.region.id;
                    assert(block.region == before.blocks_view()[n - 1]);
                    assert(!region_ids(before.anon_view()).contains(id)) by {
                        if region_ids(before.anon_view()).contains(id) {
                            let k = choose|k: int|
                                0 <= k < before.anon_view().len() && (
                                #[trigger] before.anon_view()[k]).id == id;
                            assert(before.anon_view()[k].id != before.blocks_view()[n - 1].id);
                        }
                    }
                    assert(!region_ids(before.labeled_regions_view()).contains(id)) by {
                        if region_ids(before.labeled_regions_view()).contains(id) {
                            let k = choose|k: int|
                                0 <= k < before.labeled_regions_view().len() && (
                                #[trigger] before.labeled_regions_view()[k]).id == id;
                            assert(before.labeled_regions_view()[k].id != before.blocks_view()[n - 1].id);
                        }
                    }
                    assert(region_ids(before.blocks_view()).contains(id));
                    assert forall|j: int| 0 <= j < self.blocks@.len() implies match (
                    #[trigger] self.blocks@[j]).indent {
                        Some(ind) => forall|k: int|
                            0 <= k < ind.spec_bytes().len() ==> is_blank(#[trigger] ind.spec_bytes()[k]),
                        None => true,
                    } by {
                        assert(self.blocks@[j] == before.blocks@[j]);
                    }
                    assert(self.open_regions() =~= before.open_regions().remove(id));
                }
                Ok(Some(ProseChunk::RegionEnd { id: block.region.id }))
            },
            None => Err(ProseError::UnmatchedRegionEnd),
        }
    }

    /// What acting on a marker gives. An escaped `@` gives a single `@` and
    /// moves past the marker, between chunks again, changing no region; a
    /// point or a block opening starts the next region and begins the facts
    /// of the marker's body; a region opening does too, unless its label is
    /// already open; a region end closes the region
    /// with its label, or the anonymous one opened last, if there is one; a
    /// block end closes the innermost block, if there is one; an invalid
    /// marker is refused. An error leaves the offset at the marker.
    spec fn marker_step(old: Self, new: Self, marker: Marker<'a>, r: Result<Option<ProseChunk<'a>>, ProseError>) -> bool {
        &&& r is Ok ==> r->Ok_0 is Some
        &&& r is Err ==> new.offset == marker.spec_marker_start()
        &&& match marker {
            Marker::EscapedAt { marker_start } => {
                &&& r matches Ok(Some(ProseChunk::Text(t))) && t.spec_bytes() == seq![0x40u8]
                &&& new.offset == marker_start + 2
                &&& new.source == old.source
                &&& new.state is Idle
                &&& new.next_region_id == old.next_region_id
                &&& new.labeled_regions == old.labeled_regions
                &&& new.anonymous_regions == old.anonymous_regions
            },
            Marker::PointStart { body_start, .. } => r == Ok::<Option<ProseChunk<'a>>, ProseError>(
                Some(ProseChunk::RegionStart { id: old.next_region_id }),
            ) && Self::facts_opened(new, body_start as int, 0x7d),
            Marker::BlockOpenStart { body_start, .. } => r == Ok::<Option<ProseChunk<'a>>, ProseError>(
                Some(ProseChunk::RegionStart { id: old.next_region_id }),
            ) && Self::facts_opened(new, body_start as int, 0x7c),
            Marker::RegionOpenStart { label, body_start, .. } => if label matches Some(l) && has_label(
                old.labeled_regions@,
                l.spec_bytes(),
            ) {
                r == Err::<Option<ProseChunk<'a>>, ProseError>(ProseError::ConflictingRegionLabel)
            } else {
                r == Ok::<Option<ProseChunk<'a>>, ProseError>(Some(ProseChunk::RegionStart { id: old.next_region_id }))
                    && Self::facts_opened(new, body_start as int, 0x7c)
            },
            Marker::RegionClose { label, marker_end, .. } => {
                &&& r is Ok <==> can_close(old, label)
                &&& r is Err ==> r == Err::<Option<ProseChunk<'a>>, ProseError>(ProseError::UnmatchedRegionEnd)
                &&& r is Ok ==> region_closed(old, new, label, r) && new.offset == marker_end
            },
            Marker::BlockClose { .. } => {
                &&& r is Ok <==> old.blocks_view().len() > 0
                &&& r is Err ==> r == Err::<Option<ProseChunk<'a>>, ProseError>(ProseError::UnmatchedRegionEnd)
                &&& r is Ok ==> r == Ok::<Option<ProseChunk<'a>>, ProseError>(
                    Some(ProseChunk::RegionEnd { id: old.blocks_view().last().id }),
                )
            },
            Marker::Invalid { .. } => r == Err::<Option<ProseChunk<'a>>, ProseError>(ProseError::UnexpectedCharacter),
        }
    }

    /// Acts on the marker whose `@` is at the offset.
    fn step_marker(&mut self, marker: Marker<'a>) -> (r: Result<Option<ProseChunk<'a>>, ProseError>)
        requires
            old(self).wf(),
            old(self).state is Idle,
            old(self).offset == marker.spec_marker_start(),
            old(self).offset < old(self).bytes_view().len(),
            old(self).bytes_view()[old(self).offset as int] == 0x40,
            spec_marker(old(self).bytes_view(), old(self).offset as int, marker),
        ensures
            Self::step_post(*old(self), *final(self), r),
            Self::marker_step(*old(self), *final(self), marker, r),
    {
        let bytes = self.bytes();
        let ghost s = bytes@;
        let len = bytes.len();
        proof {
            vstd::utf8::encode_utf8_valid_utf8(self.source@);
            lemma_marker_bounds(s, self.offset as int, marker);
        }
        match marker {
            Marker::EscapedAt { marker_start } => {
                proof {
                    lemma_after_ascii_starts_char(s, marker_start as int);
                    lemma_after_ascii_starts_char(s, marker_start + 1);
                }
                self.offset = marker_start + 2;
                let text = substring(self.source, marker_start + 1, marker_start + 2);
                proof {
                    assert(self.open_regions() =~= old(self).open_regions());
                    assert(text.spec_bytes() == self.spec_source().spec_bytes().subrange(
                        marker_start + 1,
                        self.spec_offset() as int,
                    ));
                    assert(text.spec_bytes() =~= seq![0x40u8]);
                }
                Ok(ProseChunk::from_nonempty_text(text))
            },
            Marker::PointStart { body_start, .. } => {
                proof {
                    lemma_after_ascii_starts_char(s, body_start - 1);
                }
                let id = self.next_region_id;
                self.open_region_at(body_start, 0x7d, MarkerContinuation::PointEnd { id })
            },
            Marker::RegionOpenStart { label, marker_start, body_start } => {
                if let Some(label) = label {
                    if self.find_label(label).is_some() {
                        return Err(ProseError::ConflictingRegionLabel);
                    }
                }
                proof {
                    lemma_after_ascii_starts_char(s, body_start - 1);
                }
                let id = self.next_region_id;
                self.open_region_at(
                    body_start,
                    0x7c,
                    MarkerContinuation::RegionOpenEnd { id, label, marker_start },
                )
            },
            Marker::RegionClose { label, marker_end, .. } => {
                proof {
                    lemma_after_ascii_starts_char(s, marker_end - 1);
                }
                self.close_region(label, marker_end)
            },
            Marker::BlockOpenStart { marker_start, body_start } => {
                proof {
                    lemma_after_ascii_starts_char(s, body_start - 1);
                }
                let id = self.next_region_id;
                self.open_region_at(
                    body_start,
                    0x7c,
                    MarkerContinuation::BlockOpenEnd { id, marker_start },
                )
            },
            Marker::BlockClose { .. } => {
                proof {
                    lemma_after_ascii_starts_char(s, self.offset + 1);
                }
                self.close_block()
            },
            Marker::Invalid { .. } => Err(ProseError::UnexpectedCharacter),
        }
    }
}


impl<'a> ProseParser<'a> {
    /// The open region opened last (the one with the largest id), if any.
    fn last_opened(&self) -> (r: Option<Region>)
        requires
            self.regions_wf(),
        ensures
            r is None <==> self.anonymous_regions@.len() == 0 && self.labeled_regions@.len() == 0
                && self.blocks@.len() == 0,
            r matches Some(region) ==> {
                &&& self.anon_view().contains(region) || self.labeled_regions_view().contains(region)
                    || self.blocks_view().contains(region)
                &&& forall|i: int|
                    0 <= i < self.anon_view().len() ==> (#[trigger] self.anon_view()[i]).id
                        <= region.id
                &&& forall|i: int|
                    0 <= i < self.labeled_regions_view().len() ==> (
                    #[trigger] self.labeled_regions_view()[i]).id <= region.id
                &&& forall|i: int|
                    0 <= i < self.blocks_view().len() ==> (#[trigger] self.blocks_view()[i]).id
                        <= region.id
            },
    {
        let mut best: Option<Region> = None;
        let na = self.anonymous_regions.len();
        if na > 0 {
            best = Some(self.anonymous_regions[na - 1]);
            proof {
                assert(self.anon_view().contains(self.anonymous_regions@[na - 1]));
            }
        }
        let nb = self.blocks.len();
        if nb > 0 {
            let candidate = self.blocks[nb - 1].region;
            proof {
                assert(candidate == self.blocks_view()[nb - 1]);
                assert(self.blocks_view().contains(candidate));
            }
            best = match best {
                Some(b) => if b.id < candidate.id {
                    Some(candidate)
                } else {
                    Some(b)
                },
                None => Some(candidate),
            };
        }
        let nl = self.labeled_regions.len();
        let mut i: usize = 0;
        while i < nl
            invariant
                i <= nl,
                nl == self.labeled_regions@.len(),
                self.regions_wf(),
                na == self.anonymous_regions@.len(),
                nb == self.blocks@.len(),
                best is None <==> na == 0 && nb == 0 && i == 0,
                best matches Some(region) ==> {
                    &&& self.anon_view().contains(region) || self.labeled_regions_view().contains(
                        region,
                    ) || self.blocks_view().contains(region)
                    &&& forall|k: int|
                        0 <= k < self.anon_view().len() ==> (#[trigger] self.anon_view()[k]).id
                            <= region.id
                    &&& forall|k: int|
                        0 <= k < i ==> (#[trigger] self.labeled_regions_view()[k]).id <= region.id
                    &&& forall|k: int|
                        0 <= k < self.blocks_view().len() ==> (#[trigger] self.blocks_view()[k]).id
                            <= region.id
                },
            decreases nl - i,
        {
            let candidate = self.labeled_regions[i].region;
            proof {
                assert(candidate == self.labeled_regions_view()[i as int]);
                assert(self.labeled_regions_view().contains(candidate));
            }
            best = match best {
                Some(b) => if b.id < candidate.id {
                    Some(candidate)
                } else {
                    Some(b)
                },
                None => Some(candidate),
            };
            i += 1;
        }
        best
    }

    /// Emits the text up to the boundary, then acts on the boundary: the end
    /// of the document (where every region must be closed), or a marker.
    #[verifier::rlimit(40)]
    /// The open region opened last starts at `off`.
    spec fn latest_open_at(p: Self, off: int) -> bool {
        exists|reg: Region|
            (p.anon_view().contains(reg) || p.labeled_regions_view().contains(reg) || p.blocks_view().contains(reg))
                && reg.marker_start == off && (forall|i: int|
                0 <= i < p.anon_view().len() ==> (#[trigger] p.anon_view()[i]).id <= reg.id) && (forall|i: int|
                0 <= i < p.labeled_regions_view().len() ==> (#[trigger] p.labeled_regions_view()[i]).id <= reg.id)
                && (forall|i: int| 0 <= i < p.blocks_view().len() ==> (#[trigger] p.blocks_view()[i]).id <= reg.id)
    }

    /// What a step in text gives, up to the boundary: the text before it
    /// (inside blocks, the line with their indentation stripped, which must
    /// be there); else, at the end of the text, an error at the region opened
    /// last if one is still open, or the end; else the marker's step.
    spec fn text_step(old: Self, new: Self, boundary: TextBoundary<'a>, r: Result<Option<ProseChunk<'a>>, ProseError>) -> bool {
        let s = old.bytes_view();
        let o = old.offset as int;
        let inds = indent_view(old.blocks@);
        let (end, inline) = match boundary {
            TextBoundary::EndOfFile => (s.len() as int, false),
            TextBoundary::Inline(m) => (m.spec_marker_start() as int, true),
            TextBoundary::Block { prefix_start, .. } => (prefix_start as int, false),
        };
        let in_blocks = old.blocks@.len() > 0;
        let reads_line = in_blocks && (o < end || (inline && spec_is_start_of_line(s, o)));
        let text: Option<Seq<u8>> = if !in_blocks {
            if o < end {
                Some(s.subrange(o, end))
            } else {
                None
            }
        } else if reads_line {
            block_line_text(s, inds, o, end, inline)
        } else {
            None
        };
        let line_ok = !reads_line || block_line_ok(s, inds, o, end, inline);
        if !line_ok {
            r == Err::<Option<ProseChunk<'a>>, ProseError>(ProseError::InvalidIndentation)
        } else if text matches Some(b) && b.len() > 0 {
            r matches Ok(Some(ProseChunk::Text(t))) && Some(t.spec_bytes()) == text
        } else {
            match boundary {
                TextBoundary::EndOfFile => if old.anonymous_regions@.len() > 0 || old.labeled_regions@.len() > 0
                    || old.blocks@.len() > 0 {
                    r == Err::<Option<ProseChunk<'a>>, ProseError>(ProseError::UnmatchedRegionStart)
                        && Self::latest_open_at(old, new.offset as int)
                } else {
                    r == Ok::<Option<ProseChunk<'a>>, ProseError>(None) && new.state is Done
                },
                TextBoundary::Inline(marker) => Self::marker_step(old, new, marker, r),
                TextBoundary::Block { prefix_start, block_depth, marker } => {
                    &&& o >= end ==> (r == Err::<Option<ProseChunk<'a>>, ProseError>(ProseError::InvalidIndentation)
                        <==> !indents_fit(
                        s,
                        inds.take(block_depth as int),
                        prefix_start as int,
                        marker.spec_marker_start() as int,
                    ))
                    &&& r != Err::<Option<ProseChunk<'a>>, ProseError>(ProseError::InvalidIndentation)
                        ==> Self::marker_step(old, new, marker, r)
                },
            }
        }
    }

    #[verifier::rlimit(100)]
    fn step_text(&mut self, boundary: TextBoundary<'a>) -> (r: Result<
        Option<ProseChunk<'a>>,
        ProseError,
    >)
        requires
            old(self).wf(),
            old(self).state == (ProseParserState::EmittingText { boundary }),
        ensures
            Self::step_post(*old(self), *final(self), r),
            Self::text_step(*old(self), *final(self), boundary, r),
            old(self).plain_rest() && old(self).offset < old(self).bytes_view().len() ==> {
                &&& step_gives_text(
                    r,
                    old(self).bytes_view().subrange(old(self).offset as int, old(self).bytes_view().len() as int),
                )
                &&& final(self).plain_rest()
                &&& final(self).offset == old(self).bytes_view().len()
            },
            old(self).plain_rest() && old(self).offset == old(self).bytes_view().len() && old(
                self,
            ).open_regions() == Set::<usize>::empty() ==> r == Ok::<Option<ProseChunk<'a>>, ProseError>(None)
                && final(self).state is Done,
    {
        proof {
            if old(self).plain_rest() && old(self).open_regions() == Set::<usize>::empty() {
                self.lemma_open_empty();
            }
        }
        let bytes = self.bytes();
        let ghost s = bytes@;
        let len = bytes.len();
        proof {
            vstd::utf8::encode_utf8_valid_utf8(self.source@);
            vstd::utf8::is_char_boundary_start_end_of_seq(s);
            match boundary {
                TextBoundary::Inline(m) => lemma_ascii_starts_char(s, m.spec_marker_start() as int),
                TextBoundary::Block { marker, .. } => lemma_ascii_starts_char(
                    s,
                    marker.spec_marker_start() as int,
                ),
                _ => {},
            }
        }
        let (end, ending, inline) = match boundary {
            TextBoundary::EndOfFile => (len, BlockLineEnd::EndOfFile, false),
            TextBoundary::Inline(marker) => (marker.marker_start(), BlockLineEnd::InlineMarker, true),
            TextBoundary::Block { prefix_start, .. } => (prefix_start, BlockLineEnd::BlockMarker, false),
        };
        let text = if self.blocks.len() == 0 {
            if self.offset < end {
                let text = substring(self.source, self.offset, end);
                self.offset = end;
                proof {
                    assert(old(self).offset <= old(self).offset <= self.offset && text.spec_bytes() == s.subrange(
                        old(self).offset as int,
                        self.offset as int,
                    ));
                }
                Some(text)
            } else {
                None
            }
        } else if self.offset < end || (inline && is_start_of_line(bytes, self.offset)) {
            self.parse_block_line(end, ending)?
        } else {
            None
        };
        if let Some(text) = text {
            if text.as_bytes().len() > 0 {
                proof {
                    assert(self.open_regions() =~= old(self).open_regions());
                    let k = choose|k: int|
                        old(self).offset <= k <= self.offset && text.spec_bytes() == s.subrange(
                            k,
                            self.offset as int,
                        );
                    assert(k < self.offset);
                    assert(text.spec_bytes() == self.spec_source().spec_bytes().subrange(k, self.spec_offset() as int));
                    assert(Self::text_ends_at(text, old(self).offset as int, *self));
                }
                return Ok(Some(ProseChunk::Text(text)));
            }
        }
        match boundary {
            TextBoundary::EndOfFile => {
                if let Some(region) = self.last_opened() {
                    self.offset = region.marker_start;
                    proof {
                        if self.anon_view().contains(region) {
                            let k = choose|k: int| 0 <= k < self.anon_view().len() && self.anon_view()[k] == region;
                            assert(self.anon_view()[k].marker_start < len);
                        } else if self.labeled_regions_view().contains(region) {
                            let k = choose|k: int|
                                0 <= k < self.labeled_regions_view().len()
                                    && self.labeled_regions_view()[k] == region;
                            assert(self.labeled_regions_view()[k].marker_start < len);
                        } else {
                            let k = choose|k: int| 0 <= k < self.blocks_view().len() && self.blocks_view()[k] == region;
                            assert(self.blocks_view()[k].marker_start < len);
                        }
                    }
                    return Err(ProseError::UnmatchedRegionStart);
                }
                self.state = ProseParserState::Done;
                proof {
                    assert(self.open_regions() =~= old(self).open_regions());
                }
                Ok(None)
            },
            TextBoundary::Inline(marker) => {
                self.offset = marker.marker_start();
                self.state = ProseParserState::Idle;
                proof {
                    assert(self.open_regions() =~= old(self).open_regions());
                }
                self.step_marker(marker)
            },
            TextBoundary::Block { prefix_start, block_depth, marker } => {
                let marker_start = marker.marker_start();
                self.parse_block_indent(prefix_start, marker_start, block_depth)?;
                self.offset = marker_start;
                self.state = ProseParserState::Idle;
                proof {
                    assert(self.open_regions() =~= old(self).open_regions());
                }
                self.step_marker(marker)
            },
        }
    }
}


impl<'a> ProseParser<'a> {
    /// Once the facts of a marker are parsed: a point ends; an opened region
    /// or block is recorded as open (a block marker's line must end there).
    fn finish_parsing_facts(&mut self, cont: MarkerContinuation<'a>, before: Ghost<Self>) -> (r: Result<
        Option<ProseChunk<'a>>,
        ProseError,
    >)
        requires
            before@.wf(),
            before@.state is EmittingFacts,
            cont == before@.facts_cont,
            old(self).state is Idle,
            old(self).source == before@.source,
            old(self).next_region_id == before@.next_region_id,
            old(self).labeled_regions == before@.labeled_regions,
            old(self).anonymous_regions == before@.anonymous_regions,
            old(self).blocks == before@.blocks,
            before@.offset < old(self).offset <= old(self).bytes_view().len(),
            before@.facts.is_done(),
            at_char_start(old(self).bytes_view(), old(self).offset as int),
        ensures
            Self::step_post(before@, *final(self), r),
            match cont {
                MarkerContinuation::PointEnd { id } => r == Ok::<Option<ProseChunk<'a>>, ProseError>(
                    Some(ProseChunk::RegionEnd { id }),
                ),
                MarkerContinuation::RegionOpenEnd { id, label, marker_start } => {
                    &&& r == Ok::<Option<ProseChunk<'a>>, ProseError>(None)
                    &&& label matches Some(l) ==> final(self).labeled_regions@ == old(self).labeled_regions@.push(
                        LabeledRegion { label: l, region: Region { id, marker_start } },
                    )
                    &&& label is None ==> final(self).anonymous_regions@ == old(self).anonymous_regions@.push(
                        Region { id, marker_start },
                    )
                },
                MarkerContinuation::BlockOpenEnd { id, marker_start } => {
                    &&& r is Ok <==> marker_line_ends(old(self).bytes_view(), old(self).offset as int)
                    &&& r is Err ==> r == Err::<Option<ProseChunk<'a>>, ProseError>(ProseError::UnexpectedCharacter)
                    &&& r is Ok ==> r == Ok::<Option<ProseChunk<'a>>, ProseError>(None)
                        && final(self).blocks@ == old(self).blocks@.push(
                        Block { region: Region { id, marker_start }, indent: None },
                    )
                },
            },
    {
        let ghost b = before@;
        proof {
            b.facts.lemma_done_empty();
            lemma_below_mono(b.anon_view(), b.stored_bound(), b.next_region_id as int);
            lemma_below_mono(b.labeled_regions_view(), b.stored_bound(), b.next_region_id as int);
            lemma_below_mono(b.blocks_view(), b.stored_bound(), b.next_region_id as int);
        }
        match cont {
            MarkerContinuation::PointEnd { id } => {
                proof {
                    assert(!region_ids(b.anon_view()).contains(id));
                    assert(!region_ids(b.labeled_regions_view()).contains(id)) by {
                        if region_ids(b.labeled_regions_view()).contains(id) {
                            let k = choose|k: int|
                                0 <= k < b.labeled_regions_view().len() && (
                                #[trigger] b.labeled_regions_view()[k]).id == id;
                        }
                    }
                    assert(!region_ids(b.blocks_view()).contains(id)) by {
                        if region_ids(b.blocks_view()).contains(id) {
                            let k = choose|k: int|
                                0 <= k < b.blocks_view().len() && (#[trigger] b.blocks_view()[k]).id
                                    == id;
                        }
                    }
                    assert(self.open_regions() =~= b.open_regions().remove(id));
                }
                Ok(Some(ProseChunk::RegionEnd { id }))
            },
            MarkerContinuation::RegionOpenEnd { id, label, marker_start } => {
                let region = Region { id, marker_start };
                match label {
                    Some(label) => {
                        let entry = LabeledRegion { label, region };
                        self.labeled_regions.push(entry);
                        proof {
                            lemma_labeled_push(b.labeled_regions@, entry);
                            lemma_push_fresh(b.labeled_regions_view(), region, b.stored_bound());
                            lemma_disjoint_push(b.anon_view(), b.labeled_regions_view(), region, b.stored_bound());
                            lemma_disjoint_sym(b.labeled_regions_view(), b.blocks_view());
                            lemma_disjoint_push(b.blocks_view(), b.labeled_regions_view(), region, b.stored_bound());
                            lemma_ids_push(b.labeled_regions_view(), region);
                            assert forall|i: int, j: int|
                                0 <= i < j < self.labeled_regions@.len() implies (
                                #[trigger] self.labeled_regions@[i]).label.spec_bytes() != (
                                #[trigger] self.labeled_regions@[j]).label.spec_bytes() by {
                                assert(self.labeled_regions@[i] == b.labeled_regions@[i]);
                                if j < b.labeled_regions@.len() {
                                    assert(self.labeled_regions@[j] == b.labeled_regions@[j]);
                                }
                            }
                            assert(markers_within(self.labeled_regions_view(), self.bytes_view().len() as int)) by {
                                assert forall|i: int| 0 <= i < self.labeled_regions_view().len() implies (
                                #[trigger] self.labeled_regions_view()[i]).marker_start < self.bytes_view().len() by {
                                    if i < b.labeled_regions_view().len() {
                                        assert(self.labeled_regions_view()[i] == b.labeled_regions_view()[i]);
                                    }
                                }
                            }
                            assert(self.open_regions() =~= b.open_regions());
                        }
                    },
                    None => {
                        self.anonymous_regions.push(region);
                        proof {
                            lemma_push_fresh(b.anon_view(), region, b.stored_bound());
                            lemma_disjoint_sym(b.anon_view(), b.labeled_regions_view());
                            lemma_disjoint_push(b.labeled_regions_view(), b.anon_view(), region, b.stored_bound());
                            lemma_disjoint_sym(b.anon_view(), b.blocks_view());
                            lemma_disjoint_push(b.blocks_view(), b.anon_view(), region, b.stored_bound());
                            lemma_ids_push(b.anon_view(), region);
                            assert(markers_within(self.anon_view(), self.bytes_view().len() as int)) by {
                                assert forall|i: int| 0 <= i < self.anon_view().len() implies (
                                #[trigger] self.anon_view()[i]).marker_start < self.bytes_view().len() by {
                                    if i < b.anon_view().len() {
                                        assert(self.anon_view()[i] == b.anon_view()[i]);
                                    }
                                }
                            }
                            assert(self.open_regions() =~= b.open_regions());
                        }
                    },
                }
                Ok(None)
            },
            MarkerContinuation::BlockOpenEnd { id, marker_start } => {
                self.skip_block_marker_line_end()?;
                let region = Region { id, marker_start };
                let block = Block { region, indent: None };
                self.blocks.push(block);
                proof {
                    lemma_block_push(b.blocks@, block);
                    lemma_push_fresh(b.blocks_view(), region, b.stored_bound());
                    lemma_disjoint_push(b.anon_view(), b.blocks_view(), region, b.stored_bound());
                    lemma_disjoint_push(b.labeled_regions_view(), b.blocks_view(), region, b.stored_bound());
                    lemma_ids_push(b.blocks_view(), region);
                    assert(markers_within(self.blocks_view(), self.bytes_view().len() as int)) by {
                        assert forall|i: int| 0 <= i < self.blocks_view().len() implies (
                        #[trigger] self.blocks_view()[i]).marker_start < self.bytes_view().len() by {
                            if i < b.blocks_view().len() {
                                assert(self.blocks_view()[i] == b.blocks_view()[i]);
                            }
                        }
                    }
                    assert forall|j: int| 0 <= j < self.blocks@.len() implies match (
                    #[trigger] self.blocks@[j]).indent {
                        Some(ind) => forall|k: int|
                            0 <= k < ind.spec_bytes().len() ==> is_blank(#[trigger] ind.spec_bytes()[k]),
                        None => true,
                    } by {
                        if j < b.blocks@.len() {
                            assert(self.blocks@[j] == b.blocks@[j]);
                        }
                    }
                    assert(self.open_regions() =~= b.open_regions());
                }
                Ok(None)
            },
        }
    }

    /// What the facts' parser answers: the error its rules give for its next
    /// call, or the event that call gives (unless a real literal there has no
    /// finite value), the one `next_event` of the facts' parser names.
    pub open spec fn facts_answer(facts: TermParser<'a>, r: Result<Option<ProseChunk<'a>>, ProseError>) -> bool {
        &&& facts.next_error() matches Some(e) ==> r == Err::<Option<ProseChunk<'a>>, ProseError>(ProseError::Term(e))
        &&& facts.next_error() is None && facts.next_yields() ==> r is Ok || r == Err::<
            Option<ProseChunk<'a>>,
            ProseError,
        >(ProseError::Term(TermError::InvalidReal))
        &&& facts.next_error() is None && facts.next_yields() ==> (r matches Ok(Some(ProseChunk::TermEvent(ev)))
            ==> facts.next_event(ev))
    }

    /// The facts' parser, in its next call, reads a real literal from which
    /// `parse_real` reads no finite real.
    pub open spec fn facts_refuse_real<F: Fn(&'a str) -> Option<u32>>(facts: TermParser<'a>, parse_real: &F) -> bool {
        facts.next_read_offset() matches Some(j) && real_refused_here(parse_real, facts.spec_source().spec_bytes(), j)
    }

    /// Emits the next event of the marker's facts, or finishes them.
    fn step_facts<F: Fn(&'a str) -> Option<u32>>(&mut self, parse_real: &F) -> (r: Result<
        Option<ProseChunk<'a>>,
        ProseError,
    >)
        requires
            old(self).wf(),
            old(self).state is EmittingFacts,
            forall|text: &'a str| #[trigger] parse_real.requires((text,)),
        ensures
            r matches Ok(Some(ProseChunk::TermEvent(ev))) ==> real_event_read(ev, parse_real, final(self).bytes_view()),
            Self::step_post(*old(self), *final(self), r),
            !old(self).facts.is_finished() ==> {
                &&& r is Err <==> final(self).facts.is_failed()
                &&& r matches Err(e) ==> e is Term
                &&& r matches Ok(c) ==> c matches Some(ProseChunk::TermEvent(_))
            },
            !old(self).facts.is_finished() ==> Self::facts_answer(old(self).facts, r),
            !old(self).facts.is_finished() && old(self).facts.next_error() is None && old(self).facts.next_yields() && r
                == Err::<Option<ProseChunk<'a>>, ProseError>(ProseError::Term(TermError::InvalidReal))
                ==> Self::facts_refuse_real(old(self).facts, parse_real),
            old(self).facts.is_finished() ==> match old(self).facts_cont {
                MarkerContinuation::PointEnd { id } => r == Ok::<Option<ProseChunk<'a>>, ProseError>(
                    Some(ProseChunk::RegionEnd { id }),
                ),
                MarkerContinuation::RegionOpenEnd { .. } => r == Ok::<Option<ProseChunk<'a>>, ProseError>(None),
                MarkerContinuation::BlockOpenEnd { .. } => r is Ok <==> marker_line_ends(
                    old(self).bytes_view(),
                    old(self).facts_base + old(self).facts.spec_offset(),
                ),
            },
    {
        let ghost before = *self;
        let base = self.facts_base;
        match self.facts.next(parse_real) {
            Some(Ok(event)) => {
                proof {
                    assert(self.open_regions() =~= before.open_regions());
                    lemma_event_written_within(event, self.bytes_view(), base as int, self.bytes_view().len() as int);
                    lemma_real_read_within(event, parse_real, self.bytes_view(), base as int, self.bytes_view().len() as int);
                }
                Ok(Some(ProseChunk::TermEvent(event)))
            },
            Some(Err(error)) => {
                let inner = self.facts.offset();
                proof {
                    assert(inner <= self.facts.spec_source().spec_bytes().len());
                }
                self.offset = base + inner;
                Err(ProseError::Term(error))
            },
            None => {
                let inner = self.facts.offset();
                proof {
                    assert(before.facts.is_done());
                    self.facts.lemma_done_after_terminator();
                    let s = self.bytes_view();
                    assert(self.facts.spec_source().spec_bytes()[inner - 1] == s[base + inner - 1]);
                    vstd::utf8::encode_utf8_valid_utf8(self.source@);
                    lemma_after_ascii_starts_char(s, base + inner - 1);
                }
                self.offset = base + inner;
                self.state = ProseParserState::Idle;
                let cont = self.facts_cont;
                self.finish_parsing_facts(cont, Ghost(before))
            },
        }
    }

    fn step<F: Fn(&'a str) -> Option<u32>>(&mut self, parse_real: &F) -> (r: Result<
        Option<ProseChunk<'a>>,
        ProseError,
    >)
        requires
            old(self).wf(),
            !old(self).is_finished(),
            forall|text: &'a str| #[trigger] parse_real.requires((text,)),
        ensures
            r matches Ok(Some(ProseChunk::TermEvent(ev))) ==> real_event_read(ev, parse_real, final(self).bytes_view()),
            Self::step_post(*old(self), *final(self), r),
            old(self).plain_rest() && old(self).state is Idle ==> {
                &&& r == Ok::<Option<ProseChunk<'a>>, ProseError>(None)
                &&& final(self).plain_rest()
                &&& final(self).state is EmittingText
                &&& final(self).offset == old(self).offset
            },
            old(self).plain_rest() && old(self).state is EmittingText && old(self).offset < old(
                self,
            ).bytes_view().len() ==> {
                &&& step_gives_text(
                    r,
                    old(self).bytes_view().subrange(old(self).offset as int, old(self).bytes_view().len() as int),
                )
                &&& final(self).plain_rest()
                &&& final(self).offset == old(self).bytes_view().len()
            },
            old(self).plain_rest() && old(self).state is EmittingText && old(self).offset == old(
                self,
            ).bytes_view().len() && old(self).open_regions() == Set::<usize>::empty() ==> r == Ok::<
                Option<ProseChunk<'a>>,
                ProseError,
            >(None) && final(self).state is Done,
            old(self).state is Idle ==> match r {
                Ok(Some(_)) => false,
                Ok(None) => final(self).state matches ProseParserState::EmittingText { boundary } && old(
                    self,
                ).boundary_spec(Ok(boundary)) && Self::same_but_state(*old(self), *final(self)),
                Err(e) => e == ProseError::UnexpectedCharacter && old(self).boundary_spec(Err(final(self).offset)),
            },
            old(self).state is EmittingFacts && !old(self).facts.is_finished() ==> {
                &&& r is Err <==> final(self).facts.is_failed()
                &&& (r matches Err(e) ==> e is Term)
                &&& (r matches Ok(c) ==> c matches Some(ProseChunk::TermEvent(_)))
                &&& Self::facts_answer(old(self).facts, r)
                &&& (old(self).facts.next_error() is None && old(self).facts.next_yields() && r == Err::<
                    Option<ProseChunk<'a>>,
                    ProseError,
                >(ProseError::Term(TermError::InvalidReal)) ==> Self::facts_refuse_real(old(self).facts, parse_real))
            },
            (old(self).state matches ProseParserState::EmittingText { boundary } ==> Self::text_step(
                *old(self),
                *final(self),
                boundary,
                r,
            )),
    {
        match self.state {
            ProseParserState::Idle => match self.find_boundary() {
                Ok(boundary) => {
                    self.state = ProseParserState::EmittingText { boundary };
                    proof {
                        assert(self.open_regions() =~= old(self).open_regions());
                    }
                    Ok(None)
                },
                Err(err_offset) => {
                    self.offset = err_offset;
                    Err(ProseError::UnexpectedCharacter)
                },
            },
            ProseParserState::EmittingText { boundary } => self.step_text(boundary),
            ProseParserState::EmittingFacts => self.step_facts(parse_real),
            ProseParserState::FinishingBlockEnd => {
                self.skip_block_marker_line_end()?;
                self.state = ProseParserState::Idle;
                proof {
                    assert(self.open_regions() =~= old(self).open_regions());
                }
                Ok(None)
            },
            _ => Err(ProseError::UnexpectedCharacter),
        }
    }

    /// The parser is between chunks of text and markers.
    pub closed spec fn is_idle(&self) -> bool {
        self.state is Idle
    }

    /// `a` and `b` differ at most in their state.
    spec fn same_but_state(a: Self, b: Self) -> bool {
        &&& a.source == b.source
        &&& a.offset == b.offset
        &&& a.next_region_id == b.next_region_id
        &&& a.labeled_regions == b.labeled_regions
        &&& a.anonymous_regions == b.anonymous_regions
        &&& a.blocks == b.blocks
    }

    /// A step in text depends on nothing that differs between states that
    /// differ only in what they are doing.
    proof fn lemma_text_step_same(
        a: Self,
        b: Self,
        new: Self,
        boundary: TextBoundary<'a>,
        r: Result<Option<ProseChunk<'a>>, ProseError>,
    )
        requires
            Self::same_but_state(a, b),
            Self::text_step(a, new, boundary, r),
        ensures
            Self::text_step(b, new, boundary, r),
    {
        assert(a.anon_view() == b.anon_view());
        assert(a.labeled_regions_view() == b.labeled_regions_view());
        assert(a.blocks_view() == b.blocks_view());
        assert(a.bytes_view() == b.bytes_view());
    }

    /// A chunk, an error or the end, as a step gives them.
    pub open spec fn as_step(r: Option<Result<ProseChunk<'a>, ProseError>>) -> Result<Option<ProseChunk<'a>>, ProseError> {
        match r {
            None => Ok(None),
            Some(Ok(c)) => Ok(Some(c)),
            Some(Err(e)) => Err(e),
        }
    }

    /// What the next call gives from between chunks: the boundary of the
    /// text that follows is found (an `@` that begins no marker is refused
    /// where `find_boundary` puts it), and then the text before it, or at it
    /// the marker's step, or the end, as `text_step` says.
    pub closed spec fn idle_next(old: Self, new: Self, r: Option<Result<ProseChunk<'a>, ProseError>>) -> bool {
        ||| exists|o: usize|
            #[trigger] old.boundary_spec(Err(o)) && r == Some(
                Err::<ProseChunk<'a>, ProseError>(ProseError::UnexpectedCharacter),
            ) && new.offset == o
        ||| exists|b: TextBoundary<'a>|
            #[trigger] old.boundary_spec(Ok(b)) && Self::text_step(old, new, b, Self::as_step(r))
    }

    /// What the next call gives: from between chunks, as `idle_next` says;
    /// in text, what the step in text gives; in a marker's facts not yet
    /// all read, their next event, or their parser's error.
    pub closed spec fn next_outcome(old: Self, new: Self, r: Option<Result<ProseChunk<'a>, ProseError>>) -> bool {
        match old.state {
            ProseParserState::Idle => Self::idle_next(old, new, r),
            ProseParserState::EmittingText { boundary } => Self::text_step(old, new, boundary, Self::as_step(r)),
            ProseParserState::EmittingFacts => !old.facts.is_finished() ==> {
                &&& (r is Some && r->Some_0 is Err) <==> new.facts.is_failed()
                &&& (r matches Some(Err(e)) ==> e is Term)
                &&& (r matches Some(Ok(c)) ==> c is TermEvent)
                &&& Self::facts_answer(old.facts, Self::as_step(r))
            },
            _ => true,
        }
    }

    /// Between chunks, outside blocks, at the `@{` of a point, the next call
    /// starts the next region and begins the point's facts, read up to `}`.
    pub proof fn lemma_point_outcome(old: Self, new: Self, r: Option<Result<ProseChunk<'a>, ProseError>>)
        requires
            old.wf(),
            old.is_idle(),
            old.open_block_count() == 0,
            old.spec_offset() + 1 < old.spec_source().spec_bytes().len(),
            old.spec_source().spec_bytes()[old.spec_offset() as int] == 0x40,
            old.spec_source().spec_bytes()[old.spec_offset() + 1] == 0x7b,
            Self::next_outcome(old, new, r),
        ensures
            r == Some(Ok::<ProseChunk<'a>, ProseError>(ProseChunk::RegionStart { id: old.next_id() })),
            Self::facts_opened(new, old.spec_offset() + 2, 0x7d),
    {
        let s = old.bytes_view();
        let o = old.offset as int;
        let point = Marker::PointStart { marker_start: old.offset, body_start: (old.offset + 2) as usize };
        assert(find_at(s, o) == Some(o));
        assert forall|mk: Marker<'a>| spec_marker(s, o, mk) implies mk == point by {}
        if exists|b: TextBoundary<'a>| #[trigger] old.boundary_spec(Ok(b)) && Self::text_step(old, new, b, Self::as_step(r)) {
            let b = choose|b: TextBoundary<'a>| #[trigger] old.boundary_spec(Ok(b)) && Self::text_step(old, new, b, Self::as_step(r));
            match b {
                TextBoundary::Inline(mk) => {
                    assert(mk == point);
                },
                TextBoundary::Block { marker, .. } => {
                    assert(marker == point);
                },
                TextBoundary::EndOfFile => {},
            }
        } else {
            let p = choose|p: usize| #[trigger] old.boundary_spec(Err(p)) && r == Some(
                Err::<ProseChunk<'a>, ProseError>(ProseError::UnexpectedCharacter),
            ) && new.offset == p;
            assert(old.boundary_spec(Err(p)));
        }
    }

    /// Between chunks, outside blocks, at an escaped `@@`, the next call
    /// gives the text `@` and moves past both bytes.
    pub proof fn lemma_escaped_at_outcome(old: Self, new: Self, r: Option<Result<ProseChunk<'a>, ProseError>>)
        requires
            old.wf(),
            old.is_idle(),
            old.open_block_count() == 0,
            old.spec_offset() + 1 < old.spec_source().spec_bytes().len(),
            old.spec_source().spec_bytes()[old.spec_offset() as int] == 0x40,
            old.spec_source().spec_bytes()[old.spec_offset() + 1] == 0x40,
            Self::next_outcome(old, new, r),
        ensures
            r matches Some(Ok(ProseChunk::Text(t))) && t.spec_bytes() == seq![0x40u8],
            new.spec_offset() == old.spec_offset() + 2,
            !new.is_finished(),
    {
        let s = old.bytes_view();
        let o = old.offset as int;
        let escaped = Marker::EscapedAt { marker_start: old.offset };
        assert(find_at(s, o) == Some(o));
        assert forall|mk: Marker<'a>| spec_marker(s, o, mk) implies mk == escaped by {}
        if exists|b: TextBoundary<'a>| #[trigger] old.boundary_spec(Ok(b)) && Self::text_step(old, new, b, Self::as_step(r)) {
            let b = choose|b: TextBoundary<'a>| #[trigger] old.boundary_spec(Ok(b)) && Self::text_step(old, new, b, Self::as_step(r));
            match b {
                TextBoundary::Inline(mk) => {
                    assert(mk == escaped);
                },
                TextBoundary::Block { marker, .. } => {
                    assert(marker == escaped);
                },
                TextBoundary::EndOfFile => {},
            }
        } else {
            let p = choose|p: usize| #[trigger] old.boundary_spec(Err(p)) && r == Some(
                Err::<ProseChunk<'a>, ProseError>(ProseError::UnexpectedCharacter),
            ) && new.offset == p;
            assert(old.boundary_spec(Err(p)));
        }
    }

    /// Between chunks, when the next marker opens a block, or closes one
    /// that is open, and something other than white space stands before it
    /// on its line, the next call fails with `UnexpectedCharacter` and stops
    /// at the start of the last character before the marker that is not
    /// white space: a block marker stands alone on its line.
    pub proof fn lemma_block_marker_not_alone(
        old: Self,
        new: Self,
        r: Option<Result<ProseChunk<'a>, ProseError>>,
        m: int,
        q: int,
    )
        requires
            old.wf(),
            old.is_idle(),
            find_at(old.spec_source().spec_bytes(), old.spec_offset() as int) == Some(m),
            m + 1 < old.spec_source().spec_bytes().len(),
            old.spec_source().spec_bytes()[m + 1] == 0x5b || (old.spec_source().spec_bytes()[m + 1] == 0x5d
                && old.open_block_count() > 0),
            last_non_blank(old.spec_source().spec_bytes(), m) == Some(q),
            old.spec_source().spec_bytes()[q] != 0x0a,
            Self::next_outcome(old, new, r),
        ensures
            r == Some(Err::<ProseChunk<'a>, ProseError>(ProseError::UnexpectedCharacter)),
            new.spec_offset() == char_start_of(old.spec_source().spec_bytes(), q),
    {
        let s = old.bytes_view();
        if exists|b: TextBoundary<'a>| #[trigger] old.boundary_spec(Ok(b)) && Self::text_step(old, new, b, Self::as_step(r)) {
            let b = choose|b: TextBoundary<'a>| #[trigger] old.boundary_spec(Ok(b)) && Self::text_step(old, new, b, Self::as_step(r));
            match b {
                TextBoundary::Inline(mk) => {
                    assert(spec_marker(s, m, mk));
                    if s[m + 1] == 0x5b {
                        assert(mk is BlockOpenStart);
                    } else {
                        assert(mk is BlockClose);
                        assert(old.blocks@.len() == old.blocks.len());
                    }
                },
                TextBoundary::Block { marker, .. } => {
                    assert(spec_marker(s, m, marker));
                },
                TextBoundary::EndOfFile => {},
            }
        } else {
            let p = choose|p: usize| #[trigger] old.boundary_spec(Err(p)) && r == Some(
                Err::<ProseChunk<'a>, ProseError>(ProseError::UnexpectedCharacter),
            ) && new.offset == p;
            assert(old.boundary_spec(Err(p)));
        }
    }

    /// Inside facts not yet all read, the next call answers as the facts'
    /// parser does: its error, or the event it gives.
    pub proof fn lemma_facts_outcome(old: Self, new: Self, r: Option<Result<ProseChunk<'a>, ProseError>>)
        requires
            old.in_facts(),
            !old.facts_parser().is_finished(),
            Self::next_outcome(old, new, r),
        ensures
            Self::facts_answer(old.facts_parser(), Self::as_step(r)),
            (r is Some && r->Some_0 is Err) <==> new.facts_parser().is_failed(),
            r matches Some(Ok(c)) ==> c is TermEvent,
    {
    }

    /// The next chunk, or the error that stops the parser, or `None` once it
    /// has stopped. Region ids are given out in order from zero; a region
    /// start opens a fresh id, a region end closes a region that is open,
    /// and the parser ends without error only when no region is left open.
    pub fn next<F: Fn(&'a str) -> Option<u32>>(&mut self, parse_real: &F) -> (r: Option<
        Result<ProseChunk<'a>, ProseError>,
    >)
        requires
            old(self).wf(),
            forall|text: &'a str| #[trigger] parse_real.requires((text,)),
        ensures
            final(self).is_failed() ==> final(self).is_finished(),
            Self::next_outcome(*old(self), *final(self), r),
            old(self).in_facts() && !old(self).facts_parser().is_finished() && old(self).facts_parser().next_error() is None
                && old(self).facts_parser().next_yields() && r == Some(
                Err::<ProseChunk<'a>, ProseError>(ProseError::Term(TermError::InvalidReal)),
            ) ==> Self::facts_refuse_real(old(self).facts_parser(), parse_real),
            r matches Some(Ok(ProseChunk::TermEvent(ev))) ==> real_event_read(
                ev,
                parse_real,
                final(self).spec_source().spec_bytes(),
            ),
            final(self).wf(),
            final(self).spec_source() == old(self).spec_source(),
            final(self).spec_offset() <= final(self).spec_source().spec_bytes().len(),
            old(self).is_finished() ==> r is None && *final(self) == *old(self),
            r is None ==> final(self).is_finished() && final(self).open_regions() == old(self).open_regions(),
            r is None && !old(self).is_finished() ==> !final(self).is_failed(),
            r is None ==> final(self).next_id() == old(self).next_id(),
            r is None ==> final(self).remaining() <= old(self).remaining(),
            r matches Some(Err(_)) ==> final(self).is_failed(),
            r matches Some(Ok(c)) ==> {
                &&& !final(self).is_finished()
                &&& Self::progressed(*final(self), *old(self))
                &&& Self::facts_effect(c, *old(self), *final(self))
                &&& chunk_effect(
                    c,
                    old(self).open_regions(),
                    final(self).open_regions(),
                    old(self).next_id(),
                    final(self).next_id(),
                )
                &&& (c matches ProseChunk::Text(t) ==> t.spec_bytes().len() > 0)
                &&& (c matches ProseChunk::Text(t) ==> Self::text_ends_at(
                    t,
                    old(self).spec_offset() as int,
                    *final(self),
                ))
                &&& (c matches ProseChunk::TermEvent(ev) ==> event_written(ev, final(self).spec_source().spec_bytes()))
            },
            final(self).is_finished() && !final(self).is_failed() ==> final(self).open_regions()
                == Set::<usize>::empty(),
            old(self).plain_rest() && old(self).spec_offset() < old(self).spec_source().spec_bytes().len() ==> {
                &&& gives_text(
                    r,
                    old(self).spec_source().spec_bytes().subrange(
                        old(self).spec_offset() as int,
                        old(self).spec_source().spec_bytes().len() as int,
                    ),
                )
                &&& final(self).plain_rest()
                &&& final(self).spec_offset() == old(self).spec_source().spec_bytes().len()
            },
            old(self).plain_rest() && old(self).spec_offset() == old(self).spec_source().spec_bytes().len()
                && old(self).open_regions() == Set::<usize>::empty() ==> r is None && !final(self).is_failed(),
    {
        loop
            invariant
                old(self).plain_rest() ==> self.plain_rest() && self.offset == old(self).offset,
                self.wf(),
                self.source == old(self).source,
                self.open_regions() == old(self).open_regions(),
                self.next_region_id == old(self).next_region_id,
                Self::not_regressed(*self, *old(self)),
                self.pending_terms() == old(self).pending_terms(),
                self.in_facts() ==> *self == *old(self),
                old(self).is_finished() ==> *self == *old(self),
                self.is_finished() ==> *self == *old(self),
                forall|text: &'a str| #[trigger] parse_real.requires((text,)),
                old(self).state is EmittingText ==> *self == *old(self),
                old(self).state is EmittingFacts && !old(self).facts.is_finished() ==> *self == *old(self),
                old(self).state is Idle ==> *self == *old(self) || (self.state matches ProseParserState::EmittingText {
                    boundary,
                } && old(self).boundary_spec(Ok(boundary)) && Self::same_but_state(*old(self), *self)),
            decreases self.measure(),
        {
            if self.is_done_or_failed() {
                proof {
                    self.lemma_done_closed();
                }
                return None;
            }
            let ghost head = *self;
            match self.step(parse_real) {
                Ok(Some(chunk)) => {
                    proof {
                        if let ProseChunk::Text(t) = chunk {
                            let k = choose|k: int|
                                head.offset <= k < self.spec_offset() && t.spec_bytes()
                                    == self.spec_source().spec_bytes().subrange(k, self.spec_offset() as int);
                            assert(old(self).offset <= k);
                        }
                    }
                    return Some(Ok(chunk));
                },
                Ok(None) => {
                    if self.is_done_or_failed() {
                        proof {
                            self.lemma_done_closed();
                        }
                        return None;
                    }
                },
                Err(error) => {
                    let ghost after = *self;
                    self.state = ProseParserState::Failed;
                    proof {
                        if old(self).state is Idle {
                            if head == *old(self) {
                                assert(old(self).boundary_spec(Err(self.offset)));
                            } else if let ProseParserState::EmittingText { boundary } = head.state {
                                assert(Self::text_step(head, after, boundary, Err(error)));
                                Self::lemma_text_step_same(head, *old(self), after, boundary, Err(error));
                                assert(Self::text_step(*old(self), *self, boundary, Err(error)));
                                assert(old(self).boundary_spec(Ok(boundary)));
                            }
                        }
                        if let ProseParserState::EmittingText { boundary } = old(self).state {
                            assert(Self::text_step(*old(self), after, boundary, Err(error)));
                        }
                    }
                    return Some(Err(error));
                },
            }
        }
    }

    proof fn lemma_done_closed(&self)
        requires
            self.wf(),
        ensures
            self.is_finished() && !self.is_failed() ==> self.open_regions() == Set::<usize>::empty(),
    {
        if self.state is Done {
            lemma_ids_empty(self.anon_view());
            lemma_ids_empty(self.labeled_regions_view());
            lemma_ids_empty(self.blocks_view());
            assert(self.open_regions() =~= Set::<usize>::empty());
        }
    }

    fn is_done_or_failed(&self) -> (r: bool)
        ensures
            r == self.is_finished(),
    {
        match self.state {
            ProseParserState::Done | ProseParserState::Failed => true,
            _ => false,
        }
    }
}

} // verus!
