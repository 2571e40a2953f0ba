use crate::intern::InternTable;
use crate::parser::prose::{chunk_effect, ProseChunk, ProseError, ProseParser};
use crate::parser::term::{
    atom_text, atom_written, event_effect, event_written, integer_written, lemma_atom_text_written, real_event_read,
    real_read,
    ParseNumber, ParseTerm,
};
use crate::term::{CompoundHandle, IntoTerm, RealTerm, Term, TermTable};
use vstd::prelude::*;
use vstd::string::StringSliceAdditionalSpecFns;

verus! {

/// What the compiler answers to a chunk of the document, when nothing else
/// is owed: its text, the start of a region (when its id fits in 32 bits),
/// or the end of a region, at the current offset of the extracted text; the
/// parse error, with the offset where it arose; and the end of the document.
/// Text that would take the extracted text past 32 bits is refused.
pub open spec fn chunk_answer<'s, A>(
    c: Option<Result<ProseChunk<'s>, ProseError>>,
    r: Result<Option<Event<'s, A>>, CompileError>,
    text_length: u32,
) -> bool {
    match c {
        None => r == Ok::<Option<Event<'s, A>>, CompileError>(None),
        Some(Err(e)) => r matches Err(CompileError::Parse { error, .. }) && error == e,
        Some(Ok(ProseChunk::Text(t))) => if text_length + t.spec_bytes().len() <= 0xffff_ffff {
            r == Ok::<Option<Event<'s, A>>, CompileError>(Some(Event::Text(t)))
        } else {
            r == Err::<Option<Event<'s, A>>, CompileError>(CompileError::TooLarge)
        },
        Some(Ok(ProseChunk::RegionStart { id })) => if id <= 0xffff_ffff {
            r == Ok::<Option<Event<'s, A>>, CompileError>(Some(Event::RegionStart(RegionId(id as u32), text_length)))
        } else {
            r == Err::<Option<Event<'s, A>>, CompileError>(CompileError::TooLarge)
        },
        Some(Ok(ProseChunk::RegionEnd { id })) => r == Ok::<Option<Event<'s, A>>, CompileError>(
            Some(Event::RegionEnd(RegionId(id as u32), text_length)),
        ),
        Some(Ok(ProseChunk::TermEvent(_))) => true,
    }
}

/// The end of a fact is answered by the assertion of the fact's term: the
/// id it names is that of `root`, the last term the fact's events left, in
/// the compiler `new` that gives the answer.
pub open spec fn assertion_answer<'s, A>(
    c: Option<Result<ProseChunk<'s>, ProseError>>,
    r: Result<Option<Event<'s, A>>, CompileError>,
    root: Term,
    new: Compiler<'s>,
) -> bool {
    c matches Some(Ok(ProseChunk::TermEvent(ParseTerm::FactEnd))) ==> (r matches Ok(Some(Event::Assertion(t, _)))
        && new.term(t.0 as int) == root)
}

/// How an event of a fact's terms changes the terms not yet taken by a
/// compound, their handles read in `table`: an atom or a number is added; a
/// compound of `n` arguments takes the last `n` and adds the compound whose
/// body is its functor followed by them; the end of the fact takes its term.
pub open spec fn term_effect(ev: ParseTerm, before: Seq<Term>, after: Seq<Term>, table: TermTable) -> bool {
    match ev {
        ParseTerm::Atom(a) => {
            &&& after.len() == before.len() + 1
            &&& after.drop_last() == before
            &&& after.last() matches Term::Atom(h) && h.0 < table.atoms().len() && table.atoms()[h.0 as int]
                == atom_text(a)
        },
        ParseTerm::Number(ParseNumber::Integer(n)) => after == before.push(Term::Integer(n)),
        ParseTerm::Number(ParseNumber::Real(literal)) => after == before.push(Term::Real(literal.spec_value())),
        ParseTerm::Compound(a, n) => {
            let k = before.len() - n;
            &&& after.len() == k + 1
            &&& after.drop_last() == before.take(k)
            &&& after.last() matches Term::Compound(c) && c.0 < table.compounds().len() && {
                let body = table.compounds()[c.0 as int];
                &&& body.len() == n + 1
                &&& body[0] matches Term::Atom(f) && f.0 < table.atoms().len() && table.atoms()[f.0 as int]
                    == atom_text(a)
                &&& body.skip(1) == before.skip(k)
            }
        },
        ParseTerm::FactEnd => after == before.drop_last(),
    }
}

/// `b` holds every atom and compound of `a` under the same handle.
pub open spec fn table_grows(a: TermTable, b: TermTable) -> bool {
    &&& a.atoms().len() <= b.atoms().len()
    &&& a.compounds().len() <= b.compounds().len()
    &&& forall|h: int| 0 <= h < a.atoms().len() ==> b.atoms()[h] == #[trigger] a.atoms()[h]
    &&& forall|h: int| 0 <= h < a.compounds().len() ==> b.compounds()[h] == #[trigger] a.compounds()[h]
}

/// Growth of a table is transitive.
proof fn lemma_table_grows_trans(a: TermTable, b: TermTable, c: TermTable)
    requires
        table_grows(a, b),
        table_grows(b, c),
    ensures
        table_grows(a, c),
{
    assert forall|h: int| 0 <= h < a.atoms().len() implies c.atoms()[h] == #[trigger] a.atoms()[h] by {
        assert(b.atoms()[h] == a.atoms()[h]);
    }
    assert forall|h: int| 0 <= h < a.compounds().len() implies c.compounds()[h] == #[trigger] a.compounds()[h] by {
        assert(b.compounds()[h] == a.compounds()[h]);
    }
}

/// The event of the fact's terms that a chunk carries.
pub open spec fn chunk_event<'s>(c: Option<Result<ProseChunk<'s>, ProseError>>) -> ParseTerm<'s> {
    match c {
        Some(Ok(ProseChunk::TermEvent(ev))) => ev,
        _ => ParseTerm::FactEnd,
    }
}

/// The events of the fact's terms that chunks carry, in order.
pub open spec fn chunk_events<'s>(cs: Seq<Option<Result<ProseChunk<'s>, ProseError>>>) -> Seq<ParseTerm<'s>> {
    cs.map_values(|c: Option<Result<ProseChunk<'s>, ProseError>>| chunk_event(c))
}

/// `stacks` are the terms not yet taken by a compound before and after each
/// of the events, their handles read in `table`.
pub open spec fn term_trace<'s>(evs: Seq<ParseTerm<'s>>, stacks: Seq<Seq<Term>>, table: TermTable) -> bool {
    &&& stacks.len() == evs.len() + 1
    &&& forall|i: int| 0 <= i < evs.len() ==> term_effect(#[trigger] evs[i], stacks[i], stacks[i + 1], table)
}

/// Each chunk is what the parser before it gives, leading to the parser
/// after it.
pub open spec fn prose_chain<'s>(
    parsers: Seq<ProseParser<'s>>,
    chunks: Seq<Option<Result<ProseChunk<'s>, ProseError>>>,
) -> bool {
    &&& parsers.len() == chunks.len() + 1
    &&& forall|i: int| 0 <= i < chunks.len() ==> ProseParser::next_outcome(parsers[i], parsers[i + 1], #[trigger] chunks[i])
}

/// A term effect read in a table holds in any table grown from it.
proof fn lemma_term_effect_grows(ev: ParseTerm, before: Seq<Term>, after: Seq<Term>, a: TermTable, b: TermTable)
    requires
        term_effect(ev, before, after, a),
        table_grows(a, b),
    ensures
        term_effect(ev, before, after, b),
{
    match ev {
        ParseTerm::Atom(_) => {
            if let Term::Atom(h) = after.last() {
                assert(b.atoms()[h.0 as int] == a.atoms()[h.0 as int]);
            }
        },
        ParseTerm::Compound(_, _) => {
            if let Term::Compound(c) = after.last() {
                let body = a.compounds()[c.0 as int];
                assert(b.compounds()[c.0 as int] == body);
                if let Term::Atom(f) = body[0] {
                    assert(b.atoms()[f.0 as int] == a.atoms()[f.0 as int]);
                }
            }
        },
        _ => {},
    }
}

/// A trace of term effects read in a table holds in any table grown from it.
proof fn lemma_term_trace_grows(evs: Seq<ParseTerm>, stacks: Seq<Seq<Term>>, a: TermTable, b: TermTable)
    requires
        term_trace(evs, stacks, a),
        table_grows(a, b),
    ensures
        term_trace(evs, stacks, b),
{
    assert forall|i: int| 0 <= i < evs.len() implies term_effect(#[trigger] evs[i], stacks[i], stacks[i + 1], b) by {
        lemma_term_effect_grows(evs[i], stacks[i], stacks[i + 1], a, b);
    }
}

/// A trace goes on with one more event.
proof fn lemma_term_trace_push<'s>(
    cs: Seq<Option<Result<ProseChunk<'s>, ProseError>>>,
    c: Option<Result<ProseChunk<'s>, ProseError>>,
    stacks: Seq<Seq<Term>>,
    s: Seq<Term>,
    table: TermTable,
)
    requires
        term_trace(chunk_events(cs), stacks, table),
        term_effect(chunk_event(c), stacks.last(), s, table),
    ensures
        term_trace(chunk_events(cs.push(c)), stacks.push(s), table),
{
    let evs = chunk_events(cs.push(c));
    assert(evs =~= chunk_events(cs).push(chunk_event(c)));
    assert forall|i: int| 0 <= i < evs.len() implies term_effect(
        #[trigger] evs[i],
        stacks.push(s)[i],
        stacks.push(s)[i + 1],
        table,
    ) by {
        if i < cs.len() {
            assert(evs[i] == chunk_events(cs)[i]);
        }
    }
}

/// A chunk after which the compiler reads on within the same call: an event
/// of a fact's terms that does not end the fact.
pub open spec fn continues_facts<'s>(c: Option<Result<ProseChunk<'s>, ProseError>>) -> bool {
    c matches Some(Ok(ProseChunk::TermEvent(ev))) && !(ev is FactEnd)
}

/// An event answers a chunk as the event it resolves to does.
proof fn lemma_answer_resolved<'s>(
    c: Option<Result<ProseChunk<'s>, ProseError>>,
    ev: Event<'s, crate::term::AtomHandle>,
    rev: Event<'s, &str>,
    table: TermTable,
    text_length: u32,
)
    requires
        chunk_answer(c, Ok::<Option<Event<'s, crate::term::AtomHandle>>, CompileError>(Some(ev)), text_length),
        resolved(ev, rev, table),
    ensures
        chunk_answer(c, Ok::<Option<Event<'s, &str>>, CompileError>(Some(rev)), text_length),
{
}

/// A result of `next` as a step gives it.
pub open spec fn next_as_step<'s, A>(r: Option<Result<Event<'s, A>, CompileError>>) -> Result<
    Option<Event<'s, A>>,
    CompileError,
> {
    match r {
        None => Ok(None),
        Some(Ok(e)) => Ok(Some(e)),
        Some(Err(e)) => Err(e),
    }
}

/// The id of a region; regions are numbered from zero in the order they start.
#[derive(Clone, Copy, Debug, PartialEq, Eq, PartialOrd, Ord, Hash, Structural)]
pub struct RegionId(pub u32);

impl RegionId {
    pub fn value(self) -> (r: u32)
        ensures
            r == self.0,
    {
        self.0
    }
}

/// The id of a term; distinct terms are numbered from zero in the order they
/// first occur.
#[derive(Clone, Copy, Debug, PartialEq, Eq, PartialOrd, Ord, Hash, Structural)]
pub struct TermId(pub u32);

impl TermId {
    pub fn value(self) -> (r: u32)
        ensures
            r == self.0,
    {
        self.0
    }
}

/// What the compiler extracts from a document: its text, its regions (with
/// the offset in the extracted text where each starts and ends) and their
/// nesting, the facts asserted over them, and each distinct term, once,
/// before anything refers to it.
#[derive(Clone, Copy, Debug, PartialEq)]
pub enum Event<'s, AtomT> {
    Text(&'s str),
    RegionStart(RegionId, u32),
    RegionEnd(RegionId, u32),
    Assertion(TermId, RegionId),
    Parent(RegionId, RegionId),
    Ancestor(RegionId, RegionId),
    Atom(TermId, AtomT),
    Integer(TermId, i32),
    Real(TermId, RealTerm),
    Compound(TermId, TermId),
    Argument(TermId, u32, TermId),
}

/// Why compilation stopped.
#[derive(Clone, Copy, Debug, PartialEq, Eq, Structural)]
pub enum CompileError {
    /// The document does not parse; `offset` is the byte of the source
    /// where the parser stopped.
    Parse { error: ProseError, offset: usize },
    /// A count or an offset does not fit in 32 bits.
    TooLarge,
}

/// An open region and the regions it directly contains that have ended.
struct OpenRegion {
    id: u32,
    children: Vec<u32>,
}

/// The ids of the regions at the start of `s` that are below `r`, up to
/// the first that is not.
spec fn ids_below(s: Seq<OpenRegion>, r: u32) -> Seq<u32>
    decreases s.len(),
{
    if s.len() == 0 || s[0].id >= r {
        Seq::empty()
    } else {
        seq![s[0].id] + ids_below(s.drop_first(), r)
    }
}

/// Regions with the same ids have the same ids below `r`.
proof fn lemma_ids_below_same(s: Seq<OpenRegion>, t: Seq<OpenRegion>, r: u32)
    requires
        s.len() == t.len(),
        forall|i: int| 0 <= i < s.len() ==> (#[trigger] s[i]).id == t[i].id,
    ensures
        ids_below(s, r) == ids_below(t, r),
    decreases s.len(),
{
    if s.len() > 0 {
        assert(s[0].id == t[0].id);
        lemma_ids_below_same(s.drop_first(), t.drop_first(), r);
    }
}

/// Of regions in increasing order of id, those below `r` are, in order,
/// the ids below `r`.
proof fn lemma_ids_below_sorted(s: Seq<OpenRegion>, r: u32)
    requires
        forall|i: int, j: int| 0 <= i < j < s.len() ==> (#[trigger] s[i]).id < (#[trigger] s[j]).id,
    ensures
        increasing_ids(ids_below(s, r)),
        forall|x: u32|
            #[trigger] ids_below(s, r).contains(x) <==> x < r && exists|i: int| 0 <= i < s.len() && (#[trigger] s[i]).id
                == x,
        forall|i: int| 0 <= i < ids_below(s, r).len() ==> #[trigger] ids_below(s, r)[i] >= s[0].id,
    decreases s.len(),
{
    if s.len() > 0 && s[0].id < r {
        let t = s.drop_first();
        assert forall|i: int, j: int| 0 <= i < j < t.len() implies (#[trigger] t[i]).id < (#[trigger] t[j]).id by {
            assert(s[i + 1].id < s[j + 1].id);
        }
        lemma_ids_below_sorted(t, r);
        let b = ids_below(s, r);
        let bt = ids_below(t, r);
        assert(b == seq![s[0].id] + bt);
        assert forall|i: int| 0 <= i < bt.len() implies #[trigger] bt[i] > s[0].id by {
            if t.len() > 0 {
                assert(s[1].id > s[0].id);
                assert(bt[i] >= t[0].id);
            }
        }
        assert forall|i: int, j: int| 0 <= i < j < b.len() implies #[trigger] b[i] < #[trigger] b[j] by {
            if i > 0 {
                assert(b[i] == bt[i - 1] && b[j] == bt[j - 1]);
            } else {
                assert(b[j] == bt[j - 1]);
            }
        }
        assert forall|x: u32| #[trigger] b.contains(x) <==> x < r && exists|i: int| 0 <= i < s.len() && (#[trigger] s[i]).id
            == x by {
            if b.contains(x) {
                let k = choose|k: int| 0 <= k < b.len() && b[k] == x;
                if k == 0 {
                    assert(s[0].id == x);
                } else {
                    assert(bt[k - 1] == x);
                    assert(bt.contains(x));
                    let i = choose|i: int| 0 <= i < t.len() && (#[trigger] t[i]).id == x;
                    assert(s[i + 1].id == x);
                }
            }
            if x < r && exists|i: int| 0 <= i < s.len() && (#[trigger] s[i]).id == x {
                let i = choose|i: int| 0 <= i < s.len() && (#[trigger] s[i]).id == x;
                if i == 0 {
                    assert(b[0] == x);
                } else {
                    assert(t[i - 1].id == x);
                    assert(bt.contains(x));
                    let k = choose|k: int| 0 <= k < bt.len() && bt[k] == x;
                    assert(b[k + 1] == x);
                }
            }
        }
    } else {
        assert forall|i: int| 0 <= i < s.len() implies (#[trigger] s[i]).id >= r by {
            if i > 0 {
                assert(s[0].id < s[i].id);
            }
        }
    }
}

/// Events owed before the next chunk of the document is read.
enum Pending {
    /// The event of compound `id`, given its id with that of its functor
    /// `functor`, whose event came first.
    Compound { id: u32, functor: u32, compound: CompoundHandle },
    /// The arguments of compound `id`, from `position` on.
    Arguments { id: u32, compound: CompoundHandle, position: usize },
    /// The nesting of region `id`, which has just ended: its children from
    /// `child` on, then the open regions around it from `outer` on.
    Close { id: u32, children: Vec<u32>, child: usize, outer: usize },
}

spec fn arguments_pending(p: Option<Pending>) -> bool {
    p matches Some(Pending::Arguments { .. })
}

/// Whether the one-term sequence of `t` has an id in `ids`.
pub open spec fn registered(ids: Seq<Seq<Term>>, t: Term) -> bool {
    exists|i: int| 0 <= i < ids.len() && #[trigger] ids[i] == seq![t]
}

/// A term whose handles are valid in `table` and whose parts, for a
/// compound, all have ids.
spec fn term_valid(table: TermTable, ids: Seq<Seq<Term>>, t: Term) -> bool {
    match t {
        Term::Atom(h) => table.valid_atom(h),
        Term::Compound(h) => {
            &&& table.valid_compound(h)
            &&& forall|k: int|
                0 <= k < table.compounds()[h.0 as int].len() ==> registered(
                    ids,
                    #[trigger] table.compounds()[h.0 as int][k],
                )
        },
        _ => true,
    }
}

/// The table and the ids only grew from `(t1, ids1)` to `(t2, ids2)`.
spec fn grows(t1: TermTable, ids1: Seq<Seq<Term>>, t2: TermTable, ids2: Seq<Seq<Term>>) -> bool {
    &&& t1.atoms().len() <= t2.atoms().len()
    &&& t1.compounds().len() <= t2.compounds().len()
    &&& forall|h: int| 0 <= h < t1.compounds().len() ==> t2.compounds()[h] == #[trigger] t1.compounds()[h]
    &&& ids1.len() <= ids2.len()
    &&& forall|i: int| 0 <= i < ids1.len() ==> ids2[i] == #[trigger] ids1[i]
}

proof fn lemma_registered_grows(ids1: Seq<Seq<Term>>, ids2: Seq<Seq<Term>>, t: Term)
    requires
        registered(ids1, t),
        ids1.len() <= ids2.len(),
        forall|i: int| 0 <= i < ids1.len() ==> ids2[i] == #[trigger] ids1[i],
    ensures
        registered(ids2, t),
{
    let i = choose|i: int| 0 <= i < ids1.len() && #[trigger] ids1[i] == seq![t];
    assert(ids2[i] == seq![t]);
}

proof fn lemma_valid_grows(t1: TermTable, ids1: Seq<Seq<Term>>, t2: TermTable, ids2: Seq<Seq<Term>>, x: Term)
    requires
        term_valid(t1, ids1, x),
        grows(t1, ids1, t2, ids2),
    ensures
        term_valid(t2, ids2, x),
{
    if let Term::Compound(h) = x {
        assert(t2.compounds()[h.0 as int] == t1.compounds()[h.0 as int]);
        assert forall|k: int| 0 <= k < t2.compounds()[h.0 as int].len() implies registered(
            ids2,
            #[trigger] t2.compounds()[h.0 as int][k],
        ) by {
            lemma_registered_grows(ids1, ids2, t1.compounds()[h.0 as int][k]);
        }
    }
}

/// What the compiler knows of the nesting of regions.
struct Nesting {
    /// For each region that has ended, how many had ended before it.
    ends: Ghost<Map<u32, nat>>,
    /// How many regions have ended.
    end_count: Ghost<nat>,
    /// The pairs given in `Ancestor` events.
    ancestors: Ghost<Set<(u32, u32)>>,
    /// The pairs given in `Parent` events.
    parents: Ghost<Set<(u32, u32)>>,
}

spec fn closing(p: Option<Pending>) -> bool {
    p matches Some(Pending::Close { .. })
}

/// Compiles a document into events, reading it chunk by chunk.
pub struct Compiler<'s> {
    parser: ProseParser<'s>,
    term_table: TermTable,
    term_ids: InternTable<Term>,
    stack: Vec<Term>,
    regions: Vec<OpenRegion>,
    current_region: Option<u32>,
    text_offset: u32,
    pending: Option<Pending>,
    done: bool,
    nesting: Nesting,
}

impl<'s> Compiler<'s> {
    /// The parser the document is read from.
    pub closed spec fn spec_parser(&self) -> ProseParser<'s> {
        self.parser
    }

    /// How many term ids have been given out.
    pub closed spec fn term_count(&self) -> nat {
        if self.pending matches Some(Pending::Compound { .. }) {
            (self.term_ids@.len() - 1) as nat
        } else {
            self.term_ids@.len()
        }
    }

    /// The length of the text emitted so far.
    pub closed spec fn text_length(&self) -> u32 {
        self.text_offset
    }

    /// How many regions have started.
    pub closed spec fn regions_started(&self) -> nat {
        self.parser.next_id() as nat
    }

    /// The regions started and not yet ended.
    pub closed spec fn open_regions(&self) -> Set<u32> {
        Set::new(|x: u32| exists|i: int| 0 <= i < self.regions@.len() && (#[trigger] self.regions@[i]).id == x)
    }

    /// No event is left to come.
    pub closed spec fn is_done(&self) -> bool {
        self.done
    }

    /// The term with id `id`.
    pub closed spec fn term(&self, id: int) -> Term {
        self.term_ids@[id][0]
    }

    /// The terms of the fact being read that no compound has taken yet, the
    /// latest last.
    pub closed spec fn fact_terms(&self) -> Seq<Term> {
        self.stack@
    }

    /// The table that the terms' handles refer to.
    pub closed spec fn table(&self) -> TermTable {
        self.term_table
    }

    /// What an event tells of its term, in state `c`: an atom's text, a
    /// number's value, a compound's functor, and an argument of a compound.
    pub open spec fn describes(ev: Event<'s, &str>, c: Self) -> bool {
        match ev {
            Event::Atom(id, text) => c.term(id.0 as int) matches Term::Atom(h) && c.table().atoms()[h.0 as int]
                == text.spec_bytes(),
            Event::Integer(id, v) => c.term(id.0 as int) matches Term::Integer(n) && n.spec_value() == v,
            Event::Real(id, r) => c.term(id.0 as int) == Term::Real(r),
            Event::Compound(id, f) => c.term(id.0 as int) matches Term::Compound(h) && c.table().compounds()[h.0 as int][0]
                == c.term(f.0 as int),
            Event::Argument(p, k, t) => c.term(p.0 as int) matches Term::Compound(h) && k + 1 < c.table().compounds()[h.0 as int].len()
                && c.table().compounds()[h.0 as int][k + 1] == c.term(t.0 as int),
            _ => true,
        }
    }

    /// What an event with an atom's handle tells of its term.
    spec fn describes_handle(ev: Event<'s, crate::term::AtomHandle>, c: Self) -> bool {
        match ev {
            Event::Atom(id, h) => c.term(id.0 as int) == Term::Atom(h),
            Event::Integer(id, v) => c.term(id.0 as int) matches Term::Integer(n) && n.spec_value() == v,
            Event::Real(id, r) => c.term(id.0 as int) == Term::Real(r),
            Event::Compound(id, f) => c.term(id.0 as int) matches Term::Compound(h) && c.table().compounds()[h.0 as int][0]
                == c.term(f.0 as int),
            Event::Argument(p, k, t) => c.term(p.0 as int) matches Term::Compound(h) && k + 1 < c.table().compounds()[h.0 as int].len()
                && c.table().compounds()[h.0 as int][k + 1] == c.term(t.0 as int),
            _ => true,
        }
    }

    /// For each region that has ended, how many regions had ended before it.
    pub closed spec fn ends(&self) -> Map<u32, nat> {
        self.nesting.ends@
    }

    /// How many regions have ended.
    pub closed spec fn end_count(&self) -> nat {
        self.nesting.end_count@
    }

    /// The pairs of regions given so far in `Ancestor` events.
    pub closed spec fn ancestors(&self) -> Set<(u32, u32)> {
        self.nesting.ancestors@
    }

    /// The pairs of regions given so far in `Parent` events.
    pub closed spec fn parents(&self) -> Set<(u32, u32)> {
        self.nesting.parents@
    }

    /// The compound whose arguments are being given: its id, how many of
    /// its arguments have been given, and how many it has.
    pub closed spec fn arguments_owed(&self) -> (nat, nat, nat) {
        match self.pending {
            Some(Pending::Arguments { id, compound, position }) => (
                id as nat,
                position as nat,
                (self.term_table.compounds()[compound.0 as int].len() - 1) as nat,
            ),
            _ => (0, 0, 0),
        }
    }

    /// Some argument of the last compound is still to be given.
    pub open spec fn owes_arguments(c: Self) -> bool {
        c.arguments_owed().1 < c.arguments_owed().2
    }

    /// How events follow a compound: its event comes when no argument is
    /// owed, and owes each of its arguments, of which it has at least one;
    /// the arguments then come one by one, in order; no other event comes
    /// while an argument is owed.
    pub open spec fn argument_law<A>(ev: Event<'s, A>, old: Self, new: Self) -> bool {
        match ev {
            Event::Argument(p, k, _) => {
                &&& Self::owes_arguments(old)
                &&& old.arguments_owed().0 == p.0
                &&& old.arguments_owed().1 == k
                &&& new.arguments_owed() == (p.0 as nat, k as nat + 1, old.arguments_owed().2)
            },
            Event::Compound(id, _) => {
                &&& !Self::owes_arguments(old)
                &&& new.arguments_owed().0 == id.0
                &&& new.arguments_owed().1 == 0
                &&& new.arguments_owed().2 >= 1
                &&& new.term(id.0 as int) matches Term::Compound(h) && new.table().compounds()[h.0 as int].len()
                    == new.arguments_owed().2 + 1
            },
            _ => !Self::owes_arguments(old),
        }
    }

    /// Events are owed before the next chunk of the document is read.
    pub closed spec fn has_pending(&self) -> bool {
        self.pending is Some
    }

    /// What is left of the document is plain text, and no event is owed.
    pub open spec fn plain_start(c: Self) -> bool {
        &&& !c.is_done()
        &&& !c.has_pending()
        &&& c.spec_parser().plain_rest()
    }

    /// What is left of the document.
    pub open spec fn rest(c: Self) -> Seq<u8> {
        c.spec_parser().spec_source().spec_bytes().subrange(
            c.spec_parser().spec_offset() as int,
            c.spec_parser().spec_source().spec_bytes().len() as int,
        )
    }

    /// The compiler is giving the nesting of a region that has just ended.
    pub closed spec fn is_closing(&self) -> bool {
        closing(self.pending)
    }

    /// The region whose nesting is being given, while one is.
    pub closed spec fn closing_region(&self) -> u32 {
        match self.pending {
            Some(Pending::Close { id, .. }) => id,
            _ => 0,
        }
    }

    /// The regions that the closing region directly contains and that no
    /// `Parent` event has given yet, in the order they will come.
    pub closed spec fn owed_children(&self) -> Seq<u32> {
        match self.pending {
            Some(Pending::Close { children, child, .. }) => children@.skip(child as int),
            _ => Seq::empty(),
        }
    }

    /// The open regions around the closing region that no `Ancestor` event
    /// has told of it yet, in the order they will come.
    pub closed spec fn owed_outer(&self) -> Seq<u32> {
        match self.pending {
            Some(Pending::Close { id, outer, .. }) => ids_below(self.regions@.skip(outer as int), id),
            _ => Seq::empty(),
        }
    }

    /// Some `Parent` or `Ancestor` event is still owed for the closing
    /// region.
    pub open spec fn owes_nesting(c: Self) -> bool {
        c.owed_children().len() > 0 || c.owed_outer().len() > 0
    }

    /// Region `r` has just ended: its `Parent` events are owed for exactly
    /// the regions it directly contains, in increasing order, and then its
    /// `Ancestor` events for exactly the open regions opened before it, in
    /// increasing order.
    pub open spec fn closing_starts(c: Self, r: u32) -> bool {
        &&& c.is_closing()
        &&& c.closing_region() == r
        &&& increasing_ids(c.owed_children())
        &&& forall|x: u32| #[trigger] c.owed_children().contains(x) <==> directly_contains(c.ends(), r, x)
        &&& increasing_ids(c.owed_outer())
        &&& forall|o: u32| #[trigger] c.owed_outer().contains(o) <==> c.open_regions().contains(o) && o < r
    }

    /// While the nesting of a region is owed, the next event is the first
    /// `Parent` event owed, or when none is, the first `Ancestor` event
    /// owed; that event is then no longer owed, and nothing else changes in
    /// what is owed.
    pub open spec fn closing_step<A>(ev: Event<'s, A>, old: Self, new: Self) -> bool {
        &&& new.is_closing()
        &&& new.closing_region() == old.closing_region()
        &&& if old.owed_children().len() > 0 {
            &&& ev == Event::<'s, A>::Parent(RegionId(old.closing_region()), RegionId(old.owed_children()[0]))
            &&& new.owed_children() == old.owed_children().drop_first()
            &&& new.owed_outer() == old.owed_outer()
        } else {
            &&& ev == Event::<'s, A>::Ancestor(RegionId(old.owed_outer()[0]), RegionId(old.closing_region()))
            &&& new.owed_children() == old.owed_children()
            &&& new.owed_outer() == old.owed_outer().drop_first()
        }
    }

    /// The order of ends that the children listed for the open region at `j`
    /// reflect: while region `id` is being closed, the regions open around
    /// it that have not been told of it yet reflect the order before it
    /// ended.
    spec fn ends_seen(&self, j: int) -> Map<u32, nat> {
        let ends = self.nesting.ends@;
        match self.pending {
            Some(Pending::Close { id, outer, .. }) => if outer <= j && self.regions@[j].id < id {
                ends.remove(id)
            } else {
                ends
            },
            _ => ends,
        }
    }

    /// The `Ancestor` pairs given while region `id` is being closed, with
    /// the first `outer` open regions told of it.
    spec fn told_ancestors(&self, id: u32, outer: int) -> Set<(u32, u32)> {
        Set::new(
            |p: (u32, u32)|
                region_contains(self.nesting.ends@, p.0, p.1) && (p.1 != id || exists|j: int|
                    0 <= j < outer && (#[trigger] self.regions@[j]).id == p.0),
        )
    }

    /// What the compiler keeps of the nesting of regions, with the parser at
    /// `p`.
    spec fn nesting_wf(&self, p: ProseParser<'s>) -> bool {
        let ends = self.nesting.ends@;
        &&& p.next_id() <= u32::MAX + 1
        &&& forall|x: u32|
            #[trigger] ends.dom().contains(x) ==> x < p.next_id() && ends[x] < self.nesting.end_count@
        &&& forall|i: int| 0 <= i < self.regions@.len() ==> !ends.dom().contains((#[trigger] self.regions@[i]).id)
        &&& forall|x: u32|
            x < p.next_id() && !#[trigger] ends.dom().contains(x) ==> exists|i: int|
                0 <= i < self.regions@.len() && (#[trigger] self.regions@[i]).id == x
        &&& forall|j: int|
            0 <= j < self.regions@.len() ==> children_wf(
                (#[trigger] self.regions@[j]).children@,
                self.ends_seen(j),
                self.regions@[j].id,
            )
        &&& match self.pending {
            Some(Pending::Close { id, children, child, outer }) => {
                &&& ends.dom().contains(id)
                &&& forall|x: u32| #[trigger] ends.dom().contains(x) && x != id ==> ends[x] < ends[id]
                &&& children_wf(children@, ends, id)
                &&& forall|j: int| 0 <= j < outer ==> (#[trigger] self.regions@[j]).id < id
                &&& self.nesting.ancestors@ == self.told_ancestors(id, outer as int)
                &&& self.nesting.parents@ == Set::new(
                    |q: (u32, u32)|
                        directly_contains(ends, q.0, q.1) && ends.dom().contains(q.0) && (q.0 != id
                            || children@.take(child as int).contains(q.1)),
                )
            },
            _ => {
                &&& self.nesting.ancestors@ == containments(ends)
                &&& self.nesting.parents@ == ended_direct_containments(ends)
            },
        }
    }

    spec fn pending_wf(&self) -> bool {
        match self.pending {
            None => true,
            Some(Pending::Compound { id, functor, compound }) => {
                &&& term_valid(self.term_table, self.term_ids@, Term::Compound(compound))
                &&& self.term_ids@.len() >= 1
                &&& id == self.term_ids@.len() - 1
                &&& functor < id
                &&& self.term_ids@[id as int] == seq![Term::Compound(compound)]
                &&& self.term_table.compounds()[compound.0 as int].len() >= 2
                &&& self.term_ids@[functor as int] == seq![self.term_table.compounds()[compound.0 as int][0]]
            },
            Some(Pending::Arguments { id, compound, position }) => {
                &&& term_valid(self.term_table, self.term_ids@, Term::Compound(compound))
                &&& position + 1 <= self.term_table.compounds()[compound.0 as int].len()
                &&& self.term_table.compounds()[compound.0 as int].len() >= 2
                &&& id < self.term_ids@.len()
                &&& self.term_ids@[id as int] == seq![Term::Compound(compound)]
            },
            Some(Pending::Close { children, child, outer, .. }) => {
                &&& child <= children@.len()
                &&& outer <= self.regions@.len()
            },
        }
    }

    spec fn inner_wf(&self) -> bool {
        &&& self.parser.wf()
        &&& self.term_table.wf()
        &&& self.term_ids.wf()
        &&& self.term_ids@.len() <= u32::MAX + 1
        &&& forall|i: int|
            0 <= i < self.term_ids@.len() ==> (#[trigger] self.term_ids@[i]).len() == 1 && term_valid(
                self.term_table,
                self.term_ids@,
                self.term_ids@[i][0],
            )
        &&& forall|i: int|
            0 <= i < self.stack@.len() ==> registered(self.term_ids@, #[trigger] self.stack@[i])
                && term_valid(self.term_table, self.term_ids@, self.stack@[i])
        &&& self.pending_wf()
        &&& forall|h: int|
            0 <= h < self.term_table.atoms().len() ==> atom_written(
                #[trigger] self.term_table.atoms()[h],
                self.parser.spec_source().spec_bytes(),
            )
    }

    /// What the compiler keeps in step with the parser `p`.
    spec fn tracks(&self, p: ProseParser<'s>) -> bool {
        &&& !p.is_finished()
        &&& self.stack@.len() == p.pending_terms()
        &&& p.in_facts() ==> p.facts_region() <= u32::MAX && self.current_region == Some(
            p.facts_region() as u32,
        )
        &&& forall|i: int, j: int|
            0 <= i < j < self.regions@.len() ==> (#[trigger] self.regions@[i]).id < (
            #[trigger] self.regions@[j]).id
        &&& forall|i: int|
            0 <= i < self.regions@.len() ==> (#[trigger] self.regions@[i]).id < p.next_id()
                && p.open_regions().contains(self.regions@[i].id as usize)
        &&& forall|x: usize|
            #[trigger] p.open_regions().contains(x) ==> exists|i: int|
                0 <= i < self.regions@.len() && (#[trigger] self.regions@[i]).id as usize == x
        &&& self.nesting_wf(p)
    }

    /// The compiler's invariant.
    pub closed spec fn wf(&self) -> bool {
        &&& self.inner_wf()
        &&& !self.done ==> self.tracks(self.parser)
    }

    /// A compiler reading the document from `parser`, which must be at its
    /// start.
    pub fn new(parser: ProseParser<'s>) -> (r: Self)
        requires
            parser.wf(),
            !parser.is_finished(),
            parser.open_regions() == Set::<usize>::empty(),
            parser.pending_terms() == 0,
            !parser.in_facts(),
            parser.next_id() == 0,
        ensures
            r.wf(),
            !r.is_done(),
            r.spec_parser() == parser,
            r.term_count() == 0,
            r.text_length() == 0,
            r.open_regions() == Set::<u32>::empty(),
            !r.has_pending(),
    {
        let r = Compiler {
            parser,
            term_table: TermTable::new(),
            term_ids: InternTable::new(),
            stack: Vec::new(),
            regions: Vec::new(),
            current_region: None,
            text_offset: 0,
            pending: None,
            done: false,
            nesting: Nesting {
                ends: Ghost(Map::empty()),
                end_count: Ghost(0),
                ancestors: Ghost(Set::empty()),
                parents: Ghost(Set::empty()),
            },
        };
        assert(r.nesting.ancestors@ =~= containments(Map::empty()));
        assert(r.nesting.parents@ =~= ended_direct_containments(Map::empty()));
        assert(r.open_regions() =~= Set::<u32>::empty());
        r
    }
}

/// The one-term sequence of `t`, under which its id is kept.
fn term_key(t: Term) -> (r: Vec<Term>)
    ensures
        r@ == seq![t],
{
    let mut key: Vec<Term> = Vec::new();
    key.push(t);
    key
}

impl<'s> Compiler<'s> {
    /// The id of a term that has one.
    fn id_of(&self, t: Term) -> (r: u32)
        requires
            self.term_ids.wf(),
            self.term_ids@.len() <= u32::MAX + 1,
            registered(self.term_ids@, t),
        ensures
            r < self.term_ids@.len(),
            self.term_ids@[r as int] == seq![t],
    {
        let key = term_key(t);
        match self.term_ids.get(key.as_slice()) {
            Some(i) => i as u32,
            None => {
                proof {
                    let i = choose|i: int| 0 <= i < self.term_ids@.len() && #[trigger] self.term_ids@[i] == seq![t];
                    assert(self.term_ids@.contains(key@));
                }
                0
            },
        }
    }

    /// Gives `t` the next id, with the event that introduces it, unless it
    /// has one already.
    fn generate_term_event(&mut self, t: Term) -> (r: Result<Option<Event<'s, crate::term::AtomHandle>>, CompileError>)
        requires
            old(self).inner_wf(),
            old(self).pending is None,
            term_valid(old(self).term_table, old(self).term_ids@, t),
            t is Compound ==> old(self).term_table.compounds()[t->Compound_0.0 as int].len() >= 2,
        ensures
            final(self).inner_wf(),
            final(self).parser == old(self).parser,
            final(self).term_table == old(self).term_table,
            final(self).stack == old(self).stack,
            final(self).regions == old(self).regions,
            final(self).current_region == old(self).current_region,
            final(self).text_offset == old(self).text_offset,
            final(self).done == old(self).done,
            final(self).nesting == old(self).nesting,
            registered(final(self).term_ids@, t) || r is Err,
            grows(old(self).term_table, old(self).term_ids@, final(self).term_table, final(self).term_ids@),
            match r {
                Ok(None) => {
                    &&& registered(old(self).term_ids@, t)
                    &&& final(self).term_ids@ == old(self).term_ids@
                    &&& final(self).pending == old(self).pending
                },
                Ok(Some(ev)) => {
                    &&& !registered(old(self).term_ids@, t)
                    &&& final(self).term_ids@ == old(self).term_ids@.push(seq![t])
                    &&& Self::introduces(ev, old(self).term_ids@.len())
                    &&& (t is Compound) == (ev is Compound)
                    &&& !(t is Compound) ==> final(self).pending is None
                    &&& t is Compound ==> arguments_pending(final(self).pending)
                    &&& Self::argument_law(ev, *old(self), *final(self))
                    &&& Self::atom_valid(ev, final(self).term_table)
                    &&& Self::describes_handle(ev, *final(self))
                    &&& (ev matches Event::Integer(_, v) ==> (t matches Term::Integer(n) && n.spec_value() == v))
                    &&& (ev matches Event::Real(_, v) ==> t == Term::Real(v))
                },
                Err(e) => {
                    &&& e == CompileError::TooLarge
                    &&& final(self).term_ids@ == old(self).term_ids@
                    &&& final(self).pending == old(self).pending
                },
            },
    {
        let key = term_key(t);
        if let Some(_) = self.term_ids.get(key.as_slice()) {
            return Ok(None);
        }
        let n = self.term_ids.len();
        if n > 0xffff_ffffusize || n >= usize::MAX - 2 {
            return Err(CompileError::TooLarge);
        }
        let ghost ids0 = self.term_ids@;
        let index = self.term_ids.intern(key.as_slice());
        assert(index == n);
        let id = TermId(n as u32);
        proof {
            assert(self.term_ids@[n as int] == seq![t]);
            assert(registered(self.term_ids@, t));
            assert forall|i: int| 0 <= i < ids0.len() implies self.term_ids@[i] == #[trigger] ids0[i] by {}
            assert forall|i: int| 0 <= i < self.term_ids@.len() implies (#[trigger] self.term_ids@[i]).len() == 1 && term_valid(
                self.term_table,
                self.term_ids@,
                self.term_ids@[i][0],
            ) by {
                if i < ids0.len() {
                    assert(self.term_ids@[i] == ids0[i]);
                    lemma_valid_grows(self.term_table, ids0, self.term_table, self.term_ids@, ids0[i][0]);
                } else {
                    lemma_valid_grows(self.term_table, ids0, self.term_table, self.term_ids@, t);
                }
            }
            assert forall|i: int| 0 <= i < self.stack@.len() implies registered(self.term_ids@, #[trigger] self.stack@[i])
                && term_valid(self.term_table, self.term_ids@, self.stack@[i]) by {
                lemma_registered_grows(ids0, self.term_ids@, self.stack@[i]);
                lemma_valid_grows(self.term_table, ids0, self.term_table, self.term_ids@, self.stack@[i]);
            }
            lemma_valid_grows(self.term_table, ids0, self.term_table, self.term_ids@, t);
        }
        let ev = match t {
            Term::Atom(h) => Event::Atom(id, h),
            Term::Integer(v) => Event::Integer(id, v.value()),
            Term::Real(v) => Event::Real(id, v),
            Term::Compound(c) => {
                let (functor, _) = self.term_table.compound_value(c);
                proof {
                    assert(self.term_table.compounds()[c.0 as int][0] == Term::Atom(functor));
                }
                let f = self.id_of(Term::Atom(functor));
                proof {
                    assert(self.term_ids@[n as int] == seq![t]);
                    assert(f != n) by {
                        if f == n {
                            assert(seq![Term::Atom(functor)][0] == seq![t][0]);
                        }
                    }
                }
                self.pending = Some(Pending::Arguments { id: n as u32, compound: c, position: 0 });
                proof {
                    self.term_table.lemma_compound_shape(c);
                }
                Event::Compound(id, TermId(f))
            },
        };
        Ok(Some(ev))
    }

    spec fn atom_valid(ev: Event<'s, crate::term::AtomHandle>, table: TermTable) -> bool {
        ev matches Event::Atom(_, h) ==> table.valid_atom(h)
    }

    /// Whether `ev` is the event that introduces term id `n`.
    pub open spec fn introduces<A>(ev: Event<'s, A>, n: nat) -> bool {
        match ev {
            Event::Atom(id, _) => id.0 == n,
            Event::Integer(id, _) => id.0 == n,
            Event::Real(id, _) => id.0 == n,
            Event::Compound(id, f) => id.0 == n && f.0 < n,
            _ => false,
        }
    }
}

/// The id an event introduces, if it introduces one.
pub open spec fn introduced_id<'s, A>(ev: Event<'s, A>) -> Option<nat> {
    match ev {
        Event::Atom(id, _) => Some(id.0 as nat),
        Event::Integer(id, _) => Some(id.0 as nat),
        Event::Real(id, _) => Some(id.0 as nat),
        Event::Compound(id, _) => Some(id.0 as nat),
        _ => None,
    }
}

/// Whether an event refers to the term with id `x`: a compound's functor,
/// an argument and its compound, or an assertion's term.
pub open spec fn refers_to<'s, A>(ev: Event<'s, A>, x: nat) -> bool {
    match ev {
        Event::Compound(_, f) => f.0 == x,
        Event::Argument(c, _, a) => c.0 == x || a.0 == x,
        Event::Assertion(a, _) => a.0 == x,
        _ => false,
    }
}

/// Whether an event before `k` introduces id `x`.
pub open spec fn introduced_before<'s, A>(evs: Seq<Event<'s, A>>, k: int, x: nat) -> bool {
    exists|j: int| 0 <= j < k && #[trigger] introduced_id(evs[j]) == Some(x)
}

impl<'s> Compiler<'s> {
    proof fn lemma_term_stream_state<A>(evs: Seq<Event<'s, A>>, counts: Seq<nat>, k: int)
        requires
            counts.len() == evs.len() + 1,
            counts[0] == 0,
            forall|i: int| 0 <= i < evs.len() ==> Self::term_law(#[trigger] evs[i], counts[i], counts[i + 1]),
            0 <= k <= evs.len(),
        ensures
            forall|x: nat| #[trigger] introduced_before(evs, k, x) <==> x < counts[k],
        decreases k,
    {
        if k > 0 {
            Self::lemma_term_stream_state(evs, counts, k - 1);
            assert(Self::term_law(evs[k - 1], counts[k - 1], counts[k]));
            assert forall|x: nat| #[trigger] introduced_before(evs, k, x) <==> x < counts[k] by {
                assert(introduced_before(evs, k - 1, x) <==> x < counts[k - 1]);
                if introduced_before(evs, k - 1, x) {
                    let j = choose|j: int| 0 <= j < k - 1 && #[trigger] introduced_id(evs[j]) == Some(x);
                    assert(0 <= j < k && introduced_id(evs[j]) == Some(x));
                }
                if introduced_before(evs, k, x) && !introduced_before(evs, k - 1, x) {
                    let j = choose|j: int| 0 <= j < k && #[trigger] introduced_id(evs[j]) == Some(x);
                    assert(j == k - 1);
                }
                if x == counts[k - 1] && counts[k] == counts[k - 1] + 1 {
                    assert(introduced_id(evs[k - 1]) == Some(x));
                }
            }
        }
    }

    /// Over the events a compiler gives from its start, counting the ids
    /// given out before each: the events that introduce a term give it the
    /// ids 0, 1, 2, ... in order, each once; and every id an event refers to
    /// was introduced by an earlier event.
    pub proof fn lemma_term_stream<A>(evs: Seq<Event<'s, A>>, counts: Seq<nat>)
        requires
            counts.len() == evs.len() + 1,
            counts[0] == 0,
            forall|i: int| 0 <= i < evs.len() ==> Self::term_law(#[trigger] evs[i], counts[i], counts[i + 1]),
        ensures
            forall|i: int|
                0 <= i < evs.len() && #[trigger] introduced_id(evs[i]) is Some ==> introduced_id(evs[i]) == Some(counts[i])
                    && !introduced_before(evs, i, counts[i]),
            forall|i: int, x: nat|
                0 <= i < evs.len() && #[trigger] refers_to(evs[i], x) ==> #[trigger] introduced_before(evs, i, x),
    {
        assert forall|i: int|
            0 <= i < evs.len() && #[trigger] introduced_id(evs[i]) is Some implies introduced_id(evs[i]) == Some(counts[i])
                && !introduced_before(evs, i, counts[i]) by {
            Self::lemma_term_stream_state(evs, counts, i);
            assert(Self::term_law(evs[i], counts[i], counts[i + 1]));
        }
        assert forall|i: int, x: nat|
            0 <= i < evs.len() && #[trigger] refers_to(evs[i], x) implies #[trigger] introduced_before(evs, i, x) by {
            Self::lemma_term_stream_state(evs, counts, i);
            assert(Self::term_law(evs[i], counts[i], counts[i + 1]));
        }
    }
}

/// Region `o` contains region `c`, given the order `ends` in which regions
/// ended: `c` started after `o` and ended while `o` was still open.
pub open spec fn region_contains(ends: Map<u32, nat>, o: u32, c: u32) -> bool {
    &&& o < c
    &&& ends.dom().contains(c)
    &&& (ends.dom().contains(o) ==> ends[c] < ends[o])
}

/// Region `o` contains region `c`, and no region contains `c` that `o`
/// contains.
pub open spec fn directly_contains(ends: Map<u32, nat>, o: u32, c: u32) -> bool {
    &&& region_contains(ends, o, c)
    &&& !exists|m: u32| #[trigger] region_contains(ends, o, m) && #[trigger] region_contains(ends, m, c)
}

/// Every pair of regions of which the first contains the second.
pub open spec fn containments(ends: Map<u32, nat>) -> Set<(u32, u32)> {
    Set::new(|p: (u32, u32)| region_contains(ends, p.0, p.1))
}

/// Every pair of regions of which the first, which has ended, directly
/// contains the second.
pub open spec fn ended_direct_containments(ends: Map<u32, nat>) -> Set<(u32, u32)> {
    Set::new(|p: (u32, u32)| directly_contains(ends, p.0, p.1) && ends.dom().contains(p.0))
}

/// Strictly increasing.
pub open spec fn increasing_ids(s: Seq<u32>) -> bool {
    forall|i: int, j: int| 0 <= i < j < s.len() ==> #[trigger] s[i] < #[trigger] s[j]
}

/// `s` lists, in increasing order, the regions that `o` directly contains.
spec fn children_wf(s: Seq<u32>, ends: Map<u32, nat>, o: u32) -> bool {
    &&& increasing_ids(s)
    &&& forall|c: u32|
        #![trigger s.contains(c)]
        #![trigger directly_contains(ends, o, c)]
        s.contains(c) <==> directly_contains(ends, o, c)
}

/// `ends` grows by region `r`, which ends after all the others.
spec fn ends_with(ends: Map<u32, nat>, r: u32, k: nat, after: Map<u32, nat>) -> bool {
    &&& !ends.dom().contains(r)
    &&& forall|x: u32| #[trigger] ends.dom().contains(x) ==> ends[x] < k
    &&& after == ends.insert(r, k)
}

/// When region `r` ends, nothing changes for the regions other than those
/// open around it.
proof fn lemma_end_keeps(ends: Map<u32, nat>, r: u32, k: nat, after: Map<u32, nat>, o: u32, c: u32)
    requires
        ends_with(ends, r, k, after),
        o > r || ends.dom().contains(o) || o == r,
    ensures
        directly_contains(after, o, c) == directly_contains(ends, o, c),
        c != r ==> region_contains(after, o, c) == region_contains(ends, o, c),
        !region_contains(after, o, r),
{
    assert forall|x: u32, y: u32| y != r implies region_contains(after, x, y) == region_contains(ends, x, y) by {
        if after.dom().contains(y) {
            assert(ends.dom().contains(y));
        }
    }
    if c != r {
        if exists|m: u32| #[trigger] region_contains(after, o, m) && #[trigger] region_contains(after, m, c) {
            let m = choose|m: u32| #[trigger] region_contains(after, o, m) && #[trigger] region_contains(after, m, c);
            assert(m != r);
            assert(region_contains(ends, o, m) && region_contains(ends, m, c));
        }
        if exists|m: u32| #[trigger] region_contains(ends, o, m) && #[trigger] region_contains(ends, m, c) {
            let m = choose|m: u32| #[trigger] region_contains(ends, o, m) && #[trigger] region_contains(ends, m, c);
            assert(region_contains(after, o, m) && region_contains(after, m, c));
        }
    }
}

/// When region `r` ends, no region contains it yet, and which regions
/// contain which others among the rest does not change.
proof fn lemma_end_contains(ends: Map<u32, nat>, r: u32, k: nat, after: Map<u32, nat>, o: u32, c: u32)
    requires
        ends_with(ends, r, k, after),
    ensures
        c != r ==> region_contains(after, o, c) == region_contains(ends, o, c),
        !region_contains(ends, o, r),
{
    if c != r && after.dom().contains(c) {
        assert(ends.dom().contains(c));
    }
}

/// When region `r` ends inside the open region `o`, the regions `o`
/// directly contains become those it did before that started before `r`,
/// and `r`.
proof fn lemma_end_adopts(ends: Map<u32, nat>, r: u32, k: nat, after: Map<u32, nat>, o: u32, c: u32)
    requires
        ends_with(ends, r, k, after),
        o < r,
        !ends.dom().contains(o),
    ensures
        directly_contains(after, o, c) == ((directly_contains(ends, o, c) && c < r) || c == r),
        region_contains(after, o, r),
{
    assert forall|x: u32, y: u32| y != r implies region_contains(after, x, y) == region_contains(ends, x, y) by {
        if after.dom().contains(y) {
            assert(ends.dom().contains(y));
        }
    }
    assert(region_contains(after, o, r));
    if c == r {
        if exists|m: u32| #[trigger] region_contains(after, o, m) && #[trigger] region_contains(after, m, c) {
            let m = choose|m: u32| #[trigger] region_contains(after, o, m) && #[trigger] region_contains(after, m, c);
            assert(m != r);
            assert(after.dom().contains(m));
        }
    } else {
        if directly_contains(after, o, c) {
            assert(region_contains(ends, o, c));
            if r < c {
                assert(region_contains(after, r, c));
                assert(false);
            }
            if exists|m: u32| #[trigger] region_contains(ends, o, m) && #[trigger] region_contains(ends, m, c) {
                let m = choose|m: u32| #[trigger] region_contains(ends, o, m) && #[trigger] region_contains(ends, m, c);
                assert(region_contains(after, o, m) && region_contains(after, m, c));
            }
        }
        if directly_contains(ends, o, c) && c < r {
            if exists|m: u32| #[trigger] region_contains(after, o, m) && #[trigger] region_contains(after, m, c) {
                let m = choose|m: u32| #[trigger] region_contains(after, o, m) && #[trigger] region_contains(after, m, c);
                if m == r {
                    assert(false);
                } else {
                    assert(region_contains(ends, o, m) && region_contains(ends, m, c));
                }
            }
        }
    }
}

/// Dropping the last elements above `x` from an increasing sequence keeps
/// it increasing and keeps exactly its elements up to `x`.
proof fn lemma_drop_above(s: Seq<u32>, x: u32)
    requires
        increasing_ids(s),
    ensures
        increasing_ids(drop_above(s, x)),
        forall|c: u32| #[trigger] drop_above(s, x).contains(c) <==> (s.contains(c) && c <= x),
        forall|i: int| 0 <= i < drop_above(s, x).len() ==> #[trigger] drop_above(s, x)[i] <= x,
    decreases s.len(),
{
    if s.len() > 0 && s.last() > x {
        let t = s.drop_last();
        assert(increasing_ids(t)) by {
            assert forall|i: int, j: int| 0 <= i < j < t.len() implies #[trigger] t[i] < #[trigger] t[j] by {
                assert(s[i] < s[j]);
            }
        }
        lemma_drop_above(t, x);
        assert forall|c: u32| #[trigger] drop_above(s, x).contains(c) <==> (s.contains(c) && c <= x) by {
            if s.contains(c) && c <= x {
                let i = choose|i: int| 0 <= i < s.len() && s[i] == c;
                assert(i != s.len() - 1);
                assert(t[i] == c);
            }
            if t.contains(c) {
                let i = choose|i: int| 0 <= i < t.len() && t[i] == c;
                assert(s[i] == c);
            }
        }
    } else {
        assert forall|i: int| 0 <= i < s.len() implies #[trigger] s[i] <= x by {
            if i < s.len() - 1 {
                assert(s[i] < s[s.len() - 1]);
            }
        }
        assert forall|c: u32| #[trigger] s.contains(c) implies c <= x by {
            let i = choose|i: int| 0 <= i < s.len() && s[i] == c;
        }
    }
}

/// `s` without its last elements greater than `x`.
pub open spec fn drop_above(s: Seq<u32>, x: u32) -> Seq<u32>
    decreases s.len(),
{
    if s.len() > 0 && s.last() > x {
        drop_above(s.drop_last(), x)
    } else {
        s
    }
}

/// Makes region `child`, which has just ended, a child of the open region at
/// `index`, in place of the children that `child` contains: those that
/// started after it.
fn adopt(regions: &mut Vec<OpenRegion>, index: usize, child: u32)
    requires
        index < old(regions)@.len(),
    ensures
        final(regions)@.len() == old(regions)@.len(),
        forall|i: int| 0 <= i < old(regions)@.len() && i != index ==> #[trigger] final(regions)@[i] == old(regions)@[i],
        final(regions)@[index as int].id == old(regions)@[index as int].id,
        final(regions)@[index as int].children@ == drop_above(old(regions)@[index as int].children@, child).push(child),
{
    let ghost before = regions@;
    let mut entry = regions.remove(index);
    let ghost initial = entry.children@;
    let ghost rest = regions@;
    let ghost entry_id = entry.id;
    loop
        invariant
            drop_above(entry.children@, child) == drop_above(initial, child),
            entry.id == entry_id,
            regions@ == rest,
        ensures
            entry.children@ == drop_above(initial, child),
            entry.id == entry_id,
            regions@ == rest,
        decreases entry.children@.len(),
    {
        let n = entry.children.len();
        if n == 0 {
            break;
        }
        if entry.children[n - 1] <= child {
            break;
        }
        entry.children.pop();
    }
    entry.children.push(child);
    regions.insert(index, entry);
    proof {
        assert forall|i: int| 0 <= i < before.len() && i != index implies #[trigger] regions@[i] == before[i] by {
            if i < index {
                assert(rest[i] == before[i]);
            } else {
                assert(rest[i - 1] == before[i]);
            }
        }
    }
}

impl<'s> Compiler<'s> {
    /// Listing one more child of the region being closed gives one more
    /// `Parent` pair, not given before.
    proof fn lemma_parent_step(children: Seq<u32>, child: int, ends: Map<u32, nat>, id: u32, given: Set<(u32, u32)>)
        requires
            0 <= child < children.len(),
            children_wf(children, ends, id),
            ends.dom().contains(id),
            given == Set::new(
                |q: (u32, u32)|
                    directly_contains(ends, q.0, q.1) && ends.dom().contains(q.0) && (q.0 != id
                        || children.take(child).contains(q.1)),
            ),
        ensures
            !given.contains((id, children[child])),
            given.insert((id, children[child])) == Set::new(
                |q: (u32, u32)|
                    directly_contains(ends, q.0, q.1) && ends.dom().contains(q.0) && (q.0 != id
                        || children.take(child + 1).contains(q.1)),
            ),
    {
        let c = children[child];
        assert(children.contains(c));
        assert(children.take(child + 1) =~= children.take(child).push(c));
        if children.take(child).contains(c) {
            let i = choose|i: int| 0 <= i < child && #[trigger] children.take(child)[i] == c;
            assert(children[i] < children[child]);
        }
        assert forall|y: u32| children.take(child + 1).contains(y) == (children.take(child).contains(y) || y == c) by {
            if children.take(child + 1).contains(y) {
                let i = choose|i: int| 0 <= i < child + 1 && #[trigger] children.take(child + 1)[i] == y;
                if i < child {
                    assert(children.take(child)[i] == y);
                }
            }
            if children.take(child).contains(y) {
                let i = choose|i: int| 0 <= i < child && #[trigger] children.take(child)[i] == y;
                assert(children.take(child + 1)[i] == y);
            }
            if y == c {
                assert(children.take(child + 1)[child] == y);
            }
        }
        assert(given.insert((id, c)) =~= Set::new(
            |q: (u32, u32)|
                directly_contains(ends, q.0, q.1) && ends.dom().contains(q.0) && (q.0 != id
                    || children.take(child + 1).contains(q.1)),
        ));
    }

    /// The children of an open region `o`, told that region `id`, which it
    /// contains, has ended.
    proof fn lemma_adopt_children(ch: Seq<u32>, ends: Map<u32, nat>, id: u32, o: u32)
        requires
            children_wf(ch, ends.remove(id), o),
            ends.dom().contains(id),
            forall|x: u32| #[trigger] ends.dom().contains(x) && x != id ==> ends[x] < ends[id],
            o < id,
            !ends.dom().contains(o),
        ensures
            children_wf(drop_above(ch, id).push(id), ends, o),
            region_contains(ends, o, id),
    {
        let prev = ends.remove(id);
        assert(ends =~= prev.insert(id, ends[id]));
        assert(ends_with(prev, id, ends[id], ends));
        lemma_drop_above(ch, id);
        let d = drop_above(ch, id);
        assert forall|c: u32| directly_contains(ends, o, c) == ((directly_contains(prev, o, c) && c < id) || c == id) by {
            lemma_end_adopts(prev, id, ends[id], ends, o, c);
        }
        assert(!d.contains(id)) by {
            if d.contains(id) {
                assert(ch.contains(id));
                assert(directly_contains(prev, o, id));
            }
        }
        assert forall|i: int| 0 <= i < d.len() implies #[trigger] d[i] < id by {
            assert(d[i] <= id);
            assert(d.contains(d[i]));
        }
        let s = d.push(id);
        assert(increasing_ids(s)) by {
            assert forall|i: int, j: int| 0 <= i < j < s.len() implies #[trigger] s[i] < #[trigger] s[j] by {
                if j < d.len() {
                    assert(d[i] < d[j]);
                } else {
                    assert(s[i] == d[i]);
                }
            }
        }
        assert forall|c: u32| s.contains(c) == directly_contains(ends, o, c) by {
            if s.contains(c) {
                let i = choose|i: int| 0 <= i < s.len() && s[i] == c;
                if i < d.len() {
                    assert(d.contains(c));
                }
            }
            if d.contains(c) {
                let i = choose|i: int| 0 <= i < d.len() && d[i] == c;
                assert(s[i] == c);
            }
            if c == id {
                assert(s[d.len() as int] == c);
            }
            if directly_contains(prev, o, c) && c < id {
                assert(ch.contains(c));
                assert(d.contains(c));
            }
        }
        lemma_end_adopts(prev, id, ends[id], ends, o, id);
    }

    /// Once every child of the region being closed has been listed and
    /// every region around it told, the nesting is as if nothing were being
    /// closed.
    proof fn lemma_close_done(a: Self, b: Self, p: ProseParser<'s>)
        requires
            a.nesting_wf(p),
            forall|i: int, j: int|
                0 <= i < j < a.regions@.len() ==> (#[trigger] a.regions@[i]).id < (#[trigger] a.regions@[j]).id,
            a.pending matches Some(Pending::Close { id, children, child, outer }) && child == children@.len()
                && (outer == a.regions@.len() || (outer < a.regions@.len() && a.regions@[outer as int].id >= id)),
            b.pending is None,
            b.regions == a.regions,
            b.nesting == a.nesting,
        ensures
            b.nesting_wf(p),
    {
        if let Some(Pending::Close { id, children, child, outer }) = a.pending {
            let ends = a.nesting.ends@;
            assert forall|j: int| 0 <= j < b.regions@.len() implies children_wf(
                (#[trigger] b.regions@[j]).children@,
                b.ends_seen(j),
                b.regions@[j].id,
            ) by {
                assert(children_wf(a.regions@[j].children@, a.ends_seen(j), a.regions@[j].id));
                if outer <= j && a.regions@[j].id < id {
                    if outer < j {
                        assert(a.regions@[outer as int].id < a.regions@[j].id);
                    }
                    assert(false);
                }
            }
            assert(b.nesting.ancestors@ =~= containments(ends)) by {
                assert forall|q: (u32, u32)| #[trigger] containments(ends).contains(q) implies a.told_ancestors(id, outer as int).contains(q) by {
                    if q.1 == id {
                        assert(!ends.dom().contains(q.0));
                        assert(q.0 < p.next_id());
                        let i = choose|i: int| 0 <= i < a.regions@.len() && (#[trigger] a.regions@[i]).id == q.0;
                        if i >= outer {
                            if i > outer {
                                assert(a.regions@[outer as int].id < a.regions@[i].id);
                            }
                            assert(a.regions@[outer as int].id != id);
                            assert(false);
                        }
                    }
                }
            }
            assert(children@.take(child as int) =~= children@);
            assert(b.nesting.parents@ =~= ended_direct_containments(ends));
        }
    }

    /// The next event owed, if any is left; otherwise nothing is pending
    /// any more.
    fn drain_pending(&mut self) -> (r: Result<Option<Event<'s, crate::term::AtomHandle>>, CompileError>)
        requires
            old(self).wf(),
            !old(self).done,
        ensures
            final(self).inner_wf(),
            r is Ok ==> final(self).wf(),
            final(self).parser == old(self).parser,
            final(self).term_table == old(self).term_table,
            final(self).term_ids == old(self).term_ids,
            final(self).stack == old(self).stack,
            final(self).current_region == old(self).current_region,
            final(self).text_offset == old(self).text_offset,
            final(self).done == old(self).done,
            final(self).open_regions() == old(self).open_regions(),
            old(self).pending is None ==> r == Ok::<Option<Event<'s, crate::term::AtomHandle>>, CompileError>(None)
                && *final(self) == *old(self),
            old(self).is_closing() && Self::owes_nesting(*old(self)) ==> (r matches Ok(Some(ev))
                && Self::closing_step(ev, *old(self), *final(self))),
            old(self).is_closing() && !Self::owes_nesting(*old(self)) ==> r == Ok::<
                Option<Event<'s, crate::term::AtomHandle>>,
                CompileError,
            >(None),
            match r {
                Ok(None) => {
                    &&& final(self).pending is None
                    &&& final(self).term_count() == old(self).term_count()
                    &&& final(self).nesting == old(self).nesting
                    &&& !Self::owes_arguments(*old(self))
                },
                Ok(Some(ev)) => {
                    &&& Self::term_law(ev, old(self).term_count(), final(self).term_count())
                    &&& Self::atom_valid(ev, final(self).term_table)
                    &&& !(ev is Text || ev is RegionStart || ev is RegionEnd || ev is Assertion)
                    &&& Self::nesting_law(ev, *old(self), *final(self))
                    &&& Self::describes_handle(ev, *final(self))
                    &&& Self::argument_law(ev, *old(self), *final(self))
                },
                Err(e) => e == CompileError::TooLarge,
            },
            match old(self).pending {
                Some(Pending::Compound { id, functor, .. }) => r == Ok::<
                    Option<Event<'s, crate::term::AtomHandle>>,
                    CompileError,
                >(Some(Event::Compound(TermId(id), TermId(functor)))),
                Some(Pending::Arguments { id, compound, position }) => {
                    let n = old(self).term_table.compounds()[compound.0 as int].len() - 1;
                    if position < n {
                        if position > 0xffff_ffff {
                            r == Err::<Option<Event<'s, crate::term::AtomHandle>>, CompileError>(
                                CompileError::TooLarge,
                            )
                        } else {
                            r matches Ok(Some(Event::Argument(c, k, _))) && c == TermId(id) && k == position as u32
                        }
                    } else {
                        r == Ok::<Option<Event<'s, crate::term::AtomHandle>>, CompileError>(None)
                    }
                },
                Some(Pending::Close { id, children, child, outer }) => if child < children@.len() {
                    r == Ok::<Option<Event<'s, crate::term::AtomHandle>>, CompileError>(
                        Some(Event::Parent(RegionId(id), RegionId(children@[child as int]))),
                    )
                } else if outer < old(self).regions@.len() && old(self).regions@[outer as int].id < id {
                    r == Ok::<Option<Event<'s, crate::term::AtomHandle>>, CompileError>(
                        Some(Event::Ancestor(RegionId(old(self).regions@[outer as int].id), RegionId(id))),
                    )
                } else {
                    r == Ok::<Option<Event<'s, crate::term::AtomHandle>>, CompileError>(None)
                },
                None => true,
            },
    {
        let ghost a = *self;
        match self.pending.take() {
            None => Ok(None),
            Some(Pending::Compound { id, functor, compound }) => {
                self.pending = Some(Pending::Arguments { id, compound, position: 0 });
                proof {
                    Self::lemma_tracks_moves(a, *self, self.parser, self.parser);
                }
                Ok(Some(Event::Compound(TermId(id), TermId(functor))))
            },
            Some(Pending::Arguments { id, compound, position }) => {
                let (_, args) = self.term_table.compound_value(compound);
                if position < args.len() {
                    if position > 0xffff_ffffusize {
                        return Err(CompileError::TooLarge);
                    }
                    let arg = args[position];
                    proof {
                        assert(self.term_table.compounds()[compound.0 as int][position + 1] == arg);
                    }
                    let t = self.id_of(arg);
                    self.pending = Some(Pending::Arguments { id, compound, position: position + 1 });
                    proof {
                        Self::lemma_tracks_moves(a, *self, self.parser, self.parser);
                    }
                    Ok(Some(Event::Argument(TermId(id), position as u32, TermId(t))))
                } else {
                    proof {
                        Self::lemma_tracks_moves(a, *self, self.parser, self.parser);
                    }
                    Ok(None)
                }
            },
            Some(Pending::Close { id, children, child, outer }) => {
                if child < children.len() {
                    let c = children[child];
                    let ghost given = self.nesting.parents@;
                    proof {
                        Self::lemma_parent_step(children@, child as int, self.nesting.ends@, id, given);
                    }
                    self.nesting.parents = Ghost(given.insert((id, c)));
                    self.pending = Some(Pending::Close { id, children, child: child + 1, outer });
                    proof {
                        let p = self.parser;
                        assert(self.owed_children() =~= a.owed_children().drop_first());
                        assert forall|j: int| 0 <= j < self.regions@.len() implies children_wf(
                            (#[trigger] self.regions@[j]).children@,
                            self.ends_seen(j),
                            self.regions@[j].id,
                        ) by {
                            assert(children_wf(a.regions@[j].children@, a.ends_seen(j), a.regions@[j].id));
                        }
                        assert(self.told_ancestors(id, outer as int) == a.told_ancestors(id, outer as int));
                    }
                    return Ok(Some(Event::Parent(RegionId(id), RegionId(c))));
                }
                if outer < self.regions.len() && self.regions[outer].id < id {
                    let o = self.regions[outer].id;
                    let ghost before = self.regions@;
                    let ghost ends = self.nesting.ends@;
                    let ghost told = self.nesting.ancestors@;
                    proof {
                        assert(children_wf(before[outer as int].children@, a.ends_seen(outer as int), o));
                        Self::lemma_adopt_children(before[outer as int].children@, ends, id, o);
                    }
                    adopt(&mut self.regions, outer, id);
                    self.nesting.ancestors = Ghost(told.insert((o, id)));
                    self.pending = Some(Pending::Close { id, children, child, outer: outer + 1 });
                    proof {
                        let p = self.parser;
                        assert forall|i: int| 0 <= i < before.len() implies (#[trigger] self.regions@[i]).id == before[i].id by {
                            if i != outer {
                                assert(self.regions@[i] == before[i]);
                            }
                        }
                        assert(self.open_regions() =~= old(self).open_regions()) by {
                            assert forall|x: u32| self.open_regions().contains(x) implies old(self).open_regions().contains(x) by {
                                let i = choose|i: int| 0 <= i < self.regions@.len() && (#[trigger] self.regions@[i]).id == x;
                                assert(before[i].id == x);
                            }
                            assert forall|x: u32| old(self).open_regions().contains(x) implies self.open_regions().contains(x) by {
                                let i = choose|i: int| 0 <= i < before.len() && (#[trigger] before[i]).id == x;
                                assert(self.regions@[i].id == x);
                            }
                        }
                        assert forall|i: int, j: int| 0 <= i < j < self.regions@.len() implies (#[trigger] self.regions@[i]).id < (
                        #[trigger] self.regions@[j]).id by {
                            assert(before[i].id < before[j].id);
                        }
                        assert forall|i: int| 0 <= i < self.regions@.len() implies (#[trigger] self.regions@[i]).id < p.next_id()
                            && p.open_regions().contains(self.regions@[i].id as usize) by {
                            assert(before[i].id == self.regions@[i].id);
                        }
                        assert forall|x: usize| #[trigger] p.open_regions().contains(x) implies exists|i: int|
                            0 <= i < self.regions@.len() && (#[trigger] self.regions@[i]).id as usize == x by {
                            let i = choose|i: int| 0 <= i < before.len() && (#[trigger] before[i]).id as usize == x;
                            assert(self.regions@[i].id == before[i].id);
                        }
                        assert forall|i: int| 0 <= i < self.regions@.len() implies !ends.dom().contains((#[trigger] self.regions@[i]).id) by {
                            assert(before[i].id == self.regions@[i].id);
                        }
                        assert forall|x: u32| x < p.next_id() && !#[trigger] ends.dom().contains(x) implies exists|i: int|
                            0 <= i < self.regions@.len() && (#[trigger] self.regions@[i]).id == x by {
                            let i = choose|i: int| 0 <= i < before.len() && (#[trigger] before[i]).id == x;
                            assert(self.regions@[i].id == before[i].id);
                        }
                        assert forall|j: int| 0 <= j < self.regions@.len() implies children_wf(
                            (#[trigger] self.regions@[j]).children@,
                            self.ends_seen(j),
                            self.regions@[j].id,
                        ) by {
                            if j != outer {
                                assert(self.regions@[j] == before[j]);
                                assert(children_wf(before[j].children@, a.ends_seen(j), before[j].id));
                            }
                        }
                        assert forall|j: int| 0 <= j < outer + 1 implies (#[trigger] self.regions@[j]).id < id by {
                            assert(self.regions@[j].id == before[j].id);
                        }
                        assert(!told.contains((o, id))) by {
                            if told.contains((o, id)) {
                                let j = choose|j: int| 0 <= j < outer && (#[trigger] before[j]).id == o;
                                assert(before[j].id < before[outer as int].id);
                            }
                        }
                        assert(self.nesting.ancestors@ =~= self.told_ancestors(id, outer + 1)) by {
                            assert forall|q: (u32, u32)| #[trigger] self.told_ancestors(id, outer + 1).contains(q) == told.insert((o, id)).contains(q) by {
                                if exists|j: int| 0 <= j < outer + 1 && (#[trigger] self.regions@[j]).id == q.0 {
                                    let j = choose|j: int| 0 <= j < outer + 1 && (#[trigger] self.regions@[j]).id == q.0;
                                    if j < outer {
                                        assert(before[j].id == q.0);
                                    }
                                }
                                if exists|j: int| 0 <= j < outer && (#[trigger] before[j]).id == q.0 {
                                    let j = choose|j: int| 0 <= j < outer && (#[trigger] before[j]).id == q.0;
                                    assert(self.regions@[j].id == q.0);
                                }
                                if q == (o, id) {
                                    assert(self.regions@[outer as int].id == o);
                                }
                            }
                        }
                    }
                    proof {
                        let sk = before.skip(outer as int);
                        assert(sk.drop_first() =~= before.skip(outer + 1));
                        assert(sk[0].id == o);
                        lemma_ids_below_same(self.regions@.skip(outer + 1), before.skip(outer + 1), id);
                        assert(a.owed_children().len() == 0);
                        assert(before == a.regions@);
                        assert(a.owed_outer() == ids_below(sk, id));
                        assert(ids_below(sk, id) == seq![o] + ids_below(sk.drop_first(), id));
                        assert(ids_below(sk, id).drop_first() =~= ids_below(before.skip(outer + 1), id));
                        assert(self.owed_outer() == ids_below(self.regions@.skip(outer + 1), id));
                    }
                    return Ok(Some(Event::Ancestor(RegionId(o), RegionId(id))));
                }
                proof {
                    Self::lemma_close_done(a, *self, self.parser);
                }
                Ok(None)
            },
        }
    }


    /// How an event changes the number of term ids: the event that
    /// introduces a term gives it the next id; every other event refers
    /// only to ids given before it.
    pub open spec fn term_law<A>(ev: Event<'s, A>, before: nat, after: nat) -> bool {
        if ev is Atom || ev is Integer || ev is Real || ev is Compound {
            &&& Self::introduces(ev, before)
            &&& after == before + 1
        } else {
            &&& after == before
            &&& match ev {
                Event::Argument(c, _, t) => c.0 < before && t.0 < before,
                Event::Assertion(t, _) => t.0 < before,
                _ => true,
            }
        }
    }
}

impl<'s> Compiler<'s> {
    /// The index of open region `id`.
    fn region_index(&self, id: usize) -> (r: usize)
        requires
            exists|i: int| 0 <= i < self.regions@.len() && (#[trigger] self.regions@[i]).id as usize == id,
        ensures
            r < self.regions@.len(),
            self.regions@[r as int].id as usize == id,
    {
        let mut i: usize = 0;
        while i < self.regions.len()
            invariant
                i <= self.regions@.len(),
                forall|k: int| 0 <= k < i ==> (#[trigger] self.regions@[k]).id as usize != id,
            decreases self.regions@.len() - i,
        {
            if self.regions[i].id as usize == id {
                return i;
            }
            i += 1;
        }
        proof {
            let k = choose|k: int| 0 <= k < self.regions@.len() && (#[trigger] self.regions@[k]).id as usize == id;
            assert(self.regions@[k].id as usize != id);
        }
        0
    }

    /// Interns a parsed term, its event if it is new, and puts it on the
    /// stack of the fact's terms.
    fn push_term(&mut self, t: Term) -> (r: Result<Option<Event<'s, crate::term::AtomHandle>>, CompileError>)
        requires
            old(self).inner_wf(),
            old(self).pending is None,
            !(t is Compound),
            term_valid(old(self).term_table, old(self).term_ids@, t),
        ensures
            final(self).inner_wf(),
            final(self).parser == old(self).parser,
            final(self).regions == old(self).regions,
            final(self).current_region == old(self).current_region,
            final(self).text_offset == old(self).text_offset,
            final(self).done == old(self).done,
            final(self).nesting == old(self).nesting,
            !closing(final(self).pending),
            r is Ok ==> final(self).stack@.len() == old(self).stack@.len() + 1,
            r is Ok ==> final(self).stack@ == old(self).stack@.push(t),
            final(self).term_table == old(self).term_table,
            match r {
                Ok(None) => final(self).term_count() == old(self).term_count() && final(self).pending is None,
                Ok(Some(ev)) => {
                    &&& Self::term_law(ev, old(self).term_count(), final(self).term_count())
                    &&& Self::atom_valid(ev, final(self).term_table)
                    &&& (ev is Atom || ev is Integer || ev is Real)
                    &&& Self::describes_handle(ev, *final(self))
                    &&& Self::argument_law(ev, *old(self), *final(self))
                    &&& (ev matches Event::Integer(_, v) ==> (t matches Term::Integer(n) && n.spec_value() == v))
                    &&& (ev matches Event::Real(_, v) ==> t == Term::Real(v))
                },
                Err(e) => e == CompileError::TooLarge,
            },
    {
        let r = self.generate_term_event(t);
        if let Err(e) = r {
            return Err(e);
        }
        self.stack.push(t);
        proof {
            assert forall|i: int| 0 <= i < self.stack@.len() implies registered(self.term_ids@, #[trigger] self.stack@[i])
                && term_valid(self.term_table, self.term_ids@, self.stack@[i]) by {
                if i < old(self).stack@.len() {
                    assert(self.stack@[i] == old(self).stack@[i]);
                    lemma_registered_grows(old(self).term_ids@, self.term_ids@, self.stack@[i]);
                    lemma_valid_grows(old(self).term_table, old(self).term_ids@, self.term_table, self.term_ids@, self.stack@[i]);
                } else {
                    lemma_valid_grows(old(self).term_table, old(self).term_ids@, self.term_table, self.term_ids@, t);
                }
            }
        }
        r
    }
}

impl<'s> Compiler<'s> {
    /// Growth of the term table keeps the invariant.
    proof fn lemma_table_grows(a: Self, b: Self)
        requires
            a.inner_wf(),
            b.term_table.wf(),
            grows(a.term_table, a.term_ids@, b.term_table, b.term_ids@),
            b.term_ids == a.term_ids,
            b.stack == a.stack,
            b.pending == a.pending,
            b.parser == a.parser,
            b.regions == a.regions,
            forall|h: int|
                0 <= h < b.term_table.atoms().len() ==> atom_written(
                    #[trigger] b.term_table.atoms()[h],
                    b.parser.spec_source().spec_bytes(),
                ),
        ensures
            b.inner_wf(),
    {
        assert forall|i: int| 0 <= i < b.term_ids@.len() implies (#[trigger] b.term_ids@[i]).len() == 1 && term_valid(
            b.term_table,
            b.term_ids@,
            b.term_ids@[i][0],
        ) by {
            lemma_valid_grows(a.term_table, a.term_ids@, b.term_table, b.term_ids@, a.term_ids@[i][0]);
        }
        assert forall|i: int| 0 <= i < b.stack@.len() implies registered(b.term_ids@, #[trigger] b.stack@[i])
            && term_valid(b.term_table, b.term_ids@, b.stack@[i]) by {
            lemma_valid_grows(a.term_table, a.term_ids@, b.term_table, b.term_ids@, a.stack@[i]);
        }
        match a.pending {
            Some(Pending::Compound { compound, .. }) => {
                lemma_valid_grows(a.term_table, a.term_ids@, b.term_table, b.term_ids@, Term::Compound(compound));
                assert(b.term_table.compounds()[compound.0 as int] == a.term_table.compounds()[compound.0 as int]);
            },
            Some(Pending::Arguments { compound, .. }) => {
                lemma_valid_grows(a.term_table, a.term_ids@, b.term_table, b.term_ids@, Term::Compound(compound));
                assert(b.term_table.compounds()[compound.0 as int] == a.term_table.compounds()[compound.0 as int]);
            },
            _ => {},
        }
    }

    /// Interning an atom written in the document keeps every atom of the
    /// table written in it.
    proof fn lemma_atoms_written(&self, before: Self, atom: crate::parser::term::ParseAtom<'s>)
        requires
            before.inner_wf(),
            self.parser == before.parser,
            crate::parser::term::written_in(atom, self.parser.spec_source().spec_bytes()),
            self.term_table.atoms().len() <= before.term_table.atoms().len() + 1,
            forall|i: int|
                0 <= i < before.term_table.atoms().len() ==> self.term_table.atoms()[i]
                    == #[trigger] before.term_table.atoms()[i],
            self.term_table.atoms() == before.term_table.atoms() || self.term_table.atoms()
                == before.term_table.atoms().push(crate::parser::term::atom_text(atom)),
        ensures
            forall|h: int|
                0 <= h < self.term_table.atoms().len() ==> atom_written(
                    #[trigger] self.term_table.atoms()[h],
                    self.parser.spec_source().spec_bytes(),
                ),
    {
        lemma_atom_text_written(atom, self.parser.spec_source().spec_bytes());
        assert forall|h: int| 0 <= h < self.term_table.atoms().len() implies atom_written(
            #[trigger] self.term_table.atoms()[h],
            self.parser.spec_source().spec_bytes(),
        ) by {
            if h < before.term_table.atoms().len() {
                assert(atom_written(before.term_table.atoms()[h], before.parser.spec_source().spec_bytes()));
            }
        }
    }

    /// Handles one event of the facts being parsed.
    fn term_event<F: Fn(&'s str) -> Option<u32>>(
        &mut self,
        ev: ParseTerm<'s>,
        after: Ghost<int>,
        parse_real: &F,
    ) -> (r: Result<Option<Event<'s, crate::term::AtomHandle>>, CompileError>)
        requires
            old(self).inner_wf(),
            old(self).pending is None,
            event_effect(ev, old(self).stack@.len() as int, after@),
            event_written(ev, old(self).parser.spec_source().spec_bytes()),
            real_event_read(ev, parse_real, old(self).parser.spec_source().spec_bytes()),
            ev is FactEnd ==> old(self).current_region is Some,
            forall|text: &'s str| #[trigger] parse_real.requires((text,)),
        ensures
            final(self).inner_wf(),
            final(self).parser == old(self).parser,
            final(self).regions == old(self).regions,
            final(self).current_region == old(self).current_region,
            final(self).text_offset == old(self).text_offset,
            final(self).done == old(self).done,
            final(self).nesting == old(self).nesting,
            !closing(final(self).pending),
            r is Ok ==> final(self).stack@.len() == after@,
            ev is FactEnd ==> (r matches Ok(Some(Event::Assertion(t, _))) && final(self).term(t.0 as int)
                == old(self).stack@.last()),
            r is Ok ==> term_effect(ev, old(self).stack@, final(self).stack@, final(self).term_table),
            table_grows(old(self).term_table, final(self).term_table),
            match r {
                Ok(None) => final(self).term_count() == old(self).term_count() && final(self).pending is None,
                Ok(Some(e)) => {
                    &&& Self::term_law(e, old(self).term_count(), final(self).term_count())
                    &&& Self::atom_valid(e, final(self).term_table)
                    &&& !(e is Text || e is RegionStart || e is RegionEnd || e is Parent || e is Ancestor)
                    &&& (e matches Event::Assertion(_, region) ==> old(self).current_region == Some(region.0))
                    &&& Self::describes_handle(e, *final(self))
                    &&& Self::argument_law(e, *old(self), *final(self))
                    &&& (e matches Event::Integer(_, v) ==> integer_written(v, old(self).parser.spec_source().spec_bytes()))
                    &&& (e matches Event::Real(_, v) ==> real_read(v, parse_real, old(self).parser.spec_source().spec_bytes()))
                },
                Err(e) => e == CompileError::TooLarge,
            },
    {
        match ev {
            ParseTerm::Atom(atom) => {
                if !self.term_table.room_left() {
                    return Err(CompileError::TooLarge);
                }
                let ghost s0 = *self;
                let t = atom.into_term(&mut self.term_table);
                proof {
                    self.lemma_atoms_written(s0, atom);
                    Self::lemma_table_grows(s0, *self);
                    assert(table_grows(old(self).term_table, self.term_table));
                }
                let r = self.push_term(t);
                proof {
                    if r is Ok {
                        assert(self.stack@.drop_last() =~= old(self).stack@);
                    }
                }
                r
            },
            ParseTerm::Number(number) => {
                let t = match number {
                    ParseNumber::Integer(v) => Term::Integer(v),
                    ParseNumber::Real(literal) => Term::Real(literal.value()),
                };
                self.push_term(t)
            },
            ParseTerm::Compound(atom, n) => {
                if !self.term_table.room_left() {
                    return Err(CompileError::TooLarge);
                }
                let ghost s0 = *self;
                let t = atom.into_term(&mut self.term_table);
                proof {
                    self.lemma_atoms_written(s0, atom);
                    Self::lemma_table_grows(s0, *self);
                    assert(table_grows(old(self).term_table, self.term_table));
                }
                let functor = match t {
                    Term::Atom(f) => f,
                    _ => {
                        proof {
                            assert(false);
                        }
                        return Err(CompileError::TooLarge);
                    },
                };
                let ghost count0 = self.term_count();
                let first = self.generate_term_event(Term::Atom(functor));
                if let Err(e) = first {
                    return Err(e);
                }
                if !self.term_table.room_left() {
                    return Err(CompileError::TooLarge);
                }
                let start = self.stack.len() - n;
                let ghost s1 = *self;
                let c = self.term_table.compound(functor, &self.stack.as_slice()[start..self.stack.len()]);
                proof {
                    assert(table_grows(s1.term_table, self.term_table));
                    lemma_table_grows_trans(old(self).term_table, s1.term_table, self.term_table);
                    Self::lemma_table_grows(s1, *self);
                    let body = self.term_table.compounds()[c.0 as int];
                    let args = s1.stack@.subrange(start as int, s1.stack@.len() as int);
                    assert(body == seq![Term::Atom(functor)] + args);
                    assert forall|k: int| 0 <= k < body.len() implies registered(self.term_ids@, #[trigger] body[k]) by {
                        if k > 0 {
                            assert(body[k] == self.stack@[start + k - 1]);
                        } else {
                            assert(body[k] == Term::Atom(functor));
                        }
                    }
                    assert(term_valid(self.term_table, self.term_ids@, Term::Compound(c)));
                }
                self.stack.truncate(start);
                let ghost s2 = *self;
                let second = self.generate_term_event(Term::Compound(c));
                if let Err(e) = second {
                    return Err(e);
                }
                self.stack.push(Term::Compound(c));
                proof {
                    let k = s1.stack@.len() - n;
                    let body = self.term_table.compounds()[c.0 as int];
                    assert(body.skip(1) =~= s1.stack@.skip(k));
                    assert(self.stack@.drop_last() =~= s1.stack@.take(k));
                }
                proof {
                    assert forall|i: int| 0 <= i < self.stack@.len() implies registered(self.term_ids@, #[trigger] self.stack@[i])
                        && term_valid(self.term_table, self.term_ids@, self.stack@[i]) by {
                        if i < s2.stack@.len() {
                            assert(self.stack@[i] == s1.stack@[i]);
                            lemma_registered_grows(s2.term_ids@, self.term_ids@, self.stack@[i]);
                            lemma_valid_grows(s2.term_table, s2.term_ids@, self.term_table, self.term_ids@, self.stack@[i]);
                        } else {
                            lemma_valid_grows(s2.term_table, s2.term_ids@, self.term_table, self.term_ids@, Term::Compound(c));
                        }
                    }
                }
                match first {
                    Ok(Some(functor_event)) => {
                        match second {
                            Ok(Some(Event::Compound(id, f))) => {
                                proof {
                                    self.term_table.lemma_compound_shape(c);
                                    assert(self.term_ids@[f.0 as int].len() == 1);
                                    assert(self.term_ids@[f.0 as int] =~= seq![self.term_ids@[f.0 as int][0]]);
                                }
                                self.pending = Some(Pending::Compound { id: id.0, functor: f.0, compound: c });
                            },
                            _ => {},
                        }
                        Ok(Some(functor_event))
                    },
                    _ => second,
                }
            },
            ParseTerm::FactEnd => {
                let root = match self.stack.pop() {
                    Some(root) => root,
                    None => {
                        proof {
                            assert(false);
                        }
                        return Err(CompileError::TooLarge);
                    },
                };
                let t = self.id_of(root);
                proof {
                    assert(self.stack@ =~= old(self).stack@.drop_last());
                }
                let region = match self.current_region {
                    Some(region) => region,
                    None => 0,
                };
                Ok(Some(Event::Assertion(TermId(t), RegionId(region))))
            },
        }
    }
}

impl<'s> Compiler<'s> {
    /// How an event changes the text and the regions: text lengthens the
    /// text; a region start opens the next region at the current end of the
    /// text; a region end closes an open region there; nothing else changes
    /// them.
    pub open spec fn region_law<A>(ev: Event<'s, A>, old: Self, new: Self) -> bool {
        match ev {
            Event::Text(t) => {
                &&& t.spec_bytes().len() > 0
                &&& new.text_length() == old.text_length() + t.spec_bytes().len()
                &&& new.open_regions() == old.open_regions()
                &&& new.regions_started() == old.regions_started()
            },
            Event::RegionStart(r, offset) => {
                &&& r.0 == old.regions_started()
                &&& new.regions_started() == old.regions_started() + 1
                &&& offset == old.text_length()
                &&& new.text_length() == old.text_length()
                &&& !old.open_regions().contains(r.0)
                &&& new.open_regions() == old.open_regions().insert(r.0)
            },
            Event::RegionEnd(r, offset) => {
                &&& old.open_regions().contains(r.0)
                &&& new.open_regions() == old.open_regions().remove(r.0)
                &&& offset == old.text_length()
                &&& new.text_length() == old.text_length()
                &&& new.regions_started() == old.regions_started()
            },
            Event::Assertion(_, r) => {
                &&& old.open_regions().contains(r.0)
                &&& new.open_regions() == old.open_regions()
                &&& new.text_length() == old.text_length()
                &&& new.regions_started() == old.regions_started()
            },
            _ => {
                &&& new.open_regions() == old.open_regions()
                &&& new.text_length() == old.text_length()
                &&& new.regions_started() == old.regions_started()
            },
        }
    }

    /// What turning a chunk into an event asks: the chunk came from the
    /// parser at `p0`, with which the compiler was in step.
    spec fn chunk_pre(&self, chunk: ProseChunk<'s>, p0: ProseParser<'s>) -> bool {
        &&& self.inner_wf()
        &&& !self.done
        &&& self.pending is None
        &&& self.tracks(p0)
        &&& p0.wf()
        &&& !self.parser.is_finished()
        &&& ProseParser::facts_effect(chunk, p0, self.parser)
        &&& chunk_effect(chunk, p0.open_regions(), self.parser.open_regions(), p0.next_id(), self.parser.next_id())
        &&& (chunk matches ProseChunk::Text(t) ==> t.spec_bytes().len() > 0)
        &&& (chunk matches ProseChunk::Text(t) ==> ProseParser::text_ends_at(t, p0.spec_offset() as int, self.parser))
        &&& (chunk matches ProseChunk::TermEvent(ev) ==> event_written(ev, self.parser.spec_source().spec_bytes()))
    }

    /// What turning a chunk into an event gives.
    spec fn chunk_post(
        old: Self,
        new: Self,
        p0: ProseParser<'s>,
        r: Result<Option<Event<'s, crate::term::AtomHandle>>, CompileError>,
    ) -> bool {
        &&& new.inner_wf()
        &&& new.parser == old.parser
        &&& new.done == old.done
        &&& table_grows(old.term_table, new.term_table)
        &&& (r is Ok ==> new.tracks(new.parser))
        &&& match r {
            Ok(None) => {
                &&& new.term_count() == old.term_count()
                &&& new.text_length() == old.text_length()
                &&& new.open_regions() == old.open_regions()
                &&& new.parser.next_id() == p0.next_id()
                &&& new.nesting == old.nesting
                &&& new.pending is None
            },
            Ok(Some(ev)) => {
                &&& Self::term_law(ev, old.term_count(), new.term_count())
                &&& Self::atom_valid(ev, new.term_table)
                &&& (ev is RegionStart ==> ev->RegionStart_0.0 == p0.next_id())
                &&& (ev is RegionStart ==> new.parser.next_id() == p0.next_id() + 1)
                &&& (!(ev is RegionStart) ==> new.parser.next_id() == p0.next_id())
                &&& Self::region_law_parts(ev, old, new)
                &&& Self::nesting_law(ev, old, new)
                &&& Self::describes_handle(ev, new)
                &&& Self::argument_law(ev, old, new)
                &&& (ev matches Event::Text(t) ==> ProseParser::text_ends_at(t, p0.spec_offset() as int, new.parser))
                &&& (ev matches Event::Integer(_, v) ==> integer_written(v, new.parser.spec_source().spec_bytes()))
            },
            Err(_) => true,
        }
    }

    /// How an event changes what is known of the nesting of regions: a
    /// region end records it as the latest region to end; an `Ancestor` or
    /// `Parent` event gives a pair not given before; nothing else changes it.
    pub open spec fn nesting_law<A>(ev: Event<'s, A>, old: Self, new: Self) -> bool {
        &&& match ev {
            Event::RegionEnd(r, _) => {
                &&& new.ends() == old.ends().insert(r.0, old.end_count())
                &&& new.end_count() == old.end_count() + 1
                &&& Self::closing_starts(new, r.0)
            },
            _ => new.ends() == old.ends() && new.end_count() == old.end_count(),
        }
        &&& match ev {
            Event::Ancestor(o, c) => {
                &&& !old.ancestors().contains((o.0, c.0))
                &&& new.ancestors() == old.ancestors().insert((o.0, c.0))
            },
            _ => new.ancestors() == old.ancestors(),
        }
        &&& match ev {
            Event::Parent(o, c) => {
                &&& !old.parents().contains((o.0, c.0))
                &&& new.parents() == old.parents().insert((o.0, c.0))
            },
            _ => new.parents() == old.parents(),
        }
    }

    /// Keeping the regions and the nesting, with no region being closed,
    /// keeps the compiler in step with a parser that moved without starting
    /// or ending a region.
    proof fn lemma_tracks_moves(a: Self, b: Self, p0: ProseParser<'s>, p1: ProseParser<'s>)
        requires
            a.tracks(p0),
            b.regions == a.regions,
            b.nesting == a.nesting,
            !closing(a.pending),
            !closing(b.pending),
            b.stack@.len() == p1.pending_terms(),
            p1.in_facts() ==> p1.facts_region() <= u32::MAX && b.current_region == Some(
                p1.facts_region() as u32,
            ),
            p1.next_id() == p0.next_id(),
            p1.open_regions() == p0.open_regions(),
            !p1.is_finished(),
        ensures
            b.tracks(p1),
    {
        assert forall|j: int| 0 <= j < b.regions@.len() implies children_wf(
            (#[trigger] b.regions@[j]).children@,
            b.ends_seen(j),
            b.regions@[j].id,
        ) by {
            assert(children_wf(a.regions@[j].children@, a.ends_seen(j), a.regions@[j].id));
        }
    }

    /// Turns the chunk the parser has just given, coming from state `p0`,
    /// into an event, if it makes one.
    fn generate_event<F: Fn(&'s str) -> Option<u32>>(
        &mut self,
        chunk: ProseChunk<'s>,
        p0: Ghost<ProseParser<'s>>,
        parse_real: &F,
    ) -> (r: Result<Option<Event<'s, crate::term::AtomHandle>>, CompileError>)
        requires
            old(self).chunk_pre(chunk, p0@),
            forall|text: &'s str| #[trigger] parse_real.requires((text,)),
            (chunk matches ProseChunk::TermEvent(ev) ==> real_event_read(
                ev,
                parse_real,
                old(self).parser.spec_source().spec_bytes(),
            )),
        ensures
            Self::chunk_post(*old(self), *final(self), p0@, r),
            chunk matches ProseChunk::TermEvent(ParseTerm::FactEnd) ==> (r matches Ok(
                Some(Event::Assertion(t, _)),
            ) && final(self).term(t.0 as int) == old(self).stack@.last()),
            chunk matches ProseChunk::TermEvent(ev) ==> (r is Ok ==> term_effect(
                ev,
                old(self).stack@,
                final(self).stack@,
                final(self).term_table,
            )),
            chunk is Text && old(self).text_offset + chunk->Text_0.spec_bytes().len() <= u32::MAX ==> r
                == Ok::<Option<Event<'s, crate::term::AtomHandle>>, CompileError>(
                Some(Event::Text(chunk->Text_0)),
            ) && final(self).pending is None,
            chunk is Text && old(self).text_offset + chunk->Text_0.spec_bytes().len() > u32::MAX ==> r
                == Err::<Option<Event<'s, crate::term::AtomHandle>>, CompileError>(CompileError::TooLarge),
            r matches Ok(Some(Event::Real(_, v))) ==> real_read(
                v,
                parse_real,
                old(self).parser.spec_source().spec_bytes(),
            ),
            (chunk matches ProseChunk::RegionStart { id } ==> (r is Err <==> id > 0xffff_ffff) && (r is Err ==> r
                == Err::<Option<Event<'s, crate::term::AtomHandle>>, CompileError>(CompileError::TooLarge)) && (r is Ok ==> r
                == Ok::<Option<Event<'s, crate::term::AtomHandle>>, CompileError>(
                Some(Event::RegionStart(RegionId(id as u32), old(self).text_offset)),
            ))),
            (chunk matches ProseChunk::RegionEnd { id } ==> r == Ok::<
                Option<Event<'s, crate::term::AtomHandle>>,
                CompileError,
            >(Some(Event::RegionEnd(RegionId(id as u32), old(self).text_offset)))),
    {
        match chunk {
            ProseChunk::Text(text) => {
                let len = text.as_bytes().len();
                if len > (0xffff_ffffu32 - self.text_offset) as usize {
                    return Err(CompileError::TooLarge);
                }
                self.text_offset = self.text_offset + len as u32;
                proof {
                    Self::lemma_tracks_moves(*old(self), *self, p0@, self.parser);
                }
                Ok(Some(Event::Text(text)))
            },
            ProseChunk::RegionStart { id } => self.start_region(id, p0),
            ProseChunk::RegionEnd { id } => self.end_region(id, p0),
            ProseChunk::TermEvent(ev) => {
                proof {
                    p0@.lemma_facts_region_open();
                    let i = choose|i: int| 0 <= i < self.regions@.len() && (#[trigger] self.regions@[i]).id as usize == p0@.facts_region();
                    assert(self.open_regions().contains(self.regions@[i].id));
                }
                let r = self.term_event(ev, Ghost(self.parser.pending_terms()), parse_real);
                proof {
                    if r is Ok {
                        Self::lemma_tracks_moves(*old(self), *self, p0@, self.parser);
                    }
                }
                r
            },
        }
    }

    /// Starts region `id`, which the parser has just opened.
    fn start_region(&mut self, id: usize, p0: Ghost<ProseParser<'s>>) -> (r: Result<
        Option<Event<'s, crate::term::AtomHandle>>,
        CompileError,
    >)
        requires
            old(self).chunk_pre(ProseChunk::RegionStart { id }, p0@),
        ensures
            Self::chunk_post(*old(self), *final(self), p0@, r),
            r is Ok ==> r == Ok::<Option<Event<'s, crate::term::AtomHandle>>, CompileError>(
                Some(Event::RegionStart(RegionId(id as u32), old(self).text_offset)),
            ),
            r is Err <==> id > 0xffff_ffff,
            r is Err ==> r == Err::<Option<Event<'s, crate::term::AtomHandle>>, CompileError>(CompileError::TooLarge),
    {
        if id > 0xffff_ffffusize {
            return Err(CompileError::TooLarge);
        }
        let id32 = id as u32;
        let ghost before = self.regions@;
        self.regions.push(OpenRegion { id: id32, children: Vec::new() });
        self.current_region = Some(id32);
        proof {
            let p = self.parser;
            let ends = self.nesting.ends@;
            assert forall|i: int, j: int| 0 <= i < j < self.regions@.len() implies (#[trigger] self.regions@[i]).id < (
            #[trigger] self.regions@[j]).id by {
                assert(before[i].id < p0@.next_id());
                if j < before.len() {
                    assert(self.regions@[j] == before[j]);
                }
            }
            assert forall|i: int| 0 <= i < self.regions@.len() implies (#[trigger] self.regions@[i]).id < p.next_id()
                && p.open_regions().contains(self.regions@[i].id as usize) by {
                if i < before.len() {
                    assert(self.regions@[i] == before[i]);
                }
            }
            assert forall|x: usize| #[trigger] p.open_regions().contains(x) implies exists|i: int|
                0 <= i < self.regions@.len() && (#[trigger] self.regions@[i]).id as usize == x by {
                if x == id {
                    assert(self.regions@[before.len() as int].id as usize == x);
                } else {
                    assert(p0@.open_regions().contains(x));
                    let i = choose|i: int| 0 <= i < before.len() && (#[trigger] before[i]).id as usize == x;
                    assert(self.regions@[i] == before[i]);
                }
            }
            assert forall|i: int| 0 <= i < self.regions@.len() implies !ends.dom().contains((#[trigger] self.regions@[i]).id) by {
                if i < before.len() {
                    assert(self.regions@[i] == before[i]);
                }
            }
            assert forall|x: u32| x < p.next_id() && !#[trigger] ends.dom().contains(x) implies exists|i: int|
                0 <= i < self.regions@.len() && (#[trigger] self.regions@[i]).id == x by {
                if x == id32 {
                    assert(self.regions@[before.len() as int].id == x);
                } else {
                    let i = choose|i: int| 0 <= i < before.len() && (#[trigger] before[i]).id == x;
                    assert(self.regions@[i] == before[i]);
                }
            }
            assert forall|j: int| 0 <= j < self.regions@.len() implies children_wf(
                (#[trigger] self.regions@[j]).children@,
                self.ends_seen(j),
                self.regions@[j].id,
            ) by {
                if j < before.len() {
                    assert(self.regions@[j] == before[j]);
                    assert(children_wf(before[j].children@, old(self).ends_seen(j), before[j].id));
                } else {
                    assert(self.regions@[j].children@ =~= Seq::<u32>::empty());
                    assert forall|c: u32| !directly_contains(ends, id32, c) by {
                        if region_contains(ends, id32, c) {
                            assert(c < p0@.next_id());
                        }
                    }
                }
            }
            assert(self.open_regions() =~= old(self).open_regions().insert(id32)) by {
                assert forall|x: u32| self.open_regions().contains(x) implies old(self).open_regions().insert(id32).contains(x) by {
                    let i = choose|i: int| 0 <= i < self.regions@.len() && (#[trigger] self.regions@[i]).id == x;
                    if i < before.len() {
                        assert(self.regions@[i] == before[i]);
                    }
                }
                assert forall|x: u32| old(self).open_regions().insert(id32).contains(x) implies self.open_regions().contains(x) by {
                    if x == id32 {
                        assert(self.regions@[before.len() as int].id == x);
                    } else {
                        let i = choose|i: int| 0 <= i < before.len() && (#[trigger] before[i]).id == x;
                        assert(self.regions@[i] == before[i]);
                    }
                }
            }
            assert(!old(self).open_regions().contains(id32)) by {
                if old(self).open_regions().contains(id32) {
                    let i = choose|i: int| 0 <= i < before.len() && (#[trigger] before[i]).id == id32;
                    assert(before[i].id < p0@.next_id());
                }
            }
        }
        Ok(Some(Event::RegionStart(RegionId(id32), self.text_offset)))
    }

    /// A region's end keeps what the compiler knows of the nesting, with
    /// the region being closed.
    /// Right after a region ends, every `Parent` and `Ancestor` event of it
    /// is owed, in order.
    proof fn lemma_closing_starts(c: Self)
        requires
            c.pending matches Some(Pending::Close { id, children, child, outer }) && child == 0 && outer == 0
                && children_wf(children@, c.nesting.ends@, id),
            forall|i: int, j: int|
                0 <= i < j < c.regions@.len() ==> (#[trigger] c.regions@[i]).id < (#[trigger] c.regions@[j]).id,
        ensures
            Self::closing_starts(c, c.closing_region()),
    {
        if let Some(Pending::Close { id, children, child, outer }) = c.pending {
            assert(c.owed_children() =~= children@);
            assert(c.regions@.skip(0) =~= c.regions@);
            lemma_ids_below_sorted(c.regions@, id);
        }
    }

    proof fn lemma_end_region_nesting(a: Self, b: Self, k: int, p: ProseParser<'s>)
        requires
            a.nesting_wf(p),
            a.pending is None,
            forall|i: int, j: int|
                0 <= i < j < a.regions@.len() ==> (#[trigger] a.regions@[i]).id < (#[trigger] a.regions@[j]).id,
            forall|i: int| 0 <= i < a.regions@.len() ==> (#[trigger] a.regions@[i]).id < p.next_id(),
            0 <= k < a.regions@.len(),
            b.regions@ == a.regions@.remove(k),
            b.nesting.ends@ == a.nesting.ends@.insert(a.regions@[k].id, a.nesting.end_count@),
            b.nesting.end_count@ == a.nesting.end_count@ + 1,
            b.nesting.ancestors == a.nesting.ancestors,
            b.nesting.parents == a.nesting.parents,
            b.pending == Some(
                Pending::Close { id: a.regions@[k].id, children: a.regions@[k].children, child: 0, outer: 0 },
            ),
        ensures
            b.nesting_wf(p),
    {
        let r = a.regions@[k].id;
        let ends0 = a.nesting.ends@;
        let ends1 = b.nesting.ends@;
        let count0 = a.nesting.end_count@;
        assert(!ends0.dom().contains(r));
        assert(ends_with(ends0, r, count0, ends1));
        assert(ends1.remove(r) =~= ends0);
        assert forall|i: int| 0 <= i < b.regions@.len() implies #[trigger] b.regions@[i] == if i < k {
            a.regions@[i]
        } else {
            a.regions@[i + 1]
        } by {}
        assert forall|i: int| 0 <= i < b.regions@.len() implies !ends1.dom().contains((#[trigger] b.regions@[i]).id) by {
            let ai = if i < k { i } else { i + 1 };
            if k < ai {
                assert(a.regions@[k].id < a.regions@[ai].id);
            } else {
                assert(a.regions@[ai].id < a.regions@[k].id);
            }
        }
        assert forall|x: u32| x < p.next_id() && !#[trigger] ends1.dom().contains(x) implies exists|i: int|
            0 <= i < b.regions@.len() && (#[trigger] b.regions@[i]).id == x by {
            assert(!ends0.dom().contains(x));
            let ai = choose|ai: int| 0 <= ai < a.regions@.len() && (#[trigger] a.regions@[ai]).id == x;
            assert(ai != k);
            if ai < k {
                assert(b.regions@[ai] == a.regions@[ai]);
            } else {
                assert(b.regions@[ai - 1] == a.regions@[ai]);
            }
        }
        assert forall|j: int| 0 <= j < b.regions@.len() implies children_wf(
            (#[trigger] b.regions@[j]).children@,
            b.ends_seen(j),
            b.regions@[j].id,
        ) by {
            let aj = if j < k { j } else { j + 1 };
            let o = a.regions@[aj].id;
            assert(b.regions@[j] == a.regions@[aj]);
            assert(children_wf(a.regions@[aj].children@, ends0, o));
            if o > r {
                assert forall|c: u32| directly_contains(ends1, o, c) == directly_contains(ends0, o, c) by {
                    lemma_end_keeps(ends0, r, count0, ends1, o, c);
                }
            }
        }
        assert forall|c: u32| directly_contains(ends1, r, c) == directly_contains(ends0, r, c) by {
            lemma_end_keeps(ends0, r, count0, ends1, r, c);
        }
        assert(children_wf(a.regions@[k].children@, ends0, r));
        assert(b.nesting.ancestors@ =~= b.told_ancestors(r, 0)) by {
            assert forall|q: (u32, u32)| #[trigger] b.told_ancestors(r, 0).contains(q) == containments(ends0).contains(q) by {
                lemma_end_contains(ends0, r, count0, ends1, q.0, q.1);
            }
        }
        let listed = a.regions@[k].children@.take(0);
        assert(b.nesting.parents@ =~= Set::new(
            |q: (u32, u32)|
                directly_contains(ends1, q.0, q.1) && ends1.dom().contains(q.0) && (q.0 != r
                    || listed.contains(q.1)),
        )) by {
            assert forall|q: (u32, u32)| ended_direct_containments(ends0).contains(q) == (directly_contains(ends1, q.0, q.1) && ends1.dom().contains(q.0) && (q.0 != r
                    || listed.contains(q.1))) by {
                if ends0.dom().contains(q.0) {
                    lemma_end_keeps(ends0, r, count0, ends1, q.0, q.1);
                }
            }
        }
    }

    /// Ends region `id`, which the parser has just closed.
    fn end_region(&mut self, id: usize, p0: Ghost<ProseParser<'s>>) -> (r: Result<
        Option<Event<'s, crate::term::AtomHandle>>,
        CompileError,
    >)
        requires
            old(self).chunk_pre(ProseChunk::RegionEnd { id }, p0@),
        ensures
            Self::chunk_post(*old(self), *final(self), p0@, r),
            r == Ok::<Option<Event<'s, crate::term::AtomHandle>>, CompileError>(
                Some(Event::RegionEnd(RegionId(id as u32), old(self).text_offset)),
            ),
    {
        let k = self.region_index(id);
        let ghost a = *self;
        let ghost before = self.regions@;
        let entry = self.regions.remove(k);
        let id32 = entry.id;
        let ghost ends0 = self.nesting.ends@;
        let ghost count0 = self.nesting.end_count@;
        self.nesting.ends = Ghost(ends0.insert(id32, count0));
        self.nesting.end_count = Ghost(count0 + 1);
        self.pending = Some(Pending::Close { id: id32, children: entry.children, child: 0, outer: 0 });
        proof {
            let p = self.parser;
            Self::lemma_end_region_nesting(a, *self, k as int, p0@);
            assert forall|i: int| 0 <= i < self.regions@.len() implies #[trigger] self.regions@[i] == if i < k {
                before[i]
            } else {
                before[i + 1]
            } by {}
            assert forall|i: int, j: int| 0 <= i < j < self.regions@.len() implies (#[trigger] self.regions@[i]).id < (
            #[trigger] self.regions@[j]).id by {
                let bi = if i < k { i } else { i + 1 };
                let bj = if j < k { j } else { j + 1 };
                assert(before[bi].id < before[bj].id);
            }
            assert forall|i: int| 0 <= i < self.regions@.len() implies (#[trigger] self.regions@[i]).id < p.next_id()
                && p.open_regions().contains(self.regions@[i].id as usize) by {
                let bi = if i < k { i } else { i + 1 };
                assert(self.regions@[i] == before[bi]);
                if k < bi {
                    assert(before[k as int].id < before[bi].id);
                } else {
                    assert(before[bi].id < before[k as int].id);
                }
            }
            assert forall|x: usize| #[trigger] p.open_regions().contains(x) implies exists|i: int|
                0 <= i < self.regions@.len() && (#[trigger] self.regions@[i]).id as usize == x by {
                assert(p0@.open_regions().contains(x));
                let b = choose|b: int| 0 <= b < before.len() && (#[trigger] before[b]).id as usize == x;
                assert(b != k);
                if b < k {
                    assert(self.regions@[b] == before[b]);
                } else {
                    assert(self.regions@[b - 1] == before[b]);
                }
            }
            assert(self.open_regions() =~= old(self).open_regions().remove(id32)) by {
                assert forall|x: u32| self.open_regions().contains(x) implies old(self).open_regions().remove(id32).contains(x) by {
                    let i = choose|i: int| 0 <= i < self.regions@.len() && (#[trigger] self.regions@[i]).id == x;
                    let bi = if i < k { i } else { i + 1 };
                    assert(self.regions@[i] == before[bi]);
                    if k < bi {
                        assert(before[k as int].id < before[bi].id);
                    } else {
                        assert(before[bi].id < before[k as int].id);
                    }
                }
                assert forall|x: u32| old(self).open_regions().remove(id32).contains(x) implies self.open_regions().contains(x) by {
                    let b = choose|b: int| 0 <= b < before.len() && (#[trigger] before[b]).id == x;
                    if b < k {
                        assert(self.regions@[b] == before[b]);
                    } else {
                        assert(self.regions@[b - 1] == before[b]);
                    }
                }
            }
            assert(old(self).open_regions().contains(id32)) by {
                assert(before[k as int].id == id32);
            }
            Self::lemma_closing_starts(*self);
        }
        Ok(Some(Event::RegionEnd(RegionId(id32), self.text_offset)))
    }

    /// The law of an event between two states of the compiler.
    pub open spec fn region_law_parts<A>(ev: Event<'s, A>, old: Self, new: Self) -> bool {
        match ev {
            Event::Text(t) => {
                &&& t.spec_bytes().len() > 0
                &&& new.text_length() == old.text_length() + t.spec_bytes().len()
                &&& new.open_regions() == old.open_regions()
            },
            Event::RegionStart(r, offset) => {
                &&& offset == old.text_length()
                &&& new.text_length() == old.text_length()
                &&& !old.open_regions().contains(r.0)
                &&& new.open_regions() == old.open_regions().insert(r.0)
            },
            Event::RegionEnd(r, offset) => {
                &&& old.open_regions().contains(r.0)
                &&& new.open_regions() == old.open_regions().remove(r.0)
                &&& offset == old.text_length()
                &&& new.text_length() == old.text_length()
            },
            Event::Assertion(_, r) => {
                &&& old.open_regions().contains(r.0)
                &&& new.open_regions() == old.open_regions()
                &&& new.text_length() == old.text_length()
            },
            _ => {
                &&& new.open_regions() == old.open_regions()
                &&& new.text_length() == old.text_length()
            },
        }
    }
}

/// The same event, with the atom's handle in `a` and its text in `b`.
pub open spec fn resolved<'s>(a: Event<'s, crate::term::AtomHandle>, b: Event<'s, &str>, table: TermTable) -> bool {
    match a {
        Event::Atom(id, h) => b matches Event::Atom(id2, text) && id2 == id && text.spec_bytes()
            == table.atoms()[h.0 as int],
        Event::Text(t) => b == Event::<'s, &str>::Text(t),
        Event::RegionStart(r, o) => b == Event::<'s, &str>::RegionStart(r, o),
        Event::RegionEnd(r, o) => b == Event::<'s, &str>::RegionEnd(r, o),
        Event::Assertion(t, r) => b == Event::<'s, &str>::Assertion(t, r),
        Event::Parent(o, i) => b == Event::<'s, &str>::Parent(o, i),
        Event::Ancestor(o, i) => b == Event::<'s, &str>::Ancestor(o, i),
        Event::Integer(id, v) => b == Event::<'s, &str>::Integer(id, v),
        Event::Real(id, v) => b == Event::<'s, &str>::Real(id, v),
        Event::Compound(id, f) => b == Event::<'s, &str>::Compound(id, f),
        Event::Argument(c, k, t) => b == Event::<'s, &str>::Argument(c, k, t),
    }
}

impl<'s> Compiler<'s> {
    /// One step: the next owed event, or the event of the next chunk of the
    /// document, if it makes one.
    fn step<F: Fn(&'s str) -> Option<u32>>(&mut self, parse_real: &F) -> (r: Result<
        Option<Event<'s, crate::term::AtomHandle>>,
        CompileError,
    >)
        requires
            old(self).wf(),
            !old(self).done,
            forall|text: &'s str| #[trigger] parse_real.requires((text,)),
        ensures
            old(self).pending is None ==> exists|p: ProseParser<'s>, c: Option<Result<ProseChunk<'s>, ProseError>>|
                #[trigger] ProseParser::next_outcome(old(self).parser, p, c) && chunk_answer(c, r, old(self).text_offset)
                    && (c is None ==> final(self).done) && assertion_answer(
                    c,
                    r,
                    old(self).stack@.last(),
                    *final(self),
                ) && p == final(self).parser && (c matches Some(Ok(ProseChunk::TermEvent(ev))) ==> (r is Ok
                    ==> term_effect(ev, old(self).stack@, final(self).stack@, final(self).term_table))) && (c is None
                    ==> final(self).stack == old(self).stack) && (c is Some ==> final(self).done == old(self).done),
            table_grows(old(self).term_table, final(self).term_table),
            final(self).inner_wf(),
            r is Ok ==> final(self).wf(),
            match r {
                Ok(None) => {
                    &&& final(self).term_count() == old(self).term_count()
                    &&& final(self).text_length() == old(self).text_length()
                    &&& final(self).open_regions() == old(self).open_regions()
                    &&& final(self).regions_started() == old(self).regions_started()
                    &&& (final(self).done || ProseParser::progressed(final(self).parser, old(self).parser))
                    &&& final(self).nesting == old(self).nesting
                    &&& (final(self).done ==> Self::ended_cleanly(*final(self)))
                },
                Ok(Some(ev)) => {
                    &&& !final(self).done
                    &&& Self::term_law(ev, old(self).term_count(), final(self).term_count())
                    &&& Self::atom_valid(ev, final(self).term_table)
                    &&& Self::region_law(ev, *old(self), *final(self))
                    &&& Self::nesting_law(ev, *old(self), *final(self))
                    &&& Self::describes_handle(ev, *final(self))
                    &&& Self::argument_law(ev, *old(self), *final(self))
                    &&& (ev matches Event::Text(t) ==> ProseParser::text_ends_at(
                        t,
                        old(self).parser.spec_offset() as int,
                        final(self).parser,
                    ))
                    &&& final(self).parser.spec_source() == old(self).parser.spec_source()
                    &&& (ev matches Event::Integer(_, v) ==> integer_written(v, final(self).parser.spec_source().spec_bytes()))
                    &&& (ev matches Event::Real(_, v) ==> real_read(v, parse_real, final(self).parser.spec_source().spec_bytes()))
                },
                Err(_) => true,
            },
            r is Ok ==> final(self).parser.spec_source() == old(self).parser.spec_source(),
            old(self).is_closing() && Self::owes_nesting(*old(self)) ==> (r matches Ok(Some(ev))
                && Self::closing_step(ev, *old(self), *final(self))),
            r == Ok::<Option<Event<'s, crate::term::AtomHandle>>, CompileError>(None) ==> final(self).pending is None,
            r is Ok ==> final(self).parser.spec_offset() >= old(self).parser.spec_offset(),
            r is Ok && !(r matches Ok(Some(Event::Argument(..)))) ==> !Self::owes_arguments(*old(self)),
            r == Ok::<Option<Event<'s, crate::term::AtomHandle>>, CompileError>(None) ==> !Self::owes_arguments(
                *final(self),
            ),
            old(self).pending is None && old(self).parser.plain_rest() && old(self).parser.spec_offset()
                < old(self).parser.spec_source().spec_bytes().len() && old(self).text_offset + Self::rest(
                *old(self),
            ).len() <= u32::MAX ==> {
                &&& r matches Ok(Some(Event::Text(t))) && t.spec_bytes() == Self::rest(*old(self))
                &&& final(self).parser.spec_source() == old(self).parser.spec_source()
                &&& final(self).parser.plain_rest()
                &&& final(self).parser.spec_offset() == old(self).parser.spec_source().spec_bytes().len()
                &&& final(self).pending is None
            },
            old(self).pending is None && old(self).parser.plain_rest() && old(self).parser.spec_offset()
                == old(self).parser.spec_source().spec_bytes().len() && old(self).open_regions() == Set::<
                u32,
            >::empty() ==> r == Ok::<Option<Event<'s, crate::term::AtomHandle>>, CompileError>(None)
                && final(self).done,
    {
        proof {
            if old(self).open_regions() == Set::<u32>::empty() {
                assert forall|x: usize| !self.parser.open_regions().contains(x) by {
                    if self.parser.open_regions().contains(x) {
                        let i = choose|i: int| 0 <= i < self.regions@.len() && (#[trigger] self.regions@[i]).id as usize == x;
                        assert(self.open_regions().contains(self.regions@[i].id));
                    }
                }
                assert(self.parser.open_regions() =~= Set::<usize>::empty());
            }
        }
        let drained = self.drain_pending();
        match drained {
            Ok(Some(ev)) => {
                return Ok(Some(ev));
            },
            Ok(None) => {},
            Err(e) => {
                return Err(e);
            },
        }
        let ghost p0 = self.parser;
        let ghost s0 = *self;
        let res = self.parser.next(parse_real);
        let ghost p1 = self.parser;
        proof {
            if old(self).pending is None {
                assert(p0 == old(self).parser);
                assert(ProseParser::next_outcome(old(self).parser, p1, res));
            }
        }
        match res {
            None => {
                proof {
                    assert(self.open_regions() =~= Set::<u32>::empty()) by {
                        assert forall|x: u32| !self.open_regions().contains(x) by {
                            if self.open_regions().contains(x) {
                                let i = choose|i: int| 0 <= i < self.regions@.len() && (#[trigger] self.regions@[i]).id == x;
                                assert(p0.open_regions().contains(x as usize));
                            }
                        }
                    }
                    assert forall|x: u32| x < self.regions_started() implies #[trigger] self.ends().dom().contains(x) by {
                        if !self.ends().dom().contains(x) {
                            let i = choose|i: int| 0 <= i < self.regions@.len() && (#[trigger] self.regions@[i]).id == x;
                            assert(self.open_regions().contains(x));
                        }
                    }
                }
                self.done = true;
                Ok(None)
            },
            Some(Err(error)) => {
                let offset = self.parser.offset();
                Err(CompileError::Parse { error, offset })
            },
            Some(Ok(chunk)) => {
                let r = self.generate_event(chunk, Ghost(p0), parse_real);
                r
            },
        }
    }

    /// The compiler stopped at the end of the document: every region has
    /// ended, and the `Ancestor` and `Parent` pairs given are exactly the
    /// containments and the direct containments between regions.
    pub open spec fn ended_cleanly(c: Self) -> bool {
        &&& c.open_regions() == Set::<u32>::empty()
        &&& forall|x: u32| x < c.regions_started() ==> #[trigger] c.ends().dom().contains(x)
        &&& c.ancestors() == containments(c.ends())
        &&& c.parents() == ended_direct_containments(c.ends())
    }

    /// Outside the closing of a region, the `Ancestor` events given so far
    /// are exactly the pairs of regions of which the first contains the
    /// second, and the `Parent` events exactly the pairs of which the
    /// first, which has ended, directly contains the second.
    pub proof fn lemma_nesting_events(&self)
        requires
            self.wf(),
            !self.is_done(),
            !self.is_closing(),
        ensures
            self.ancestors() == containments(self.ends()),
            self.parents() == ended_direct_containments(self.ends()),
    {
    }

    /// Each distinct term has one id: the terms under two ids differ, and
    /// the table they refer to holds each atom text, and each compound's
    /// functor with its arguments, under one handle only.
    pub proof fn lemma_terms_distinct(&self, i: int, j: int)
        requires
            self.wf(),
            0 <= i < self.term_count(),
            0 <= j < self.term_count(),
            i != j,
        ensures
            self.term(i) != self.term(j),
            self.table().atoms().no_duplicates(),
            self.table().compounds().no_duplicates(),
    {
        self.term_ids.lemma_ids_distinct(i, j);
        assert(self.term_ids@[i] =~= seq![self.term(i)]);
        assert(self.term_ids@[j] =~= seq![self.term(j)]);
        self.term_table.lemma_interned();
    }

    /// Replaces the atom handle of an event by the atom's text.
    fn resolve(&self, ev: Event<'s, crate::term::AtomHandle>) -> (r: Event<'s, &str>)
        requires
            self.term_table.wf(),
            Self::atom_valid(ev, self.term_table),
        ensures
            resolved(ev, r, self.term_table),
    {
        match ev {
            Event::Atom(id, h) => Event::Atom(id, self.term_table.atom_value(h)),
            Event::Text(t) => Event::Text(t),
            Event::RegionStart(r, o) => Event::RegionStart(r, o),
            Event::RegionEnd(r, o) => Event::RegionEnd(r, o),
            Event::Assertion(t, r) => Event::Assertion(t, r),
            Event::Parent(o, i) => Event::Parent(o, i),
            Event::Ancestor(o, i) => Event::Ancestor(o, i),
            Event::Integer(id, v) => Event::Integer(id, v),
            Event::Real(id, v) => Event::Real(id, v),
            Event::Compound(id, f) => Event::Compound(id, f),
            Event::Argument(c, k, t) => Event::Argument(c, k, t),
        }
    }

    /// What a call does with the chunks it reads, from `old` to `new`: the
    /// parser gives `chunks` one after the other (`parsers` are its states);
    /// all but the last are events of a fact's terms that give no event of
    /// their own, and the answer is the last one's. The fact's terms not yet
    /// taken by a compound change with each event as `term_effect` says
    /// (`stacks`, from those of `old`), the end of a fact is answered by the
    /// assertion of its term, and an event that the answer comes from leaves
    /// the terms of `new`.
    pub open spec fn call_trace(
        old: Self,
        new: Self,
        r: Option<Result<Event<'s, &str>, CompileError>>,
        parsers: Seq<ProseParser<'s>>,
        chunks: Seq<Option<Result<ProseChunk<'s>, ProseError>>>,
        stacks: Seq<Seq<Term>>,
    ) -> bool {
        let n = chunks.len();
        &&& n >= 1
        &&& prose_chain(parsers, chunks)
        &&& parsers[0] == old.spec_parser()
        &&& parsers.last() == new.spec_parser()
        &&& forall|i: int| 0 <= i < n - 1 ==> continues_facts(#[trigger] chunks[i])
        &&& term_trace(chunk_events(chunks.drop_last()), stacks, new.table())
        &&& stacks[0] == old.fact_terms()
        &&& chunk_answer(chunks.last(), next_as_step(r), old.text_length())
        &&& assertion_answer(chunks.last(), next_as_step(r), stacks.last().last(), new)
        &&& (chunks.last() matches Some(Ok(ProseChunk::TermEvent(ev))) ==> (r is Some && r->Some_0 is Ok ==> term_effect(
            ev,
            stacks.last(),
            new.fact_terms(),
            new.table(),
        )))
    }

    /// The next event, or the error that stops the compiler, or `None` once
    /// it has stopped. Each distinct term gets the next id with the event
    /// that introduces it, before any event refers to it; the regions start
    /// with ids in order and end with the offsets of the extracted text; the
    /// compiler stops without error only once every region has ended. Atoms
    /// and integers are written in the document, and a real is what
    /// `parse_real` reads from a real literal written there. With nothing
    /// owed, the call reads chunks as `call_trace` says: the terms of a fact
    /// are built from its events, and the end of a fact is answered by the
    /// assertion of the fact's term; any other chunk is answered as
    /// `chunk_answer` says. Once a region ends, the calls that follow give
    /// its `Parent` events, for the regions it directly contains in
    /// increasing order, then its `Ancestor` events, for the open regions
    /// opened before it in increasing order (`closing_starts`,
    /// `closing_step`).
    pub fn next<F: Fn(&'s str) -> Option<u32>>(&mut self, parse_real: &F) -> (r: Option<
        Result<Event<'s, &str>, CompileError>,
    >)
        requires
            old(self).wf(),
            forall|text: &'s str| #[trigger] parse_real.requires((text,)),
        ensures
            !old(self).has_pending() && !old(self).is_done() ==> exists|
                parsers: Seq<ProseParser<'s>>,
                chunks: Seq<Option<Result<ProseChunk<'s>, ProseError>>>,
                stacks: Seq<Seq<Term>>,
            | #[trigger] Self::call_trace(*old(self), *final(self), r, parsers, chunks, stacks),
            final(self).wf(),
            old(self).is_done() ==> r is None,
            r is None ==> final(self).is_done(),
            r matches Some(Err(_)) ==> final(self).is_done(),
            r matches Some(Ok(ev)) ==> {
                &&& !final(self).is_done()
                &&& Self::term_law(ev, old(self).term_count(), final(self).term_count())
                &&& Self::region_law(ev, *old(self), *final(self))
                &&& Self::nesting_law(ev, *old(self), *final(self))
                &&& Self::describes(ev, *final(self))
                &&& Self::argument_law(ev, *old(self), *final(self))
                &&& (ev matches Event::Text(t) ==> ProseParser::text_ends_at(
                    t,
                    old(self).spec_parser().spec_offset() as int,
                    final(self).spec_parser(),
                ))
                &&& (ev matches Event::Atom(_, text) ==> atom_written(
                    text.spec_bytes(),
                    final(self).spec_parser().spec_source().spec_bytes(),
                ))
                &&& (ev matches Event::Integer(_, v) ==> integer_written(
                    v,
                    final(self).spec_parser().spec_source().spec_bytes(),
                ))
                &&& (ev matches Event::Real(_, v) ==> real_read(
                    v,
                    parse_real,
                    final(self).spec_parser().spec_source().spec_bytes(),
                ))
            },
            r is None && !old(self).is_done() ==> Self::ended_cleanly(*final(self)),
            !old(self).is_done() && old(self).is_closing() && Self::owes_nesting(*old(self)) ==> (r matches Some(
                Ok(ev),
            ) && Self::closing_step(ev, *old(self), *final(self))),
            Self::plain_start(*old(self)) && Self::rest(*old(self)).len() > 0 && old(self).text_length()
                + Self::rest(*old(self)).len() <= u32::MAX ==> {
                &&& r matches Some(Ok(Event::Text(t))) && t.spec_bytes() == Self::rest(*old(self))
                &&& Self::plain_start(*final(self))
                &&& Self::rest(*final(self)).len() == 0
            },
            Self::plain_start(*old(self)) && Self::rest(*old(self)).len() == 0 && old(self).open_regions()
                == Set::<u32>::empty() ==> r is None,
    {
        let ghost mut parsers: Seq<ProseParser<'s>> = seq![self.parser];
        let ghost mut chunks: Seq<Option<Result<ProseChunk<'s>, ProseError>>> = Seq::empty();
        let ghost mut stacks: Seq<Seq<Term>> = seq![self.stack@];
        loop
            invariant
                self.wf(),
                self.term_count() == old(self).term_count(),
                self.text_length() == old(self).text_length(),
                self.open_regions() == old(self).open_regions(),
                self.regions_started() == old(self).regions_started(),
                old(self).done ==> self.done,
                self.nesting == old(self).nesting,
                self.done && !old(self).done ==> Self::ended_cleanly(*self),
                Self::owes_arguments(*old(self)) ==> *self == *old(self),
                !old(self).done && old(self).is_closing() && Self::owes_nesting(*old(self)) ==> *self == *old(self),
                *self != *old(self) ==> !Self::owes_arguments(*self),
                self.parser.spec_source() == old(self).parser.spec_source(),
                self.parser.spec_offset() >= old(self).parser.spec_offset(),
                Self::plain_start(*old(self)) && Self::rest(*old(self)).len() > 0 && old(self).text_length()
                    + Self::rest(*old(self)).len() <= u32::MAX ==> *self == *old(self),
                Self::plain_start(*old(self)) && Self::rest(*old(self)).len() == 0 && old(self).open_regions()
                    == Set::<u32>::empty() ==> *self == *old(self) || self.done,
                old(self).pending is None && !old(self).done ==> {
                    &&& prose_chain(parsers, chunks)
                    &&& parsers[0] == old(self).parser
                    &&& parsers.last() == self.parser
                    &&& stacks[0] == old(self).stack@
                    &&& stacks.last() == self.stack@
                    &&& (!self.done ==> {
                        &&& forall|i: int| 0 <= i < chunks.len() ==> continues_facts(#[trigger] chunks[i])
                        &&& term_trace(chunk_events(chunks), stacks, self.term_table)
                        &&& self.pending is None
                    })
                    &&& (self.done ==> {
                        &&& chunks.len() >= 1
                        &&& chunks.last() is None
                        &&& forall|i: int| 0 <= i < chunks.len() - 1 ==> continues_facts(#[trigger] chunks[i])
                        &&& term_trace(chunk_events(chunks.drop_last()), stacks, self.term_table)
                    })
                },
                forall|text: &'s str| #[trigger] parse_real.requires((text,)),
            decreases
                (if self.done { 0int } else { 1int }),
                self.parser.remaining(),
                self.parser.facts_remaining(),
                self.parser.facts_pending(),
        {
            if self.done {
                proof {
                    if old(self).pending is None && !old(self).done {
                        assert(chunks.drop_last() =~= chunks.take(chunks.len() - 1));
                        assert(Self::call_trace(*old(self), *self, None, parsers, chunks, stacks));
                    }
                }
                return None;
            }
            proof {
                self.parser.lemma_offset_bound();
            }
            let ghost head = *self;
            let step_result = self.step(parse_real);
            let ghost applies = old(self).pending is None && !old(self).done;
            let ghost w2 = if applies {
                choose|p: ProseParser<'s>, c: Option<Result<ProseChunk<'s>, ProseError>>|
                    #[trigger] ProseParser::next_outcome(head.parser, p, c) && chunk_answer(c, step_result, head.text_offset)
                        && (c is None ==> self.done) && assertion_answer(c, step_result, head.stack@.last(), *self) && p
                        == self.parser && (c matches Some(Ok(ProseChunk::TermEvent(ev))) ==> (step_result is Ok
                        ==> term_effect(ev, head.stack@, self.stack@, self.term_table))) && (c is None ==> self.stack
                        == head.stack) && (c is Some ==> self.done == head.done)
            } else {
                arbitrary()
            };
            proof {
                if applies {
                    lemma_term_trace_grows(chunk_events(chunks), stacks, head.term_table, self.term_table);
                    let ps2 = parsers.push(w2.0);
                    let cs2 = chunks.push(w2.1);
                    assert(cs2.drop_last() =~= chunks);
                    assert forall|i: int| 0 <= i < cs2.len() implies ProseParser::next_outcome(
                        ps2[i],
                        ps2[i + 1],
                        #[trigger] cs2[i],
                    ) by {
                        if i < chunks.len() {
                            assert(cs2[i] == chunks[i]);
                            assert(ps2[i + 1] == parsers[i + 1]);
                        }
                    }
                    assert(prose_chain(ps2, cs2));
                }
            }
            match step_result {
                Ok(Some(ev)) => {
                    let resolved_event = self.resolve(ev);
                    proof {
                        if let Event::Atom(id, h) = ev {
                            let i = id.0 as int;
                            assert(self.term_ids@[i].len() == 1 && term_valid(self.term_table, self.term_ids@, self.term_ids@[i][0]));
                            assert(self.term_table.valid_atom(h));
                        }
                    }
                    proof {
                        if applies {
                            lemma_answer_resolved(w2.1, ev, resolved_event, self.term_table, old(self).text_offset);
                            assert(assertion_answer(
                                w2.1,
                                next_as_step(Some(Ok::<Event<'s, &str>, CompileError>(resolved_event))),
                                stacks.last().last(),
                                *self,
                            ));
                            assert(Self::call_trace(
                                *old(self),
                                *self,
                                Some(Ok(resolved_event)),
                                parsers.push(w2.0),
                                chunks.push(w2.1),
                                stacks,
                            ));
                        }
                    }
                    return Some(Ok(resolved_event));
                },
                Ok(None) => {
                    proof {
                        if applies {
                            let ps2 = parsers.push(w2.0);
                            let cs2 = chunks.push(w2.1);
                            assert(prose_chain(ps2, cs2));
                            if continues_facts(w2.1) {
                                lemma_term_trace_push(chunks, w2.1, stacks, self.stack@, self.term_table);
                                stacks = stacks.push(self.stack@);
                            } else {
                                assert(w2.1 is None);
                                assert(self.done);
                                assert(cs2.drop_last() =~= chunks);
                            }
                            parsers = ps2;
                            chunks = cs2;
                            assert forall|i: int| 0 <= i < chunks.len() - 1 implies continues_facts(#[trigger] chunks[i]) by {
                                assert(chunks[i] == cs2[i]);
                            }
                        }
                    }
                    proof {
                        self.parser.lemma_progress_bounds();
                    }
                },
                Err(e) => {
                    self.done = true;
                    proof {
                        if applies {
                            assert(Self::call_trace(
                                *old(self),
                                *self,
                                Some(Err(e)),
                                parsers.push(w2.0),
                                chunks.push(w2.1),
                                stacks,
                            ));
                        }
                    }
                    return Some(Err(e));
                },
            }
        }
    }
}

} // verus!
