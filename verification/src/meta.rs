use crate::parser::operator::{
    config_error, def_error, def_key, valid_operator_name, valid_precedence, OperatorClass, OperatorConfig,
    OperatorDefinition, OperatorError,
};
use crate::parser::scan::TermError;
use crate::parser::scan::{is_digit_byte, scan_trivia, spec_scan_number, spec_scan_quoted, spec_scan_trivia, NumberToken};
use crate::parser::ident::{is_digit, spec_scan_ident};
use crate::parser::term::{
    atom_read, atom_text, read_atom, read_number, real_refused_at, spec_unescape, ParseAtom, ParseNumber,
};
use crate::term::{AtomHandle, IntoTerm, Term, TermTable};
use vstd::prelude::*;
use vstd::string::StringSliceAdditionalSpecFns;

verus! {

/// Why a file of operator definitions was refused.
#[derive(Clone, Debug, PartialEq, Eq)]
pub enum MetaError {
    /// A fact that is not a compound.
    ExpectedOperatorDeclaration,
    /// A compound whose functor is not `op`; it holds the functor.
    UnsupportedDeclaration(String),
    /// `op` without exactly an integer and two atoms as its arguments.
    ExpectedOperatorArguments,
    /// A precedence that does not fit in 16 bits.
    InvalidPrecedence,
    /// An operator type other than `xfx`, `xfy`, `yfx` and `fy`; it holds the type.
    UnsupportedOperatorType(String),
    /// A definition that an operator configuration refuses.
    Operator(OperatorError),
    /// A fact that could not be parsed.
    Term(TermError),
}

/// An operator definition read from a file, owning its name.
pub struct ParsedOperatorDefinition {
    name: String,
    precedence: u16,
    class: OperatorClass,
}

impl ParsedOperatorDefinition {
    pub closed spec fn spec_name(&self) -> Seq<u8> {
        vstd::utf8::encode_utf8(self.name@)
    }

    pub closed spec fn spec_precedence(&self) -> u16 {
        self.precedence
    }

    pub closed spec fn spec_class(&self) -> OperatorClass {
        self.class
    }

    /// The definition, borrowing its name.
    pub fn borrowed(&self) -> (r: OperatorDefinition<'_>)
        ensures
            r.name.spec_bytes() == self.spec_name(),
            r.precedence == self.spec_precedence(),
            r.class == self.spec_class(),
    {
        OperatorDefinition { name: self.name.as_str(), precedence: self.precedence, class: self.class }
    }
}


/// Whether a term's handle lies in the table.
pub open spec fn handle_in(t: TermTable, x: Term) -> bool {
    match x {
        Term::Atom(h) => t.valid_atom(h),
        Term::Compound(h) => t.valid_compound(h),
        _ => true,
    }
}

/// A term whose handle lies in the table, as do those of its functor and
/// arguments if it is a compound.
pub open spec fn shallow_valid(t: TermTable, x: Term) -> bool {
    &&& handle_in(t, x)
    &&& x matches Term::Compound(h) ==> forall|k: int|
        0 <= k < t.compounds()[h.0 as int].len() ==> handle_in(
            t,
            #[trigger] t.compounds()[h.0 as int][k],
        )
}

pub open spec fn op_word() -> Seq<u8> {
    seq![0x6fu8, 0x70u8]
}

/// The operator class an atom names: `xfx`, `xfy`, `yfx` or `fy`.
pub open spec fn class_named(b: Seq<u8>) -> Option<OperatorClass> {
    if b == seq![0x78u8, 0x66u8, 0x78u8] {
        Some(OperatorClass::Xfx)
    } else if b == seq![0x78u8, 0x66u8, 0x79u8] {
        Some(OperatorClass::Xfy)
    } else if b == seq![0x79u8, 0x66u8, 0x78u8] {
        Some(OperatorClass::Yfx)
    } else if b == seq![0x66u8, 0x79u8] {
        Some(OperatorClass::Fy)
    } else {
        None
    }
}

/// How reading a definition ends.
#[derive(Clone, Copy, Debug, PartialEq, Eq, Structural)]
pub enum DefinitionOutcome {
    NotCompound,
    NotOp,
    BadArguments,
    BadPrecedence,
    BadType,
    Refused(OperatorError),
    Defined,
}

pub open spec fn atom_text_of(t: TermTable, x: Term) -> Seq<u8> {
    t.atoms()[x->Atom_0.0 as int]
}

/// The outcome of reading `op(Precedence, Type, Name)` from a fact, check by
/// check: a compound, with functor `op`, of an integer and two atoms, a
/// precedence that fits in 16 bits, a known type, and a definition that a
/// configuration accepts.
pub open spec fn definition_outcome(t: TermTable, root: Term) -> DefinitionOutcome {
    if root !is Compound {
        DefinitionOutcome::NotCompound
    } else {
        let body = t.compounds()[root->Compound_0.0 as int];
        if atom_text_of(t, body[0]) != op_word() {
            DefinitionOutcome::NotOp
        } else if !(body.len() == 4 && body[1] is Integer && body[2] is Atom && body[3] is Atom) {
            DefinitionOutcome::BadArguments
        } else if !(0 <= body[1]->Integer_0.spec_value() <= 0xffff) {
            DefinitionOutcome::BadPrecedence
        } else if class_named(atom_text_of(t, body[2])) is None {
            DefinitionOutcome::BadType
        } else if !valid_precedence(body[1]->Integer_0.spec_value() as u16) {
            DefinitionOutcome::Refused(OperatorError::InvalidPrecedence)
        } else if !valid_operator_name(atom_text_of(t, body[3])) {
            DefinitionOutcome::Refused(OperatorError::InvalidName)
        } else {
            DefinitionOutcome::Defined
        }
    }
}

fn bytes_are2(b: &[u8], x: u8, y: u8) -> (r: bool)
    ensures
        r == (b@ == seq![x, y]),
{
    let r = b.len() == 2 && b[0] == x && b[1] == y;
    proof {
        if b@.len() == 2 && b@[0] == x && b@[1] == y {
            assert(b@ =~= seq![x, y]);
        }
    }
    r
}

fn bytes_are3(b: &[u8], x: u8, y: u8, z: u8) -> (r: bool)
    ensures
        r == (b@ == seq![x, y, z]),
{
    let r = b.len() == 3 && b[0] == x && b[1] == y && b[2] == z;
    proof {
        if b@.len() == 3 && b@[0] == x && b@[1] == y && b@[2] == z {
            assert(b@ =~= seq![x, y, z]);
        }
    }
    r
}

/// Reads the operator definition `op(Precedence, Type, Name)` from a fact.
pub fn read_operator_definition(root: Term, terms: &TermTable) -> (r: Result<
    ParsedOperatorDefinition,
    MetaError,
>)
    requires
        terms.wf(),
        shallow_valid(*terms, root),
        root matches Term::Compound(h) ==> terms.compounds()[h.0 as int][0] is Atom,
    ensures
        match r {
            Ok(d) => {
                let body = terms.compounds()[root->Compound_0.0 as int];
                &&& definition_outcome(*terms, root) == DefinitionOutcome::Defined
                &&& d.spec_precedence() == body[1]->Integer_0.spec_value() as u16
                &&& Some(d.spec_class()) == class_named(atom_text_of(*terms, body[2]))
                &&& d.spec_name() == atom_text_of(*terms, body[3])
            },
            Err(MetaError::ExpectedOperatorDeclaration) => definition_outcome(*terms, root)
                == DefinitionOutcome::NotCompound,
            Err(MetaError::UnsupportedDeclaration(s)) => definition_outcome(*terms, root)
                == DefinitionOutcome::NotOp && vstd::utf8::encode_utf8(s@) == atom_text_of(
                *terms,
                terms.compounds()[root->Compound_0.0 as int][0],
            ),
            Err(MetaError::ExpectedOperatorArguments) => definition_outcome(*terms, root)
                == DefinitionOutcome::BadArguments,
            Err(MetaError::InvalidPrecedence) => definition_outcome(*terms, root)
                == DefinitionOutcome::BadPrecedence,
            Err(MetaError::UnsupportedOperatorType(s)) => definition_outcome(*terms, root)
                == DefinitionOutcome::BadType && vstd::utf8::encode_utf8(s@) == atom_text_of(
                *terms,
                terms.compounds()[root->Compound_0.0 as int][2],
            ),
            Err(MetaError::Operator(e)) => definition_outcome(*terms, root)
                == DefinitionOutcome::Refused(e),
            Err(MetaError::Term(_)) => false,
        },
{
    let compound = match root {
        Term::Compound(compound) => compound,
        _ => return Err(MetaError::ExpectedOperatorDeclaration),
    };
    let (functor, args) = terms.compound_value(compound);
    let ghost body = terms.compounds()[compound.0 as int];
    proof {
        assert(body[0] == Term::Atom(functor));
        assert(handle_in(*terms, body[0]));
        assert forall|k: int| 0 <= k < args@.len() implies args@[k] == body[k + 1] by {
            assert((seq![Term::Atom(functor)] + args@)[k + 1] == args@[k]);
        }
    }
    let functor_text = terms.atom_value(functor);
    if !bytes_are2(functor_text.as_bytes(), 0x6f, 0x70) {
        return Err(MetaError::UnsupportedDeclaration(functor_text.to_owned()));
    }
    if args.len() != 3 {
        return Err(MetaError::ExpectedOperatorArguments);
    }
    proof {
        assert(handle_in(*terms, body[2]));
        assert(handle_in(*terms, body[3]));
    }
    let (precedence, class, name) = match (args[0], args[1], args[2]) {
        (Term::Integer(p), Term::Atom(c), Term::Atom(n)) => (p, c, n),
        _ => return Err(MetaError::ExpectedOperatorArguments),
    };
    let value = precedence.value();
    if value < 0 || value > 0xffff {
        return Err(MetaError::InvalidPrecedence);
    }
    let precedence = value as u16;
    let class_text = terms.atom_value(class);
    let class_bytes = class_text.as_bytes();
    let class = if bytes_are3(class_bytes, 0x78, 0x66, 0x78) {
        OperatorClass::Xfx
    } else if bytes_are3(class_bytes, 0x78, 0x66, 0x79) {
        OperatorClass::Xfy
    } else if bytes_are3(class_bytes, 0x79, 0x66, 0x78) {
        OperatorClass::Yfx
    } else if bytes_are2(class_bytes, 0x66, 0x79) {
        OperatorClass::Fy
    } else {
        return Err(MetaError::UnsupportedOperatorType(class_text.to_owned()));
    };
    let definition = ParsedOperatorDefinition {
        name: terms.atom_value(name).to_owned(),
        precedence,
        class,
    };
    let check = [definition.borrowed()];
    match OperatorConfig::new(&check) {
        Ok(_) => {},
        Err(error) => {
            proof {
                let defs = check@;
                assert(defs.drop_last() =~= Seq::<OperatorDefinition>::empty());
                assert(config_error(defs.drop_last()) is None);
            }
            return Err(MetaError::Operator(error));
        },
    }
    proof {
        let defs = check@;
        assert(defs.drop_last() =~= Seq::<OperatorDefinition>::empty());
    }
    Ok(definition)
}


/// Whether a definition is accepted on its own by an operator configuration.
pub open spec fn definition_valid(d: ParsedOperatorDefinition) -> bool {
    valid_precedence(d.spec_precedence()) && valid_operator_name(d.spec_name())
}

/// Whether an operator definition has the name, precedence and class of a
/// parsed one.
pub open spec fn same_definition(a: OperatorDefinition, b: ParsedOperatorDefinition) -> bool {
    &&& a.name.spec_bytes() == b.spec_name()
    &&& a.precedence == b.spec_precedence()
    &&& a.class == b.spec_class()
}

/// The operator definitions read from files, each accepted on its own.
pub struct Definitions(Vec<ParsedOperatorDefinition>);

impl Definitions {
    #[verifier::type_invariant]
    spec fn inv(self) -> bool {
        forall|i: int| 0 <= i < self.0@.len() ==> definition_valid(#[trigger] self.0@[i])
    }

    /// The definitions, in the order they were read.
    pub closed spec fn view_defs(&self) -> Seq<ParsedOperatorDefinition> {
        self.0@
    }

    pub fn new() -> (r: Self)
        ensures
            r.view_defs() == Seq::<ParsedOperatorDefinition>::empty(),
    {
        Definitions(Vec::new())
    }

    pub fn len(&self) -> (r: usize)
        ensures
            r == self.view_defs().len(),
    {
        self.0.len()
    }

    /// The operator configuration of the definitions: `None` when there are
    /// none; an error when two share a name and fixity.
    pub fn config(&self) -> (r: Result<Option<OperatorConfig<'_>>, OperatorError>)
        ensures
            self.view_defs().len() == 0 <==> r matches Ok(None),
            r matches Ok(Some(c)) ==> c@.len() == self.view_defs().len() && config_error(c@) is None
                && forall|i: int|
                0 <= i < c@.len() ==> same_definition(#[trigger] c@[i], self.view_defs()[i]),
            r matches Err(e) ==> e == OperatorError::Duplicate,
            r is Err <==> has_duplicate(self.view_defs()),
    {
        proof {
            use_type_invariant(self);
        }
        let Definitions(vec) = self;
        if vec.len() == 0 {
            return Ok(None);
        }
        let mut definitions: Vec<OperatorDefinition<'_>> = Vec::new();
        let n = vec.len();
        let mut i: usize = 0;
        while i < n
            invariant
                i <= n,
                n == vec@.len(),
                definitions@.len() == i,
                forall|k: int| 0 <= k < i ==> same_definition(#[trigger] definitions@[k], vec@[k]),
            decreases n - i,
        {
            definitions.push(vec[i].borrowed());
            i += 1;
        }
        match OperatorConfig::new(definitions.as_slice()) {
            Ok(c) => {
                proof {
                    lemma_only_duplicates(definitions@, vec@);
                }
                Ok(Some(c))
            },
            Err(e) => {
                proof {
                    lemma_only_duplicates(definitions@, vec@);
                }
                Err(e)
            },
        }
    }
}

/// Definitions that are each valid on their own can only clash.
proof fn lemma_only_duplicates(defs: Seq<OperatorDefinition>, parsed: Seq<ParsedOperatorDefinition>)
    requires
        defs.len() == parsed.len(),
        forall|k: int| 0 <= k < defs.len() ==> same_definition(#[trigger] defs[k], parsed[k]),
        forall|k: int| 0 <= k < parsed.len() ==> definition_valid(#[trigger] parsed[k]),
    ensures
        config_error(defs) is None || config_error(defs) == Some(OperatorError::Duplicate),
        config_error(defs) is Some <==> has_duplicate(parsed),
    decreases defs.len(),
{
    if defs.len() > 0 {
        let n = defs.len() - 1;
        let pd = defs.drop_last();
        let pp = parsed.drop_last();
        lemma_only_duplicates(pd, pp);
        assert(same_definition(defs[n], parsed[n]));
        assert(definition_valid(parsed[n]));
        assert forall|k: int| 0 <= k < pd.len() implies def_key(#[trigger] pd[k]) == parsed_key(pp[k]) by {
            assert(same_definition(defs[k], parsed[k]));
        }
        if has_duplicate(parsed) {
            let (i, j) = choose|i: int, j: int|
                0 <= i < j < parsed.len() && parsed_key(#[trigger] parsed[i]) == parsed_key(#[trigger] parsed[j]);
            if j < n {
                assert(pp[i] == parsed[i] && pp[j] == parsed[j]);
                assert(parsed_key(pp[i]) == parsed_key(pp[j]));
                assert(has_duplicate(pp));
            } else {
                assert(def_key(pd[i]) == def_key(defs.last()));
            }
        }
        if has_duplicate(pp) {
            let (i, j) = choose|i: int, j: int|
                0 <= i < j < pp.len() && parsed_key(#[trigger] pp[i]) == parsed_key(#[trigger] pp[j]);
            assert(parsed[i] == pp[i] && parsed[j] == pp[j]);
        }
        if config_error(pd) is None && def_error(defs.last(), pd) is Some {
            let j = choose|j: int| 0 <= j < pd.len() && def_key(#[trigger] pd[j]) == def_key(defs.last());
            assert(parsed[j] == pp[j]);
            assert(parsed_key(parsed[j]) == parsed_key(parsed[n]));
        }
    }
}

/// The key under which a parsed definition is looked up: its name, and
/// whether it is a prefix operator.
pub open spec fn parsed_key(d: ParsedOperatorDefinition) -> (Seq<u8>, bool) {
    (d.spec_name(), d.spec_class().spec_is_prefix())
}

/// Whether two of the definitions share a name and fixity.
pub open spec fn has_duplicate(ds: Seq<ParsedOperatorDefinition>) -> bool {
    exists|i: int, j: int| 0 <= i < j < ds.len() && parsed_key(#[trigger] ds[i]) == parsed_key(#[trigger] ds[j])
}


/// An argument of a compound as a definition reads it: an integer, the text
/// of an atom, or anything else.
pub enum ArgView {
    Integer(i32),
    Atom(Seq<u8>),
    Other,
}

/// A term of a fact as a definition reads it: an atom's text, an integer, a
/// real, or a compound's functor with its arguments.
pub enum TermView {
    Atom(Seq<u8>),
    Integer(i32),
    Real,
    Compound(Seq<u8>, Seq<ArgView>),
}

pub open spec fn arg_view(t: TermView) -> ArgView {
    match t {
        TermView::Integer(v) => ArgView::Integer(v),
        TermView::Atom(b) => ArgView::Atom(b),
        _ => ArgView::Other,
    }
}

/// The text of the atom at `j` with the offset after it: a name, or a quoted
/// atom with its escapes resolved; or the error of reading it.
pub open spec fn atom_at(s: Seq<u8>, j: int) -> Result<(Seq<u8>, int), TermError> {
    match spec_scan_ident(s, j) {
        Some(e) => Ok((s.subrange(j, e), e)),
        None => if j < s.len() && s[j] == 0x27 {
            match spec_scan_quoted(s, j + 1) {
                Ok(close) => Ok((spec_unescape(s.subrange(j + 1, close), 0), close + 1)),
                Err((e, _)) => Err(e),
            }
        } else if j < s.len() {
            Err(TermError::UnexpectedCharacter)
        } else {
            Err(TermError::UnexpectedEndOfFile)
        },
    }
}

/// The term that starts at `i` (after white space and comments) in facts
/// without operators, with the offset after it and whether a real literal
/// was read in it; or the first error. At the root of a fact a digit is
/// refused; elsewhere `-` and a digit begin a number, as a digit does
/// anywhere; an atom followed at once by `(` is the functor of a compound.
pub open spec fn fact_term(s: Seq<u8>, i: int, root: bool) -> Result<(TermView, int, bool), TermError>
    decreases s.len() - i, 1int,
{
    match spec_scan_trivia(s, i) {
        Err((e, _)) => Err(e),
        Ok(j) => if root && j < s.len() && is_digit(s[j]) {
            Err(TermError::UnexpectedCharacter)
        } else if (!root && j + 1 < s.len() && s[j] == 0x2d && is_digit(s[j + 1])) || (j < s.len() && is_digit(s[j])) {
            match spec_scan_number(s, j) {
                Ok((NumberToken::Integer(v), e)) => Ok((TermView::Integer(v), e, false)),
                Ok((NumberToken::Real, e)) => Ok((TermView::Real, e, true)),
                Err(e) => Err(e),
            }
        } else if j >= s.len() {
            Err(TermError::UnexpectedEndOfFile)
        } else {
            match atom_at(s, j) {
                Err(e) => Err(e),
                Ok((text, e)) => if e < s.len() && s[e] == 0x28 && i <= j < e {
                    fact_arguments(s, e + 1, text, Seq::empty(), false)
                } else {
                    Ok((TermView::Atom(text), e, false))
                },
            }
        },
    }
}

/// The rest of the arguments of the compound with functor `f` from `i`,
/// after those of `args`: each a term, then `,` for another or `)` for the
/// end of the compound.
pub open spec fn fact_arguments(
    s: Seq<u8>,
    i: int,
    f: Seq<u8>,
    args: Seq<ArgView>,
    seen_real: bool,
) -> Result<(TermView, int, bool), TermError>
    decreases s.len() - i, 2int,
{
    match fact_term(s, i, false) {
        Err(e) => Err(e),
        Ok((t, e, r)) => match spec_scan_trivia(s, e) {
            Err((x, _)) => Err(x),
            Ok(k) => if k < s.len() && s[k] == 0x2c && i < k + 1 {
                fact_arguments(s, k + 1, f, args.push(arg_view(t)), seen_real || r)
            } else if k < s.len() && s[k] == 0x29 {
                Ok((TermView::Compound(f, args.push(arg_view(t))), k + 1, seen_real || r))
            } else if k < s.len() {
                Err(TermError::UnexpectedCharacter)
            } else {
                Err(TermError::UnexpectedEndOfFile)
            },
        },
    }
}

/// How reading `op(Precedence, Type, Name)` from a fact's term ends, check
/// by check, as `definition_outcome` says of a term in a table.
pub open spec fn view_outcome(t: TermView) -> DefinitionOutcome {
    match t {
        TermView::Compound(f, args) => if f != op_word() {
            DefinitionOutcome::NotOp
        } else if !(args.len() == 3 && args[0] is Integer && args[1] is Atom && args[2] is Atom) {
            DefinitionOutcome::BadArguments
        } else if !(0 <= args[0]->Integer_0 <= 0xffff) {
            DefinitionOutcome::BadPrecedence
        } else if class_named(args[1]->Atom_0) is None {
            DefinitionOutcome::BadType
        } else if !valid_precedence(args[0]->Integer_0 as u16) {
            DefinitionOutcome::Refused(OperatorError::InvalidPrecedence)
        } else if !valid_operator_name(args[2]->Atom_0) {
            DefinitionOutcome::Refused(OperatorError::InvalidName)
        } else {
            DefinitionOutcome::Defined
        },
        _ => DefinitionOutcome::NotCompound,
    }
}

/// A definition as read: its precedence, its class and its name.
pub type DefinitionView = (u16, OperatorClass, Seq<u8>);

/// The definition a fact's term gives, when it is one.
pub open spec fn view_definition(t: TermView) -> DefinitionView {
    let args = t->Compound_1;
    (args[0]->Integer_0 as u16, class_named(args[1]->Atom_0)->Some_0, args[2]->Atom_0)
}

/// Why reading definitions stops: a fact that does not parse, or one whose
/// term is no accepted definition.
pub enum LoadFailure {
    Term(TermError),
    Definition(TermView),
}

/// The definitions of the facts from `i` on, after those of `done`: each
/// fact a term ended by `;`, after which another fact is due, or by `.`;
/// the text may end after a `.`. Reading stops at the first fact that does
/// not parse or is no accepted definition, with the definitions before it.
pub open spec fn read_facts(s: Seq<u8>, i: int, required: bool, done: Seq<DefinitionView>) -> Result<
    Seq<DefinitionView>,
    (LoadFailure, Seq<DefinitionView>),
>
    decreases s.len() - i,
{
    match spec_scan_trivia(s, i) {
        Err((e, _)) => Err((LoadFailure::Term(e), done)),
        Ok(j) => if j >= s.len() && !required {
            Ok(done)
        } else {
            match fact_term(s, i, true) {
                Err(e) => Err((LoadFailure::Term(e), done)),
                Ok((t, e, _)) => match spec_scan_trivia(s, e) {
                    Err((x, _)) => Err((LoadFailure::Term(x), done)),
                    Ok(k) => if k < s.len() && (s[k] == 0x3b || s[k] == 0x2e) {
                        if view_outcome(t) != DefinitionOutcome::Defined {
                            Err((LoadFailure::Definition(t), done))
                        } else if i < k + 1 {
                            read_facts(s, k + 1, s[k] == 0x3b, done.push(view_definition(t)))
                        } else {
                            Err((LoadFailure::Term(TermError::UnexpectedCharacter), done))
                        }
                    } else if k < s.len() {
                        Err((LoadFailure::Term(TermError::UnexpectedCharacter), done))
                    } else {
                        Err((LoadFailure::Term(TermError::UnexpectedEndOfFile), done))
                    },
                },
            }
        },
    }
}

/// `me` is the error that `f` calls for.
pub open spec fn meta_error_is(me: MetaError, f: LoadFailure) -> bool {
    match f {
        LoadFailure::Term(e) => me == MetaError::Term(e),
        LoadFailure::Definition(t) => match view_outcome(t) {
            DefinitionOutcome::NotCompound => me == MetaError::ExpectedOperatorDeclaration,
            DefinitionOutcome::NotOp => me matches MetaError::UnsupportedDeclaration(x) && vstd::utf8::encode_utf8(x@)
                == t->Compound_0,
            DefinitionOutcome::BadArguments => me == MetaError::ExpectedOperatorArguments,
            DefinitionOutcome::BadPrecedence => me == MetaError::InvalidPrecedence,
            DefinitionOutcome::BadType => me matches MetaError::UnsupportedOperatorType(x)
                && vstd::utf8::encode_utf8(x@) == t->Compound_1[1]->Atom_0,
            DefinitionOutcome::Refused(e) => me == MetaError::Operator(e),
            DefinitionOutcome::Defined => false,
        },
    }
}

/// The definitions are, in order, those of the views.
pub open spec fn definitions_are(ds: Seq<ParsedOperatorDefinition>, vs: Seq<DefinitionView>) -> bool {
    &&& ds.len() == vs.len()
    &&& forall|k: int|
        0 <= k < ds.len() ==> (#[trigger] ds[k]).spec_precedence() == vs[k].0 && ds[k].spec_class() == vs[k].1
            && ds[k].spec_name() == vs[k].2
}

/// Some real literal written in `s` is one from which `parse_real` reads no
/// finite real.
pub open spec fn real_literal_refused<'a, F: Fn(&'a str) -> Option<u32>>(parse_real: &F, s: Seq<u8>) -> bool {
    exists|i: int, e: int|
        spec_scan_number(s, i) == Ok::<(NumberToken, int), TermError>((NumberToken::Real, e)) && #[trigger] real_refused_at(
            parse_real,
            s,
            i,
            e,
        )
}

/// `x`, a term of table `t`, is the argument `a` as a definition reads it.
pub open spec fn arg_decodes(t: TermTable, x: Term, a: ArgView) -> bool {
    match a {
        ArgView::Integer(v) => x matches Term::Integer(n) && n.spec_value() == v,
        ArgView::Atom(b) => x matches Term::Atom(h) && t.valid_atom(h) && t.atoms()[h.0 as int] == b,
        ArgView::Other => !(x is Integer) && !(x is Atom) && handle_in(t, x),
    }
}

/// `x`, a term of table `t`, is the term `v` as a definition reads it.
pub open spec fn decodes(t: TermTable, x: Term, v: TermView) -> bool {
    match v {
        TermView::Atom(b) => x matches Term::Atom(h) && t.valid_atom(h) && t.atoms()[h.0 as int] == b,
        TermView::Integer(n) => x matches Term::Integer(m) && m.spec_value() == n,
        TermView::Real => x is Real,
        TermView::Compound(f, args) => x matches Term::Compound(c) && t.valid_compound(c) && {
            let body = t.compounds()[c.0 as int];
            &&& body.len() == args.len() + 1
            &&& body[0] matches Term::Atom(h) && t.valid_atom(h) && t.atoms()[h.0 as int] == f
            &&& forall|k: int| 0 <= k < args.len() ==> arg_decodes(t, #[trigger] body[k + 1], args[k])
        },
    }
}

/// `b` holds every atom and compound of `a` under the same handle.
pub open spec fn table_extends(a: TermTable, b: TermTable) -> bool {
    &&& a.atoms().len() <= b.atoms().len()
    &&& a.compounds().len() <= b.compounds().len()
    &&& forall|h: int| 0 <= h < a.atoms().len() ==> b.atoms()[h] == #[trigger] a.atoms()[h]
    &&& forall|h: int| 0 <= h < a.compounds().len() ==> b.compounds()[h] == #[trigger] a.compounds()[h]
}

proof fn lemma_extends_trans(a: TermTable, b: TermTable, c: TermTable)
    requires
        table_extends(a, b),
        table_extends(b, c),
    ensures
        table_extends(a, c),
{
    assert forall|h: int| 0 <= h < a.atoms().len() implies c.atoms()[h] == #[trigger] a.atoms()[h] by {
        assert(b.atoms()[h] == a.atoms()[h]);
    }
    assert forall|h: int| 0 <= h < a.compounds().len() implies c.compounds()[h] == #[trigger] a.compounds()[h] by {
        assert(b.compounds()[h] == a.compounds()[h]);
    }
}

proof fn lemma_arg_decodes_extends(a: TermTable, b: TermTable, x: Term, v: ArgView)
    requires
        arg_decodes(a, x, v),
        table_extends(a, b),
    ensures
        arg_decodes(b, x, v),
{
    if let ArgView::Atom(_) = v {
        assert(b.atoms()[x->Atom_0.0 as int] == a.atoms()[x->Atom_0.0 as int]);
    }
}

proof fn lemma_decodes_extends(a: TermTable, b: TermTable, x: Term, v: TermView)
    requires
        decodes(a, x, v),
        table_extends(a, b),
    ensures
        decodes(b, x, v),
{
    match v {
        TermView::Atom(_) => {
            assert(b.atoms()[x->Atom_0.0 as int] == a.atoms()[x->Atom_0.0 as int]);
        },
        TermView::Compound(f, args) => {
            let c = x->Compound_0;
            let body = a.compounds()[c.0 as int];
            assert(b.compounds()[c.0 as int] == body);
            assert(b.atoms()[body[0]->Atom_0.0 as int] == a.atoms()[body[0]->Atom_0.0 as int]);
            assert forall|k: int| 0 <= k < args.len() implies arg_decodes(b, #[trigger] body[k + 1], args[k]) by {
                lemma_arg_decodes_extends(a, b, body[k + 1], args[k]);
            }
        },
        _ => {},
    }
}

/// A term read reads at least one byte.
proof fn lemma_fact_term_advances(s: Seq<u8>, i: int, root: bool)
    requires
        0 <= i <= s.len(),
    ensures
        fact_term(s, i, root) matches Ok((_, e, _)) ==> i < e <= s.len(),
    decreases s.len() - i, 1int,
{
    crate::parser::scan::lemma_scan_trivia(s, i);
    if let Ok(j) = spec_scan_trivia(s, i) {
        if (!root && j + 1 < s.len() && s[j] == 0x2d && is_digit(s[j + 1])) || (j < s.len() && is_digit(s[j])) {
            crate::parser::scan::lemma_scan_number(s, j);
        } else if j < s.len() {
            lemma_atom_at(s, j);
            if let Ok((text, e)) = atom_at(s, j) {
                if e < s.len() && s[e] == 0x28 && i <= j < e {
                    lemma_fact_arguments_advance(s, e + 1, text, Seq::empty(), false);
                }
            }
        }
    }
}

proof fn lemma_fact_arguments_advance(s: Seq<u8>, i: int, f: Seq<u8>, args: Seq<ArgView>, seen: bool)
    requires
        0 <= i <= s.len(),
    ensures
        fact_arguments(s, i, f, args, seen) matches Ok((_, e, _)) ==> i < e <= s.len(),
    decreases s.len() - i, 2int,
{
    lemma_fact_term_advances(s, i, false);
    if let Ok((t, e, r)) = fact_term(s, i, false) {
        crate::parser::scan::lemma_scan_trivia(s, e);
        if let Ok(k) = spec_scan_trivia(s, e) {
            if k < s.len() && s[k] == 0x2c && i < k + 1 {
                lemma_fact_arguments_advance(s, k + 1, f, args.push(arg_view(t)), seen || r);
            }
        }
    }
}

/// Once a real literal is read among a compound's arguments, the compound
/// counts as holding one.
proof fn lemma_fact_arguments_seen(s: Seq<u8>, i: int, f: Seq<u8>, args: Seq<ArgView>, seen: bool)
    requires
        0 <= i <= s.len(),
    ensures
        fact_arguments(s, i, f, args, seen) matches Ok((_, _, sr)) ==> (seen ==> sr) && (fact_term(s, i, false) matches Ok(
            (_, _, true),
        ) ==> sr),
    decreases s.len() - i, 2int,
{
    lemma_fact_term_advances(s, i, false);
    if let Ok((t, e, r)) = fact_term(s, i, false) {
        crate::parser::scan::lemma_scan_trivia(s, e);
        if let Ok(k) = spec_scan_trivia(s, e) {
            if k < s.len() && s[k] == 0x2c && i < k + 1 {
                lemma_fact_arguments_seen(s, k + 1, f, args.push(arg_view(t)), seen || r);
            }
        }
    }
}

/// A term read with a real literal in it is a real or a compound.
proof fn lemma_fact_term_real(s: Seq<u8>, i: int, root: bool)
    requires
        0 <= i <= s.len(),
    ensures
        fact_term(s, i, root) matches Ok((t, _, true)) ==> !(t is Integer) && !(t is Atom),
    decreases s.len() - i, 1int,
{
    crate::parser::scan::lemma_scan_trivia(s, i);
    if let Ok(j) = spec_scan_trivia(s, i) {
        if j < s.len() && !(root && is_digit(s[j])) && !((!root && j + 1 < s.len() && s[j] == 0x2d && is_digit(s[j + 1]))
            || is_digit(s[j])) {
            lemma_atom_at(s, j);
            if let Ok((text, e)) = atom_at(s, j) {
                if e < s.len() && s[e] == 0x28 && i <= j < e {
                    lemma_fact_arguments_shape(s, e + 1, text, Seq::empty(), false);
                }
            }
        }
    }
}

/// Reading a compound's arguments gives the compound, with the arguments
/// read before first; when a real literal is read in it, one of the new
/// arguments is neither an integer nor an atom.
#[verifier::spinoff_prover]
proof fn lemma_fact_arguments_shape(s: Seq<u8>, i: int, f: Seq<u8>, args: Seq<ArgView>, seen: bool)
    requires
        0 <= i <= s.len(),
    ensures
        fact_arguments(s, i, f, args, seen) matches Ok((v, _, sr)) ==> {
            &&& v matches TermView::Compound(g, all) && g == f && all.len() > args.len() && all.take(args.len() as int)
                == args && (sr ==> seen || exists|k: int| args.len() <= k < all.len() && #[trigger] all[k] is Other)
        },
    decreases s.len() - i, 2int,
{
    lemma_fact_term_advances(s, i, false);
    lemma_fact_term_real(s, i, false);
    if let Ok((t, e, r)) = fact_term(s, i, false) {
        crate::parser::scan::lemma_scan_trivia(s, e);
        if let Ok(k) = spec_scan_trivia(s, e) {
            let next = args.push(arg_view(t));
            if k < s.len() && s[k] == 0x2c && i < k + 1 {
                lemma_fact_arguments_shape(s, k + 1, f, next, seen || r);
                if let Ok((TermView::Compound(g, all), _, sr)) = fact_arguments(s, k + 1, f, next, seen || r) {
                    assert(all.take(args.len() as int) =~= all.take(next.len() as int).take(args.len() as int));
                    assert(args =~= next.take(args.len() as int));
                    if sr && !seen && r {
                        assert(all[args.len() as int] == next[args.len() as int]);
                    }
                }
            } else if k < s.len() && s[k] == 0x29 {
                assert(next.take(args.len() as int) =~= args);
                if r {
                    assert(next[args.len() as int] is Other);
                }
            }
        }
    }
}

/// A fact with a real literal in it is no accepted definition.
proof fn lemma_real_not_defined(s: Seq<u8>, i: int)
    requires
        0 <= i <= s.len(),
        fact_term(s, i, true) matches Ok((_, _, true)),
    ensures
        fact_term(s, i, true) matches Ok((v, _, _)) && view_outcome(v) != DefinitionOutcome::Defined,
{
    crate::parser::scan::lemma_scan_trivia(s, i);
    let j = spec_scan_trivia(s, i)->Ok_0;
    lemma_atom_at(s, j);
    let (text, e) = atom_at(s, j)->Ok_0;
    lemma_fact_arguments_shape(s, e + 1, text, Seq::empty(), false);
}

/// A term of a table read as a fact's term gives the outcome of reading a
/// definition from it that its view gives, and the same texts.
proof fn lemma_definition_view(tab: TermTable, root: Term, v: TermView)
    requires
        tab.wf(),
        decodes(tab, root, v),
        v is Atom || v is Compound,
    ensures
        shallow_valid(tab, root),
        root matches Term::Compound(h) ==> tab.compounds()[h.0 as int][0] is Atom,
        definition_outcome(tab, root) == view_outcome(v),
        v matches TermView::Compound(f, args) ==> {
            let body = tab.compounds()[root->Compound_0.0 as int];
            &&& atom_text_of(tab, body[0]) == f
            &&& (args.len() == 3 && args[0] is Integer ==> body[1] is Integer && body[1]->Integer_0.spec_value()
                == args[0]->Integer_0)
            &&& (args.len() == 3 && args[1] is Atom ==> atom_text_of(tab, body[2]) == args[1]->Atom_0)
            &&& (args.len() == 3 && args[2] is Atom ==> atom_text_of(tab, body[3]) == args[2]->Atom_0)
        },
{
    if let TermView::Compound(f, args) = v {
        let body = tab.compounds()[root->Compound_0.0 as int];
        assert forall|k: int| 0 <= k < body.len() implies handle_in(tab, #[trigger] body[k]) by {
            if k > 0 {
                assert(arg_decodes(tab, body[(k - 1) + 1], args[k - 1]));
            }
        }
        if args.len() == 3 {
            assert(arg_decodes(tab, body[0int + 1], args[0]));
            assert(arg_decodes(tab, body[1int + 1], args[1]));
            assert(arg_decodes(tab, body[2int + 1], args[2]));
        }
    }
}

/// The term of a fact is an atom or a compound: a number is refused there.
proof fn lemma_root_view(s: Seq<u8>, i: int)
    requires
        0 <= i <= s.len(),
    ensures
        fact_term(s, i, true) matches Ok((v, _, _)) ==> v is Atom || v is Compound,
{
    crate::parser::scan::lemma_scan_trivia(s, i);
    if let Ok(j) = spec_scan_trivia(s, i) {
        if j < s.len() {
            lemma_atom_at(s, j);
            if let Ok((text, e)) = atom_at(s, j) {
                if e < s.len() && s[e] == 0x28 && i <= j < e {
                    lemma_fact_arguments_shape(s, e + 1, text, Seq::empty(), false);
                }
            }
        }
    }
}

/// Where an atom is read, it ends after its start and within the text.
proof fn lemma_atom_at(s: Seq<u8>, j: int)
    requires
        0 <= j < s.len(),
    ensures
        atom_at(s, j) matches Ok((_, e)) ==> j < e <= s.len(),
{
    crate::parser::ident::lemma_scan_ident_bounds(s, j);
    if spec_scan_ident(s, j) is None && s[j] == 0x27 {
        crate::parser::scan::lemma_scan_quoted(s, j + 1);
    }
}

/// What reading an atom gives is what `atom_at` says.
proof fn lemma_atom_read_at(s: Seq<u8>, j: int, r: Result<ParseAtom, TermError>, end: int)
    requires
        atom_read(s, j, r, end),
    ensures
        match atom_at(s, j) {
            Ok((text, e)) => r matches Ok(a) && atom_text(a) == text && end == e,
            Err(x) => r == Err::<ParseAtom, TermError>(x),
        },
{
}

/// Reads the term at `i` of `source` (after white space and comments) into
/// `terms`, as `fact_term` says, with the offset after it; a real literal's
/// value is read with `parse_real`.
fn read_term<'a, F: Fn(&'a str) -> Option<u32>>(
    source: &'a str,
    i: usize,
    root: bool,
    terms: &mut TermTable,
    parse_real: &F,
) -> (r: Result<(Term, usize), TermError>)
    requires
        i <= source.spec_bytes().len(),
        source.spec_bytes().len() + 2 < usize::MAX,
        old(terms).wf(),
        old(terms).atoms().len() <= i,
        old(terms).compounds().len() <= i,
        forall|text: &'a str| #[trigger] parse_real.requires((text,)),
    ensures
        final(terms).wf(),
        table_extends(*old(terms), *final(terms)),
        r matches Ok((_, e)) ==> i < e <= source.spec_bytes().len() && final(terms).atoms().len() <= e
            && final(terms).compounds().len() <= e,
        match fact_term(source.spec_bytes(), i as int, root) {
            Ok((v, e, seen)) => (r matches Ok((x, e2)) && e2 == e && decodes(*final(terms), x, v)) || (seen && r
                == Err::<(Term, usize), TermError>(TermError::InvalidReal) && real_literal_refused(
                parse_real,
                source.spec_bytes(),
            )),
            Err(x) => r == Err::<(Term, usize), TermError>(x) || (r == Err::<(Term, usize), TermError>(
                TermError::InvalidReal,
            ) && real_literal_refused(parse_real, source.spec_bytes())),
        },
    decreases source.spec_bytes().len() - i, 1int,
{
    let bytes = source.as_bytes();
    let ghost s = bytes@;
    let len = bytes.len();
    let j = match scan_trivia(bytes, i) {
        Ok(j) => j,
        Err((e, _)) => return Err(e),
    };
    proof {
        crate::parser::scan::lemma_scan_trivia(s, i as int);
    }
    if root && j < len && is_digit_byte(bytes[j]) {
        return Err(TermError::UnexpectedCharacter);
    }
    if (!root && j + 1 < len && bytes[j] == 0x2d && is_digit_byte(bytes[j + 1])) || (j < len && is_digit_byte(
        bytes[j],
    )) {
        let (n, e) = read_number(source, j, parse_real);
        proof {
            crate::parser::scan::lemma_scan_number(s, j as int);
        }
        return match n {
            Ok(ParseNumber::Integer(v)) => Ok((Term::Integer(v), e)),
            Ok(ParseNumber::Real(literal)) => Ok((Term::Real(literal.value()), e)),
            Err(x) => Err(x),
        };
    }
    if j >= len {
        return Err(TermError::UnexpectedEndOfFile);
    }
    let (a, e) = read_atom(source, j);
    proof {
        lemma_atom_read_at(s, j as int, a, e as int);
    }
    let atom = match a {
        Ok(atom) => atom,
        Err(x) => return Err(x),
    };
    let ghost before = *terms;
    let x = atom.into_term(terms);
    proof {
        assert(table_extends(before, *terms));
    }
    if e < len && bytes[e] == 0x28 {
        let functor = match x {
            Term::Atom(h) => h,
            _ => return Err(TermError::UnexpectedCharacter),
        };
        let mut args: Vec<Term> = Vec::new();
        let ghost mid = *terms;
        let r = read_arguments(
            source,
            e + 1,
            functor,
            Ghost(atom_text(atom)),
            &mut args,
            Ghost(Seq::empty()),
            Ghost(false),
            terms,
            parse_real,
        );
        proof {
            lemma_extends_trans(before, mid, *terms);
        }
        return r;
    }
    Ok((x, e))
}

/// Reads the rest of the arguments of the compound with functor `functor`
/// from `i`, after those already in `args`, and interns the compound, as
/// `fact_arguments` says.
fn read_arguments<'a, F: Fn(&'a str) -> Option<u32>>(
    source: &'a str,
    i: usize,
    functor: AtomHandle,
    f: Ghost<Seq<u8>>,
    args: &mut Vec<Term>,
    views: Ghost<Seq<ArgView>>,
    seen: Ghost<bool>,
    terms: &mut TermTable,
    parse_real: &F,
) -> (r: Result<(Term, usize), TermError>)
    requires
        i <= source.spec_bytes().len(),
        source.spec_bytes().len() + 2 < usize::MAX,
        old(terms).wf(),
        old(terms).atoms().len() <= i,
        old(terms).compounds().len() <= i,
        old(terms).valid_atom(functor),
        old(terms).atoms()[functor.0 as int] == f@,
        old(args)@.len() == views@.len(),
        forall|k: int| 0 <= k < views@.len() ==> arg_decodes(*old(terms), #[trigger] old(args)@[k], views@[k]),
        forall|text: &'a str| #[trigger] parse_real.requires((text,)),
    ensures
        final(terms).wf(),
        table_extends(*old(terms), *final(terms)),
        r matches Ok((_, e)) ==> i < e <= source.spec_bytes().len() && final(terms).atoms().len() <= e
            && final(terms).compounds().len() <= e,
        match fact_arguments(source.spec_bytes(), i as int, f@, views@, seen@) {
            Ok((v, e, sr)) => (r matches Ok((x, e2)) && e2 == e && decodes(*final(terms), x, v)) || (sr && r
                == Err::<(Term, usize), TermError>(TermError::InvalidReal) && real_literal_refused(
                parse_real,
                source.spec_bytes(),
            )),
            Err(x) => r == Err::<(Term, usize), TermError>(x) || (r == Err::<(Term, usize), TermError>(
                TermError::InvalidReal,
            ) && real_literal_refused(parse_real, source.spec_bytes())),
        },
    decreases source.spec_bytes().len() - i, 2int,
{
    let bytes = source.as_bytes();
    let ghost s = bytes@;
    let len = bytes.len();
    let ghost t0 = *terms;
    let ghost term = fact_term(s, i as int, false);
    proof {
        lemma_fact_arguments_seen(s, i as int, f@, views@, seen@);
    }
    let (x, e) = match read_term(source, i, false, terms, parse_real) {
        Ok(x) => x,
        Err(err) => return Err(err),
    };
    let ghost v = term->Ok_0.0;
    let ghost rv = term->Ok_0.2;
    let ghost t1 = *terms;
    proof {
        assert forall|k: int| 0 <= k < views@.len() implies arg_decodes(t1, #[trigger] args@[k], views@[k]) by {
            lemma_arg_decodes_extends(t0, t1, args@[k], views@[k]);
        }
        match v {
            TermView::Compound(..) => {},
            _ => {},
        }
        assert(arg_decodes(t1, x, arg_view(v)));
    }
    let k = match scan_trivia(bytes, e) {
        Ok(k) => k,
        Err((err, _)) => return Err(err),
    };
    proof {
        crate::parser::scan::lemma_scan_trivia(s, e as int);
    }
    if k < len && bytes[k] == 0x2c {
        let ghost before_push = args@;
        args.push(x);
        proof {
            assert forall|m: int| 0 <= m < views@.len() + 1 implies arg_decodes(
                t1,
                #[trigger] args@[m],
                views@.push(arg_view(v))[m],
            ) by {
                if m < views@.len() {
                    assert(args@[m] == before_push[m]);
                }
            }
        }
        let ghost seen_next = seen@ || rv;
        let ghost views_next = views@.push(arg_view(v));
        let r = read_arguments(
            source,
            k + 1,
            functor,
            f,
            args,
            Ghost(views_next),
            Ghost(seen_next),
            terms,
            parse_real,
        );
        proof {
            lemma_extends_trans(t0, t1, *terms);
        }
        return r;
    } else if k < len && bytes[k] == 0x29 {
        let ghost before_push = args@;
        args.push(x);
        let c = terms.compound(functor, args.as_slice());
        let ghost t2 = *terms;
        proof {
            assert(table_extends(t1, t2));
            lemma_extends_trans(t0, t1, t2);
            let all = views@.push(arg_view(v));
            let body = t2.compounds()[c.0 as int];
            assert(body == seq![Term::Atom(functor)] + args@);
            assert forall|m: int| 0 <= m < all.len() implies arg_decodes(t2, #[trigger] body[m + 1], all[m]) by {
                assert(body[m + 1] == args@[m]);
                if m < views@.len() {
                    assert(args@[m] == before_push[m]);
                }
                lemma_arg_decodes_extends(t1, t2, args@[m], all[m]);
            }
        }
        return Ok((Term::Compound(c), k + 1));
    } else if k < len {
        return Err(TermError::UnexpectedCharacter);
    } else {
        return Err(TermError::UnexpectedEndOfFile);
    }
}

impl Definitions {
    /// Reads the operator definitions of a file's text: facts
    /// `op(Precedence, Type, Name)` each ended by `.`, where `;` may join
    /// several facts, as `read_facts` says. The definitions read are added in
    /// order; the first fact that does not parse or is no accepted
    /// definition stops the reading, with its error, and the definitions
    /// before it kept. `parse_real` gives the single-precision bits of a real
    /// literal's value; a literal it cannot read, or whose value is not
    /// finite, is an invalid real, which stops the reading at the fact that
    /// holds it (such a fact is never a definition).
    pub fn load_source<F: Fn(&str) -> Option<u32>>(&mut self, source: &str, parse_real: &F) -> (r: Result<(), MetaError>)
        requires
            source.spec_bytes().len() + 2 < usize::MAX,
            forall|text: &str| #[trigger] parse_real.requires((text,)),
        ensures
            final(self).view_defs().len() >= old(self).view_defs().len(),
            final(self).view_defs().subrange(0, old(self).view_defs().len() as int) == old(self).view_defs(),
            match read_facts(source.spec_bytes(), 0, false, Seq::empty()) {
                Ok(ds) => r is Ok && definitions_are(
                    final(self).view_defs().skip(old(self).view_defs().len() as int),
                    ds,
                ),
                Err((f, ds)) => r matches Err(me) && definitions_are(
                    final(self).view_defs().skip(old(self).view_defs().len() as int),
                    ds,
                ) && (meta_error_is(me, f) || (me == MetaError::Term(TermError::InvalidReal) && real_literal_refused(
                    parse_real,
                    source.spec_bytes(),
                ))),
            },
    {
        let bytes = source.as_bytes();
        let len = bytes.len();
        let ghost s = bytes@;
        let ghost initial = old(self).view_defs();
        let ghost mut done: Seq<DefinitionView> = Seq::empty();
        let mut offset: usize = 0;
        let mut required = false;
        proof {
            assert(self.view_defs().skip(initial.len() as int) =~= Seq::<ParsedOperatorDefinition>::empty());
        }
        loop
            invariant
                offset <= len,
                len == s.len(),
                s == source.spec_bytes(),
                bytes@ == s,
                len + 2 < usize::MAX,
                forall|text: &str| #[trigger] parse_real.requires((text,)),
                initial == old(self).view_defs(),
                self.view_defs().len() >= initial.len(),
                self.view_defs().subrange(0, initial.len() as int) == initial,
                definitions_are(self.view_defs().skip(initial.len() as int), done),
                read_facts(s, offset as int, required, done) == read_facts(s, 0, false, Seq::empty()),
            decreases len - offset,
        {
            let j = match scan_trivia(bytes, offset) {
                Ok(j) => j,
                Err((e, _)) => return Err(MetaError::Term(e)),
            };
            proof {
                crate::parser::scan::lemma_scan_trivia(s, offset as int);
            }
            if j >= len && !required {
                return Ok(());
            }
            let mut terms = TermTable::new();
            let ghost term = fact_term(s, offset as int, true);
            proof {
                if term matches Ok((_, _, true)) {
                    lemma_real_not_defined(s, offset as int);
                }
            }
            let (root, e) = match read_term(source, offset, true, &mut terms, parse_real) {
                Ok(x) => x,
                Err(error) => return Err(MetaError::Term(error)),
            };
            let ghost v = term->Ok_0.0;
            let k = match scan_trivia(bytes, e) {
                Ok(k) => k,
                Err((x, _)) => return Err(MetaError::Term(x)),
            };
            proof {
                crate::parser::scan::lemma_scan_trivia(s, e as int);
            }
            if k < len && (bytes[k] == 0x3b || bytes[k] == 0x2e) {
                proof {
                    lemma_root_view(s, offset as int);
                    lemma_definition_view(terms, root, v);
                }
                let definition = match read_operator_definition(root, &terms) {
                    Ok(d) => d,
                    Err(me) => return Err(me),
                };
                proof {
                    use_type_invariant(&*self);
                }
                let ghost before = self.view_defs();
                let mut held: Vec<ParsedOperatorDefinition> = Vec::new();
                std::mem::swap(&mut held, &mut self.0);
                held.push(definition);
                self.0 = held;
                proof {
                    use_type_invariant(&*self);
                    assert(self.view_defs() == before.push(definition));
                    assert(self.view_defs().subrange(0, initial.len() as int) =~= initial);
                    assert(self.view_defs().skip(initial.len() as int) =~= before.skip(initial.len() as int).push(
                        definition,
                    ));
                    done = done.push(view_definition(v));
                }
                required = bytes[k] == 0x3b;
                offset = k + 1;
            } else if k < len {
                return Err(MetaError::Term(TermError::UnexpectedCharacter));
            } else {
                return Err(MetaError::Term(TermError::UnexpectedEndOfFile));
            }
        }
    }
}

} // verus!
