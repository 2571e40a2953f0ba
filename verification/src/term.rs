use crate::intern::{InternItem, InternTable};
use vstd::prelude::*;
use vstd::string::StringSliceAdditionalSpecFns;
use vstd::utf8::valid_utf8;

verus! {

/// An integer term.
#[derive(Clone, Copy, Debug, PartialEq, Eq, Hash, Structural)]
pub struct IntegerTerm(i32);

impl IntegerTerm {
    pub closed spec fn spec_value(self) -> i32 {
        self.0
    }

    pub fn new(value: i32) -> (r: Self)
        ensures
            r.spec_value() == value,

    {
        IntegerTerm(value)
    }

    pub fn value(&self) -> (r: i32)
        ensures
            r == self.spec_value(),
    {
        self.0
    }
}

/// Whether the bits of a binary32 number encode a finite value (the exponent
/// field is not all ones).
pub open spec fn finite_bits(bits: u32) -> bool {
    bits & 0x7f80_0000u32 != 0x7f80_0000u32
}

/// The bits under which a finite real is stored: negative zero is stored as
/// zero, every other value as it is.
pub open spec fn normal_bits(bits: u32) -> u32 {
    if bits == 0x8000_0000u32 {
        0u32
    } else {
        bits
    }
}

/// A finite real term, held as the bits of its binary32 encoding, with
/// negative zero folded into zero: two reals are equal exactly when their
/// bits are.
#[derive(Clone, Copy, Debug, PartialEq, Eq, Hash, Structural)]
pub struct RealTerm(u32);

impl RealTerm {
    pub closed spec fn spec_bits(self) -> u32 {
        self.0
    }

    /// The real whose binary32 encoding is `bits`, which must be finite.
    pub fn new(bits: u32) -> (r: Self)
        requires
            finite_bits(bits),
        ensures
            r.spec_bits() == normal_bits(bits),
    {
        if bits == 0x8000_0000u32 {
            RealTerm(0)
        } else {
            RealTerm(bits)
        }
    }

    /// The value, as its binary32 encoding.
    pub fn value(&self) -> (r: u32)
        ensures
            r == self.spec_bits(),
    {
        self.0
    }
}

/// The handle of an interned atom.
#[derive(Clone, Copy, Debug, PartialEq, Eq, Hash, Structural)]
pub struct AtomHandle(pub usize);

/// The handle of an interned compound.
#[derive(Clone, Copy, Debug, PartialEq, Eq, Hash, Structural)]
pub struct CompoundHandle(pub usize);

/// A term: a number, or a handle into a `TermTable`.
#[derive(Clone, Copy, Debug, PartialEq, Eq, Hash, Structural)]
pub enum Term {
    Integer(IntegerTerm),
    Real(RealTerm),
    Atom(AtomHandle),
    Compound(CompoundHandle),
}

impl InternItem for Term {
    open spec fn code(&self) -> u64 {
        match *self {
            Term::Integer(v) => (v.spec_value() as u32) as u64,
            Term::Real(v) => ((v.spec_bits() as u64) + 0x1_0000_0000u64) as u64,
            Term::Atom(h) => (h.0 as u64) ^ 0x2_0000_0000u64,
            Term::Compound(h) => (h.0 as u64) ^ 0x4_0000_0000u64,
        }
    }

    fn same(&self, other: &Self) -> (r: bool) {
        *self == *other
    }

    fn item_code(&self) -> (r: u64) {
        match *self {
            Term::Integer(v) => (v.value() as u32) as u64,
            Term::Real(v) => (v.value() as u64) + 0x1_0000_0000u64,
            Term::Atom(h) => (h.0 as u64) ^ 0x2_0000_0000u64,
            Term::Compound(h) => (h.0 as u64) ^ 0x4_0000_0000u64,
        }
    }
}

/// Returns the bytes as a string slice by calling `std::str::from_utf8`, which
/// succeeds exactly on valid UTF-8, as the `requires` asks; the string it gives
/// back holds those same bytes.
#[verifier::external_body]
fn utf8_to_str(bytes: &[u8]) -> (r: &str)
    requires
        valid_utf8(bytes@),
    ensures
        r.spec_bytes() == bytes@,
{
    match std::str::from_utf8(bytes) {
        Ok(text) => text,
        Err(_) => "",
    }
}

/// The table of interned atoms (by their UTF-8 bytes) and compounds (as their
/// functor followed by their arguments).
pub struct TermTable {
    atoms: InternTable<u8>,
    terms: InternTable<Term>,
}

impl TermTable {
    /// The bytes of each atom, by handle.
    pub closed spec fn atoms(&self) -> Seq<Seq<u8>> {
        self.atoms@
    }

    /// The body of each compound, functor first, by handle.
    pub closed spec fn compounds(&self) -> Seq<Seq<Term>> {
        self.terms@
    }

    /// Room for one more atom and one more compound.
    pub open spec fn has_room(&self) -> bool {
        &&& self.atoms().len() + 2 < usize::MAX
        &&& self.compounds().len() + 2 < usize::MAX
    }

    pub closed spec fn wf(&self) -> bool {
        &&& self.atoms.wf()
        &&& self.terms.wf()
        &&& forall|i: int| 0 <= i < self.atoms@.len() ==> valid_utf8(#[trigger] self.atoms@[i])
        &&& forall|i: int|
            0 <= i < self.terms@.len() ==> (#[trigger] self.terms@[i]).len() >= 1
                && self.terms@[i][0] is Atom
    }

    pub open spec fn valid_atom(&self, h: AtomHandle) -> bool {
        h.0 < self.atoms().len()
    }

    pub open spec fn valid_compound(&self, h: CompoundHandle) -> bool {
        h.0 < self.compounds().len()
    }

    /// Every stored compound starts with its functor atom.
    pub proof fn lemma_compound_shape(&self, h: CompoundHandle)
        requires
            self.wf(),
            self.valid_compound(h),
        ensures
            self.compounds()[h.0 as int].len() >= 1,
            self.compounds()[h.0 as int][0] is Atom,
    {
    }

    /// Atoms and compounds are interned: no text is stored under two atom
    /// handles, and no body under two compound handles.
    pub proof fn lemma_interned(&self)
        requires
            self.wf(),
        ensures
            self.atoms().no_duplicates(),
            self.compounds().no_duplicates(),
    {
        self.atoms.lemma_no_duplicates();
        self.terms.lemma_no_duplicates();
    }

    /// One handle per compound: two compound handles of the table name the
    /// same functor and arguments exactly when they are the same handle, as
    /// two atom handles name the same text exactly when they are the same.
    pub proof fn lemma_handles_unique(&self, a: CompoundHandle, b: CompoundHandle, x: AtomHandle, y: AtomHandle)
        requires
            self.wf(),
            self.valid_compound(a),
            self.valid_compound(b),
            self.valid_atom(x),
            self.valid_atom(y),
        ensures
            self.compounds()[a.0 as int] == self.compounds()[b.0 as int] <==> a == b,
            self.atoms()[x.0 as int] == self.atoms()[y.0 as int] <==> x == y,
    {
        self.lemma_interned();
    }

    /// Whether one more atom and one more compound fit.
    pub fn room_left(&self) -> (r: bool)
        requires
            self.wf(),
        ensures
            r == self.has_room(),
    {
        let atoms = self.atoms.len();
        let compounds = self.terms.len();
        atoms < usize::MAX - 2 && compounds < usize::MAX - 2
    }

    /// An empty table.
    pub fn new() -> (r: Self)
        ensures
            r.wf(),
            r.atoms() == Seq::<Seq<u8>>::empty(),
            r.compounds() == Seq::<Seq<Term>>::empty(),
    {
        TermTable { atoms: InternTable::new(), terms: InternTable::new() }
    }

    /// Interns atom text given as UTF-8 bytes.
    pub fn atom_bytes(&mut self, bytes: &[u8]) -> (r: AtomHandle)
        requires
            old(self).wf(),
            old(self).has_room(),
            valid_utf8(bytes@),
        ensures
            final(self).wf(),
            final(self).valid_atom(r),
            final(self).atoms()[r.0 as int] == bytes@,
            old(self).atoms().contains(bytes@) ==> final(self).atoms() == old(self).atoms(),
            !old(self).atoms().contains(bytes@) ==> final(self).atoms() == old(self).atoms().push(
                bytes@,
            ),
            final(self).compounds() == old(self).compounds(),
    {
        let id = self.atoms.intern(bytes);
        proof {
            assert forall|i: int| 0 <= i < self.atoms@.len() implies valid_utf8(
                #[trigger] self.atoms@[i],
            ) by {
                if i < old(self).atoms@.len() {
                    assert(self.atoms@[i] == old(self).atoms@[i]);
                }
            }
        }
        AtomHandle(id)
    }

    /// Interns an atom.
    pub fn atom(&mut self, atom: &str) -> (r: AtomHandle)
        requires
            old(self).wf(),
            old(self).has_room(),
        ensures
            final(self).wf(),
            final(self).valid_atom(r),
            final(self).atoms()[r.0 as int] == atom.spec_bytes(),
            old(self).atoms().contains(atom.spec_bytes()) ==> final(self).atoms() == old(self).atoms(),
            !old(self).atoms().contains(atom.spec_bytes()) ==> final(self).atoms() == old(self).atoms().push(atom.spec_bytes()),
            final(self).compounds() == old(self).compounds(),
    {
        proof {
            vstd::utf8::encode_utf8_valid_utf8(atom@);
        }
        self.atom_bytes(atom.as_bytes())
    }

    /// Interns the compound with the given functor and arguments, of which
    /// there must be at least one.
    pub fn compound(&mut self, functor: AtomHandle, args: &[Term]) -> (r: CompoundHandle)
        requires
            old(self).wf(),
            old(self).has_room(),
            args@.len() > 0,
        ensures
            final(self).wf(),
            final(self).valid_compound(r),
            final(self).compounds()[r.0 as int] == seq![Term::Atom(functor)] + args@,
            old(self).compounds().contains(seq![Term::Atom(functor)] + args@) ==> final(self).compounds() == old(self).compounds(),
            !old(self).compounds().contains(seq![Term::Atom(functor)] + args@) ==> final(self).compounds() == old(self).compounds().push(seq![Term::Atom(functor)] + args@),
            final(self).atoms() == old(self).atoms(),
    {
        let mut body: Vec<Term> = Vec::new();
        body.push(Term::Atom(functor));
        let n = args.len();
        let mut i: usize = 0;
        while i < n
            invariant
                i <= n,
                n == args@.len(),
                body@ == seq![Term::Atom(functor)] + args@.take(i as int),
            decreases n - i,
        {
            body.push(args[i]);
            assert(body@ =~= seq![Term::Atom(functor)] + args@.take(i + 1));
            i += 1;
        }
        assert(args@.take(n as int) =~= args@);
        let id = self.terms.intern(body.as_slice());
        proof {
            assert forall|i: int| 0 <= i < self.terms@.len() implies (
            #[trigger] self.terms@[i]).len() >= 1 && self.terms@[i][0] is Atom by {
                if i < old(self).terms@.len() {
                    assert(self.terms@[i] == old(self).terms@[i]);
                }
            }
        }
        CompoundHandle(id)
    }

    /// The text of an atom.
    pub fn atom_value(&self, atom: AtomHandle) -> (r: &str)
        requires
            self.wf(),
            self.valid_atom(atom),
        ensures
            r.spec_bytes() == self.atoms()[atom.0 as int],
    {
        let bytes = self.atoms.resolve(atom.0);
        assert(valid_utf8(self.atoms@[atom.0 as int]));
        utf8_to_str(bytes)
    }

    /// The functor and arguments of a compound.
    pub fn compound_value(&self, compound: CompoundHandle) -> (r: (AtomHandle, &[Term]))
        requires
            self.wf(),
            self.valid_compound(compound),
        ensures
            seq![Term::Atom(r.0)] + r.1@ == self.compounds()[compound.0 as int],
    {
        let body = self.terms.resolve(compound.0);
        assert(body@.len() >= 1);
        let functor = match body[0] {
            Term::Atom(functor) => functor,
            _ => AtomHandle(0),
        };
        let args = &body[1..body.len()];
        assert(seq![Term::Atom(functor)] + args@ =~= body@);
        (functor, args)
    }
}

impl Default for TermTable {
    fn default() -> (r: Self)
        ensures
            r.wf(),
            r.atoms() == Seq::<Seq<u8>>::empty(),
            r.compounds() == Seq::<Seq<Term>>::empty(),
    {
        TermTable::new()
    }
}

/// A value that can be turned into a term, interning what it needs.
pub trait IntoTerm: Sized {
    fn into_term(self, terms: &mut TermTable) -> (r: Term)
        requires
            old(terms).wf(),
            old(terms).has_room(),
        ensures
            final(terms).wf(),
    ;
}

} // verus!
