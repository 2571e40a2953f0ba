use crate::parser::ident::{comment_opens_at, scan_ident, spec_scan_ident};
use crate::text::bytes_equal;
use vstd::prelude::*;
use vstd::string::StringSliceAdditionalSpecFns;

verus! {

/// The fixity and associativity of an operator.
#[derive(Clone, Copy, Debug, PartialEq, Eq, Structural)]
pub enum OperatorClass {
    Xfx,
    Xfy,
    Yfx,
    Fy,
}

impl OperatorClass {
    pub open spec fn spec_is_prefix(self) -> bool {
        self is Fy
    }

    pub fn is_prefix(self) -> (r: bool)
        ensures
            r == self.spec_is_prefix(),
    {
        match self {
            OperatorClass::Fy => true,
            _ => false,
        }
    }
}

/// An operator: its name, its precedence and its class.
#[derive(Clone, Copy, Debug)]
pub struct OperatorDefinition<'a> {
    pub name: &'a str,
    pub precedence: u16,
    pub class: OperatorClass,
}

/// Why a list of operator definitions was refused.
#[derive(Clone, Copy, Debug, PartialEq, Eq, Structural)]
pub enum OperatorError {
    Duplicate,
    InvalidName,
    InvalidPrecedence,
}

/// An operator is looked up by its name and by whether it is a prefix operator.
pub open spec fn def_key(d: OperatorDefinition) -> (Seq<u8>, bool) {
    (d.name.spec_bytes(), d.class.spec_is_prefix())
}

pub open spec fn valid_precedence(p: u16) -> bool {
    1 <= p <= 1200
}

/// A name is valid when it is one whole name and does not open a comment.
pub open spec fn valid_operator_name(b: Seq<u8>) -> bool {
    spec_scan_ident(b, 0) == Some(b.len() as int) && !comment_opens_at(b, 0)
}

/// The error that definition `d` raises after the definitions `prev`.
pub open spec fn def_error(d: OperatorDefinition, prev: Seq<OperatorDefinition>) -> Option<
    OperatorError,
> {
    if !valid_precedence(d.precedence) {
        Some(OperatorError::InvalidPrecedence)
    } else if !valid_operator_name(d.name.spec_bytes()) {
        Some(OperatorError::InvalidName)
    } else if exists|j: int| 0 <= j < prev.len() && def_key(#[trigger] prev[j]) == def_key(d) {
        Some(OperatorError::Duplicate)
    } else {
        None
    }
}

/// The error of the first definition that is refused, if any is.
pub open spec fn config_error(defs: Seq<OperatorDefinition>) -> Option<OperatorError>
    decreases defs.len(),
{
    if defs.len() == 0 {
        None
    } else {
        match config_error(defs.drop_last()) {
            Some(e) => Some(e),
            None => def_error(defs.last(), defs.drop_last()),
        }
    }
}

/// Once a prefix of the definitions is refused, the whole list is refused
/// with the same error.
pub proof fn lemma_config_error_prefix(defs: Seq<OperatorDefinition>, k: int)
    requires
        0 <= k <= defs.len(),
        config_error(defs.take(k)) is Some,
    ensures
        config_error(defs) == config_error(defs.take(k)),
    decreases defs.len() - k,
{
    if k == defs.len() {
        assert(defs.take(k) =~= defs);
    } else {
        assert(defs.drop_last().take(k) =~= defs.take(k));
        lemma_config_error_prefix(defs.drop_last(), k);
    }
}

/// Every definition has a valid precedence and name, and no two share a
/// name and fixity.
pub open spec fn definitions_accepted(defs: Seq<OperatorDefinition>) -> bool {
    &&& forall|i: int|
        0 <= i < defs.len() ==> valid_precedence(#[trigger] defs[i].precedence) && valid_operator_name(
            defs[i].name.spec_bytes(),
        )
    &&& forall|i: int, j: int| 0 <= i < j < defs.len() ==> def_key(#[trigger] defs[i]) != def_key(#[trigger] defs[j])
}

/// A list of definitions is refused exactly when one of them has an invalid
/// precedence or name, or two share a name and fixity.
pub proof fn lemma_config_error_none(defs: Seq<OperatorDefinition>)
    ensures
        config_error(defs) is None <==> definitions_accepted(defs),
    decreases defs.len(),
{
    if defs.len() > 0 {
        let p = defs.drop_last();
        let d = defs.last();
        lemma_config_error_none(p);
        if definitions_accepted(defs) {
            assert forall|i: int|
                0 <= i < p.len() implies valid_precedence(#[trigger] p[i].precedence) && valid_operator_name(
                p[i].name.spec_bytes(),
            ) by {
                assert(p[i] == defs[i]);
            }
            assert forall|i: int, j: int| 0 <= i < j < p.len() implies def_key(#[trigger] p[i]) != def_key(
                #[trigger] p[j],
            ) by {
                assert(p[i] == defs[i] && p[j] == defs[j]);
            }
            assert(valid_precedence(defs[defs.len() - 1].precedence));
            if exists|j: int| 0 <= j < p.len() && def_key(#[trigger] p[j]) == def_key(d) {
                let j = choose|j: int| 0 <= j < p.len() && def_key(#[trigger] p[j]) == def_key(d);
                assert(p[j] == defs[j]);
                assert(def_key(defs[j]) != def_key(defs[defs.len() - 1]));
            }
        }
        if config_error(defs) is None {
            assert forall|i: int|
                0 <= i < defs.len() implies valid_precedence(#[trigger] defs[i].precedence) && valid_operator_name(
                defs[i].name.spec_bytes(),
            ) by {
                assert(config_error(p) is None);
                assert(def_error(d, p) is None);
                if i < p.len() {
                    assert(p[i] == defs[i]);
                } else {
                    assert(defs[i] == d);
                }
            }
            assert forall|i: int, j: int| 0 <= i < j < defs.len() implies def_key(#[trigger] defs[i]) != def_key(
                #[trigger] defs[j],
            ) by {
                assert(defs[i] == p[i]);
                if j < p.len() {
                    assert(defs[j] == p[j]);
                } else {
                    assert(!(0 <= i < p.len() && def_key(p[i]) == def_key(d)));
                }
            }
        }
    }
}

/// A set of operators, at most one for each name and fixity.
pub struct OperatorConfig<'a> {
    defs: Vec<OperatorDefinition<'a>>,
}

impl<'a> View for OperatorConfig<'a> {
    type V = Seq<OperatorDefinition<'a>>;

    closed spec fn view(&self) -> Seq<OperatorDefinition<'a>> {
        self.defs@
    }
}

impl<'a> OperatorConfig<'a> {
    #[verifier::type_invariant]
    spec fn inv(self) -> bool {
        self.wf()
    }

    /// Every definition valid, and no two with the same key.
    pub open spec fn wf(&self) -> bool {
        &&& forall|i: int|
            0 <= i < self@.len() ==> valid_precedence(#[trigger] self@[i].precedence)
                && valid_operator_name(self@[i].name.spec_bytes())
        &&& forall|i: int, j: int|
            0 <= i < j < self@.len() ==> def_key(#[trigger] self@[i]) != def_key(
                #[trigger] self@[j],
            )
    }

    /// The configuration of the given definitions, or the error of the first
    /// one that is refused: a precedence outside 1 to 1200, a name that is not
    /// one whole name (or opens a comment), or a name and fixity already defined.
    pub fn new(defs: &[OperatorDefinition<'a>]) -> (r: Result<Self, OperatorError>)
        ensures
            match r {
                Ok(c) => config_error(defs@) is None && c@ == defs@ && c.wf(),
                Err(e) => config_error(defs@) == Some(e),
            },
    {
        let mut out: Vec<OperatorDefinition<'a>> = Vec::new();
        let n = defs.len();
        let mut i: usize = 0;
        while i < n
            invariant
                i <= n,
                n == defs@.len(),
                out@ == defs@.take(i as int),
                config_error(defs@.take(i as int)) is None,
                (OperatorConfig { defs: out }).wf(),
            decreases n - i,
        {
            let operator = defs[i];
            let ghost prefix = defs@.take(i as int);
            assert(defs@.take(i + 1).drop_last() =~= prefix);
            assert(defs@.take(i + 1).last() == operator);
            if !(1 <= operator.precedence && operator.precedence <= 1200) {
                proof {
                    lemma_config_error_prefix(defs@, i + 1);
                }
                return Err(OperatorError::InvalidPrecedence);
            }
            let name = operator.name.as_bytes();
            let scanned = scan_ident(operator.name, 0);
            let name_ok = match scanned {
                Some(end) => end == name.len(),
                None => false,
            };
            if !name_ok || (name.len() >= 2 && name[0] == 0x2f && name[1] == 0x2a) {
                proof {
                    lemma_config_error_prefix(defs@, i + 1);
                }
                return Err(OperatorError::InvalidName);
            }
            let prefix_flag = operator.class.is_prefix();
            let mut j: usize = 0;
            while j < out.len()
                invariant
                    j <= out@.len(),
                    out@ == prefix,
                    name@ == operator.name.spec_bytes(),
                    prefix_flag == operator.class.spec_is_prefix(),
                    i < n,
                    n == defs@.len(),
                    operator == defs@[i as int],
                    config_error(prefix) is None,
                    prefix == defs@.take(i as int),
                    valid_precedence(operator.precedence),
                    valid_operator_name(operator.name.spec_bytes()),
                    forall|k: int| 0 <= k < j ==> def_key(#[trigger] prefix[k]) != def_key(operator),
                decreases out@.len() - j,
            {
                let other = out[j];
                let other_prefix = other.class.is_prefix();
                let other_name = other.name.as_bytes();
                let same_name = bytes_equal(other_name, name);
                if other_prefix == prefix_flag && same_name {
                    assert(def_key(prefix[j as int]) == def_key(operator));
                    assert(defs@.take(i + 1).drop_last() =~= prefix);
                    assert(defs@.take(i + 1).last() == operator);
                    assert(config_error(defs@.take(i + 1)) == Some(OperatorError::Duplicate));
                    proof {
                        lemma_config_error_prefix(defs@, i + 1);
                    }
                    return Err(OperatorError::Duplicate);
                }
                assert(def_key(prefix[j as int]) != def_key(operator));
                j += 1;
            }
            out.push(operator);
            assert(out@ =~= defs@.take(i + 1));
            i += 1;
        }
        assert(defs@.take(n as int) =~= defs@);
        Ok(OperatorConfig { defs: out })
    }

    /// The operator with the given name and fixity, if there is one.
    pub fn get(&self, name: &str, prefix: bool) -> (r: Option<&OperatorDefinition<'a>>)
        ensures
            self.wf(),
            match r {
                Some(d) => self@.contains(*d) && def_key(*d) == (name.spec_bytes(), prefix)
                    && valid_precedence(d.precedence),
                None => forall|i: int|
                    0 <= i < self@.len() ==> def_key(#[trigger] self@[i]) != (
                        name.spec_bytes(),
                        prefix,
                    ),
            },
    {
        proof {
            use_type_invariant(self);
        }
        let bytes = name.as_bytes();
        let mut j: usize = 0;
        while j < self.defs.len()
            invariant
                j <= self@.len(),
                bytes@ == name.spec_bytes(),
                self.wf(),
                forall|k: int|
                    0 <= k < j ==> def_key(#[trigger] self@[k]) != (name.spec_bytes(), prefix),
            decreases self@.len() - j,
        {
            let other = &self.defs[j];
            let other_prefix = other.class.is_prefix();
            let other_name = other.name.as_bytes();
            let same_name = bytes_equal(other_name, bytes);
            if other_prefix == prefix && same_name {
                assert(self@[j as int] == *other);
                return Some(other);
            }
            assert(def_key(self@[j as int]) != (name.spec_bytes(), prefix));
            j += 1;
        }
        None
    }
}

impl<'a> Clone for OperatorConfig<'a> {
    fn clone(&self) -> (r: Self)
        ensures
            r@ == self@,
    {
        proof {
            use_type_invariant(self);
        }
        let mut defs: Vec<OperatorDefinition<'a>> = Vec::new();
        let n = self.defs.len();
        let mut i: usize = 0;
        while i < n
            invariant
                i <= n,
                n == self@.len(),
                defs@ == self@.take(i as int),
                self.wf(),
            decreases n - i,
        {
            defs.push(self.defs[i]);
            assert(defs@ =~= self@.take(i + 1));
            i += 1;
        }
        assert(self@.take(n as int) =~= self@);
        OperatorConfig { defs }
    }
}

impl<'a> Default for OperatorConfig<'a> {
    fn default() -> (r: Self)
        ensures
            r@ == Seq::<OperatorDefinition<'a>>::empty(),
            r.wf(),
    {
        OperatorConfig { defs: Vec::new() }
    }
}

impl<'a> OperatorConfig<'a> {
    /// In a configuration, a name and fixity name at most one definition:
    /// the one that looking them up gives.
    pub proof fn lemma_key_names_one(&self, a: OperatorDefinition<'a>, b: OperatorDefinition<'a>)
        requires
            self.wf(),
            self@.contains(a),
            self@.contains(b),
            def_key(a) == def_key(b),
        ensures
            a == b,
    {
        let i = choose|i: int| 0 <= i < self@.len() && self@[i] == a;
        let j = choose|j: int| 0 <= j < self@.len() && self@[j] == b;
        if i < j {
            assert(def_key(self@[i]) != def_key(self@[j]));
        } else if j < i {
            assert(def_key(self@[j]) != def_key(self@[i]));
        }
    }
}

} // verus!
