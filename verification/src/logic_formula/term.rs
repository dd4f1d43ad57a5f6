//! Terms of a cube and their total order.

use vstd::prelude::*;

verus! {

/// Identifier of a boolean variable.
///
/// Variables are told apart and ordered by an integer key.
pub trait VarId: Sized {
    /// The key of the variable.
    spec fn key(&self) -> int;

    /// Do both identifiers name the same variable?
    fn same(&self, other: &Self) -> (r: bool)
        ensures
            r == (self.key() == other.key()),
    ;

    /// Does this variable come before the other one?
    fn before(&self, other: &Self) -> (r: bool)
        ensures
            r == (self.key() < other.key()),
    ;

    /// A copy of the identifier.
    fn dup(&self) -> (r: Self)
        ensures
            r.key() == self.key(),
    ;
}

impl VarId for u32 {
    open spec fn key(&self) -> int {
        *self as int
    }

    fn same(&self, other: &Self) -> (r: bool) {
        *self == *other
    }

    fn before(&self, other: &Self) -> (r: bool) {
        *self < *other
    }

    fn dup(&self) -> (r: Self) {
        *self
    }
}

impl VarId for u64 {
    open spec fn key(&self) -> int {
        *self as int
    }

    fn same(&self, other: &Self) -> (r: bool) {
        *self == *other
    }

    fn before(&self, other: &Self) -> (r: bool) {
        *self < *other
    }

    fn dup(&self) -> (r: Self) {
        *self
    }
}

impl VarId for usize {
    open spec fn key(&self) -> int {
        *self as int
    }

    fn same(&self, other: &Self) -> (r: bool) {
        *self == *other
    }

    fn before(&self, other: &Self) -> (r: bool) {
        *self < *other
    }

    fn dup(&self) -> (r: Self) {
        *self
    }
}

/// A term as the contracts see it: a constant or a literal of the variable
/// with the given key.
pub enum Term {
    False,
    Var(int),
    NegVar(int),
    True,
}

impl Term {
    /// Is the term a literal, positive or negative?
    pub open spec fn is_literal(self) -> bool {
        self is Var || self is NegVar
    }

    /// The key of a literal's variable.
    pub open spec fn var_key(self) -> int {
        match self {
            Term::Var(v) => v,
            Term::NegVar(v) => v,
            _ => 0,
        }
    }

    /// The strict order of terms: `False` first, then the literals by
    /// variable, each variable directly followed by its negation, and `True`
    /// last.
    pub open spec fn lt(self, other: Term) -> bool {
        match (self, other) {
            (Term::False, Term::False) => false,
            (Term::False, _) => true,
            (_, Term::False) => false,
            (Term::True, _) => false,
            (_, Term::True) => true,
            (Term::Var(a), Term::Var(b)) => a < b,
            (Term::NegVar(a), Term::NegVar(b)) => a < b,
            (Term::Var(a), Term::NegVar(b)) => a <= b,
            (Term::NegVar(a), Term::Var(b)) => a < b,
        }
    }

    /// Is one term the negation of the other?
    pub open spec fn negates(self, other: Term) -> bool {
        match (self, other) {
            (Term::Var(a), Term::NegVar(b)) => a == b,
            (Term::NegVar(a), Term::Var(b)) => a == b,
            (Term::True, Term::False) => true,
            (Term::False, Term::True) => true,
            _ => false,
        }
    }

    /// The truth value of the term where exactly the variables in `interp`
    /// are true.
    pub open spec fn holds(self, interp: Set<int>) -> bool {
        match self {
            Term::False => false,
            Term::Var(v) => interp.contains(v),
            Term::NegVar(v) => !interp.contains(v),
            Term::True => true,
        }
    }
}

/// The order of terms is total: of `a < b`, `a == b` and `b < a` exactly one
/// holds.
pub proof fn lemma_term_order_total(a: Term, b: Term)
    ensures
        a.lt(b) || a == b || b.lt(a),
        !(a.lt(b) && a == b),
        !(a.lt(b) && b.lt(a)),
        !(a == b && b.lt(a)),
{
}

/// The order of terms is transitive.
pub proof fn lemma_term_order_transitive(a: Term, b: Term, c: Term)
    requires
        a.lt(b),
        b.lt(c),
    ensures
        a.lt(c),
{
}

/// A term is the negation of its negation, and never its own negation.
pub proof fn lemma_negates_symmetric(a: Term, b: Term)
    ensures
        a.negates(b) == b.negates(a),
        a.negates(b) ==> a != b,
        a.negates(b) ==> forall|interp: Set<int>| a.holds(interp) == !b.holds(interp),
{
}

/// A term of a cube: a variable, its negation, or a constant.
#[derive(Debug)]
pub enum FormulaTerm<Id: VarId> {
    Var(Id),
    NegVar(Id),
    True,
    False,
}

impl<Id: VarId> View for FormulaTerm<Id> {
    type V = Term;

    open spec fn view(&self) -> Term {
        match self {
            FormulaTerm::Var(v) => Term::Var(v.key()),
            FormulaTerm::NegVar(v) => Term::NegVar(v.key()),
            FormulaTerm::True => Term::True,
            FormulaTerm::False => Term::False,
        }
    }
}

impl<Id: VarId> FormulaTerm<Id> {
    /// Check if term is negation of the other term.
    pub fn neg_eq(&self, other: &Self) -> (r: bool)
        ensures
            r == self@.negates(other@),
    {
        match (self, other) {
            (FormulaTerm::Var(a), FormulaTerm::NegVar(b)) => a.same(b),
            (FormulaTerm::NegVar(a), FormulaTerm::Var(b)) => a.same(b),
            (FormulaTerm::True, FormulaTerm::False) => true,
            (FormulaTerm::False, FormulaTerm::True) => true,
            _ => false,
        }
    }

    /// Are both terms the same constant or the same literal?
    pub fn same_term(&self, other: &Self) -> (r: bool)
        ensures
            r == (self@ == other@),
    {
        match (self, other) {
            (FormulaTerm::Var(a), FormulaTerm::Var(b)) => a.same(b),
            (FormulaTerm::NegVar(a), FormulaTerm::NegVar(b)) => a.same(b),
            (FormulaTerm::False, FormulaTerm::False) => true,
            (FormulaTerm::True, FormulaTerm::True) => true,
            _ => false,
        }
    }

    /// Does this term come strictly before the other one?
    pub fn precedes(&self, other: &Self) -> (r: bool)
        ensures
            r == self@.lt(other@),
    {
        match (self, other) {
            (FormulaTerm::False, FormulaTerm::False) => false,
            (FormulaTerm::False, _) => true,
            (_, FormulaTerm::False) => false,
            (FormulaTerm::True, _) => false,
            (_, FormulaTerm::True) => true,
            (FormulaTerm::Var(a), FormulaTerm::Var(b)) => a.before(b),
            (FormulaTerm::NegVar(a), FormulaTerm::NegVar(b)) => a.before(b),
            (FormulaTerm::Var(a), FormulaTerm::NegVar(b)) => !b.before(a),
            (FormulaTerm::NegVar(a), FormulaTerm::Var(b)) => a.before(b),
        }
    }

    /// A copy of the term.
    pub fn dup(&self) -> (r: Self)
        ensures
            r@ == self@,
    {
        match self {
            FormulaTerm::Var(v) => FormulaTerm::Var(v.dup()),
            FormulaTerm::NegVar(v) => FormulaTerm::NegVar(v.dup()),
            FormulaTerm::True => FormulaTerm::True,
            FormulaTerm::False => FormulaTerm::False,
        }
    }

    /// Renames the variable of a literal with `f`; constants stay.
    pub fn map<F, NId>(self, f: F) -> (r: FormulaTerm<NId>) where
        F: FnOnce(Id) -> NId,
        NId: VarId,

        requires
            match self {
                FormulaTerm::Var(v) => f.requires((v,)),
                FormulaTerm::NegVar(v) => f.requires((v,)),
                _ => true,
            },
        ensures
            match self {
                FormulaTerm::Var(v) => r matches FormulaTerm::Var(w) && f.ensures((v,), w),
                FormulaTerm::NegVar(v) => r matches FormulaTerm::NegVar(w) && f.ensures((v,), w),
                FormulaTerm::True => r is True,
                FormulaTerm::False => r is False,
            },
    {
        match self {
            FormulaTerm::Var(v) => FormulaTerm::Var(f(v)),
            FormulaTerm::NegVar(v) => FormulaTerm::NegVar(f(v)),
            FormulaTerm::True => FormulaTerm::True,
            FormulaTerm::False => FormulaTerm::False,
        }
    }
}

} // verus!
