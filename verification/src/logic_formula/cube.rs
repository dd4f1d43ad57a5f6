//! Cubes: conjunctions of terms, kept sorted.

use super::term::{FormulaTerm, Term, VarId};
use vstd::prelude::*;

verus! {

/// The terms of a cube stand in strictly ascending order.
pub open spec fn sorted(c: Seq<Term>) -> bool {
    forall|i: int, j: int| 0 <= i < j < c.len() ==> (#[trigger] c[i]).lt(#[trigger] c[j])
}

/// No term of the cube is the negation of another one.
pub open spec fn consistent(c: Seq<Term>) -> bool {
    forall|i: int, j: int|
        0 <= i < c.len() && 0 <= j < c.len() ==> !(#[trigger] c[i]).negates(#[trigger] c[j])
}

/// The normal form of a cube: sorted, without duplicates, and without a
/// term together with its negation.
pub open spec fn normal(c: Seq<Term>) -> bool {
    sorted(c) && consistent(c)
}

/// Does some term of the cube negate `t`?
pub open spec fn has_negation(c: Seq<Term>, t: Term) -> bool {
    exists|i: int| 0 <= i < c.len() && (#[trigger] c[i]).negates(t)
}

/// The number of leading terms of the cube that come before `t`.
pub open spec fn insertion_point(c: Seq<Term>, t: Term) -> int
    decreases c.len(),
{
    if c.len() == 0 || !c[0].lt(t) {
        0
    } else {
        1 + insertion_point(c.skip(1), t)
    }
}

/// The cube with the term `t` added: the single term `False` where the cube
/// holds the negation of `t`, the cube itself where it holds `t` already,
/// and else the cube with `t` inserted behind the leading terms that come
/// before it.
pub open spec fn add_term_spec(c: Seq<Term>, t: Term) -> Seq<Term> {
    if has_negation(c, t) {
        seq![Term::False]
    } else if c.contains(t) {
        c
    } else {
        c.insert(insertion_point(c, t), t)
    }
}

/// The truth value of the cube where exactly the variables in `interp` are
/// true: every term holds.
pub open spec fn cube_holds(c: Seq<Term>, interp: Set<int>) -> bool {
    forall|i: int| 0 <= i < c.len() ==> (#[trigger] c[i]).holds(interp)
}

/// Every interpretation that satisfies `a` satisfies `b`.
pub open spec fn cube_implies(a: Seq<Term>, b: Seq<Term>) -> bool {
    forall|interp: Set<int>| cube_holds(a, interp) ==> cube_holds(b, interp)
}

/// `a` holds `False`, or every term of `b` but `True` is a term of `a`.
pub open spec fn subsumed(a: Seq<Term>, b: Seq<Term>) -> bool {
    a.contains(Term::False) || forall|j: int|
        0 <= j < b.len() ==> (#[trigger] b[j]) is True || a.contains(b[j])
}

/// The insertion point is the index `at` where every term before it comes
/// before `t` and the term at it, if any, does not.
pub proof fn lemma_insertion_point(c: Seq<Term>, t: Term, at: int)
    requires
        0 <= at <= c.len(),
        forall|k: int| 0 <= k < at ==> (#[trigger] c[k]).lt(t),
        at < c.len() ==> !c[at].lt(t),
    ensures
        insertion_point(c, t) == at,
    decreases c.len(),
{
    if at > 0 {
        assert(c[0].lt(t));
        let rest = c.skip(1);
        assert forall|k: int| 0 <= k < at - 1 implies (#[trigger] rest[k]).lt(t) by {
            assert(rest[k] == c[k + 1]);
        }
        if at - 1 < rest.len() {
            assert(rest[at - 1] == c[at]);
        }
        lemma_insertion_point(rest, t, at - 1);
    }
}

/// The insertion point lies within the cube, behind terms that come before
/// `t` and before a term that does not.
pub proof fn lemma_insertion_point_bounds(c: Seq<Term>, t: Term)
    ensures
        0 <= insertion_point(c, t) <= c.len(),
        forall|k: int| 0 <= k < insertion_point(c, t) ==> (#[trigger] c[k]).lt(t),
        insertion_point(c, t) < c.len() ==> !c[insertion_point(c, t)].lt(t),
    decreases c.len(),
{
    if c.len() == 0 || !c[0].lt(t) {
    } else {
        let rest = c.skip(1);
        lemma_insertion_point_bounds(rest, t);
        let p = insertion_point(rest, t);
        assert forall|k: int| 0 <= k < p + 1 implies (#[trigger] c[k]).lt(t) by {
            if k > 0 {
                assert(rest[k - 1] == c[k]);
            }
        }
        if p + 1 < c.len() {
            assert(rest[p] == c[p + 1]);
        }
    }
}

/// A term whose negation the cube holds collapses the cube: the cube
/// becomes the single term `False`.
pub proof fn lemma_complement_collapses(c: Seq<Term>, t: Term, i: int)
    requires
        0 <= i < c.len(),
        c[i].negates(t),
    ensures
        add_term_spec(c, t) == seq![Term::False],
{
}

/// Adding a term to a cube in normal form gives a cube in normal form.
pub proof fn lemma_add_term_normal(c: Seq<Term>, t: Term)
    requires
        normal(c),
    ensures
        normal(add_term_spec(c, t)),
{
    let r = add_term_spec(c, t);
    if has_negation(c, t) {
    } else if c.contains(t) {
    } else {
        lemma_insertion_point_bounds(c, t);
        let p = insertion_point(c, t);
        assert forall|i: int, j: int| 0 <= i < j < r.len() implies (#[trigger] r[i]).lt(
            #[trigger] r[j],
        ) by {
            if j == p {
                assert(r[i] == c[i]);
            } else if i == p {
                assert(r[j] == c[j - 1]);
                assert(!c[p].lt(t));
                assert(c[p] != t);
                if j - 1 > p {
                    assert(c[p].lt(c[j - 1]));
                }
            } else {
                let ci = if i < p { i } else { i - 1 };
                let cj = if j < p { j } else { j - 1 };
                assert(r[i] == c[ci]);
                assert(r[j] == c[cj]);
            }
        }
        assert forall|i: int, j: int| 0 <= i < r.len() && 0 <= j < r.len() implies !(
        #[trigger] r[i]).negates(#[trigger] r[j]) by {
            let ci = if i < p { i } else { i - 1 };
            let cj = if j < p { j } else { j - 1 };
            if i != p {
                assert(r[i] == c[ci]);
            }
            if j != p {
                assert(r[j] == c[cj]);
            }
            if i == p && j != p {
                assert(!c[cj].negates(t));
            }
            if j == p && i != p {
                assert(!c[ci].negates(t));
            }
        }
    }
}

/// A cube with a term added holds the term, terms that it held, or the
/// single term `False`, and nothing else.
pub proof fn lemma_add_term_terms(c: Seq<Term>, t: Term)
    ensures
        forall|u: Term|
            add_term_spec(c, t).contains(u) ==> u == t || u == Term::False || c.contains(u),
{
    let r = add_term_spec(c, t);
    assert forall|u: Term| r.contains(u) implies u == t || u == Term::False || c.contains(u) by {
        let i = choose|i: int| 0 <= i < r.len() && r[i] == u;
        if has_negation(c, t) {
        } else if c.contains(t) {
        } else {
            lemma_insertion_point_bounds(c, t);
            let p = insertion_point(c, t);
            if i < p {
                assert(r[i] == c[i]);
            } else if i > p {
                assert(r[i] == c[i - 1]);
            }
        }
    }
}

/// After a term was added, the cube holds exactly where it held before and
/// the term holds too.
pub proof fn lemma_add_term_holds(c: Seq<Term>, t: Term, interp: Set<int>)
    ensures
        cube_holds(add_term_spec(c, t), interp) == (cube_holds(c, interp) && t.holds(interp)),
{
    let r = add_term_spec(c, t);
    if has_negation(c, t) {
        let i = choose|i: int| 0 <= i < c.len() && (#[trigger] c[i]).negates(t);
        assert(c[i].holds(interp) == !t.holds(interp));
        assert(r[0] == Term::False);
        assert(!r[0].holds(interp));
    } else if c.contains(t) {
        let i = choose|i: int| 0 <= i < c.len() && c[i] == t;
        assert(c[i].holds(interp) == t.holds(interp));
    } else {
        lemma_insertion_point_bounds(c, t);
        let p = insertion_point(c, t);
        if cube_holds(c, interp) && t.holds(interp) {
            assert forall|i: int| 0 <= i < r.len() implies (#[trigger] r[i]).holds(interp) by {
                if i < p {
                    assert(r[i] == c[i]);
                } else if i > p {
                    assert(r[i] == c[i - 1]);
                }
            }
        }
        if cube_holds(r, interp) {
            assert(r[p] == t);
            assert forall|i: int| 0 <= i < c.len() implies (#[trigger] c[i]).holds(interp) by {
                if i < p {
                    assert(r[i] == c[i]);
                } else {
                    assert(r[i + 1] == c[i]);
                }
            }
        }
    }
}

/// A consistent cube without `False` holds where exactly the variables of
/// its positive literals are true.
pub proof fn lemma_consistent_cube_holds(c: Seq<Term>)
    requires
        consistent(c),
        !c.contains(Term::False),
    ensures
        cube_holds(c, Set::new(|v: int| c.contains(Term::Var(v)))),
{
    let interp = Set::new(|v: int| c.contains(Term::Var(v)));
    assert forall|i: int| 0 <= i < c.len() implies (#[trigger] c[i]).holds(interp) by {
        match c[i] {
            Term::False => {
                assert(c.contains(Term::False));
            },
            Term::Var(v) => {
                assert(c.contains(Term::Var(v)));
            },
            Term::NegVar(v) => {
                if c.contains(Term::Var(v)) {
                    let k = choose|k: int| 0 <= k < c.len() && c[k] == Term::Var(v);
                    assert(c[k].negates(c[i]));
                }
            },
            Term::True => {},
        }
    }
}

/// For a consistent cube `a`, every interpretation that satisfies `a`
/// satisfies `b` exactly if `a` holds `False` or holds every term of `b` but
/// `True`.
pub proof fn lemma_subsumed_is_implication(a: Seq<Term>, b: Seq<Term>)
    requires
        consistent(a),
    ensures
        subsumed(a, b) == cube_implies(a, b),
{
    if subsumed(a, b) {
        assert forall|interp: Set<int>| cube_holds(a, interp) implies cube_holds(b, interp) by {
            if a.contains(Term::False) {
                let i = choose|i: int| 0 <= i < a.len() && a[i] == Term::False;
                assert(!a[i].holds(interp));
            } else {
                assert forall|j: int| 0 <= j < b.len() implies (#[trigger] b[j]).holds(
                    interp,
                ) by {
                    if !(b[j] is True) {
                        let i = choose|i: int| 0 <= i < a.len() && a[i] == b[j];
                        assert(a[i].holds(interp));
                    }
                }
            }
        }
    } else {
        let j = choose|j: int| 0 <= j < b.len() && !((#[trigger] b[j]) is True || a.contains(b[j]));
        let base = Set::new(|v: int| a.contains(Term::Var(v)));
        lemma_consistent_cube_holds(a);
        match b[j] {
            Term::NegVar(w) => {
                let interp = base.insert(w);
                assert forall|i: int| 0 <= i < a.len() implies (#[trigger] a[i]).holds(
                    interp,
                ) by {
                    assert(a[i].holds(base));
                    match a[i] {
                        Term::NegVar(u) => {
                            if u == w {
                                assert(a.contains(b[j]));
                            }
                        },
                        _ => {},
                    }
                }
                assert(!b[j].holds(interp));
                assert(!cube_holds(b, interp));
            },
            _ => {
                assert(!b[j].holds(base));
                assert(!cube_holds(b, base));
            },
        }
    }
}

/// Represents a conjunction group (aka. "cube") in DNF boolean formula.
#[derive(Debug)]
pub struct DNFCube<Id: VarId> {
    pub terms: Vec<FormulaTerm<Id>>,
}

impl<Id: VarId> View for DNFCube<Id> {
    type V = Seq<Term>;

    open spec fn view(&self) -> Seq<Term> {
        self.terms@.map_values(|t: FormulaTerm<Id>| t@)
    }
}

impl<Id: VarId> DNFCube<Id> {
    /// Is the cube in normal form?
    pub open spec fn wf(&self) -> bool {
        normal(self@)
    }

    /// The empty cube, which is always true.
    pub fn new() -> (r: Self)
        ensures
            r@ == Seq::<Term>::empty(),
            r.wf(),
    {
        let r = Self { terms: Vec::new() };
        assert(r@ =~= Seq::<Term>::empty());
        r
    }

    /// The number of terms.
    pub fn len(&self) -> (r: usize)
        ensures
            r == self@.len(),
    {
        self.terms.len()
    }

    /// Is every term of the cube the constant `True`?
    pub fn is_true_const(&self) -> (r: bool)
        ensures
            r == (forall|i: int| 0 <= i < self@.len() ==> (#[trigger] self@[i]) is True),
    {
        let mut i: usize = 0;
        while i < self.terms.len()
            invariant
                i <= self.terms.len(),
                forall|k: int| 0 <= k < i ==> (#[trigger] self@[k]) is True,
            decreases self.terms.len() - i,
        {
            match &self.terms[i] {
                FormulaTerm::True => {},
                _ => {
                    assert(!(self@[i as int] is True));
                    return false;
                },
            }
            i += 1;
        }
        true
    }

    /// Does the cube hold the constant `False`?
    pub fn is_false_const(&self) -> (r: bool)
        ensures
            r == self@.contains(Term::False),
    {
        let mut i: usize = 0;
        while i < self.terms.len()
            invariant
                i <= self.terms.len(),
                forall|k: int| 0 <= k < i ==> (#[trigger] self@[k]) != Term::False,
            decreases self.terms.len() - i,
        {
            match &self.terms[i] {
                FormulaTerm::False => {
                    assert(self@[i as int] == Term::False);
                    return true;
                },
                _ => {},
            }
            i += 1;
        }
        false
    }

    /// Adds a term to the conjunction and keeps the cube sorted.  A term
    /// that the cube holds already changes nothing; a term whose negation
    /// the cube holds turns the cube into the single term `False`.
    pub fn add_term(&mut self, term: FormulaTerm<Id>)
        ensures
            final(self)@ == add_term_spec(old(self)@, term@),
            old(self).wf() ==> final(self).wf(),
    {
        let ghost c = self@;
        let n = self.terms.len();
        let mut i: usize = 0;
        let mut at: usize = 0;
        let mut leading = true;
        let mut negated = false;
        let mut present = false;
        while i < n
            invariant
                n == self.terms.len(),
                self@ == c,
                i <= n,
                at <= i,
                forall|k: int| 0 <= k < at ==> (#[trigger] c[k]).lt(term@),
                leading ==> at == i,
                !leading ==> at < i && !c[at as int].lt(term@),
                negated == has_negation(c.take(i as int), term@),
                present == c.take(i as int).contains(term@),
            decreases n - i,
        {
            let my_term = &self.terms[i];
            assert(my_term@ == c[i as int]);
            let ghost before = c.take(i as int);
            let ghost after = c.take(i as int + 1);
            assert(after =~= before.push(c[i as int]));
            if leading {
                if my_term.precedes(&term) {
                    at = i + 1;
                } else {
                    leading = false;
                }
            }
            if my_term.neg_eq(&term) {
                assert(after[i as int].negates(term@));
                negated = true;
            } else {
                proof {
                    if has_negation(after, term@) {
                        let k = choose|k: int| 0 <= k < after.len() && (#[trigger] after[k]).negates(term@);
                        assert(before[k] == after[k]);
                    }
                    if has_negation(before, term@) {
                        let k = choose|k: int| 0 <= k < before.len() && (#[trigger] before[k]).negates(term@);
                        assert(before[k] == after[k]);
                    }
                }
            }
            if my_term.same_term(&term) {
                assert(after[i as int] == term@);
                present = true;
            } else {
                proof {
                    if after.contains(term@) {
                        let k = choose|k: int| 0 <= k < after.len() && after[k] == term@;
                        assert(before[k] == after[k]);
                    }
                    if before.contains(term@) {
                        let k = choose|k: int| 0 <= k < before.len() && before[k] == term@;
                        assert(before[k] == after[k]);
                    }
                }
            }
            i += 1;
        }
        proof {
            assert(c.take(n as int) =~= c);
            lemma_insertion_point(c, term@, at as int);
            if normal(c) {
                lemma_add_term_normal(c, term@);
            }
        }
        if negated {
            self.terms.clear();
            self.terms.push(FormulaTerm::False);
            assert(self@ =~= seq![Term::False]);
        } else if !present {
            self.terms.insert(at, term);
            assert(self@ =~= c.insert(at as int, term@));
        }
    }

    /// Returns `true` if every interpretation that satisfies this cube
    /// also satisfies the other cube. Otherwise, returns `false`.
    pub fn is_subcube(&self, other: &Self) -> (r: bool)
        requires
            self.wf(),
            other.wf(),
        ensures
            r == cube_implies(self@, other@),
            r == subsumed(self@, other@),
    {
        let ghost a = self@;
        let ghost b = other@;
        proof {
            lemma_subsumed_is_implication(a, b);
        }
        if self.is_false_const() {
            return true;
        }
        let n = self.terms.len();
        let m = other.terms.len();
        let mut i: usize = 0;
        let mut j: usize = 0;
        while j < m
            invariant
                n == self.terms.len(),
                m == other.terms.len(),
                a == self@,
                b == other@,
                sorted(a),
                sorted(b),
                !a.contains(Term::False),
                subsumed(a, b) == cube_implies(a, b),
                i <= n,
                j <= m,
                forall|k: int| 0 <= k < j ==> (#[trigger] b[k]) is True || a.contains(b[k]),
                forall|k: int| 0 <= k < i && j < m ==> (#[trigger] a[k]).lt(b[j as int]),
            decreases m - j, n - i,
        {
            let want = &other.terms[j];
            assert(want@ == b[j as int]);
            match want {
                FormulaTerm::True => {
                    assert(forall|k: int| j < k < m ==> b[j as int].lt(#[trigger] b[k]));
                    assert(j + 1 == m) by {
                        if j + 1 < m {
                            assert(b[j as int].lt(b[j as int + 1]));
                        }
                    }
                    j += 1;
                },
                _ => {
                    if i == n {
                        assert(!a.contains(b[j as int])) by {
                            if a.contains(b[j as int]) {
                                let k = choose|k: int| 0 <= k < a.len() && a[k] == b[j as int];
                                assert(a[k].lt(b[j as int]));
                            }
                        }
                        assert(!subsumed(a, b));
                        return false;
                    }
                    let have = &self.terms[i];
                    assert(have@ == a[i as int]);
                    if have.precedes(want) {
                        i += 1;
                    } else if have.same_term(want) {
                        assert(a.contains(b[j as int]));
                        proof {
                            if j + 1 < m {
                                assert(b[j as int].lt(b[j as int + 1]));
                                assert forall|k: int| 0 <= k < i + 1 implies (#[trigger] a[k]).lt(
                                    b[j as int + 1],
                                ) by {
                                    if k < i {
                                        super::term::lemma_term_order_transitive(
                                            a[k],
                                            b[j as int],
                                            b[j as int + 1],
                                        );
                                    }
                                }
                            }
                        }
                        i += 1;
                        j += 1;
                    } else {
                        assert(!a.contains(b[j as int])) by {
                            if a.contains(b[j as int]) {
                                let k = choose|k: int| 0 <= k < a.len() && a[k] == b[j as int];
                                if k > i {
                                    assert(a[i as int].lt(a[k]));
                                    super::term::lemma_term_order_transitive(
                                        a[i as int],
                                        a[k],
                                        a[i as int],
                                    );
                                } else if k < i {
                                    assert(a[k].lt(b[j as int]));
                                }
                            }
                        }
                        assert(!subsumed(a, b));
                        return false;
                    }
                },
            }
        }
        true
    }

    /// Renames the variables of the cube with `f`.  The terms keep their
    /// places, so the cube that comes out is sorted only if `f` keeps the
    /// order of the variables.
    pub fn map<F, NId>(self, f: F) -> (r: DNFCube<NId>) where F: Fn(Id) -> NId, NId: VarId
        requires
            forall|i: int|
                0 <= i < self.terms@.len() ==> match #[trigger] self.terms@[i] {
                    FormulaTerm::Var(v) => f.requires((v,)),
                    FormulaTerm::NegVar(v) => f.requires((v,)),
                    _ => true,
                },
        ensures
            r.terms@.len() == self.terms@.len(),
            forall|i: int|
                0 <= i < self.terms@.len() ==> match #[trigger] self.terms@[i] {
                    FormulaTerm::Var(v) => r.terms@[i] matches FormulaTerm::Var(w) && f.ensures(
                        (v,),
                        w,
                    ),
                    FormulaTerm::NegVar(v) => r.terms@[i] matches FormulaTerm::NegVar(w)
                        && f.ensures((v,), w),
                    FormulaTerm::True => r.terms@[i] is True,
                    FormulaTerm::False => r.terms@[i] is False,
                },
    {
        let mut rest = self.terms;
        let n = rest.len();
        let mut terms: Vec<FormulaTerm<NId>> = Vec::new();
        let mut i: usize = 0;
        while i < n
            invariant
                n == rest@.len(),
                n == self.terms@.len(),
                i <= n,
                terms@.len() == i,
                forall|k: int| i <= k < n ==> rest@[k] == self.terms@[k],
                forall|k: int|
                    0 <= k < n ==> match #[trigger] self.terms@[k] {
                        FormulaTerm::Var(v) => f.requires((v,)),
                        FormulaTerm::NegVar(v) => f.requires((v,)),
                        _ => true,
                    },
                forall|k: int|
                    0 <= k < i ==> match #[trigger] self.terms@[k] {
                        FormulaTerm::Var(v) => terms@[k] matches FormulaTerm::Var(w) && f.ensures(
                            (v,),
                            w,
                        ),
                        FormulaTerm::NegVar(v) => terms@[k] matches FormulaTerm::NegVar(w)
                            && f.ensures((v,), w),
                        FormulaTerm::True => terms@[k] is True,
                        FormulaTerm::False => terms@[k] is False,
                    },
            decreases n - i,
        {
            let mut term: FormulaTerm<Id> = FormulaTerm::True;
            std::mem::swap(&mut rest[i], &mut term);
            assert(term == self.terms@[i as int]);
            let mapped = match term {
                FormulaTerm::Var(v) => FormulaTerm::Var(f(v)),
                FormulaTerm::NegVar(v) => FormulaTerm::NegVar(f(v)),
                FormulaTerm::True => FormulaTerm::True,
                FormulaTerm::False => FormulaTerm::False,
            };
            terms.push(mapped);
            i += 1;
        }
        DNFCube { terms }
    }

    /// Do both cubes hold the same terms in the same order?
    pub fn same_terms(&self, other: &Self) -> (r: bool)
        ensures
            r == (self@ == other@),
    {
        if self.terms.len() != other.terms.len() {
            assert(self@.len() != other@.len());
            return false;
        }
        let mut i: usize = 0;
        while i < self.terms.len()
            invariant
                self.terms.len() == other.terms.len(),
                i <= self.terms.len(),
                forall|k: int| 0 <= k < i ==> (#[trigger] self@[k]) == other@[k],
            decreases self.terms.len() - i,
        {
            if !self.terms[i].same_term(&other.terms[i]) {
                assert(self@[i as int] != other@[i as int]);
                return false;
            }
            i += 1;
        }
        assert(self@ =~= other@);
        true
    }

    /// A copy of the cube.
    pub fn dup(&self) -> (r: Self)
        ensures
            r@ == self@,
    {
        let mut terms: Vec<FormulaTerm<Id>> = Vec::new();
        let mut i: usize = 0;
        while i < self.terms.len()
            invariant
                i <= self.terms.len(),
                terms.len() == i,
                forall|k: int| 0 <= k < i ==> (#[trigger] terms[k])@ == self.terms[k]@,
            decreases self.terms.len() - i,
        {
            terms.push(self.terms[i].dup());
            i += 1;
        }
        let r = Self { terms };
        assert(r@ =~= self@);
        r
    }
}

} // verus!
