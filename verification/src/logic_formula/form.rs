//! Formulas in disjunctive normal form: disjunctions of cubes.

use super::cube::{add_term_spec, cube_holds, cube_implies, normal, subsumed, DNFCube, lemma_add_term_holds, lemma_add_term_normal, lemma_add_term_terms, lemma_subsumed_is_implication};
use super::reduce::{lemma_merge_keeps_common_terms, lemma_reduce_normal, lemma_reduce_sound, reduce_spec};
use super::term::{Term, VarId};
use vstd::prelude::*;

verus! {

/// Every cube of the formula is in normal form.
pub open spec fn form_normal(f: Seq<Seq<Term>>) -> bool {
    forall|i: int| 0 <= i < f.len() ==> normal(#[trigger] f[i])
}

/// The truth value of the formula where exactly the variables in `interp`
/// are true: some cube holds.  The empty formula is false.
pub open spec fn form_holds(f: Seq<Seq<Term>>, interp: Set<int>) -> bool {
    exists|i: int| 0 <= i < f.len() && cube_holds(#[trigger] f[i], interp)
}

/// Every interpretation that satisfies `f` satisfies `g`.
pub open spec fn form_implies(f: Seq<Seq<Term>>, g: Seq<Seq<Term>>) -> bool {
    forall|interp: Set<int>| form_holds(f, interp) ==> form_holds(g, interp)
}

/// Some cube of `g` is implied by the cube `c` term by term.
pub open spec fn covered_cube(c: Seq<Term>, g: Seq<Seq<Term>>) -> bool {
    exists|j: int| 0 <= j < g.len() && subsumed(c, #[trigger] g[j])
}

/// For every cube of `f` some cube of `g` is implied by it term by term.
pub open spec fn covered(f: Seq<Seq<Term>>, g: Seq<Seq<Term>>) -> bool {
    forall|i: int| 0 <= i < f.len() ==> covered_cube(#[trigger] f[i], g)
}

/// All terms of all cubes of the formula are as `pred` asks.
pub open spec fn all_terms(f: Seq<Seq<Term>>, pred: spec_fn(Term) -> bool) -> bool {
    forall|i: int, j: int| 0 <= i < f.len() && 0 <= j < f[i].len() ==> pred(#[trigger] f[i][j])
}

/// Where all terms of a formula are as `pred` asks, and so are the term
/// `t` and `False`, all terms are so after `t` was added to every cube.
pub proof fn lemma_conjunct_term_terms(f: Seq<Seq<Term>>, t: Term, pred: spec_fn(Term) -> bool)
    requires
        all_terms(f, pred),
        pred(t),
        pred(Term::False),
    ensures
        all_terms(conjunct_term_spec(f, t), pred),
{
    let g = conjunct_term_spec(f, t);
    assert forall|i: int, j: int| 0 <= i < g.len() && 0 <= j < g[i].len() implies pred(
        #[trigger] g[i][j],
    ) by {
        lemma_add_term_terms(f[i], t);
        assert(g[i].contains(g[i][j]));
        if f[i].contains(g[i][j]) {
            let k = choose|k: int| 0 <= k < f[i].len() && f[i][k] == g[i][j];
            assert(pred(f[i][k]));
        }
    }
}

/// Some cube of the formula other than the one at `i` holds.
pub open spec fn holds_beside(f: Seq<Seq<Term>>, i: int, interp: Set<int>) -> bool {
    exists|k: int| 0 <= k < f.len() && k != i && cube_holds(#[trigger] f[k], interp)
}

/// The number of cubes of the formula that hold `False`.
pub open spec fn false_cubes(f: Seq<Seq<Term>>) -> nat
    decreases f.len(),
{
    if f.len() == 0 {
        0
    } else {
        false_cubes(f.drop_last()) + if f.last().contains(Term::False) {
            1nat
        } else {
            0nat
        }
    }
}

/// The number of terms of the formula, all cubes together.
pub open spec fn total_terms(f: Seq<Seq<Term>>) -> nat
    decreases f.len(),
{
    if f.len() == 0 {
        0
    } else {
        total_terms(f.drop_last()) + f.last().len()
    }
}

/// One where the cube holds `False`, zero where it does not.
pub open spec fn false_weight(c: Seq<Term>) -> nat {
    if c.contains(Term::False) {
        1
    } else {
        0
    }
}

/// How the counts of a formula change where one cube is replaced.
pub proof fn lemma_measures_update(f: Seq<Seq<Term>>, i: int, r: Seq<Term>)
    requires
        0 <= i < f.len(),
    ensures
        false_cubes(f.update(i, r)) + false_weight(f[i]) == false_cubes(f) + false_weight(r),
        total_terms(f.update(i, r)) + f[i].len() == total_terms(f) + r.len(),
    decreases f.len(),
{
    let g = f.update(i, r);
    if i == f.len() - 1 {
        assert(g.drop_last() =~= f.drop_last());
    } else {
        lemma_measures_update(f.drop_last(), i, r);
        assert(g.drop_last() =~= f.drop_last().update(i, r));
    }
}

/// How the counts of a formula change where one cube is taken out.
pub proof fn lemma_measures_remove(f: Seq<Seq<Term>>, i: int)
    requires
        0 <= i < f.len(),
    ensures
        false_cubes(f.remove(i)) + false_weight(f[i]) == false_cubes(f),
        total_terms(f.remove(i)) + f[i].len() == total_terms(f),
    decreases f.len(),
{
    let g = f.remove(i);
    if i == f.len() - 1 {
        assert(g =~= f.drop_last());
    } else {
        lemma_measures_remove(f.drop_last(), i);
        assert(g.drop_last() =~= f.drop_last().remove(i));
        assert(g.last() == f.last());
    }
}

/// A reduction that changes the cube `a` makes it shorter, unless `a` holds
/// `False`; and a reduction that holds `False` comes from a cube `a` that
/// does.
pub proof fn lemma_reduction_shrinks(a: Seq<Term>, c: Seq<Term>)
    ensures
        match reduce_spec(a, c) {
            Some(r) => {
                &&& r.contains(Term::False) ==> a.contains(Term::False)
                &&& r != a && !a.contains(Term::False) ==> r.len() < a.len() && !r.contains(
                    Term::False,
                )
                &&& r != a && a.contains(Term::False) && r.contains(Term::False) && !(a[0] is False)
                    ==> r.len() < a.len()
            },
            None => true,
        },
{
    match reduce_spec(a, c) {
        Some(r) => {
            if a.len() > 0 && a[0] is False {
                assert(a.contains(a[0]));
            } else if c.len() > 0 && c[0] is False {
            } else {
                lemma_merge_keeps_common_terms(a, c, false, false);
                if r.contains(Term::False) {
                    let i = choose|i: int| 0 <= i < r.len() && r[i] == Term::False;
                    assert(a.contains(r[i]));
                }
            }
        },
        None => {},
    }
}

/// A formula holds where the cube at `i` or some other cube holds.
pub proof fn lemma_form_holds_split(f: Seq<Seq<Term>>, i: int, interp: Set<int>)
    requires
        0 <= i < f.len(),
    ensures
        form_holds(f, interp) == (cube_holds(f[i], interp) || holds_beside(f, i, interp)),
{
    if form_holds(f, interp) {
        let k = choose|k: int| 0 <= k < f.len() && cube_holds(#[trigger] f[k], interp);
        if k != i {
            assert(holds_beside(f, i, interp));
        }
    }
    if holds_beside(f, i, interp) {
        let k = choose|k: int| 0 <= k < f.len() && k != i && cube_holds(#[trigger] f[k], interp);
        assert(cube_holds(f[k], interp));
    }
}

/// With one cube replaced a formula holds where the new cube or some other
/// cube holds.
pub proof fn lemma_form_holds_update(f: Seq<Seq<Term>>, i: int, r: Seq<Term>, interp: Set<int>)
    requires
        0 <= i < f.len(),
    ensures
        form_holds(f.update(i, r), interp) == (cube_holds(r, interp) || holds_beside(
            f,
            i,
            interp,
        )),
{
    let g = f.update(i, r);
    lemma_form_holds_split(g, i, interp);
    if holds_beside(g, i, interp) {
        let k = choose|k: int| 0 <= k < g.len() && k != i && cube_holds(#[trigger] g[k], interp);
        assert(g[k] == f[k]);
        assert(holds_beside(f, i, interp));
    }
    if holds_beside(f, i, interp) {
        let k = choose|k: int| 0 <= k < f.len() && k != i && cube_holds(#[trigger] f[k], interp);
        assert(g[k] == f[k]);
        assert(holds_beside(g, i, interp));
    }
}

/// With one cube taken out a formula holds where some other cube of it
/// held.
pub proof fn lemma_form_holds_remove(f: Seq<Seq<Term>>, i: int, interp: Set<int>)
    requires
        0 <= i < f.len(),
    ensures
        form_holds(f.remove(i), interp) == holds_beside(f, i, interp),
{
    let g = f.remove(i);
    if form_holds(g, interp) {
        let k = choose|k: int| 0 <= k < g.len() && cube_holds(#[trigger] g[k], interp);
        let m = if k < i {
            k
        } else {
            k + 1
        };
        assert(g[k] == f[m]);
        assert(holds_beside(f, i, interp));
    }
    if holds_beside(f, i, interp) {
        let k = choose|k: int| 0 <= k < f.len() && k != i && cube_holds(#[trigger] f[k], interp);
        let m = if k < i {
            k
        } else {
            k - 1
        };
        assert(g[m] == f[k]);
        assert(form_holds(g, interp));
    }
}

/// With one cube appended a formula holds where it held or the new cube
/// holds.
pub proof fn lemma_form_holds_push(f: Seq<Seq<Term>>, c: Seq<Term>, interp: Set<int>)
    ensures
        form_holds(f.push(c), interp) == (form_holds(f, interp) || cube_holds(c, interp)),
{
    let g = f.push(c);
    if form_holds(g, interp) {
        let k = choose|k: int| 0 <= k < g.len() && cube_holds(#[trigger] g[k], interp);
        if k < f.len() {
            assert(g[k] == f[k]);
        }
    }
    if form_holds(f, interp) {
        let k = choose|k: int| 0 <= k < f.len() && cube_holds(#[trigger] f[k], interp);
        assert(g[k] == f[k]);
    }
    if cube_holds(c, interp) {
        assert(g[f.len() as int] == c);
    }
}

/// The disjunction of two formulas holds where one of them holds.
pub proof fn lemma_form_holds_concat(f: Seq<Seq<Term>>, g: Seq<Seq<Term>>, interp: Set<int>)
    ensures
        form_holds(f + g, interp) == (form_holds(f, interp) || form_holds(g, interp)),
{
    let h = f + g;
    if form_holds(h, interp) {
        let k = choose|k: int| 0 <= k < h.len() && cube_holds(#[trigger] h[k], interp);
        if k < f.len() {
            assert(h[k] == f[k]);
        } else {
            assert(h[k] == g[k - f.len()]);
        }
    }
    if form_holds(f, interp) {
        let k = choose|k: int| 0 <= k < f.len() && cube_holds(#[trigger] f[k], interp);
        assert(h[k] == f[k]);
    }
    if form_holds(g, interp) {
        let k = choose|k: int| 0 <= k < g.len() && cube_holds(#[trigger] g[k], interp);
        assert(h[k + f.len()] == g[k]);
    }
}

/// A formula covers itself cube by cube.
pub proof fn lemma_covered_reflexive(f: Seq<Seq<Term>>)
    ensures
        covered(f, f),
{
    assert forall|i: int| 0 <= i < f.len() implies covered_cube(#[trigger] f[i], f) by {
        assert(subsumed(f[i], f[i])) by {
            assert forall|j: int| 0 <= j < f[i].len() implies (#[trigger] f[i][j]) is True
                || f[i].contains(f[i][j]) by {}
        }
    }
}

/// Covering cube by cube is transitive.
pub proof fn lemma_covered_transitive(f: Seq<Seq<Term>>, g: Seq<Seq<Term>>, h: Seq<Seq<Term>>)
    requires
        form_normal(f),
        form_normal(g),
        covered(f, g),
        covered(g, h),
    ensures
        covered(f, h),
{
    assert forall|i: int| 0 <= i < f.len() implies covered_cube(#[trigger] f[i], h) by {
        assert(covered_cube(f[i], g));
        let j = choose|j: int| 0 <= j < g.len() && subsumed(f[i], #[trigger] g[j]);
        assert(covered_cube(g[j], h));
        let k = choose|k: int| 0 <= k < h.len() && subsumed(g[j], #[trigger] h[k]);
        lemma_subsumed_is_implication(f[i], g[j]);
        lemma_subsumed_is_implication(g[j], h[k]);
        lemma_subsumed_is_implication(f[i], h[k]);
        assert(cube_implies(f[i], h[k])) by {
            assert forall|interp: Set<int>| cube_holds(f[i], interp) implies cube_holds(
                h[k],
                interp,
            ) by {
                assert(cube_holds(g[j], interp));
            }
        }
    }
}

/// Containment cube by cube is sound: where for every cube of `f` some
/// cube of `g` is implied by it term by term, every interpretation that
/// satisfies `f` satisfies `g`.
pub proof fn lemma_covered_sound(f: Seq<Seq<Term>>, g: Seq<Seq<Term>>)
    requires
        form_normal(f),
        covered(f, g),
    ensures
        form_implies(f, g),
{
    assert forall|interp: Set<int>| form_holds(f, interp) implies form_holds(g, interp) by {
        let i = choose|i: int| 0 <= i < f.len() && cube_holds(#[trigger] f[i], interp);
        assert(covered_cube(f[i], g));
        let j = choose|j: int| 0 <= j < g.len() && subsumed(f[i], #[trigger] g[j]);
        lemma_subsumed_is_implication(f[i], g[j]);
        assert(cube_holds(g[j], interp));
    }
}

/// Against a formula of one cube containment cube by cube is exact: it
/// holds if and only if every interpretation that satisfies `f` satisfies
/// that cube.
pub proof fn lemma_covered_by_one_cube(f: Seq<Seq<Term>>, c: Seq<Term>)
    requires
        form_normal(f),
    ensures
        covered(f, seq![c]) == form_implies(f, seq![c]),
{
    let g = seq![c];
    if covered(f, g) {
        lemma_covered_sound(f, g);
    }
    if form_implies(f, g) {
        assert forall|i: int| 0 <= i < f.len() implies covered_cube(#[trigger] f[i], g) by {
            lemma_subsumed_is_implication(f[i], c);
            assert forall|interp: Set<int>| cube_holds(f[i], interp) implies cube_holds(
                c,
                interp,
            ) by {
                assert(form_holds(f, interp));
                assert(form_holds(g, interp));
                let k = choose|k: int| 0 <= k < g.len() && cube_holds(#[trigger] g[k], interp);
                assert(g[k] == c);
            }
            assert(subsumed(f[i], g[0]));
        }
    }
}

/// The formula after the cube `c` was merged into it, the cubes before
/// `idx` having been tried already; `reduced` says that some cube has taken
/// `c` up.
///
/// The cube at `idx` is reduced with `c`.  Where that gives nothing the next
/// cube is tried.  A reduction that holds `False` takes the cube out, one
/// that differs from the cube replaces it, and both start over from the
/// first cube; one that equals the cube leaves it and goes on.  At the end
/// `c` is appended unless a cube has taken it up.
pub open spec fn add_cube_opt_from(f: Seq<Seq<Term>>, c: Seq<Term>, idx: int, reduced: bool) -> Seq<
    Seq<Term>,
>
    decreases false_cubes(f), total_terms(f), f.len() - idx,
{
    if idx < 0 || idx >= f.len() {
        if reduced {
            f
        } else {
            f.push(c)
        }
    } else {
        match reduce_spec(f[idx], c) {
            None => add_cube_opt_from(f, c, idx + 1, reduced),
            Some(r) => {
                if r.contains(Term::False) {
                    proof {
                        lemma_reduction_shrinks(f[idx], c);
                        lemma_measures_remove(f, idx);
                    }
                    add_cube_opt_from(f.remove(idx), c, 0, true)
                } else if r == f[idx] {
                    add_cube_opt_from(f, c, idx + 1, true)
                } else {
                    proof {
                        lemma_reduction_shrinks(f[idx], c);
                        lemma_measures_update(f, idx, r);
                    }
                    add_cube_opt_from(f.update(idx, r), c, 0, true)
                }
            },
        }
    }
}

/// The formula after the cube `c` was merged into it.
pub open spec fn add_cube_opt_spec(f: Seq<Seq<Term>>, c: Seq<Term>) -> Seq<Seq<Term>> {
    add_cube_opt_from(f, c, 0, false)
}

/// The formula after the cubes of `g` were merged into it one by one.
pub open spec fn disjunct_opt_spec(f: Seq<Seq<Term>>, g: Seq<Seq<Term>>) -> Seq<Seq<Term>> {
    g.fold_left(f, |acc: Seq<Seq<Term>>, c: Seq<Term>| add_cube_opt_spec(acc, c))
}

/// The formula with the term `t` added to every cube.
pub open spec fn conjunct_term_spec(f: Seq<Seq<Term>>, t: Term) -> Seq<Seq<Term>> {
    f.map_values(|c: Seq<Term>| add_term_spec(c, t))
}

/// Merging a cube into a formula gives a formula that holds where the
/// formula or the cube holds.
pub proof fn lemma_add_cube_opt_from_holds(
    f: Seq<Seq<Term>>,
    c: Seq<Term>,
    idx: int,
    reduced: bool,
    interp: Set<int>,
)
    requires
        reduced && cube_holds(c, interp) ==> form_holds(f, interp),
    ensures
        form_holds(add_cube_opt_from(f, c, idx, reduced), interp) == (form_holds(f, interp)
            || cube_holds(c, interp)),
    decreases false_cubes(f), total_terms(f), f.len() - idx,
{
    if idx < 0 || idx >= f.len() {
        lemma_form_holds_push(f, c, interp);
    } else {
        lemma_form_holds_split(f, idx, interp);
        match reduce_spec(f[idx], c) {
            None => {
                lemma_add_cube_opt_from_holds(f, c, idx + 1, reduced, interp);
            },
            Some(r) => {
                lemma_reduce_sound(f[idx], c, interp);
                lemma_reduction_shrinks(f[idx], c);
                if r.contains(Term::False) {
                    lemma_measures_remove(f, idx);
                    lemma_form_holds_remove(f, idx, interp);
                    let k = choose|k: int| 0 <= k < r.len() && r[k] == Term::False;
                    assert(!r[k].holds(interp));
                    assert(!cube_holds(r, interp));
                    lemma_add_cube_opt_from_holds(f.remove(idx), c, 0, true, interp);
                } else if r == f[idx] {
                    lemma_add_cube_opt_from_holds(f, c, idx + 1, true, interp);
                } else {
                    lemma_measures_update(f, idx, r);
                    lemma_form_holds_update(f, idx, r, interp);
                    lemma_add_cube_opt_from_holds(f.update(idx, r), c, 0, true, interp);
                }
            },
        }
    }
}

/// Merging a cube in normal form into a formula in normal form gives a
/// formula in normal form.
pub proof fn lemma_add_cube_opt_from_normal(f: Seq<Seq<Term>>, c: Seq<Term>, idx: int, reduced: bool)
    requires
        form_normal(f),
        normal(c),
    ensures
        form_normal(add_cube_opt_from(f, c, idx, reduced)),
    decreases false_cubes(f), total_terms(f), f.len() - idx,
{
    if idx < 0 || idx >= f.len() {
    } else {
        match reduce_spec(f[idx], c) {
            None => {
                lemma_add_cube_opt_from_normal(f, c, idx + 1, reduced);
            },
            Some(r) => {
                lemma_reduction_shrinks(f[idx], c);
                lemma_reduce_normal(f[idx], c);
                if r.contains(Term::False) {
                    lemma_measures_remove(f, idx);
                    let g = f.remove(idx);
                    assert forall|i: int| 0 <= i < g.len() implies normal(#[trigger] g[i]) by {
                        if i < idx {
                            assert(g[i] == f[i]);
                        } else {
                            assert(g[i] == f[i + 1]);
                        }
                    }
                    lemma_add_cube_opt_from_normal(g, c, 0, true);
                } else if r == f[idx] {
                    lemma_add_cube_opt_from_normal(f, c, idx + 1, true);
                } else {
                    lemma_measures_update(f, idx, r);
                    lemma_add_cube_opt_from_normal(f.update(idx, r), c, 0, true);
                }
            },
        }
    }
}

/// Merging a cube into a formula is a disjunction: the result holds under
/// exactly the interpretations under which the formula or the cube holds.
pub proof fn lemma_add_cube_opt_holds(f: Seq<Seq<Term>>, c: Seq<Term>, interp: Set<int>)
    ensures
        form_holds(add_cube_opt_spec(f, c), interp) == (form_holds(f, interp) || cube_holds(
            c,
            interp,
        )),
{
    lemma_add_cube_opt_from_holds(f, c, 0, false, interp);
}

/// Adding a term to every cube is a conjunction: the result holds under
/// exactly the interpretations under which the formula and the term hold.
pub proof fn lemma_conjunct_term_holds(f: Seq<Seq<Term>>, t: Term, interp: Set<int>)
    ensures
        form_holds(conjunct_term_spec(f, t), interp) == (form_holds(f, interp) && t.holds(interp)),
{
    let g = conjunct_term_spec(f, t);
    if form_holds(g, interp) {
        let k = choose|k: int| 0 <= k < g.len() && cube_holds(#[trigger] g[k], interp);
        lemma_add_term_holds(f[k], t, interp);
        assert(cube_holds(f[k], interp));
    }
    if form_holds(f, interp) && t.holds(interp) {
        let k = choose|k: int| 0 <= k < f.len() && cube_holds(#[trigger] f[k], interp);
        lemma_add_term_holds(f[k], t, interp);
        assert(cube_holds(g[k], interp));
    }
}

/// Adding a term to every cube of a formula in normal form gives a formula
/// in normal form.
pub proof fn lemma_conjunct_term_normal(f: Seq<Seq<Term>>, t: Term)
    requires
        form_normal(f),
    ensures
        form_normal(conjunct_term_spec(f, t)),
{
    let g = conjunct_term_spec(f, t);
    assert forall|i: int| 0 <= i < g.len() implies normal(#[trigger] g[i]) by {
        lemma_add_term_normal(f[i], t);
    }
}

/// A boolean formula in disjunctive normal form.
#[derive(Debug)]
pub struct DNFForm<Id: VarId> {
    pub cubes: Vec<DNFCube<Id>>,
}

impl<Id: VarId> View for DNFForm<Id> {
    type V = Seq<Seq<Term>>;

    open spec fn view(&self) -> Seq<Seq<Term>> {
        self.cubes@.map_values(|c: DNFCube<Id>| c@)
    }
}

impl<Id: VarId> DNFForm<Id> {
    /// Is every cube of the formula in normal form?
    pub open spec fn wf(&self) -> bool {
        form_normal(self@)
    }

    /// The empty formula, which is always false.
    pub fn new() -> (r: Self)
        ensures
            r@ == Seq::<Seq<Term>>::empty(),
            r.wf(),
    {
        let r = Self { cubes: Vec::new() };
        assert(r@ =~= Seq::<Seq<Term>>::empty());
        r
    }

    /// Returns `true` if the `other` formula contains all the cubes that
    /// this formula has: for every cube of this formula the other formula
    /// has a cube that holds wherever the first one holds.  If the function
    /// returns `true`, every interpretation that satisfies this formula
    /// will satisfy the other formula.
    pub fn is_subformula_of(&self, other: &Self) -> (r: bool)
        requires
            self.wf(),
            other.wf(),
        ensures
            r == covered(self@, other@),
            r ==> form_implies(self@, other@),
    {
        let ghost f = self@;
        let ghost g = other@;
        let mut i: usize = 0;
        while i < self.cubes.len()
            invariant
                f == self@,
                g == other@,
                form_normal(f),
                form_normal(g),
                i <= self.cubes.len(),
                forall|k: int| 0 <= k < i ==> covered_cube(#[trigger] f[k], g),
            decreases self.cubes.len() - i,
        {
            let cube = &self.cubes[i];
            assert(cube@ == f[i as int]);
            let mut found = false;
            let mut j: usize = 0;
            while j < other.cubes.len() && !found
                invariant
                    g == other@,
                    form_normal(g),
                    cube.wf(),
                    j <= other.cubes.len(),
                    found ==> covered_cube(cube@, g),
                    !found ==> forall|k: int| 0 <= k < j ==> !subsumed(cube@, #[trigger] g[k]),
                decreases other.cubes.len() - j, if found { 0int } else { 1int },
            {
                let other_cube = &other.cubes[j];
                assert(other_cube@ == g[j as int]);
                if cube.is_subcube(other_cube) {
                    found = true;
                } else {
                    j += 1;
                }
            }
            if !found {
                assert(!covered_cube(f[i as int], g));
                return false;
            }
            i += 1;
        }
        proof {
            lemma_covered_sound(f, g);
        }
        true
    }

    /// The number of cubes.
    pub fn num_cubes(&self) -> (r: usize)
        ensures
            r == self@.len(),
    {
        self.cubes.len()
    }

    /// A copy of the formula.
    pub fn dup(&self) -> (r: Self)
        ensures
            r@ == self@,
    {
        let mut cubes: Vec<DNFCube<Id>> = Vec::new();
        let mut i: usize = 0;
        while i < self.cubes.len()
            invariant
                i <= self.cubes.len(),
                cubes.len() == i,
                forall|k: int| 0 <= k < i ==> (#[trigger] cubes[k])@ == self.cubes[k]@,
            decreases self.cubes.len() - i,
        {
            cubes.push(self.cubes[i].dup());
            i += 1;
        }
        let r = Self { cubes };
        assert(r@ =~= self@);
        r
    }
}

} // verus!
