//! The operations that merge cubes, terms and formulas into a formula.

use super::cube::{add_term_spec, DNFCube};
use super::form::{add_cube_opt_from, add_cube_opt_spec, conjunct_term_spec, disjunct_opt_spec, false_cubes, lemma_measures_remove, lemma_measures_update, lemma_reduction_shrinks, total_terms, DNFForm};
use super::form::{form_holds, form_normal};
use super::optimize::{after_reduction, first_reduction, lemma_after_reduction_decreases, lemma_first_reduction_unique, lemma_optimize_holds, lemma_optimize_idempotent, lemma_optimize_len, lemma_optimize_normal, lemma_plain_form, optimize_from, optimize_spec, plain_cube, plain_false, plain_form, reducible_at};
use super::reduce::{reduce_spec, ReductibleDNFCube};
use super::term::{FormulaTerm, Term, VarId};
use vstd::prelude::*;

verus! {

/// No cube before `upto` is reduced to a different cube by `fact`.
pub open spec fn unreduced_before(cubes: Seq<Seq<Term>>, fact: Seq<Term>, upto: int) -> bool {
    forall|a: int|
        0 <= a < upto && a < cubes.len() ==> match reduce_spec(#[trigger] cubes[a], fact) {
            Some(r) => r == cubes[a],
            None => true,
        }
}

/// Finds the first cube that `fact` reduces to a different cube, and gives
/// its index and the reduced cube.
fn find_reduction<Id: VarId>(cubes: &Vec<DNFCube<Id>>, fact: &DNFCube<Id>) -> (r: Option<
    (usize, DNFCube<Id>),
>)
    ensures
        match r {
            Some((at, reduced)) => {
                &&& at < cubes.len()
                &&& reduce_spec(cubes[at as int]@, fact@) == Some(reduced@)
                &&& reduced@ != cubes[at as int]@
                &&& unreduced_before(cubes@.map_values(|c: DNFCube<Id>| c@), fact@, at as int)
            },
            None => unreduced_before(
                cubes@.map_values(|c: DNFCube<Id>| c@),
                fact@,
                cubes.len() as int,
            ),
        },
{
    let ghost f = cubes@.map_values(|c: DNFCube<Id>| c@);
    let mut at: usize = 0;
    while at < cubes.len()
        invariant
            at <= cubes.len(),
            f == cubes@.map_values(|c: DNFCube<Id>| c@),
            unreduced_before(f, fact@, at as int),
        decreases cubes.len() - at,
    {
        assert(cubes[at as int]@ == f[at as int]);
        match cubes[at].try_to_reduce_disjunction(fact) {
            Some(reduced) => {
                if !reduced.same_terms(&cubes[at]) {
                    return Some((at, reduced));
                }
            },
            None => {},
        }
        at += 1;
    }
    None
}

/// A formula into which cubes, terms and other formulas can be merged.
pub trait MergableDNFForm<Id: VarId>: Sized + View<V = Seq<Seq<Term>>> {
    /// Merges the cube into the formula: reduces it with the cubes of the
    /// formula one after the other, and appends it where none takes it up.
    fn add_cube_opt(self, cube: DNFCube<Id>) -> (r: Self)
        ensures
            r@ == add_cube_opt_spec(self@, cube@),
    ;

    /// Appends the cube to the formula.
    fn add_cube(self, cube: DNFCube<Id>) -> (r: Self)
        ensures
            r@ == self@.push(cube@),
    ;

    /// Merges the cubes of the other formula into this one, one by one.
    fn disjunct_opt(self, other: Self) -> (r: Self)
        ensures
            r@ == disjunct_opt_spec(self@, other@),
    ;

    /// Appends the cubes of the other formula to this one.
    fn disjunct(self, other: Self) -> (r: Self)
        ensures
            r@ == self@ + other@,
    ;

    /// Adds the term to every cube.
    fn conjunct_term(self, term: &FormulaTerm<Id>) -> (r: Self)
        ensures
            r@ == conjunct_term_spec(self@, term@),
    ;

    /// Adds the term to the cube at `at`.
    fn conjunct_term_with(self, at: usize, term: FormulaTerm<Id>) -> (r: Self)
        requires
            at < self@.len(),
        ensures
            r@ == self@.update(at as int, add_term_spec(self@[at as int], term@)),
    ;

    /// Reduces the cubes of the formula with each other until no cube
    /// reduces another one to a different cube.  The cubes that were
    /// replaced, and the cubes that replaced them, serve as facts for
    /// further reductions.
    ///
    /// A cube that holds `False` is false whatever else it holds, and is
    /// made the single term `False` before the cubes are reduced.  The
    /// optimized formula means what the formula means, has no more cubes,
    /// is in normal form if the formula is, and is left as it is by the
    /// optimizer.
    fn optimize(self) -> (r: Self)
        ensures
            r@ == optimize_spec(self@),
            r@.len() <= self@.len(),
            form_normal(self@) ==> form_normal(r@),
            forall|interp: Set<int>| form_holds(r@, interp) == form_holds(self@, interp),
            optimize_spec(r@) == r@,
    ;
}

impl<Id: VarId> MergableDNFForm<Id> for DNFForm<Id> {
    fn add_cube_opt(self, cube: DNFCube<Id>) -> (r: Self) {
        let mut me = self;
        let mut reduced = false;
        let mut idx: usize = 0;
        while idx < me.cubes.len()
            invariant
                idx <= me.cubes.len(),
                add_cube_opt_from(me@, cube@, idx as int, reduced) == add_cube_opt_spec(
                    self@,
                    cube@,
                ),
            decreases false_cubes(me@), total_terms(me@), me.cubes.len() - idx,
        {
            let ghost f = me@;
            assert(me.cubes[idx as int]@ == f[idx as int]);
            match me.cubes[idx].try_to_reduce_disjunction(&cube) {
                Some(reduction) => {
                    proof {
                        lemma_reduction_shrinks(f[idx as int], cube@);
                    }
                    reduced = true;
                    if reduction.is_false_const() {
                        proof {
                            lemma_measures_remove(f, idx as int);
                        }
                        me.cubes.remove(idx);
                        assert(me@ =~= f.remove(idx as int));
                        idx = 0;
                    } else if !me.cubes[idx].same_terms(&reduction) {
                        proof {
                            lemma_measures_update(f, idx as int, reduction@);
                        }
                        me.cubes[idx] = reduction;
                        assert(me@ =~= f.update(idx as int, reduction@));
                        idx = 0;
                    } else {
                        idx += 1;
                    }
                },
                None => {
                    idx += 1;
                },
            }
        }
        if !reduced {
            let ghost f = me@;
            me.cubes.push(cube);
            assert(me@ =~= f.push(cube@));
        }
        me
    }

    fn add_cube(self, cube: DNFCube<Id>) -> (r: Self) {
        let mut me = self;
        me.cubes.push(cube);
        assert(me@ =~= self@.push(cube@));
        me
    }

    fn disjunct_opt(self, other: Self) -> (r: Self) {
        let mut me = self;
        let mut rest = other;
        let ghost g = other@;
        let ghost merge = |acc: Seq<Seq<Term>>, c: Seq<Term>| add_cube_opt_spec(acc, c);
        let n = rest.cubes.len();
        let mut i: usize = 0;
        while i < n
            invariant
                n == rest.cubes.len(),
                g.len() == n,
                i <= n,
                forall|k: int| i <= k < n ==> (#[trigger] rest.cubes[k])@ == g[k],
                merge == |acc: Seq<Seq<Term>>, c: Seq<Term>| add_cube_opt_spec(acc, c),
                me@ == g.take(i as int).fold_left(self@, merge),
            decreases n - i,
        {
            let mut cube: DNFCube<Id> = DNFCube::new();
            std::mem::swap(&mut rest.cubes[i], &mut cube);
            proof {
                assert(cube@ == g[i as int]);
                let next = g.take(i as int + 1);
                assert(next.drop_last() =~= g.take(i as int));
                assert(next.last() == g[i as int]);
            }
            me = me.add_cube_opt(cube);
            i += 1;
        }
        assert(g.take(n as int) =~= g);
        me
    }

    fn disjunct(self, other: Self) -> (r: Self) {
        let mut me = self;
        let mut rest = other;
        me.cubes.append(&mut rest.cubes);
        assert(me@ =~= self@ + other@);
        me
    }

    fn conjunct_term(self, term: &FormulaTerm<Id>) -> (r: Self) {
        let mut me = self;
        let ghost f = self@;
        let n = me.cubes.len();
        let mut i: usize = 0;
        while i < n
            invariant
                n == me.cubes.len(),
                f.len() == n,
                i <= n,
                forall|k: int| 0 <= k < i ==> (#[trigger] me.cubes[k])@ == add_term_spec(f[k], term@),
                forall|k: int| i <= k < n ==> (#[trigger] me.cubes[k])@ == f[k],
            decreases n - i,
        {
            me.cubes[i].add_term(term.dup());
            i += 1;
        }
        assert(me@ =~= conjunct_term_spec(f, term@));
        me
    }

    fn conjunct_term_with(self, at: usize, term: FormulaTerm<Id>) -> (r: Self) {
        let mut me = self;
        me.cubes[at].add_term(term);
        assert(me@ =~= self@.update(at as int, add_term_spec(self@[at as int], term@)));
        me
    }

    fn optimize(self) -> (r: Self) {
        let mut me = self;
        proof {
            lemma_plain_form(self@);
            lemma_optimize_len(self@);
            lemma_optimize_idempotent(self@);
            if form_normal(self@) {
                lemma_optimize_normal(self@);
            }
            assert forall|interp: Set<int>| form_holds(optimize_spec(self@), interp) == form_holds(
                self@,
                interp,
            ) by {
                lemma_optimize_holds(self@, interp);
            }
        }
        let count = me.cubes.len();
        let mut c: usize = 0;
        while c < count
            invariant
                count == me.cubes@.len(),
                count == self@.len(),
                c <= count,
                forall|k: int| 0 <= k < c ==> (#[trigger] me@[k]) == plain_cube(self@[k]),
                forall|k: int| c <= k < count ==> (#[trigger] me@[k]) == self@[k],
            decreases count - c,
        {
            assert(me.cubes@[c as int]@ == me@[c as int]);
            if me.cubes[c].is_false_const() {
                let mut plain: DNFCube<Id> = DNFCube::new();
                plain.terms.push(FormulaTerm::False);
                assert(plain@ =~= seq![Term::False]);
                let ghost before = me@;
                me.cubes[c] = plain;
                assert(me@ =~= before.update(c as int, seq![Term::False]));
            }
            c += 1;
        }
        assert(me@ =~= plain_form(self@));
        let mut facts: DNFForm<Id> = DNFForm::new();
        loop
            invariant
                plain_false(me@),
                plain_false(facts@),
                optimize_from(me@, facts@) == optimize_spec(self@),
                optimize_spec(self@).len() <= self@.len(),
                form_normal(self@) ==> form_normal(optimize_spec(self@)),
                forall|interp: Set<int>|
                    form_holds(optimize_spec(self@), interp) == form_holds(self@, interp),
                optimize_spec(optimize_spec(self@)) == optimize_spec(self@),
            decreases false_cubes(me@), total_terms(me@),
        {
            let ghost cubes = me@;
            let ghost bank = facts@;
            let ghost all = cubes + bank;
            let n = me.cubes.len();
            let mut found: Option<(usize, DNFCube<Id>)> = None;
            let mut inside: Option<usize> = None;
            let ghost mut of: int = 0;
            let mut i: usize = 0;
            while i < n && found.is_none()
                invariant
                    cubes == me@,
                    bank == facts@,
                    all == cubes + bank,
                    n == me.cubes.len(),
                    i <= n,
                    found is None ==> inside is None,
                    forall|o: int, a: int|
                        0 <= o < i && (found is None || o < i - 1) ==> !reducible_at(
                            cubes,
                            all,
                            o,
                            a,
                        ),
                    match found {
                        Some((at, reduced)) => {
                            &&& i >= 1
                            &&& of == i - 1
                            &&& inside == Some((i - 1) as usize)
                            &&& at < n
                            &&& first_reduction(cubes, all, of, at as int)
                            &&& reduce_spec(cubes[at as int], all[of]) == Some(reduced@)
                        },
                        None => true,
                    },
                decreases n - i,
            {
                assert(me.cubes[i as int]@ == cubes[i as int]);
                assert(all[i as int] == cubes[i as int]);
                found = find_reduction(&me.cubes, &me.cubes[i]);
                proof {
                    if found is Some {
                        let pair = found->0;
                        let at = pair.0;
                        of = i as int;
                        assert(me.cubes[at as int]@ == cubes[at as int]);
                        assert(reducible_at(cubes, all, of, at as int));
                        assert forall|o: int, a: int| super::optimize::earlier(
                            o,
                            a,
                            of,
                            at as int,
                        ) implies !reducible_at(cubes, all, o, a) by {}
                    } else {
                        assert forall|a: int| !reducible_at(cubes, all, i as int, a) by {}
                    }
                }
                if found.is_some() {
                    inside = Some(i);
                }
                i += 1;
            }
            let m = facts.cubes.len();
            let mut j: usize = 0;
            while j < m && found.is_none()
                invariant
                    cubes == me@,
                    bank == facts@,
                    all == cubes + bank,
                    n == me.cubes.len(),
                    m == facts.cubes.len(),
                    j <= m,
                    found is None ==> inside is None,
                    found is None ==> forall|o: int, a: int|
                        0 <= o < n + j ==> !reducible_at(cubes, all, o, a),
                    match found {
                        Some((at, reduced)) => {
                            &&& at < n
                            &&& first_reduction(cubes, all, of, at as int)
                            &&& reduce_spec(cubes[at as int], all[of]) == Some(reduced@)
                            &&& match inside {
                                Some(k) => of == k && k < n,
                                None => of >= n,
                            }
                        },
                        None => true,
                    },
                decreases m - j,
            {
                assert(facts.cubes[j as int]@ == bank[j as int]);
                assert(all[n + j] == bank[j as int]);
                found = find_reduction(&me.cubes, &facts.cubes[j]);
                proof {
                    if found is Some {
                        let pair = found->0;
                        let at = pair.0;
                        of = n + j;
                        assert(me.cubes[at as int]@ == cubes[at as int]);
                        assert(reducible_at(cubes, all, of, at as int));
                        assert forall|o: int, a: int| super::optimize::earlier(
                            o,
                            a,
                            of,
                            at as int,
                        ) implies !reducible_at(cubes, all, o, a) by {}
                    } else {
                        let o_now = n + j;
                        assert forall|a: int| !reducible_at(cubes, all, o_now, a) by {}
                    }
                }
                j += 1;
            }
            match found {
                Some((at, reduced)) => {
                    proof {
                        let (co, ca) = choose|o: int, a: int| first_reduction(cubes, all, o, a);
                        lemma_first_reduction_unique(cubes, all, of, at as int, co, ca);
                        lemma_after_reduction_decreases(cubes, bank, of, at as int);
                    }
                    let mut old_cube = reduced.dup();
                    facts.cubes.push(reduced);
                    std::mem::swap(&mut me.cubes[at], &mut old_cube);
                    facts.cubes.push(old_cube);
                    match inside {
                        Some(k) => {
                            me.cubes.remove(k);
                        },
                        None => {},
                    }
                    proof {
                        let next = after_reduction(cubes, bank, of, at as int);
                        assert(me@ =~= next.0);
                        assert(facts@ =~= next.1);
                    }
                },
                None => {
                    proof {
                        if exists|o: int, a: int| first_reduction(cubes, all, o, a) {
                            let (co, ca) = choose|o: int, a: int| first_reduction(cubes, all, o, a);
                            assert(reducible_at(cubes, all, co, ca));
                        }
                    }
                    return me;
                },
            }
        }
    }
}


} // verus!
