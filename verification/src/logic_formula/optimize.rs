//! The fixpoint optimizer of formulas: what it computes and what holds of
//! it.

use super::cube::{cube_holds, normal};
use super::form::{all_terms, false_cubes, form_holds, form_normal, holds_beside, lemma_form_holds_remove, lemma_form_holds_split, lemma_form_holds_update, lemma_measures_remove, lemma_measures_update, lemma_reduction_shrinks, total_terms};
use super::reduce::{lemma_reduce_normal, lemma_reduce_sound, lemma_reduce_terms, reduce_spec};
use super::term::Term;
use vstd::prelude::*;

verus! {

/// Every cube of the formula that holds `False` is the single term `False`.
pub open spec fn plain_false(f: Seq<Seq<Term>>) -> bool {
    forall|i: int|
        0 <= i < f.len() ==> ((#[trigger] f[i]).contains(Term::False) ==> f[i] == seq![Term::False])
}

/// Reducing the cube at `at` with the fact at `of` gives a cube that differs
/// from the cube.
pub open spec fn reducible_at(cubes: Seq<Seq<Term>>, facts: Seq<Seq<Term>>, of: int, at: int) -> bool {
    &&& 0 <= of < facts.len()
    &&& 0 <= at < cubes.len()
    &&& match reduce_spec(cubes[at], facts[of]) {
        Some(r) => r != cubes[at],
        None => false,
    }
}

/// The pair of fact `o` and cube `a` is tried before the pair `of`, `at`:
/// the facts are tried in turn, each against all cubes in turn.
pub open spec fn earlier(o: int, a: int, of: int, at: int) -> bool {
    o < of || (o == of && a < at)
}

/// The pair `of`, `at` is the first one tried that gives a reduction.
pub open spec fn first_reduction(cubes: Seq<Seq<Term>>, facts: Seq<Seq<Term>>, of: int, at: int) -> bool {
    &&& reducible_at(cubes, facts, of, at)
    &&& forall|o: int, a: int| earlier(o, a, of, at) ==> !reducible_at(cubes, facts, o, a)
}

/// No fact reduces any cube to a different cube.
pub open spec fn irreducible(cubes: Seq<Seq<Term>>, facts: Seq<Seq<Term>>) -> bool {
    forall|o: int, a: int| !reducible_at(cubes, facts, o, a)
}

/// The formula and the bank of facts after one reduction: the reduced cube
/// takes the place of the cube at `at`, the fact at `of` leaves the formula
/// if it is one of its cubes, and the bank gets the reduced cube and the
/// cube that it replaced.
pub open spec fn after_reduction(cubes: Seq<Seq<Term>>, bank: Seq<Seq<Term>>, of: int, at: int) -> (
    Seq<Seq<Term>>,
    Seq<Seq<Term>>,
) {
    let reduced = reduce_spec(cubes[at], (cubes + bank)[of])->0;
    let replaced = cubes.update(at, reduced);
    (
        if of < cubes.len() {
            replaced.remove(of)
        } else {
            replaced
        },
        bank.push(reduced).push(cubes[at]),
    )
}

/// One reduction brings the formula closer to the fixpoint: it has fewer
/// cubes that hold `False`, or as many and fewer terms.
pub proof fn lemma_after_reduction_decreases(
    cubes: Seq<Seq<Term>>,
    bank: Seq<Seq<Term>>,
    of: int,
    at: int,
)
    requires
        plain_false(cubes),
        plain_false(bank),
        reducible_at(cubes, cubes + bank, of, at),
    ensures
        plain_false(after_reduction(cubes, bank, of, at).0),
        plain_false(after_reduction(cubes, bank, of, at).1),
        false_cubes(after_reduction(cubes, bank, of, at).0) < false_cubes(cubes) || (false_cubes(
            after_reduction(cubes, bank, of, at).0,
        ) == false_cubes(cubes) && total_terms(after_reduction(cubes, bank, of, at).0)
            < total_terms(cubes)),
{
    let facts = cubes + bank;
    let a = cubes[at];
    let fact = facts[of];
    let reduced = reduce_spec(a, fact)->0;
    let replaced = cubes.update(at, reduced);
    let next = after_reduction(cubes, bank, of, at);
    assert(fact.contains(Term::False) ==> fact == seq![Term::False]) by {
        if of < cubes.len() {
            assert(fact == cubes[of]);
        } else {
            assert(fact == bank[of - cubes.len()]);
        }
    }
    lemma_reduction_shrinks(a, fact);
    if a.contains(Term::False) {
        assert(a == seq![Term::False]);
        assert(a[0] is False);
        assert(reduced == fact);
        assert(!reduced.contains(Term::False));
    }
    assert(!reduced.contains(Term::False));
    lemma_measures_update(cubes, at, reduced);
    assert forall|i: int| 0 <= i < replaced.len() && (#[trigger] replaced[i]).contains(Term::False) implies replaced[i]
        == seq![Term::False] by {
        if i != at {
            assert(replaced[i] == cubes[i]);
        }
    }
    if of < cubes.len() {
        lemma_measures_remove(replaced, of);
        let removed = replaced.remove(of);
        assert forall|i: int| 0 <= i < removed.len() && (#[trigger] removed[i]).contains(Term::False) implies removed[i]
            == seq![Term::False] by {
            if i < of {
                assert(removed[i] == replaced[i]);
            } else {
                assert(removed[i] == replaced[i + 1]);
            }
        }
    }
    let grown = bank.push(reduced).push(a);
    assert forall|i: int| 0 <= i < grown.len() && (#[trigger] grown[i]).contains(Term::False) implies grown[i]
        == seq![Term::False] by {
        if i < bank.len() {
            assert(grown[i] == bank[i]);
        }
    }
}

/// The formula that the optimizer ends with, from the formula `cubes` and
/// the bank of facts `bank`: as long as some fact, a cube of the formula or
/// one of the bank, reduces some cube to a different one, the first such
/// reduction is made.
pub open spec fn optimize_from(cubes: Seq<Seq<Term>>, bank: Seq<Seq<Term>>) -> Seq<Seq<Term>>
    decreases false_cubes(cubes), total_terms(cubes),
    when plain_false(cubes) && plain_false(bank)
{
    if exists|of: int, at: int| first_reduction(cubes, cubes + bank, of, at) {
        let (of, at) = choose|of: int, at: int| first_reduction(cubes, cubes + bank, of, at);
        proof {
            lemma_after_reduction_decreases(cubes, bank, of, at);
        }
        optimize_from(
            after_reduction(cubes, bank, of, at).0,
            after_reduction(cubes, bank, of, at).1,
        )
    } else {
        cubes
    }
}

/// The cube with all that stands beside `False` taken out: a cube that
/// holds `False` is false whatever else it holds, and becomes the single
/// term `False`; another cube stays as it is.
pub open spec fn plain_cube(c: Seq<Term>) -> Seq<Term> {
    if c.contains(Term::False) {
        seq![Term::False]
    } else {
        c
    }
}

/// The formula with every cube that holds `False` made the single term
/// `False`.
pub open spec fn plain_form(f: Seq<Seq<Term>>) -> Seq<Seq<Term>> {
    f.map_values(|c: Seq<Term>| plain_cube(c))
}

/// The optimized formula: every cube that holds `False` is made the single
/// term `False`, and from there the optimizer goes to its fixpoint with an
/// empty bank of facts.
pub open spec fn optimize_spec(f: Seq<Seq<Term>>) -> Seq<Seq<Term>> {
    optimize_from(plain_form(f), Seq::empty())
}

/// Making the false cubes plain gives a formula of as many cubes whose
/// false cubes are plain; it changes nothing where they are plain already,
/// and keeps a formula in normal form in normal form.
pub proof fn lemma_plain_form(f: Seq<Seq<Term>>)
    ensures
        plain_form(f).len() == f.len(),
        plain_false(plain_form(f)),
        plain_false(f) ==> plain_form(f) == f,
        form_normal(f) ==> form_normal(plain_form(f)),
{
    let g = plain_form(f);
    assert forall|i: int| 0 <= i < g.len() && (#[trigger] g[i]).contains(Term::False) implies g[i]
        == seq![Term::False] by {
        if !f[i].contains(Term::False) {
            assert(g[i] == f[i]);
        }
    }
    if plain_false(f) {
        assert forall|i: int| 0 <= i < f.len() implies g[i] == f[i] by {
            if f[i].contains(Term::False) {
                assert(f[i] == seq![Term::False]);
            }
        }
        assert(g =~= f);
    }
    if form_normal(f) {
        assert forall|i: int| 0 <= i < g.len() implies normal(#[trigger] g[i]) by {
            assert(normal(f[i]));
            if f[i].contains(Term::False) {
                let c = seq![Term::False];
                assert(g[i] == c);
                assert(normal(c));
            }
        }
    }
}

/// Making the false cubes plain does not change what a formula means.
pub proof fn lemma_plain_form_holds(f: Seq<Seq<Term>>, interp: Set<int>)
    ensures
        form_holds(plain_form(f), interp) == form_holds(f, interp),
{
    let g = plain_form(f);
    assert forall|i: int| 0 <= i < f.len() implies cube_holds(g[i], interp) == cube_holds(
        #[trigger] f[i],
        interp,
    ) by {
        if f[i].contains(Term::False) {
            let k = choose|k: int| 0 <= k < f[i].len() && f[i][k] == Term::False;
            assert(!f[i][k].holds(interp));
            assert(g[i][0] == Term::False);
            assert(!g[i][0].holds(interp));
        }
    }
    if form_holds(g, interp) {
        let i = choose|i: int| 0 <= i < g.len() && cube_holds(#[trigger] g[i], interp);
        assert(cube_holds(f[i], interp));
    }
    if form_holds(f, interp) {
        let i = choose|i: int| 0 <= i < f.len() && cube_holds(#[trigger] f[i], interp);
        assert(cube_holds(g[i], interp));
    }
}

/// Making the false cubes plain brings in no terms but `False`.
pub proof fn lemma_plain_form_terms(f: Seq<Seq<Term>>, pred: spec_fn(Term) -> bool)
    requires
        all_terms(f, pred),
        pred(Term::False),
    ensures
        all_terms(plain_form(f), pred),
{
    let g = plain_form(f);
    assert forall|i: int, j: int| 0 <= i < g.len() && 0 <= j < g[i].len() implies pred(
        #[trigger] g[i][j],
    ) by {
        if !f[i].contains(Term::False) {
            assert(g[i] == f[i]);
            assert(pred(f[i][j]));
        }
    }
}

/// There is only one first reduction.
pub proof fn lemma_first_reduction_unique(
    cubes: Seq<Seq<Term>>,
    facts: Seq<Seq<Term>>,
    of: int,
    at: int,
    o: int,
    a: int,
)
    requires
        first_reduction(cubes, facts, of, at),
        first_reduction(cubes, facts, o, a),
    ensures
        of == o,
        at == a,
{
    if earlier(o, a, of, at) {
        assert(!reducible_at(cubes, facts, o, a));
    }
    if earlier(of, at, o, a) {
        assert(!reducible_at(cubes, facts, of, at));
    }
}

/// Where some pair gives a reduction, some pair is the first to do so.
pub proof fn lemma_first_reduction_exists(
    cubes: Seq<Seq<Term>>,
    facts: Seq<Seq<Term>>,
    of: int,
    at: int,
)
    requires
        reducible_at(cubes, facts, of, at),
    ensures
        exists|o: int, a: int| first_reduction(cubes, facts, o, a),
    decreases of, at,
{
    if exists|o: int, a: int| earlier(o, a, of, at) && reducible_at(cubes, facts, o, a) {
        let (o, a) = choose|o: int, a: int|
            earlier(o, a, of, at) && reducible_at(cubes, facts, o, a);
        lemma_first_reduction_exists(cubes, facts, o, a);
    } else {
        assert(first_reduction(cubes, facts, of, at));
    }
}

/// The optimizer ends with a formula in which no cube reduces another cube
/// to a different one, and in which every cube that holds `False` is the
/// single term `False`.
pub proof fn lemma_optimize_reaches_fixpoint(cubes: Seq<Seq<Term>>, bank: Seq<Seq<Term>>)
    requires
        plain_false(cubes),
        plain_false(bank),
    ensures
        irreducible(optimize_from(cubes, bank), optimize_from(cubes, bank)),
        plain_false(optimize_from(cubes, bank)),
    decreases false_cubes(cubes), total_terms(cubes),
{
    let facts = cubes + bank;
    if exists|of: int, at: int| first_reduction(cubes, facts, of, at) {
        let (of, at) = choose|of: int, at: int| first_reduction(cubes, facts, of, at);
        lemma_after_reduction_decreases(cubes, bank, of, at);
        lemma_optimize_reaches_fixpoint(
            after_reduction(cubes, bank, of, at).0,
            after_reduction(cubes, bank, of, at).1,
        );
    } else {
        assert forall|o: int, a: int| !reducible_at(cubes, cubes, o, a) by {
            if reducible_at(cubes, cubes, o, a) {
                assert(facts[o] == cubes[o]);
                assert(reducible_at(cubes, facts, o, a));
                lemma_first_reduction_exists(cubes, facts, o, a);
            }
        }
    }
}

/// The optimizer is idempotent: it leaves a formula that it has optimized
/// as it is, whatever the formula was.
pub proof fn lemma_optimize_idempotent(f: Seq<Seq<Term>>)
    ensures
        plain_false(optimize_spec(f)),
        irreducible(optimize_spec(f), optimize_spec(f)),
        optimize_spec(optimize_spec(f)) == optimize_spec(f),
{
    let empty = Seq::<Seq<Term>>::empty();
    assert(plain_false(empty));
    lemma_plain_form(f);
    lemma_optimize_reaches_fixpoint(plain_form(f), empty);
    let r = optimize_spec(f);
    lemma_plain_form(r);
    assert(r + empty =~= r);
    if exists|of: int, at: int| first_reduction(r, r + empty, of, at) {
        let (of, at) = choose|of: int, at: int| first_reduction(r, r + empty, of, at);
        assert(reducible_at(r, r, of, at));
    }
}

/// A formula that no cube of which reduces another one to a different cube
/// is its own optimized formula.
pub proof fn lemma_optimize_keeps_fixpoint(f: Seq<Seq<Term>>)
    requires
        plain_false(f),
        irreducible(f, f),
    ensures
        optimize_spec(f) == f,
{
    let empty = Seq::<Seq<Term>>::empty();
    assert(plain_false(empty));
    lemma_plain_form(f);
    assert(f + empty =~= f);
    if exists|of: int, at: int| first_reduction(f, f + empty, of, at) {
        let (of, at) = choose|of: int, at: int| first_reduction(f, f + empty, of, at);
        assert(reducible_at(f, f, of, at));
    }
}

/// The optimizer does not change what a formula means: where every fact of
/// the bank holds only where the formula holds, the optimized formula
/// holds under exactly the interpretations under which the formula holds.
pub proof fn lemma_optimize_from_holds(
    cubes: Seq<Seq<Term>>,
    bank: Seq<Seq<Term>>,
    interp: Set<int>,
)
    requires
        plain_false(cubes),
        plain_false(bank),
        forall|k: int| 0 <= k < bank.len() && cube_holds(#[trigger] bank[k], interp) ==> form_holds(
            cubes,
            interp,
        ),
    ensures
        form_holds(optimize_from(cubes, bank), interp) == form_holds(cubes, interp),
    decreases false_cubes(cubes), total_terms(cubes),
{
    let facts = cubes + bank;
    if exists|of: int, at: int| first_reduction(cubes, facts, of, at) {
        let (of, at) = choose|of: int, at: int| first_reduction(cubes, facts, of, at);
        lemma_after_reduction_decreases(cubes, bank, of, at);
        let a = cubes[at];
        let fact = facts[of];
        let reduced = reduce_spec(a, fact)->0;
        let replaced = cubes.update(at, reduced);
        let next = after_reduction(cubes, bank, of, at);
        lemma_reduce_sound(a, fact, interp);
        lemma_form_holds_split(cubes, at, interp);
        lemma_form_holds_update(cubes, at, reduced, interp);
        assert(cube_holds(fact, interp) ==> form_holds(cubes, interp)) by {
            if of < cubes.len() {
                assert(fact == cubes[of]);
            } else {
                assert(fact == bank[of - cubes.len()]);
            }
        }
        assert(form_holds(replaced, interp) == form_holds(cubes, interp));
        if of < cubes.len() {
            assert(of != at) by {
                super::reduce::lemma_reduce_same(a);
            }
            lemma_form_holds_remove(replaced, of, interp);
            lemma_form_holds_split(replaced, of, interp);
            assert(replaced[of] == fact);
            if cube_holds(fact, interp) {
                assert(cube_holds(replaced[at], interp));
                assert(holds_beside(replaced, of, interp));
            }
        }
        assert(form_holds(next.0, interp) == form_holds(cubes, interp));
        assert forall|k: int| 0 <= k < next.1.len() && cube_holds(
            #[trigger] next.1[k],
            interp,
        ) implies form_holds(next.0, interp) by {
            if k < bank.len() {
                assert(next.1[k] == bank[k]);
            } else if k == bank.len() {
                assert(next.1[k] == reduced);
            } else {
                assert(next.1[k] == a);
            }
        }
        lemma_optimize_from_holds(next.0, next.1, interp);
    }
}

/// The optimized formula holds under exactly the interpretations under
/// which the formula holds, whatever the formula is.
pub proof fn lemma_optimize_holds(f: Seq<Seq<Term>>, interp: Set<int>)
    ensures
        form_holds(optimize_spec(f), interp) == form_holds(f, interp),
{
    let empty = Seq::<Seq<Term>>::empty();
    assert(plain_false(empty));
    lemma_plain_form(f);
    lemma_plain_form_holds(f, interp);
    lemma_optimize_from_holds(plain_form(f), empty, interp);
}

/// The optimizer takes cubes out and puts none in: the formula that it
/// ends with has no more cubes than the formula that it starts from.
pub proof fn lemma_optimize_from_len(cubes: Seq<Seq<Term>>, bank: Seq<Seq<Term>>)
    requires
        plain_false(cubes),
        plain_false(bank),
    ensures
        optimize_from(cubes, bank).len() <= cubes.len(),
    decreases false_cubes(cubes), total_terms(cubes),
{
    let facts = cubes + bank;
    if exists|of: int, at: int| first_reduction(cubes, facts, of, at) {
        let (of, at) = choose|of: int, at: int| first_reduction(cubes, facts, of, at);
        lemma_after_reduction_decreases(cubes, bank, of, at);
        lemma_optimize_from_len(
            after_reduction(cubes, bank, of, at).0,
            after_reduction(cubes, bank, of, at).1,
        );
    }
}

/// The optimized formula has no more cubes than the formula.
pub proof fn lemma_optimize_len(f: Seq<Seq<Term>>)
    ensures
        optimize_spec(f).len() <= f.len(),
{
    let empty = Seq::<Seq<Term>>::empty();
    assert(plain_false(empty));
    lemma_plain_form(f);
    lemma_optimize_from_len(plain_form(f), empty);
}

/// The optimized formula of a formula in normal form is in normal form.
pub proof fn lemma_optimize_normal(f: Seq<Seq<Term>>)
    requires
        form_normal(f),
    ensures
        form_normal(optimize_spec(f)),
{
    let empty = Seq::<Seq<Term>>::empty();
    assert(plain_false(empty));
    assert(form_normal(empty));
    lemma_plain_form(f);
    lemma_optimize_from_normal(plain_form(f), empty);
}

/// The optimizer keeps a formula in normal form in normal form.
pub proof fn lemma_optimize_from_normal(cubes: Seq<Seq<Term>>, bank: Seq<Seq<Term>>)
    requires
        plain_false(cubes),
        plain_false(bank),
        form_normal(cubes),
        form_normal(bank),
    ensures
        form_normal(optimize_from(cubes, bank)),
    decreases false_cubes(cubes), total_terms(cubes),
{
    let facts = cubes + bank;
    if exists|of: int, at: int| first_reduction(cubes, facts, of, at) {
        let (of, at) = choose|of: int, at: int| first_reduction(cubes, facts, of, at);
        lemma_after_reduction_decreases(cubes, bank, of, at);
        let a = cubes[at];
        let fact = facts[of];
        let reduced = reduce_spec(a, fact)->0;
        let replaced = cubes.update(at, reduced);
        let next = after_reduction(cubes, bank, of, at);
        assert(normal(fact)) by {
            if of < cubes.len() {
                assert(fact == cubes[of]);
            } else {
                assert(fact == bank[of - cubes.len()]);
            }
        }
        lemma_reduce_normal(a, fact);
        assert forall|i: int| 0 <= i < next.0.len() implies normal(#[trigger] next.0[i]) by {
            if of < cubes.len() {
                let m = if i < of {
                    i
                } else {
                    i + 1
                };
                assert(next.0[i] == replaced[m]);
                if m != at {
                    assert(replaced[m] == cubes[m]);
                }
            } else {
                if i != at {
                    assert(replaced[i] == cubes[i]);
                }
            }
        }
        assert forall|i: int| 0 <= i < next.1.len() implies normal(#[trigger] next.1[i]) by {
            if i < bank.len() {
                assert(next.1[i] == bank[i]);
            }
        }
        lemma_optimize_from_normal(next.0, next.1);
    }
}

/// The optimizer brings in no terms: where all terms of the formula and
/// of the bank are as `pred` asks, so are all terms of the optimized
/// formula.
pub proof fn lemma_optimize_from_terms(
    cubes: Seq<Seq<Term>>,
    bank: Seq<Seq<Term>>,
    pred: spec_fn(Term) -> bool,
)
    requires
        plain_false(cubes),
        plain_false(bank),
        all_terms(cubes, pred),
        all_terms(bank, pred),
    ensures
        all_terms(optimize_from(cubes, bank), pred),
    decreases false_cubes(cubes), total_terms(cubes),
{
    let facts = cubes + bank;
    if exists|of: int, at: int| first_reduction(cubes, facts, of, at) {
        let (of, at) = choose|of: int, at: int| first_reduction(cubes, facts, of, at);
        lemma_after_reduction_decreases(cubes, bank, of, at);
        let a = cubes[at];
        let fact = facts[of];
        let reduced = reduce_spec(a, fact)->0;
        let replaced = cubes.update(at, reduced);
        let next = after_reduction(cubes, bank, of, at);
        lemma_reduce_terms(a, fact);
        assert forall|j: int| 0 <= j < fact.len() implies pred(#[trigger] fact[j]) by {
            if of < cubes.len() {
                assert(fact == cubes[of]);
                assert(pred(cubes[of][j]));
            } else {
                assert(fact == bank[of - cubes.len()]);
                assert(pred(bank[of - cubes.len()][j]));
            }
        }
        assert forall|j: int| 0 <= j < reduced.len() implies pred(#[trigger] reduced[j]) by {
            if a.contains(reduced[j]) {
                let k = choose|k: int| 0 <= k < a.len() && a[k] == reduced[j];
                assert(pred(cubes[at][k]));
            } else {
                let k = choose|k: int| 0 <= k < fact.len() && fact[k] == reduced[j];
                assert(pred(fact[k]));
            }
        }
        assert forall|i: int, j: int| 0 <= i < next.0.len() && 0 <= j < next.0[i].len() implies pred(
            #[trigger] next.0[i][j],
        ) by {
            let m = if of < cubes.len() && i >= of {
                i + 1
            } else {
                i
            };
            assert(next.0[i] == replaced[m]);
            if m != at {
                assert(replaced[m] == cubes[m]);
                assert(pred(cubes[m][j]));
            }
        }
        assert forall|i: int, j: int| 0 <= i < next.1.len() && 0 <= j < next.1[i].len() implies pred(
            #[trigger] next.1[i][j],
        ) by {
            if i < bank.len() {
                assert(next.1[i] == bank[i]);
                assert(pred(bank[i][j]));
            } else if i == bank.len() {
                assert(next.1[i] == reduced);
            } else {
                assert(next.1[i] == a);
                assert(pred(cubes[at][j]));
            }
        }
        lemma_optimize_from_terms(next.0, next.1, pred);
    }
}

/// The optimizer brings in no terms but `False`: where all terms of the
/// formula are as `pred` asks, and `False` is so, all terms of the
/// optimized formula are so.
pub proof fn lemma_optimize_terms(f: Seq<Seq<Term>>, pred: spec_fn(Term) -> bool)
    requires
        all_terms(f, pred),
        pred(Term::False),
    ensures
        all_terms(optimize_spec(f), pred),
{
    let empty = Seq::<Seq<Term>>::empty();
    assert(plain_false(empty));
    assert(all_terms(empty, pred));
    lemma_plain_form(f);
    lemma_plain_form_terms(f, pred);
    lemma_optimize_from_terms(plain_form(f), empty, pred);
}

} // verus!
