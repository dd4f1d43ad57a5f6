//! The route over a single edge.
//!
//! Where the only edge from the source goes to a node that has no edges
//! itself, the run is over after two steps, and the node requires exactly
//! that none of its other drivers is in use.

use super::batch::{pair_info, routed_markers, routes_spec, run_finished};
use super::graph::RoutingGraph;
use super::route_spec::{conj_all, expand_markers, initial_state, new_activators, new_frames, new_requirements, required_terms, run_spec, step_spec, true_form, Frame, Marker};
use super::routing_info::{sort_by_len, upper_bound};
use crate::logic_formula::cube::{add_term_spec, has_negation, insertion_point, lemma_insertion_point, subsumed};
use crate::logic_formula::form::{conjunct_term_spec, covered, covered_cube};
use crate::logic_formula::optimize::{irreducible, lemma_optimize_keeps_fixpoint, optimize_spec, plain_false, reducible_at};
use crate::logic_formula::reduce::{lemma_reduce_same, reduce_spec};
use crate::logic_formula::term::Term;
use vstd::prelude::*;

verus! {

/// The required terms are the negations of nodes below `upto`.
pub proof fn lemma_required_terms_below(graph: RoutingGraph, node: int, prev: int, upto: int)
    ensures
        forall|i: int|
            0 <= i < required_terms(graph, node, prev, upto).len() ==> (#[trigger] required_terms(
                graph,
                node,
                prev,
                upto,
            )[i]) is NegVar && required_terms(graph, node, prev, upto)[i]->NegVar_0 < upto,
    decreases upto,
{
    if upto > 0 {
        lemma_required_terms_below(graph, node, prev, upto - 1);
    }
}

/// The required terms, added to the cube without terms one after the
/// other, give the cube of the required terms in their order.
pub proof fn lemma_required_terms_make_a_cube(graph: RoutingGraph, node: int, prev: int, upto: int)
    ensures
        conj_all(true_form(), required_terms(graph, node, prev, upto)) == seq![
            required_terms(graph, node, prev, upto),
        ],
    decreases upto,
{
    let now = required_terms(graph, node, prev, upto);
    if upto <= 0 {
        assert(true_form() =~= seq![now]);
    } else {
        let before = required_terms(graph, node, prev, upto - 1);
        lemma_required_terms_make_a_cube(graph, node, prev, upto - 1);
        if graph.has_edge(upto - 1, node) && upto - 1 != prev {
            let t = Term::NegVar(upto - 1);
            lemma_required_terms_below(graph, node, prev, upto - 1);
            assert(now == before.push(t));
            assert(now.drop_last() =~= before);
            assert(now.last() == t);
            assert(!has_negation(before, t)) by {
                if has_negation(before, t) {
                    let i = choose|i: int| 0 <= i < before.len() && (#[trigger] before[i]).negates(t);
                    assert(before[i] is NegVar);
                }
            }
            assert(!before.contains(t)) by {
                if before.contains(t) {
                    let i = choose|i: int| 0 <= i < before.len() && before[i] == t;
                    assert(before[i]->NegVar_0 < upto - 1);
                }
            }
            assert forall|k: int| 0 <= k < before.len() implies (#[trigger] before[k]).lt(t) by {
                assert(before[k] is NegVar && before[k]->NegVar_0 < upto - 1);
            }
            lemma_insertion_point(before, t, before.len() as int);
            assert(before.insert(before.len() as int, t) =~= before.push(t));
            assert(add_term_spec(before, t) == now);
            assert(conjunct_term_spec(seq![before], t) =~= seq![now]);
        }
    }
}

/// A node without edges queues no frames.
pub proof fn lemma_no_edges_no_frames(graph: RoutingGraph, markers: Seq<Marker>, node: int, upto: int)
    requires
        forall|n: int| !(#[trigger] graph.has_edge(node, n)),
    ensures
        new_frames(graph, markers, node, upto) == Seq::<Frame>::empty(),
    decreases upto,
{
    if upto > 0 {
        lemma_no_edges_no_frames(graph, markers, node, upto - 1);
    }
}

/// A node whose only edge goes to a node whose constraints do not cover
/// its own queues the frame for that node, and no other.
pub proof fn lemma_one_edge_one_frame(
    graph: RoutingGraph,
    markers: Seq<Marker>,
    node: int,
    to: int,
    upto: int,
)
    requires
        graph.has_edge(node, to),
        forall|n: int| #[trigger] graph.has_edge(node, n) ==> n == to,
        !covered(markers[node].constraints, markers[to].constraints),
    ensures
        new_frames(graph, markers, node, upto) == if to < upto {
            seq![Frame { prev: Some(node), node: to }]
        } else {
            Seq::<Frame>::empty()
        },
    decreases upto,
{
    graph.lemma_edges_inside(node, to);
    if upto > 0 {
        lemma_one_edge_one_frame(graph, markers, node, to, upto - 1);
        if upto - 1 == to {
            assert(Seq::<Frame>::empty().push(Frame { prev: Some(node), node: to }) =~= seq![
                Frame { prev: Some(node), node: to },
            ]);
        } else {
            assert(!graph.has_edge(node, upto - 1));
        }
    }
}

/// A formula of one cube of negated variables is its own optimized
/// formula, and sorted by length it is itself.
pub proof fn lemma_one_cube_stays(c: Seq<Term>)
    requires
        forall|i: int| 0 <= i < c.len() ==> (#[trigger] c[i]) is NegVar,
    ensures
        optimize_spec(seq![c]) == seq![c],
        sort_by_len(seq![c]) == seq![c],
{
    let f = seq![c];
    assert(plain_false(f)) by {
        assert forall|i: int| 0 <= i < f.len() && (#[trigger] f[i]).contains(Term::False) implies f[i]
            == seq![Term::False] by {
            let k = choose|k: int| 0 <= k < c.len() && c[k] == Term::False;
            assert(c[k] is NegVar);
        }
    }
    assert(irreducible(f, f)) by {
        assert forall|o: int, a: int| !reducible_at(f, f, o, a) by {
            if 0 <= o < f.len() && 0 <= a < f.len() {
                lemma_reduce_same(c);
                assert(reduce_spec(f[a], f[o]) == Some(c));
            }
        }
    }
    lemma_optimize_keeps_fixpoint(f);
    let none = Seq::<Seq<Term>>::empty();
    assert(f.drop_last() =~= none);
    assert(sort_by_len(none) == none);
    assert(upper_bound(none, c.len()) == 0);
    assert(none.insert(0, c) =~= f);
}

/// The route over a single edge: where the only edge from the source goes
/// to a node that has no edges itself, the run ends after two steps; the
/// node requires that none of its other drivers is in use, which is one
/// cube of their negations in ascending order, and activates the source.
pub proof fn lemma_single_edge_route(
    graph: RoutingGraph,
    from: int,
    to: int,
    optimize: bool,
    budget: nat,
)
    requires
        from != to,
        graph.has_edge(from, to),
        forall|n: int| #[trigger] graph.has_edge(from, n) ==> n == to,
        forall|n: int| !(#[trigger] graph.has_edge(to, n)),
        budget >= 2,
    ensures
        run_finished(graph, from, optimize, budget),
        routed_markers(graph, from, optimize, budget)[to].constraints == seq![
            required_terms(graph, to, from, graph.size()),
        ],
        routed_markers(graph, from, optimize, budget)[to].activated == seq![seq![Term::Var(from)]],
        routes_spec(graph, from, optimize, budget)[to].requires == seq![
            required_terms(graph, to, from, graph.size()),
        ],
        routes_spec(graph, from, optimize, budget)[to].implies == seq![seq![Term::Var(from)]],
{
    graph.lemma_edges_inside(from, to);
    let n = graph.size();
    let none = Seq::<Term>::empty();
    let wanted = required_terms(graph, to, from, n);
    let driver = seq![Term::Var(from)];
    let s0 = initial_state(n, from);
    let f0 = s0.queue[0];
    assert(f0 == Frame { prev: None, node: from });

    // The first step enters the source.
    assert(subsumed(none, none));
    assert(true_form()[0] == none);
    assert(covered_cube(true_form()[0], true_form()));
    assert(covered(true_form(), true_form()));
    let m1 = expand_markers(graph, s0.markers, f0, optimize);
    assert(new_requirements(graph, s0.markers, f0) == true_form());
    assert(new_activators(graph, s0.markers, f0) == true_form());
    assert(m1 =~= s0.markers);
    assert(!covered(m1[from].constraints, m1[to].constraints)) by {
        assert(m1[from].constraints[0] == none);
        assert(!covered_cube(m1[from].constraints[0], m1[to].constraints));
    }
    lemma_one_edge_one_frame(graph, m1, from, to, n);
    let f1 = Frame { prev: Some(from), node: to };
    let s1 = step_spec(graph, s0, optimize);
    assert(s1.markers == m1);
    assert(s1.queue =~= seq![f1]);

    // The second step enters the node.
    lemma_required_terms_make_a_cube(graph, to, from, n);
    assert(s1.queue[0] == f1);
    assert(new_requirements(graph, m1, f1) == seq![wanted]);
    assert(new_activators(graph, m1, f1) =~= seq![driver]) by {
        assert(!has_negation(none, Term::Var(from)));
        assert(!none.contains(Term::Var(from)));
        assert(insertion_point(none, Term::Var(from)) == 0);
        assert(none.insert(0, Term::Var(from)) =~= driver);
        assert(add_term_spec(none, Term::Var(from)) == driver);
        assert(conjunct_term_spec(true_form(), Term::Var(from)) =~= seq![driver]);
    }
    assert(!covered(seq![wanted], m1[to].constraints)) by {
        assert(seq![wanted][0] == wanted);
        assert(!covered_cube(seq![wanted][0], m1[to].constraints));
    }
    assert(!covered(seq![driver], m1[to].activated)) by {
        assert(seq![driver][0] == driver);
        assert(!covered_cube(seq![driver][0], m1[to].activated));
    }
    let m2 = expand_markers(graph, m1, f1, optimize);
    assert(m2[to].constraints =~= seq![wanted]);
    assert(m2[to].activated =~= seq![driver]);
    lemma_no_edges_no_frames(graph, m2, to, n);
    let s2 = step_spec(graph, s1, optimize);
    assert(s2.markers == m2);
    assert(s2.queue =~= Seq::<Frame>::empty());

    // No more steps are made.
    assert(run_spec(graph, s0, optimize, budget) == run_spec(
        graph,
        s1,
        optimize,
        (budget - 1) as nat,
    ));
    assert(run_spec(graph, s1, optimize, (budget - 1) as nat) == run_spec(
        graph,
        s2,
        optimize,
        (budget - 2) as nat,
    ));
    assert(run_spec(graph, s2, optimize, (budget - 2) as nat) == s2);

    lemma_required_terms_below(graph, to, from, n);
    lemma_one_cube_stays(wanted);
    assert(routes_spec(graph, from, optimize, budget)[to] == pair_info(m2[to], optimize));
    assert(sort_by_len(seq![driver]) == seq![driver]) by {
        let empty = Seq::<Seq<Term>>::empty();
        assert(seq![driver].drop_last() =~= empty);
        assert(sort_by_len(empty) == empty);
        assert(upper_bound(empty, driver.len()) == 0);
        assert(empty.insert(0, driver) =~= seq![driver]);
    }
}

/// Where a node has the drivers `a` and `b`, `a` before `b`, beside the
/// node that it is entered from, and no others, the required terms are the
/// negations of the two, that of `a` first.
pub proof fn lemma_two_other_drivers(
    graph: RoutingGraph,
    node: int,
    prev: int,
    a: int,
    b: int,
    upto: int,
)
    requires
        0 <= a < b,
        a != prev,
        b != prev,
        forall|d: int| #[trigger] graph.has_edge(d, node) <==> d == a || d == b || d == prev,
    ensures
        required_terms(graph, node, prev, upto) == if upto <= a {
            Seq::<Term>::empty()
        } else if upto <= b {
            seq![Term::NegVar(a)]
        } else {
            seq![Term::NegVar(a), Term::NegVar(b)]
        },
    decreases upto,
{
    if upto > 0 {
        lemma_two_other_drivers(graph, node, prev, a, b, upto - 1);
        let before = required_terms(graph, node, prev, upto - 1);
        if upto - 1 == a {
            assert(graph.has_edge(a, node));
            assert(before.push(Term::NegVar(a)) =~= seq![Term::NegVar(a)]);
        } else if upto - 1 == b {
            assert(graph.has_edge(b, node));
            assert(before.push(Term::NegVar(b)) =~= seq![Term::NegVar(a), Term::NegVar(b)]);
        } else if upto - 1 != prev {
            assert(!graph.has_edge(upto - 1, node));
        }
    }
}

/// The route through a multiplexer: where the only edge from the source
/// goes to a node that has no edges itself and that has two other drivers,
/// `a` before `b`, the route requires that neither of the two is in use,
/// which is one cube with the negation of `a` and then that of `b`, and
/// activates the source.
pub proof fn lemma_route_beside_two_drivers(
    graph: RoutingGraph,
    from: int,
    to: int,
    a: int,
    b: int,
    optimize: bool,
    budget: nat,
)
    requires
        from != to,
        forall|n: int| #[trigger] graph.has_edge(from, n) ==> n == to,
        forall|n: int| !(#[trigger] graph.has_edge(to, n)),
        0 <= a < b,
        a != from,
        b != from,
        forall|d: int| #[trigger] graph.has_edge(d, to) <==> d == a || d == b || d == from,
        budget >= 2,
    ensures
        run_finished(graph, from, optimize, budget),
        routes_spec(graph, from, optimize, budget)[to].requires == seq![
            seq![Term::NegVar(a), Term::NegVar(b)],
        ],
        routes_spec(graph, from, optimize, budget)[to].implies == seq![seq![Term::Var(from)]],
{
    assert(graph.has_edge(from, to));
    assert(graph.has_edge(b, to));
    graph.lemma_edges_inside(b, to);
    lemma_two_other_drivers(graph, to, from, a, b, graph.size());
    lemma_single_edge_route(graph, from, to, optimize, budget);
}

} // verus!
