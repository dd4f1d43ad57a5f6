//! What the pin-to-pin router computes.
//!
//! The router expands a net from a source pin breadth first.  Every node
//! has two formulas: the constraints that a route to the node requires, and
//! the resources that a route to the node activates.  A frame of the queue
//! says which node is to be entered from which node.

use super::graph::RoutingGraph;
use crate::logic_formula::cube::{add_term_spec, cube_holds, has_negation, insertion_point, normal, lemma_insertion_point_bounds};
use crate::logic_formula::form::{all_terms, conjunct_term_spec, covered, covered_cube, form_holds, form_normal, lemma_conjunct_term_normal, lemma_conjunct_term_terms};
use crate::logic_formula::term::Term;
use vstd::prelude::*;

verus! {

/// The two formulas of a node.
pub struct Marker {
    /// What a route to the node requires.
    pub constraints: Seq<Seq<Term>>,
    /// What a route to the node activates.
    pub activated: Seq<Seq<Term>>,
}

/// A frame of the queue: the node `node` is to be entered from the node
/// `prev`, or is where the net starts.
pub struct Frame {
    pub prev: Option<int>,
    pub node: int,
}

/// The state of the router.
pub struct RouterState {
    pub markers: Seq<Marker>,
    pub queue: Seq<Frame>,
}

/// The formula that is always true: one cube without terms.
pub open spec fn true_form() -> Seq<Seq<Term>> {
    seq![Seq::<Term>::empty()]
}

/// The terms that keep the other drivers of `node` off it when it is
/// entered from `prev`: the negation of every node below `upto` that has an
/// edge to `node`, but for `prev`, in ascending order.
pub open spec fn required_terms(graph: RoutingGraph, node: int, prev: int, upto: int) -> Seq<Term>
    decreases upto,
{
    if upto <= 0 {
        Seq::empty()
    } else {
        let before = required_terms(graph, node, prev, upto - 1);
        if graph.has_edge(upto - 1, node) && upto - 1 != prev {
            before.push(Term::NegVar(upto - 1))
        } else {
            before
        }
    }
}

/// The formula with all the terms added to every cube, one term after the
/// other.
pub open spec fn conj_all(f: Seq<Seq<Term>>, terms: Seq<Term>) -> Seq<Seq<Term>>
    decreases terms.len(),
{
    if terms.len() == 0 {
        f
    } else {
        conjunct_term_spec(conj_all(f, terms.drop_last()), terms.last())
    }
}

/// What a route into the node of the frame requires: what the node that it
/// comes from requires, and that no other driver of the node is in use.
/// Where the net starts nothing is required.
pub open spec fn new_requirements(graph: RoutingGraph, markers: Seq<Marker>, frame: Frame) -> Seq<
    Seq<Term>,
> {
    match frame.prev {
        Some(p) => conj_all(
            markers[p].constraints,
            required_terms(graph, frame.node, p, graph.size()),
        ),
        None => true_form(),
    }
}

/// What a route into the node of the frame activates: what the node that
/// it comes from activates, and that node itself as a driver.
pub open spec fn new_activators(graph: RoutingGraph, markers: Seq<Marker>, frame: Frame) -> Seq<
    Seq<Term>,
> {
    match frame.prev {
        Some(p) => if graph.has_edge(p, frame.node) {
            conjunct_term_spec(markers[p].activated, Term::Var(p))
        } else {
            markers[p].activated
        },
        None => true_form(),
    }
}

/// The formula of a node after a new formula has reached it: the new one
/// beside the old one as an alternative, or the new one alone.
pub open spec fn merged(old: Seq<Seq<Term>>, new: Seq<Seq<Term>>, alternative: bool) -> Seq<
    Seq<Term>,
> {
    if alternative {
        old + new
    } else {
        new
    }
}

/// The formulas of the node of the frame after the frame was processed.  A
/// new formula becomes an alternative unless the formula of the node
/// covers it already; then it replaces the formula.  Whether the activators
/// become an alternative is decided for themselves if `optimize_implies`
/// is set, and goes with the requirements if not.
pub open spec fn expand_marker(
    graph: RoutingGraph,
    markers: Seq<Marker>,
    frame: Frame,
    optimize_implies: bool,
) -> Marker {
    let requirements = new_requirements(graph, markers, frame);
    let activators = new_activators(graph, markers, frame);
    let alternative = !covered(requirements, markers[frame.node].constraints);
    let alternative_activators = if optimize_implies {
        !covered(activators, markers[frame.node].activated)
    } else {
        alternative
    };
    Marker {
        constraints: merged(markers[frame.node].constraints, requirements, alternative),
        activated: merged(markers[frame.node].activated, activators, alternative_activators),
    }
}

/// The frames that the node `node` queues: one for every node below `upto`
/// that it has an edge to and whose constraints do not cover its own, in
/// ascending order.
pub open spec fn new_frames(graph: RoutingGraph, markers: Seq<Marker>, node: int, upto: int) -> Seq<
    Frame,
>
    decreases upto,
{
    if upto <= 0 {
        Seq::empty()
    } else {
        let before = new_frames(graph, markers, node, upto - 1);
        if graph.has_edge(node, upto - 1) && !covered(
            markers[node].constraints,
            markers[upto - 1].constraints,
        ) {
            before.push(Frame { prev: Some(node), node: upto - 1 })
        } else {
            before
        }
    }
}

/// The markers after the frame was processed.
pub open spec fn expand_markers(
    graph: RoutingGraph,
    markers: Seq<Marker>,
    frame: Frame,
    optimize_implies: bool,
) -> Seq<Marker> {
    markers.update(frame.node, expand_marker(graph, markers, frame, optimize_implies))
}

/// The state after one step: the first frame of the queue is taken off and
/// processed, and the frames that its node queues are put at the end.
pub open spec fn step_spec(graph: RoutingGraph, state: RouterState, optimize_implies: bool) -> RouterState {
    let frame = state.queue[0];
    let markers = expand_markers(graph, state.markers, frame, optimize_implies);
    RouterState {
        markers,
        queue: state.queue.skip(1) + new_frames(graph, markers, frame.node, graph.size()),
    }
}

/// The state after steps were made until the queue was empty, but `budget`
/// steps at most.
pub open spec fn run_spec(
    graph: RoutingGraph,
    state: RouterState,
    optimize_implies: bool,
    budget: nat,
) -> RouterState
    decreases budget,
{
    if budget == 0 || state.queue.len() == 0 {
        state
    } else {
        run_spec(
            graph,
            step_spec(graph, state, optimize_implies),
            optimize_implies,
            (budget - 1) as nat,
        )
    }
}

/// The number of steps that are made until the queue is empty, but `budget`
/// at most.
pub open spec fn run_steps(
    graph: RoutingGraph,
    state: RouterState,
    optimize_implies: bool,
    budget: nat,
) -> nat
    decreases budget,
{
    if budget == 0 || state.queue.len() == 0 {
        0
    } else {
        1 + run_steps(
            graph,
            step_spec(graph, state, optimize_implies),
            optimize_implies,
            (budget - 1) as nat,
        )
    }
}

/// The state in which the router starts from the node `from`: the node
/// requires and activates nothing, no other node can be reached yet, and
/// the node is in the queue.
pub open spec fn initial_state(size: int, from: int) -> RouterState {
    RouterState {
        markers: Seq::new(
            size as nat,
            |i: int|
                if i == from {
                    Marker { constraints: true_form(), activated: true_form() }
                } else {
                    Marker { constraints: Seq::empty(), activated: Seq::empty() }
                },
        ),
        queue: seq![Frame { prev: None, node: from }],
    }
}

/// Every term of every cube of the formula is a negated variable.
pub open spec fn negative_only(f: Seq<Seq<Term>>) -> bool {
    forall|i: int, j: int|
        0 <= i < f.len() && 0 <= j < f[i].len() ==> (#[trigger] f[i][j]) is NegVar
}

/// The frame names nodes of the graph.
pub open spec fn frame_ok(graph: RoutingGraph, frame: Frame) -> bool {
    &&& 0 <= frame.node < graph.size()
    &&& frame.prev matches Some(p) ==> 0 <= p < graph.size()
}

/// The state fits the graph: there is a marker for every node, the
/// formulas are in normal form, the constraints hold negated variables
/// only, and the frames name nodes of the graph.
pub open spec fn state_ok(graph: RoutingGraph, state: RouterState) -> bool {
    &&& state.markers.len() == graph.size()
    &&& forall|i: int|
        0 <= i < state.markers.len() ==> form_normal((#[trigger] state.markers[i]).constraints)
            && form_normal(state.markers[i].activated) && negative_only(
            state.markers[i].constraints,
        )
    &&& forall|q: int| 0 <= q < state.queue.len() ==> frame_ok(graph, #[trigger] state.queue[q])
}

/// The required terms are negated variables.
pub proof fn lemma_required_terms(graph: RoutingGraph, node: int, prev: int, upto: int)
    ensures
        forall|i: int|
            0 <= i < required_terms(graph, node, prev, upto).len() ==> (#[trigger] required_terms(
                graph,
                node,
                prev,
                upto,
            )[i]) is NegVar,
        forall|d: int|
            0 <= d < upto && #[trigger] graph.has_edge(d, node) && d != prev ==> required_terms(
                graph,
                node,
                prev,
                upto,
            ).contains(Term::NegVar(d)),
    decreases upto,
{
    if upto > 0 {
        lemma_required_terms(graph, node, prev, upto - 1);
        let before = required_terms(graph, node, prev, upto - 1);
        let now = required_terms(graph, node, prev, upto);
        assert forall|d: int|
            0 <= d < upto && #[trigger] graph.has_edge(d, node) && d != prev implies now.contains(
            Term::NegVar(d),
        ) by {
            if d < upto - 1 {
                let i = choose|i: int| 0 <= i < before.len() && before[i] == Term::NegVar(d);
                assert(now[i] == Term::NegVar(d));
            } else {
                assert(now[before.len() as int] == Term::NegVar(d));
            }
        }
    }
}

/// A cube of negated variables with a negated variable added is a cube of
/// negated variables that holds the one that was added and those that it
/// held.
pub proof fn lemma_add_negative(c: Seq<Term>, v: int)
    requires
        forall|j: int| 0 <= j < c.len() ==> (#[trigger] c[j]) is NegVar,
    ensures
        forall|j: int|
            0 <= j < add_term_spec(c, Term::NegVar(v)).len() ==> (#[trigger] add_term_spec(
                c,
                Term::NegVar(v),
            )[j]) is NegVar,
        add_term_spec(c, Term::NegVar(v)).contains(Term::NegVar(v)),
        forall|t: Term| c.contains(t) ==> add_term_spec(c, Term::NegVar(v)).contains(t),
{
    let t = Term::NegVar(v);
    let r = add_term_spec(c, t);
    assert(!has_negation(c, t)) by {
        if has_negation(c, t) {
            let i = choose|i: int| 0 <= i < c.len() && (#[trigger] c[i]).negates(t);
            assert(c[i] is NegVar);
        }
    }
    if c.contains(t) {
    } else {
        lemma_insertion_point_bounds(c, t);
        let p = insertion_point(c, t);
        assert(r[p] == t);
        assert forall|j: int| 0 <= j < r.len() implies (#[trigger] r[j]) is NegVar by {
            if j < p {
                assert(r[j] == c[j]);
            } else if j > p {
                assert(r[j] == c[j - 1]);
            }
        }
        assert forall|u: Term| c.contains(u) implies r.contains(u) by {
            let i = choose|i: int| 0 <= i < c.len() && c[i] == u;
            if i < p {
                assert(r[i] == u);
            } else {
                assert(r[i + 1] == u);
            }
        }
    }
}

/// A formula of negated variables with negated variables added to every
/// cube has as many cubes, all of negated variables, each with all the
/// variables that were added; and it is in normal form if the formula was.
pub proof fn lemma_conj_all_negative(f: Seq<Seq<Term>>, terms: Seq<Term>)
    requires
        negative_only(f),
        forall|i: int| 0 <= i < terms.len() ==> (#[trigger] terms[i]) is NegVar,
    ensures
        conj_all(f, terms).len() == f.len(),
        negative_only(conj_all(f, terms)),
        form_normal(f) ==> form_normal(conj_all(f, terms)),
        forall|i: int, k: int|
            0 <= i < f.len() && 0 <= k < terms.len() ==> (#[trigger] conj_all(f, terms)[i]).contains(
                #[trigger] terms[k],
            ),
    decreases terms.len(),
{
    if terms.len() > 0 {
        let rest = terms.drop_last();
        let last = terms.last();
        lemma_conj_all_negative(f, rest);
        let before = conj_all(f, rest);
        let now = conj_all(f, terms);
        let v = last->NegVar_0;
        assert(last == Term::NegVar(v));
        assert forall|i: int, j: int| 0 <= i < now.len() && 0 <= j < now[i].len() implies (
        #[trigger] now[i][j]) is NegVar by {
            assert(forall|m: int| 0 <= m < before[i].len() ==> (#[trigger] before[i][m]) is NegVar);
            lemma_add_negative(before[i], v);
        }
        if form_normal(f) {
            lemma_conjunct_term_normal(before, last);
        }
        assert forall|i: int, k: int| 0 <= i < f.len() && 0 <= k < terms.len() implies (
        #[trigger] now[i]).contains(#[trigger] terms[k]) by {
            assert(forall|m: int| 0 <= m < before[i].len() ==> (#[trigger] before[i][m]) is NegVar);
            lemma_add_negative(before[i], v);
            if k < rest.len() {
                assert(rest[k] == terms[k]);
                assert(before[i].contains(rest[k]));
            }
        }
    }
}

/// The formula that is always true is in normal form and holds no terms.
pub proof fn lemma_true_form()
    ensures
        form_normal(true_form()),
        negative_only(true_form()),
        true_form().len() == 1,
{
    assert forall|i: int| 0 <= i < true_form().len() implies normal(#[trigger] true_form()[i]) by {
        assert(true_form()[i] =~= Seq::<Term>::empty());
    }
}

/// Two formulas in normal form side by side are in normal form, and two
/// formulas of negated variables side by side hold negated variables only.
pub proof fn lemma_concat_kept(f: Seq<Seq<Term>>, g: Seq<Seq<Term>>)
    ensures
        form_normal(f) && form_normal(g) ==> form_normal(f + g),
        negative_only(f) && negative_only(g) ==> negative_only(f + g),
{
    let h = f + g;
    if form_normal(f) && form_normal(g) {
        assert forall|i: int| 0 <= i < h.len() implies normal(#[trigger] h[i]) by {
            if i < f.len() {
                assert(h[i] == f[i]);
            } else {
                assert(h[i] == g[i - f.len()]);
            }
        }
    }
    if negative_only(f) && negative_only(g) {
        assert forall|i: int, j: int| 0 <= i < h.len() && 0 <= j < h[i].len() implies (
        #[trigger] h[i][j]) is NegVar by {
            if i < f.len() {
                assert(h[i] == f[i]);
                assert(f[i][j] is NegVar);
            } else {
                assert(h[i] == g[i - f.len()]);
                assert(g[i - f.len()][j] is NegVar);
            }
        }
    }
}

/// What a frame brings to a node is in normal form, and the requirements
/// hold negated variables only.
pub proof fn lemma_new_formulas(graph: RoutingGraph, state: RouterState, frame: Frame)
    requires
        state_ok(graph, state),
        frame_ok(graph, frame),
    ensures
        form_normal(new_requirements(graph, state.markers, frame)),
        negative_only(new_requirements(graph, state.markers, frame)),
        form_normal(new_activators(graph, state.markers, frame)),
        frame.prev matches Some(p) ==> new_requirements(graph, state.markers, frame).len()
            == state.markers[p].constraints.len(),
        frame.prev is None ==> new_requirements(graph, state.markers, frame).len() == 1,
{
    lemma_true_form();
    match frame.prev {
        Some(p) => {
            lemma_required_terms(graph, frame.node, p, graph.size());
            lemma_conj_all_negative(
                state.markers[p].constraints,
                required_terms(graph, frame.node, p, graph.size()),
            );
            lemma_conjunct_term_normal(state.markers[p].activated, Term::Var(p));
        },
        None => {},
    }
}

/// The frames that a node queues name nodes of the graph.
pub proof fn lemma_new_frames(graph: RoutingGraph, markers: Seq<Marker>, node: int, upto: int)
    requires
        0 <= node < graph.size(),
        upto <= graph.size(),
    ensures
        forall|q: int|
            0 <= q < new_frames(graph, markers, node, upto).len() ==> frame_ok(
                graph,
                #[trigger] new_frames(graph, markers, node, upto)[q],
            ) && new_frames(graph, markers, node, upto)[q].prev == Some(node),
        forall|n: int|
            0 <= n < upto && graph.has_edge(node, n) && !covered(
                markers[node].constraints,
                markers[n].constraints,
            ) ==> exists|q: int|
                0 <= q < new_frames(graph, markers, node, upto).len() && (#[trigger] new_frames(
                    graph,
                    markers,
                    node,
                    upto,
                )[q]).node == n,
    decreases upto,
{
    if upto > 0 {
        lemma_new_frames(graph, markers, node, upto - 1);
        let before = new_frames(graph, markers, node, upto - 1);
        let now = new_frames(graph, markers, node, upto);
        assert forall|q: int| 0 <= q < now.len() implies frame_ok(graph, #[trigger] now[q])
            && now[q].prev == Some(node) by {
            if q < before.len() {
                assert(now[q] == before[q]);
            }
        }
        assert forall|n: int|
            0 <= n < upto && graph.has_edge(node, n) && !covered(
                markers[node].constraints,
                markers[n].constraints,
            ) implies exists|q: int| 0 <= q < now.len() && (#[trigger] now[q]).node == n by {
            if n < upto - 1 {
                let q = choose|q: int| 0 <= q < before.len() && (#[trigger] before[q]).node == n;
                assert(now[q] == before[q]);
            } else {
                assert(now[before.len() as int].node == n);
            }
        }
    }
}

/// The state after a frame was processed: the markers with the formulas
/// of the node of the frame updated, and the queue with the frames that the
/// node queues at its end.
pub open spec fn expand_spec(
    graph: RoutingGraph,
    state: RouterState,
    frame: Frame,
    optimize_implies: bool,
) -> RouterState {
    let markers = expand_markers(graph, state.markers, frame, optimize_implies);
    RouterState {
        markers,
        queue: state.queue + new_frames(graph, markers, frame.node, graph.size()),
    }
}

/// Processing a frame keeps the state fit for the graph.
pub proof fn lemma_expand_keeps_ok(
    graph: RoutingGraph,
    state: RouterState,
    frame: Frame,
    optimize_implies: bool,
)
    requires
        state_ok(graph, state),
        frame_ok(graph, frame),
    ensures
        state_ok(graph, expand_spec(graph, state, frame, optimize_implies)),
        state_ok(
            graph,
            RouterState {
                markers: expand_markers(graph, state.markers, frame, optimize_implies),
                queue: state.queue,
            },
        ),
{
    let next = expand_spec(graph, state, frame, optimize_implies);
    lemma_new_formulas(graph, state, frame);
    lemma_concat_kept(
        state.markers[frame.node].constraints,
        new_requirements(graph, state.markers, frame),
    );
    lemma_concat_kept(
        state.markers[frame.node].activated,
        new_activators(graph, state.markers, frame),
    );
    assert forall|i: int| 0 <= i < next.markers.len() implies form_normal(
        (#[trigger] next.markers[i]).constraints,
    ) && form_normal(next.markers[i].activated) && negative_only(next.markers[i].constraints) by {
        if i != frame.node {
            assert(next.markers[i] == state.markers[i]);
        }
    }
    lemma_new_frames(graph, next.markers, frame.node, graph.size());
    let added = new_frames(graph, next.markers, frame.node, graph.size());
    assert forall|q: int| 0 <= q < next.queue.len() implies frame_ok(graph, #[trigger] next.queue[q]) by {
        if q < state.queue.len() {
            assert(next.queue[q] == state.queue[q]);
        } else {
            assert(next.queue[q] == added[q - state.queue.len()]);
        }
    }
}

/// A step is the processing of the first frame of the queue, and keeps the
/// state fit for the graph.
pub proof fn lemma_step_keeps_ok(graph: RoutingGraph, state: RouterState, optimize_implies: bool)
    requires
        state_ok(graph, state),
        state.queue.len() > 0,
    ensures
        frame_ok(graph, state.queue[0]),
        state_ok(graph, RouterState { markers: state.markers, queue: state.queue.skip(1) }),
        step_spec(graph, state, optimize_implies) == expand_spec(
            graph,
            RouterState { markers: state.markers, queue: state.queue.skip(1) },
            state.queue[0],
            optimize_implies,
        ),
        state_ok(graph, step_spec(graph, state, optimize_implies)),
{
    let rest = RouterState { markers: state.markers, queue: state.queue.skip(1) };
    assert forall|q: int| 0 <= q < rest.queue.len() implies frame_ok(graph, #[trigger] rest.queue[q]) by {
        assert(rest.queue[q] == state.queue[q + 1]);
    }
    lemma_expand_keeps_ok(graph, rest, state.queue[0], optimize_implies);
}

/// Steps keep the state fit for the graph.
pub proof fn lemma_run_keeps_ok(
    graph: RoutingGraph,
    state: RouterState,
    optimize_implies: bool,
    budget: nat,
)
    requires
        state_ok(graph, state),
    ensures
        state_ok(graph, run_spec(graph, state, optimize_implies, budget)),
        run_steps(graph, state, optimize_implies, budget) <= budget,
        run_steps(graph, state, optimize_implies, budget) < budget ==> run_spec(
            graph,
            state,
            optimize_implies,
            budget,
        ).queue.len() == 0,
    decreases budget,
{
    if budget == 0 || state.queue.len() == 0 {
    } else {
        lemma_step_keeps_ok(graph, state, optimize_implies);
        lemma_run_keeps_ok(
            graph,
            step_spec(graph, state, optimize_implies),
            optimize_implies,
            (budget - 1) as nat,
        );
    }
}

/// The state in which the router starts fits the graph.
pub proof fn lemma_initial_state_ok(graph: RoutingGraph, from: int)
    requires
        0 <= from < graph.size(),
    ensures
        state_ok(graph, initial_state(graph.size(), from)),
{
    lemma_true_form();
    let state = initial_state(graph.size(), from);
    assert forall|i: int| 0 <= i < state.markers.len() implies form_normal(
        (#[trigger] state.markers[i]).constraints,
    ) && form_normal(state.markers[i].activated) && negative_only(state.markers[i].constraints) by {}
}

/// Every other driver of the node is excluded: when a node is entered from
/// the node `p`, and `p` can be reached, then the last cube of the
/// constraints of the node, and every cube that has come with the frame,
/// holds the negation of every other node `d` that has an edge to the node.
pub proof fn lemma_other_drivers_are_excluded(
    graph: RoutingGraph,
    state: RouterState,
    frame: Frame,
    optimize_implies: bool,
    d: int,
)
    requires
        state_ok(graph, state),
        frame_ok(graph, frame),
        frame.prev is Some,
        state.markers[frame.prev->0].constraints.len() > 0,
        graph.has_edge(d, frame.node),
        d != frame.prev->0,
    ensures
        expand_marker(graph, state.markers, frame, optimize_implies).constraints.len() > 0,
        expand_marker(graph, state.markers, frame, optimize_implies).constraints.last().contains(
            Term::NegVar(d),
        ),
        forall|i: int|
            0 <= i < new_requirements(graph, state.markers, frame).len() ==> (
            #[trigger] new_requirements(graph, state.markers, frame)[i]).contains(Term::NegVar(d)),
{
    let p = frame.prev->0;
    let terms = required_terms(graph, frame.node, p, graph.size());
    let base = state.markers[p].constraints;
    let requirements = new_requirements(graph, state.markers, frame);
    graph.lemma_edges_inside(d, frame.node);
    lemma_required_terms(graph, frame.node, p, graph.size());
    lemma_conj_all_negative(base, terms);
    let k = choose|k: int| 0 <= k < terms.len() && terms[k] == Term::NegVar(d);
    assert forall|i: int| 0 <= i < requirements.len() implies (#[trigger] requirements[i]).contains(
        Term::NegVar(d),
    ) by {
        assert(requirements[i].contains(terms[k]));
    }
    let marker = expand_marker(graph, state.markers, frame, optimize_implies);
    assert(marker.constraints.last() == requirements.last());
}

/// Some frame of the queue is for the node `n`.
pub open spec fn pending(queue: Seq<Frame>, n: int) -> bool {
    exists|q: int| 0 <= q < queue.len() && (#[trigger] queue[q]).node == n
}

/// The expansion is under way: the source can be reached, every frame comes
/// from a node that can be reached, and where a node that can be reached
/// has an edge to a node, that node can be reached, or one of the two is in
/// the queue.  A node can be reached if its constraints have a cube.
pub open spec fn progress_ok(graph: RoutingGraph, state: RouterState, from: int) -> bool {
    &&& 0 <= from < state.markers.len()
    &&& state.markers[from].constraints.len() > 0
    &&& forall|q: int|
        0 <= q < state.queue.len() && (#[trigger] state.queue[q]).prev is Some
            ==> state.markers[state.queue[q].prev->0].constraints.len() > 0
    &&& forall|c: int, n: int|
        #![trigger graph.has_edge(c, n)]
        graph.has_edge(c, n) && state.markers[c].constraints.len() > 0
            ==> state.markers[n].constraints.len() > 0 || pending(state.queue, n) || pending(
            state.queue,
            c,
        )
}

/// A step keeps the expansion under way.
pub proof fn lemma_step_keeps_progress(
    graph: RoutingGraph,
    state: RouterState,
    optimize_implies: bool,
    from: int,
)
    requires
        state_ok(graph, state),
        progress_ok(graph, state, from),
        state.queue.len() > 0,
    ensures
        progress_ok(graph, step_spec(graph, state, optimize_implies), from),
        step_spec(graph, state, optimize_implies).markers[state.queue[0].node].constraints.len() > 0,
        forall|i: int|
            0 <= i < state.markers.len() && (#[trigger] state.markers[i]).constraints.len() > 0
                ==> step_spec(graph, state, optimize_implies).markers[i].constraints.len() > 0,
        forall|n: int|
            #![trigger graph.has_edge(state.queue[0].node, n)]
            graph.has_edge(state.queue[0].node, n) ==> step_spec(
                graph,
                state,
                optimize_implies,
            ).markers[n].constraints.len() > 0 || pending(
                step_spec(graph, state, optimize_implies).queue,
                n,
            ),
{
    let frame = state.queue[0];
    let node = frame.node;
    let next = step_spec(graph, state, optimize_implies);
    let added = new_frames(graph, next.markers, node, graph.size());
    lemma_step_keeps_ok(graph, state, optimize_implies);
    lemma_new_formulas(graph, state, frame);
    lemma_new_frames(graph, next.markers, node, graph.size());
    assert(next.markers[node].constraints.len() > 0) by {
        if frame.prev is Some {
            assert(state.markers[frame.prev->0].constraints.len() > 0);
        }
    }
    assert forall|i: int|
        0 <= i < state.markers.len() && (#[trigger] state.markers[i]).constraints.len() > 0
        implies next.markers[i].constraints.len() > 0 by {
        if i != node {
            assert(next.markers[i] == state.markers[i]);
        }
    }
    assert forall|q: int|
        0 <= q < next.queue.len() && (#[trigger] next.queue[q]).prev is Some
        implies next.markers[next.queue[q].prev->0].constraints.len() > 0 by {
        if q < state.queue.len() - 1 {
            assert(next.queue[q] == state.queue[q + 1]);
            assert(frame_ok(graph, state.queue[q + 1]));
            let p = state.queue[q + 1].prev->0;
            assert(state.markers[p].constraints.len() > 0);
        } else {
            assert(next.queue[q] == added[q - (state.queue.len() - 1)]);
        }
    }
    assert forall|c: int, n: int|
        #![trigger graph.has_edge(c, n)]
        graph.has_edge(c, n) && next.markers[c].constraints.len() > 0
        implies next.markers[n].constraints.len() > 0 || pending(next.queue, n) || pending(
        next.queue,
        c,
    ) by {
        graph.lemma_edges_inside(c, n);
        if c == node {
            if covered(next.markers[node].constraints, next.markers[n].constraints) {
                assert(covered_cube(next.markers[node].constraints[0], next.markers[n].constraints));
            } else {
                let q = choose|q: int| 0 <= q < added.len() && (#[trigger] added[q]).node == n;
                let at = state.queue.len() - 1 + q;
                assert(next.queue[at] == added[q]);
                assert(pending(next.queue, n));
            }
        } else {
            assert(next.markers[c] == state.markers[c]);
            if state.markers[n].constraints.len() > 0 {
            } else if pending(state.queue, n) {
                let q = choose|q: int| 0 <= q < state.queue.len() && (#[trigger] state.queue[q]).node == n;
                if q > 0 {
                    assert(next.queue[q - 1] == state.queue[q]);
                    assert(pending(next.queue, n));
                }
            } else {
                let q = choose|q: int| 0 <= q < state.queue.len() && (#[trigger] state.queue[q]).node == c;
                assert(q > 0);
                assert(next.queue[q - 1] == state.queue[q]);
                assert(pending(next.queue, c));
            }
        }
    }
    assert forall|n: int|
        #![trigger graph.has_edge(node, n)]
        graph.has_edge(node, n) implies next.markers[n].constraints.len() > 0 || pending(
        next.queue,
        n,
    ) by {
        graph.lemma_edges_inside(node, n);
        if covered(next.markers[node].constraints, next.markers[n].constraints) {
            assert(covered_cube(next.markers[node].constraints[0], next.markers[n].constraints));
        } else {
            let q = choose|q: int| 0 <= q < added.len() && (#[trigger] added[q]).node == n;
            let at = state.queue.len() - 1 + q;
            assert(next.queue[at] == added[q]);
            assert(pending(next.queue, n));
        }
    }
}

/// Steps keep the expansion under way.
pub proof fn lemma_run_keeps_progress(
    graph: RoutingGraph,
    state: RouterState,
    optimize_implies: bool,
    budget: nat,
    from: int,
)
    requires
        state_ok(graph, state),
        progress_ok(graph, state, from),
    ensures
        progress_ok(graph, run_spec(graph, state, optimize_implies, budget), from),
    decreases budget,
{
    if budget == 0 || state.queue.len() == 0 {
    } else {
        lemma_step_keeps_ok(graph, state, optimize_implies);
        lemma_step_keeps_progress(graph, state, optimize_implies, from);
        lemma_run_keeps_progress(
            graph,
            step_spec(graph, state, optimize_implies),
            optimize_implies,
            (budget - 1) as nat,
            from,
        );
    }
}

/// The nodes are joined by edges, one to the next.
pub open spec fn is_path(graph: RoutingGraph, path: Seq<int>) -> bool {
    &&& path.len() > 0
    &&& forall|i: int| 0 <= i < path.len() - 1 ==> graph.has_edge(#[trigger] path[i], path[i + 1])
}

/// The node `to` can be reached from the node `from` along edges.
pub open spec fn reachable(graph: RoutingGraph, from: int, to: int) -> bool {
    exists|path: Seq<int>| #[trigger] is_path(graph, path) && path[0] == from && path.last() == to
}

/// When the queue is empty, every node at the end of a path from the source
/// has constraints with a cube.
pub proof fn lemma_path_is_routed(graph: RoutingGraph, state: RouterState, from: int, path: Seq<int>)
    requires
        progress_ok(graph, state, from),
        state.queue.len() == 0,
        is_path(graph, path),
        path[0] == from,
    ensures
        state.markers[path.last()].constraints.len() > 0,
    decreases path.len(),
{
    if path.len() > 1 {
        let shorter = path.drop_last();
        assert forall|i: int| 0 <= i < shorter.len() - 1 implies graph.has_edge(
            #[trigger] shorter[i],
            shorter[i + 1],
        ) by {
            assert(shorter[i] == path[i]);
            assert(shorter[i + 1] == path[i + 1]);
        }
        lemma_path_is_routed(graph, state, from, shorter);
        let c = path[path.len() - 2];
        assert(shorter.last() == c);
        assert(graph.has_edge(c, path[path.len() - 2 + 1]));
        assert(!pending(state.queue, c));
        assert(!pending(state.queue, path.last()));
    }
}

/// A formula of negated variables that has a cube holds where no variable
/// is true.
pub proof fn lemma_negative_holds(f: Seq<Seq<Term>>)
    requires
        negative_only(f),
        f.len() > 0,
    ensures
        form_holds(f, Set::<int>::empty()),
{
    let interp = Set::<int>::empty();
    assert forall|j: int| 0 <= j < f[0].len() implies (#[trigger] f[0][j]).holds(interp) by {
        assert(f[0][j] is NegVar);
    }
    assert(cube_holds(f[0], interp));
}

/// The router is complete over reachability: when a run from the source
/// `from` has ended with an empty queue, the constraints of every node that
/// can be reached from the source along edges are not false; they hold
/// where no port is in use.
pub proof fn lemma_routing_reaches_all(
    graph: RoutingGraph,
    from: int,
    optimize_implies: bool,
    budget: nat,
    to: int,
)
    requires
        0 <= from < graph.size(),
        run_spec(
            graph,
            initial_state(graph.size(), from),
            optimize_implies,
            budget,
        ).queue.len() == 0,
        reachable(graph, from, to),
    ensures
        run_spec(
            graph,
            initial_state(graph.size(), from),
            optimize_implies,
            budget,
        ).markers[to].constraints.len() > 0,
        form_holds(
            run_spec(
                graph,
                initial_state(graph.size(), from),
                optimize_implies,
                budget,
            ).markers[to].constraints,
            Set::<int>::empty(),
        ),
{
    let start = initial_state(graph.size(), from);
    let end = run_spec(graph, start, optimize_implies, budget);
    lemma_initial_state_ok(graph, from);
    assert(progress_ok(graph, start, from)) by {
        lemma_true_form();
        assert(start.queue[0].node == from);
        assert forall|c: int, n: int|
            #![trigger graph.has_edge(c, n)]
            graph.has_edge(c, n) && start.markers[c].constraints.len() > 0
            implies start.markers[n].constraints.len() > 0 || pending(start.queue, n) || pending(
            start.queue,
            c,
        ) by {
            graph.lemma_edges_inside(c, n);
            assert(c == from);
            assert(pending(start.queue, c));
        }
    }
    lemma_run_keeps_ok(graph, start, optimize_implies, budget);
    lemma_run_keeps_progress(graph, start, optimize_implies, budget, from);
    let path = choose|path: Seq<int>|
        #[trigger] is_path(graph, path) && path[0] == from && path.last() == to;
    lemma_path_is_routed(graph, end, from, path);
    assert(0 <= to < graph.size()) by {
        if path.len() > 1 {
            assert(graph.has_edge(path[path.len() - 2], path[path.len() - 2 + 1]));
            graph.lemma_edges_inside(path[path.len() - 2], to);
        }
    }
    lemma_negative_holds(end.markers[to].constraints);
}

/// The term is a constant, or a literal of a variable from 0 up to `n`.
pub open spec fn key_below(n: int) -> spec_fn(Term) -> bool {
    |t: Term| !t.is_literal() || 0 <= t.var_key() < n
}

/// The formulas of all nodes speak of the nodes of the graph only.
pub open spec fn keys_ok(graph: RoutingGraph, state: RouterState) -> bool {
    forall|i: int|
        0 <= i < state.markers.len() ==> all_terms(
            (#[trigger] state.markers[i]).constraints,
            key_below(graph.size()),
        ) && all_terms(state.markers[i].activated, key_below(graph.size()))
}

/// Adding terms that are as `pred` asks to a formula whose terms are so
/// gives a formula whose terms are so.
pub proof fn lemma_conj_all_terms(f: Seq<Seq<Term>>, terms: Seq<Term>, pred: spec_fn(Term) -> bool)
    requires
        all_terms(f, pred),
        pred(Term::False),
        forall|i: int| 0 <= i < terms.len() ==> pred(#[trigger] terms[i]),
    ensures
        all_terms(conj_all(f, terms), pred),
    decreases terms.len(),
{
    if terms.len() > 0 {
        let rest = terms.drop_last();
        assert forall|i: int| 0 <= i < rest.len() implies pred(#[trigger] rest[i]) by {
            assert(rest[i] == terms[i]);
        }
        lemma_conj_all_terms(f, rest, pred);
        lemma_conjunct_term_terms(conj_all(f, rest), terms.last(), pred);
    }
}

/// The required terms are of nodes of the graph.
pub proof fn lemma_required_terms_inside(graph: RoutingGraph, node: int, prev: int, upto: int)
    requires
        upto <= graph.size(),
    ensures
        forall|i: int|
            0 <= i < required_terms(graph, node, prev, upto).len() ==> key_below(graph.size())(
                #[trigger] required_terms(graph, node, prev, upto)[i],
            ),
    decreases upto,
{
    if upto > 0 {
        lemma_required_terms_inside(graph, node, prev, upto - 1);
        let before = required_terms(graph, node, prev, upto - 1);
        let now = required_terms(graph, node, prev, upto);
        assert forall|i: int| 0 <= i < now.len() implies key_below(graph.size())(#[trigger] now[i]) by {
            if i < before.len() {
                assert(now[i] == before[i]);
            }
        }
    }
}

/// Two formulas whose terms are as `pred` asks, side by side, are a
/// formula whose terms are so.
pub proof fn lemma_concat_terms(f: Seq<Seq<Term>>, g: Seq<Seq<Term>>, pred: spec_fn(Term) -> bool)
    requires
        all_terms(f, pred),
        all_terms(g, pred),
    ensures
        all_terms(f + g, pred),
{
    let h = f + g;
    assert forall|i: int, j: int| 0 <= i < h.len() && 0 <= j < h[i].len() implies pred(
        #[trigger] h[i][j],
    ) by {
        if i < f.len() {
            assert(h[i] == f[i]);
            assert(pred(f[i][j]));
        } else {
            assert(h[i] == g[i - f.len()]);
            assert(pred(g[i - f.len()][j]));
        }
    }
}

/// Processing a frame keeps the formulas speaking of the nodes of the graph
/// only.
pub proof fn lemma_expand_keeps_keys(
    graph: RoutingGraph,
    state: RouterState,
    frame: Frame,
    optimize_implies: bool,
)
    requires
        state_ok(graph, state),
        keys_ok(graph, state),
        frame_ok(graph, frame),
    ensures
        keys_ok(graph, expand_spec(graph, state, frame, optimize_implies)),
{
    let pred = key_below(graph.size());
    let next = expand_spec(graph, state, frame, optimize_implies);
    let requirements = new_requirements(graph, state.markers, frame);
    let activators = new_activators(graph, state.markers, frame);
    assert(all_terms(true_form(), pred));
    match frame.prev {
        Some(p) => {
            lemma_required_terms_inside(graph, frame.node, p, graph.size());
            lemma_conj_all_terms(
                state.markers[p].constraints,
                required_terms(graph, frame.node, p, graph.size()),
                pred,
            );
            if graph.has_edge(p, frame.node) {
                lemma_conjunct_term_terms(state.markers[p].activated, Term::Var(p), pred);
            }
        },
        None => {},
    }
    lemma_concat_terms(state.markers[frame.node].constraints, requirements, pred);
    lemma_concat_terms(state.markers[frame.node].activated, activators, pred);
    assert forall|i: int| 0 <= i < next.markers.len() implies all_terms(
        (#[trigger] next.markers[i]).constraints,
        pred,
    ) && all_terms(next.markers[i].activated, pred) by {
        if i != frame.node {
            assert(next.markers[i] == state.markers[i]);
        }
    }
}

/// Steps keep the formulas speaking of the nodes of the graph only.
pub proof fn lemma_run_keeps_keys(
    graph: RoutingGraph,
    state: RouterState,
    optimize_implies: bool,
    budget: nat,
)
    requires
        state_ok(graph, state),
        keys_ok(graph, state),
    ensures
        keys_ok(graph, run_spec(graph, state, optimize_implies, budget)),
    decreases budget,
{
    if budget == 0 || state.queue.len() == 0 {
    } else {
        lemma_step_keeps_ok(graph, state, optimize_implies);
        let rest = RouterState { markers: state.markers, queue: state.queue.skip(1) };
        lemma_expand_keeps_keys(graph, rest, state.queue[0], optimize_implies);
        lemma_run_keeps_keys(
            graph,
            step_spec(graph, state, optimize_implies),
            optimize_implies,
            (budget - 1) as nat,
        );
    }
}

/// The formulas of a run from a node of the graph speak of the nodes of the
/// graph only.
pub proof fn lemma_routed_keys(graph: RoutingGraph, from: int, optimize_implies: bool, budget: nat)
    requires
        0 <= from < graph.size(),
    ensures
        keys_ok(
            graph,
            run_spec(graph, initial_state(graph.size(), from), optimize_implies, budget),
        ),
{
    let start = initial_state(graph.size(), from);
    lemma_initial_state_ok(graph, from);
    assert(keys_ok(graph, start)) by {
        assert(all_terms(true_form(), key_below(graph.size())));
    }
    lemma_run_keeps_keys(graph, start, optimize_implies, budget);
}

} // verus!
