//! How many steps the pin-to-pin router makes.
//!
//! On a graph with cycles the router may go on for ever: the budget of
//! steps is what ends such a run.  Where the graph lets its nodes be
//! weighted so that every node weighs more than the nodes that it drives
//! together, which is so where no walk along edges comes back to its start,
//! the weight of the source bounds the number of steps, and any budget from
//! that weight on lets the run come to its end.

use super::graph::RoutingGraph;
use super::route_spec::{frame_ok, initial_state, lemma_initial_state_ok, lemma_routing_reaches_all, lemma_step_keeps_ok, new_frames, reachable, run_spec, run_steps, state_ok, step_spec, Frame, Marker, RouterState};
use vstd::arithmetic::power::{lemma_pow1, lemma_pow_adds, lemma_pow_increases, lemma_pow_positive, pow};
use vstd::prelude::*;

verus! {

/// The weights of the nodes of the frames of the queue, summed.
pub open spec fn queue_weight(queue: Seq<Frame>, weight: spec_fn(int) -> nat) -> nat
    decreases queue.len(),
{
    if queue.len() == 0 {
        0
    } else {
        queue_weight(queue.drop_last(), weight) + weight(queue.last().node)
    }
}

/// The weights of the nodes below `upto` that `node` has an edge to,
/// summed.
pub open spec fn successors_weight(
    graph: RoutingGraph,
    weight: spec_fn(int) -> nat,
    node: int,
    upto: int,
) -> nat
    decreases upto,
{
    if upto <= 0 {
        0
    } else if graph.has_edge(node, upto - 1) {
        successors_weight(graph, weight, node, upto - 1) + weight(upto - 1)
    } else {
        successors_weight(graph, weight, node, upto - 1)
    }
}

/// Every node of the graph weighs more than the nodes that it has an edge
/// to weigh together.
pub open spec fn weights_fall(graph: RoutingGraph, weight: spec_fn(int) -> nat) -> bool {
    forall|c: int|
        0 <= c < graph.size() ==> successors_weight(graph, weight, c, graph.size()) < #[trigger] weight(
            c,
        )
}

/// The weight of two queues put together is the sum of their weights.
pub proof fn lemma_queue_weight_concat(a: Seq<Frame>, b: Seq<Frame>, weight: spec_fn(int) -> nat)
    ensures
        queue_weight(a + b, weight) == queue_weight(a, weight) + queue_weight(b, weight),
    decreases b.len(),
{
    if b.len() == 0 {
        assert(a + b =~= a);
    } else {
        assert((a + b).drop_last() =~= a + b.drop_last());
        assert((a + b).last() == b.last());
        lemma_queue_weight_concat(a, b.drop_last(), weight);
    }
}

/// The weight of a queue is the weight of the node of its first frame and
/// the weight of the rest.
pub proof fn lemma_queue_weight_first(queue: Seq<Frame>, weight: spec_fn(int) -> nat)
    requires
        queue.len() > 0,
    ensures
        queue_weight(queue, weight) == weight(queue[0].node) + queue_weight(queue.skip(1), weight),
{
    let first = seq![queue[0]];
    assert(first + queue.skip(1) =~= queue);
    lemma_queue_weight_concat(first, queue.skip(1), weight);
    assert(first.drop_last() =~= Seq::<Frame>::empty());
    assert(queue_weight(first.drop_last(), weight) == 0);
    assert(first.last() == queue[0]);
}

/// The frames that a node queues weigh no more than the nodes that it has
/// an edge to.
pub proof fn lemma_new_frames_weight(
    graph: RoutingGraph,
    markers: Seq<Marker>,
    node: int,
    upto: int,
    weight: spec_fn(int) -> nat,
)
    ensures
        queue_weight(new_frames(graph, markers, node, upto), weight) <= successors_weight(
            graph,
            weight,
            node,
            upto,
        ),
    decreases upto,
{
    if upto > 0 {
        lemma_new_frames_weight(graph, markers, node, upto - 1, weight);
        let before = new_frames(graph, markers, node, upto - 1);
        let frames = new_frames(graph, markers, node, upto);
        if frames != before {
            let frame = Frame { prev: Some(node), node: upto - 1 };
            assert(frames == before.push(frame));
            assert(frames.drop_last() =~= before);
            assert(frames.last() == frame);
        }
    }
}

/// Where the weights fall along the edges, a step takes weight off the
/// queue.
pub proof fn lemma_step_takes_weight(
    graph: RoutingGraph,
    state: RouterState,
    optimize_implies: bool,
    weight: spec_fn(int) -> nat,
)
    requires
        state_ok(graph, state),
        state.queue.len() > 0,
        weights_fall(graph, weight),
    ensures
        queue_weight(step_spec(graph, state, optimize_implies).queue, weight) < queue_weight(
            state.queue,
            weight,
        ),
{
    let frame = state.queue[0];
    assert(frame_ok(graph, frame));
    let after = step_spec(graph, state, optimize_implies);
    let queued = new_frames(graph, after.markers, frame.node, graph.size());
    assert(after.queue == state.queue.skip(1) + queued);
    lemma_queue_weight_first(state.queue, weight);
    lemma_queue_weight_concat(state.queue.skip(1), queued, weight);
    lemma_new_frames_weight(graph, after.markers, frame.node, graph.size(), weight);
    assert(successors_weight(graph, weight, frame.node, graph.size()) < weight(frame.node));
}

/// Where the weights fall along the edges, a run makes no more steps than
/// its queue weighs, and with a budget of that weight or more it ends with
/// an empty queue.
pub proof fn lemma_weight_bounds_the_steps(
    graph: RoutingGraph,
    state: RouterState,
    optimize_implies: bool,
    budget: nat,
    weight: spec_fn(int) -> nat,
)
    requires
        state_ok(graph, state),
        weights_fall(graph, weight),
    ensures
        run_steps(graph, state, optimize_implies, budget) <= queue_weight(state.queue, weight),
        budget >= queue_weight(state.queue, weight) ==> run_spec(
            graph,
            state,
            optimize_implies,
            budget,
        ).queue.len() == 0,
    decreases budget,
{
    if state.queue.len() == 0 {
    } else {
        lemma_step_takes_weight(graph, state, optimize_implies, weight);
        if budget > 0 {
            lemma_step_keeps_ok(graph, state, optimize_implies);
            lemma_weight_bounds_the_steps(
                graph,
                step_spec(graph, state, optimize_implies),
                optimize_implies,
                (budget - 1) as nat,
                weight,
            );
        }
    }
}

/// The run from a source ends on a graph whose weights fall along the
/// edges: it makes no more steps than the source weighs, whatever the
/// budget is, and with a budget of that weight or more it ends with an
/// empty queue.
pub proof fn lemma_falling_weights_end_the_run(
    graph: RoutingGraph,
    from: int,
    optimize_implies: bool,
    budget: nat,
    weight: spec_fn(int) -> nat,
)
    requires
        0 <= from < graph.size(),
        weights_fall(graph, weight),
    ensures
        run_steps(graph, initial_state(graph.size(), from), optimize_implies, budget) <= weight(from),
        budget >= weight(from) ==> run_spec(
            graph,
            initial_state(graph.size(), from),
            optimize_implies,
            budget,
        ).queue.len() == 0,
{
    let start = initial_state(graph.size(), from);
    lemma_initial_state_ok(graph, from);
    lemma_queue_weight_first(start.queue, weight);
    assert(start.queue.skip(1) =~= Seq::<Frame>::empty());
    assert(queue_weight(start.queue.skip(1), weight) == 0);
    lemma_weight_bounds_the_steps(graph, start, optimize_implies, budget, weight);
}

/// The router is complete over reachability on a graph whose weights fall
/// along the edges: with a budget of the weight of the source or more, the
/// constraints of every node that can be reached from the source along
/// edges are not false.
pub proof fn lemma_falling_weights_reach_all(
    graph: RoutingGraph,
    from: int,
    optimize_implies: bool,
    budget: nat,
    weight: spec_fn(int) -> nat,
    to: int,
)
    requires
        0 <= from < graph.size(),
        weights_fall(graph, weight),
        budget >= weight(from),
        reachable(graph, from, to),
    ensures
        run_spec(
            graph,
            initial_state(graph.size(), from),
            optimize_implies,
            budget,
        ).markers[to].constraints.len() > 0,
{
    lemma_falling_weights_end_the_run(graph, from, optimize_implies, budget, weight);
    lemma_routing_reaches_all(graph, from, optimize_implies, budget, to);
}

/// The rank falls along every edge of the graph: a node has a higher rank
/// than every node that it has an edge to.  A graph has such ranks where no
/// walk along its edges comes back to its start.
pub open spec fn ranks_fall(graph: RoutingGraph, rank: spec_fn(int) -> nat) -> bool {
    forall|a: int, b: int| #[trigger] graph.has_edge(a, b) ==> rank(b) < rank(a)
}

/// The weight that its rank gives a node: the number of nodes and one, to
/// the power of the rank.
pub open spec fn weight_of_rank(graph: RoutingGraph, rank: spec_fn(int) -> nat) -> spec_fn(
    int,
) -> nat {
    |v: int| pow(graph.size() + 1, rank(v)) as nat
}

/// Where the ranks fall along the edges, the nodes below `upto` that a
/// node has an edge to weigh no more together than `upto` nodes of the rank
/// below its own; a node of rank 0 has no edges.
pub proof fn lemma_successors_weigh_less(
    graph: RoutingGraph,
    rank: spec_fn(int) -> nat,
    node: int,
    upto: int,
)
    requires
        ranks_fall(graph, rank),
        0 <= upto,
    ensures
        rank(node) == 0 ==> successors_weight(graph, weight_of_rank(graph, rank), node, upto) == 0,
        rank(node) > 0 ==> successors_weight(graph, weight_of_rank(graph, rank), node, upto) <= upto
            * pow(graph.size() + 1, (rank(node) - 1) as nat),
    decreases upto,
{
    let base = graph.size() + 1;
    let weight = weight_of_rank(graph, rank);
    if upto > 0 {
        lemma_successors_weigh_less(graph, rank, node, upto - 1);
        if rank(node) > 0 {
            let below = (rank(node) - 1) as nat;
            let top = pow(base, below);
            lemma_pow_positive(base, below);
            if graph.has_edge(node, upto - 1) {
                lemma_pow_increases(base as nat, rank(upto - 1), below);
                lemma_pow_positive(base, rank(upto - 1));
                assert(weight(upto - 1) == pow(base, rank(upto - 1)));
                assert(weight(upto - 1) <= top);
            }
            assert(upto * top == (upto - 1) * top + top) by (nonlinear_arith);
        } else {
            assert(!graph.has_edge(node, upto - 1));
        }
    }
}

/// Where the ranks fall along the edges, the weights that the ranks give
/// fall along the edges.
pub proof fn lemma_ranks_give_weights(graph: RoutingGraph, rank: spec_fn(int) -> nat)
    requires
        ranks_fall(graph, rank),
    ensures
        weights_fall(graph, weight_of_rank(graph, rank)),
{
    let base = graph.size() + 1;
    let weight = weight_of_rank(graph, rank);
    assert forall|c: int| 0 <= c < graph.size() implies successors_weight(
        graph,
        weight,
        c,
        graph.size(),
    ) < #[trigger] weight(c) by {
        lemma_successors_weigh_less(graph, rank, c, graph.size());
        lemma_pow_positive(base, rank(c));
        assert(weight(c) == pow(base, rank(c)));
        if rank(c) > 0 {
            let below = (rank(c) - 1) as nat;
            let top = pow(base, below);
            lemma_pow_positive(base, below);
            lemma_pow_adds(base, 1, below);
            lemma_pow1(base);
            assert(1 + below == rank(c));
            assert(pow(base, rank(c)) == base * top);
            assert(graph.size() * top < base * top) by (nonlinear_arith)
                requires
                    base == graph.size() + 1,
                    top > 0,
            ;
        }
    }
}

/// The number of steps is bounded on a graph without cycles: where the
/// ranks fall along the edges, a run from a source makes no more steps than
/// the number of nodes and one, to the power of the rank of the source, and
/// with a budget of that size or more it ends with an empty queue.
pub proof fn lemma_ranks_bound_the_steps(
    graph: RoutingGraph,
    from: int,
    optimize_implies: bool,
    budget: nat,
    rank: spec_fn(int) -> nat,
)
    requires
        0 <= from < graph.size(),
        ranks_fall(graph, rank),
    ensures
        run_steps(graph, initial_state(graph.size(), from), optimize_implies, budget) <= pow(
            graph.size() + 1,
            rank(from),
        ),
        budget >= pow(graph.size() + 1, rank(from)) ==> run_spec(
            graph,
            initial_state(graph.size(), from),
            optimize_implies,
            budget,
        ).queue.len() == 0,
{
    let weight = weight_of_rank(graph, rank);
    lemma_ranks_give_weights(graph, rank);
    lemma_pow_positive(graph.size() + 1, rank(from));
    assert(weight(from) == pow(graph.size() + 1, rank(from)));
    lemma_falling_weights_end_the_run(graph, from, optimize_implies, budget, weight);
}

} // verus!
