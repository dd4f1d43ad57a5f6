//! The pin-to-pin router reaches every node that can be reached.
//!
//! A run need not end for that: the frames leave the queue in the order in
//! which they came, so every frame is processed after as many steps as
//! there are frames before it, and a node that has been reached stays
//! reached.

use super::graph::RoutingGraph;
use super::route_spec::{negative_only, initial_state, is_path, lemma_initial_state_ok, lemma_negative_holds, lemma_run_keeps_ok, lemma_run_keeps_progress, lemma_step_keeps_ok, lemma_step_keeps_progress, lemma_true_form, pending, progress_ok, reachable, run_spec, state_ok, step_spec, RouterState};
use crate::logic_formula::form::form_holds;
use vstd::prelude::*;

verus! {

/// The node has been reached: its constraints have a cube.
pub open spec fn is_routed(state: RouterState, node: int) -> bool {
    0 <= node < state.markers.len() && state.markers[node].constraints.len() > 0
}

/// A run of so many steps is a run of the first of them and then a run of
/// the others.
pub proof fn lemma_run_in_two_parts(
    graph: RoutingGraph,
    state: RouterState,
    optimize_implies: bool,
    first: nat,
    second: nat,
)
    ensures
        run_spec(graph, state, optimize_implies, first + second) == run_spec(
            graph,
            run_spec(graph, state, optimize_implies, first),
            optimize_implies,
            second,
        ),
    decreases first,
{
    if first == 0 {
    } else if state.queue.len() == 0 {
    } else {
        lemma_run_in_two_parts(
            graph,
            step_spec(graph, state, optimize_implies),
            optimize_implies,
            (first - 1) as nat,
            second,
        );
        assert(((first + second) - 1) as nat == (first - 1) as nat + second);
    }
}

/// A node that has been reached stays reached.
pub proof fn lemma_routed_stays(
    graph: RoutingGraph,
    state: RouterState,
    optimize_implies: bool,
    from: int,
    budget: nat,
    node: int,
)
    requires
        state_ok(graph, state),
        progress_ok(graph, state, from),
        is_routed(state, node),
    ensures
        is_routed(run_spec(graph, state, optimize_implies, budget), node),
    decreases budget,
{
    if budget == 0 || state.queue.len() == 0 {
    } else {
        lemma_step_keeps_ok(graph, state, optimize_implies);
        lemma_step_keeps_progress(graph, state, optimize_implies, from);
        assert(state.markers[node].constraints.len() > 0);
        lemma_routed_stays(
            graph,
            step_spec(graph, state, optimize_implies),
            optimize_implies,
            from,
            (budget - 1) as nat,
            node,
        );
    }
}

/// The frames leave the queue in the order in which they came: after `at`
/// steps the frame that stood at `at` is the first.
pub proof fn lemma_frame_comes_first(
    graph: RoutingGraph,
    state: RouterState,
    optimize_implies: bool,
    at: int,
)
    requires
        0 <= at < state.queue.len(),
    ensures
        run_spec(graph, state, optimize_implies, at as nat).queue.len() > 0,
        run_spec(graph, state, optimize_implies, at as nat).queue[0] == state.queue[at],
    decreases at,
{
    if at > 0 {
        let next = step_spec(graph, state, optimize_implies);
        assert(next.queue[at - 1] == state.queue[at]);
        lemma_frame_comes_first(graph, next, optimize_implies, at - 1);
    }
}

/// The node of a frame of the queue is reached after as many steps as
/// there are frames up to it, and then stays reached.
pub proof fn lemma_pending_gets_routed(
    graph: RoutingGraph,
    state: RouterState,
    optimize_implies: bool,
    from: int,
    at: int,
    budget: nat,
)
    requires
        state_ok(graph, state),
        progress_ok(graph, state, from),
        0 <= at < state.queue.len(),
        budget > at,
    ensures
        is_routed(run_spec(graph, state, optimize_implies, budget), state.queue[at].node),
{
    let head = run_spec(graph, state, optimize_implies, at as nat);
    let node = state.queue[at].node;
    lemma_frame_comes_first(graph, state, optimize_implies, at);
    lemma_run_keeps_ok(graph, state, optimize_implies, at as nat);
    lemma_run_keeps_progress(graph, state, optimize_implies, at as nat, from);
    lemma_step_keeps_ok(graph, head, optimize_implies);
    lemma_step_keeps_progress(graph, head, optimize_implies, from);
    let next = step_spec(graph, head, optimize_implies);
    let rest = (budget - at - 1) as nat;
    lemma_run_in_two_parts(graph, state, optimize_implies, at as nat, (budget - at) as nat);
    assert(at as nat + (budget - at) as nat == budget);
    assert(run_spec(graph, head, optimize_implies, (budget - at) as nat) == run_spec(
        graph,
        next,
        optimize_implies,
        rest,
    ));
    assert(is_routed(next, node));
    lemma_routed_stays(graph, next, optimize_implies, from, rest, node);
}

/// A node that has been reached or has a frame in the queue is reached
/// from some number of steps on.
pub proof fn lemma_node_gets_routed(
    graph: RoutingGraph,
    state: RouterState,
    optimize_implies: bool,
    from: int,
    node: int,
) -> (enough: nat)
    requires
        state_ok(graph, state),
        progress_ok(graph, state, from),
        is_routed(state, node) || pending(state.queue, node),
    ensures
        forall|budget: nat|
            budget >= enough ==> is_routed(
                #[trigger] run_spec(graph, state, optimize_implies, budget),
                node,
            ),
{
    if is_routed(state, node) {
        assert forall|budget: nat| budget >= 0 implies is_routed(
            #[trigger] run_spec(graph, state, optimize_implies, budget),
            node,
        ) by {
            lemma_routed_stays(graph, state, optimize_implies, from, budget, node);
        }
        0
    } else {
        let at = choose|q: int| 0 <= q < state.queue.len() && (#[trigger] state.queue[q]).node == node;
        assert forall|budget: nat| budget >= at + 1 implies is_routed(
            #[trigger] run_spec(graph, state, optimize_implies, budget),
            node,
        ) by {
            lemma_pending_gets_routed(graph, state, optimize_implies, from, at, budget);
        }
        (at + 1) as nat
    }
}

/// Where a node that has been reached has an edge to a node, that node is
/// reached from some number of steps on.
pub proof fn lemma_successor_gets_routed(
    graph: RoutingGraph,
    state: RouterState,
    optimize_implies: bool,
    from: int,
    node: int,
    next: int,
) -> (enough: nat)
    requires
        state_ok(graph, state),
        progress_ok(graph, state, from),
        is_routed(state, node),
        graph.has_edge(node, next),
    ensures
        forall|budget: nat|
            budget >= enough ==> is_routed(
                #[trigger] run_spec(graph, state, optimize_implies, budget),
                next,
            ),
{
    graph.lemma_edges_inside(node, next);
    if is_routed(state, next) || pending(state.queue, next) {
        lemma_node_gets_routed(graph, state, optimize_implies, from, next)
    } else {
        assert(pending(state.queue, node));
        let at = choose|q: int| 0 <= q < state.queue.len() && (#[trigger] state.queue[q]).node == node;
        let head = run_spec(graph, state, optimize_implies, at as nat);
        lemma_frame_comes_first(graph, state, optimize_implies, at);
        lemma_run_keeps_ok(graph, state, optimize_implies, at as nat);
        lemma_run_keeps_progress(graph, state, optimize_implies, at as nat, from);
        lemma_step_keeps_ok(graph, head, optimize_implies);
        lemma_step_keeps_progress(graph, head, optimize_implies, from);
        let after = step_spec(graph, head, optimize_implies);
        assert(graph.has_edge(head.queue[0].node, next));
        assert(is_routed(after, next) || pending(after.queue, next));
        let more = lemma_node_gets_routed(graph, after, optimize_implies, from, next);
        let enough = (at + 1 + more) as nat;
        assert forall|budget: nat| budget >= enough implies is_routed(
            #[trigger] run_spec(graph, state, optimize_implies, budget),
            next,
        ) by {
            let rest = (budget - at - 1) as nat;
            lemma_run_in_two_parts(graph, state, optimize_implies, at as nat, (budget - at) as nat);
            assert(at as nat + (budget - at) as nat == budget);
            assert(run_spec(graph, head, optimize_implies, (budget - at) as nat) == run_spec(
                graph,
                after,
                optimize_implies,
                rest,
            ));
            assert(rest >= more);
        }
        enough
    }
}

/// The node at the end of a path from the source is reached from some
/// number of steps on.
pub proof fn lemma_path_gets_routed(
    graph: RoutingGraph,
    from: int,
    optimize_implies: bool,
    path: Seq<int>,
) -> (enough: nat)
    requires
        0 <= from < graph.size(),
        is_path(graph, path),
        path[0] == from,
    ensures
        forall|budget: nat|
            budget >= enough ==> is_routed(
                #[trigger] run_spec(
                    graph,
                    initial_state(graph.size(), from),
                    optimize_implies,
                    budget,
                ),
                path.last(),
            ),
    decreases path.len(),
{
    let start = initial_state(graph.size(), from);
    lemma_initial_state_ok(graph, from);
    lemma_initial_progress(graph, from);
    if path.len() == 1 {
        lemma_node_gets_routed(graph, start, optimize_implies, from, from)
    } else {
        let shorter = path.drop_last();
        assert forall|i: int| 0 <= i < shorter.len() - 1 implies graph.has_edge(
            #[trigger] shorter[i],
            shorter[i + 1],
        ) by {
            assert(shorter[i] == path[i]);
            assert(shorter[i + 1] == path[i + 1]);
        }
        let first = lemma_path_gets_routed(graph, from, optimize_implies, shorter);
        let node = path[path.len() - 2];
        assert(shorter.last() == node);
        assert(graph.has_edge(node, path[path.len() - 2 + 1]));
        let middle = run_spec(graph, start, optimize_implies, first);
        lemma_run_keeps_ok(graph, start, optimize_implies, first);
        lemma_run_keeps_progress(graph, start, optimize_implies, first, from);
        assert(is_routed(middle, node));
        let second = lemma_successor_gets_routed(
            graph,
            middle,
            optimize_implies,
            from,
            node,
            path.last(),
        );
        assert forall|budget: nat| budget >= first + second implies is_routed(
            #[trigger] run_spec(graph, start, optimize_implies, budget),
            path.last(),
        ) by {
            lemma_run_in_two_parts(graph, start, optimize_implies, first, (budget - first) as nat);
            assert(first + (budget - first) as nat == budget);
        }
        first + second
    }
}

/// The expansion is under way in the state in which the router starts.
pub proof fn lemma_initial_progress(graph: RoutingGraph, from: int)
    requires
        0 <= from < graph.size(),
    ensures
        progress_ok(graph, initial_state(graph.size(), from), from),
{
    let start = initial_state(graph.size(), from);
    lemma_true_form();
    assert(start.queue[0].node == from);
    assert forall|c: int, n: int|
        #![trigger graph.has_edge(c, n)]
        graph.has_edge(c, n) && start.markers[c].constraints.len() > 0
        implies start.markers[n].constraints.len() > 0 || pending(start.queue, n) || pending(
        start.queue,
        c,
    ) by {
        graph.lemma_edges_inside(c, n);
        assert(c == from);
        assert(pending(start.queue, c));
    }
}

/// The router is complete over reachability, whether the run ends or not:
/// for every node that can be reached from the source along edges there is
/// a number of steps from which on the constraints of the node are not
/// false: they have a cube, their cubes hold negated variables only, and
/// they hold where no port is in use.
pub proof fn lemma_enough_steps_reach_the_node(
    graph: RoutingGraph,
    from: int,
    optimize_implies: bool,
    to: int,
) -> (enough: nat)
    requires
        0 <= from < graph.size(),
        reachable(graph, from, to),
    ensures
        forall|budget: nat|
            budget >= enough ==> (#[trigger] run_spec(
                graph,
                initial_state(graph.size(), from),
                optimize_implies,
                budget,
            )).markers[to].constraints.len() > 0,
        forall|budget: nat|
            budget >= enough ==> negative_only(
                (#[trigger] run_spec(
                    graph,
                    initial_state(graph.size(), from),
                    optimize_implies,
                    budget,
                )).markers[to].constraints,
            ),
        forall|budget: nat|
            budget >= enough ==> form_holds(
                (#[trigger] run_spec(
                    graph,
                    initial_state(graph.size(), from),
                    optimize_implies,
                    budget,
                )).markers[to].constraints,
                Set::<int>::empty(),
            ),
{
    let start = initial_state(graph.size(), from);
    let path = choose|path: Seq<int>|
        #[trigger] is_path(graph, path) && path[0] == from && path.last() == to;
    let enough = lemma_path_gets_routed(graph, from, optimize_implies, path);
    lemma_initial_state_ok(graph, from);
    assert forall|budget: nat| budget >= enough implies negative_only(
        (#[trigger] run_spec(graph, start, optimize_implies, budget)).markers[to].constraints,
    ) && form_holds(
        run_spec(graph, start, optimize_implies, budget).markers[to].constraints,
        Set::<int>::empty(),
    ) by {
        let end = run_spec(graph, start, optimize_implies, budget);
        lemma_run_keeps_ok(graph, start, optimize_implies, budget);
        assert(is_routed(end, to));
        lemma_negative_holds(end.markers[to].constraints);
    }
    enough
}

} // verus!
