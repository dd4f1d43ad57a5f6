//! Routing from every pin of a site, and what follows from the routes for
//! the ports of the site.

use super::graph::RoutingGraph;
use super::names::{PinDir, SitePinId};
use super::route_spec::{initial_state, key_below, lemma_initial_state_ok, lemma_routed_keys, lemma_run_keeps_ok, negative_only, run_spec, Marker};
use super::routing_info::{entries_view, lemma_sort_by_len_terms, pin_lists_view, sort_by_len, Entry, PairInfo, PinPairEntry, PinPairRoutingInfo, RoutingInfo};
use super::site_brute_router::{PTPRMarker, PortToPortRouter, QuietObserver, RouteObserver};
use crate::common::split_range_nicely;
use crate::logic_formula::form::DNFForm;
use crate::logic_formula::mergable::MergableDNFForm;
use crate::logic_formula::form::all_terms;
use crate::logic_formula::optimize::{lemma_optimize_terms, optimize_spec};
use crate::logic_formula::term::Term;
use vstd::prelude::*;

verus! {

/// The formulas of all nodes after the net was expanded from `from`, in
/// `budget` steps at most.
pub open spec fn routed_markers(graph: RoutingGraph, from: int, optimize: bool, budget: nat) -> Seq<
    Marker,
> {
    run_spec(graph, initial_state(graph.size(), from), optimize, budget).markers
}

/// Has the expansion from `from` come to its end in `budget` steps?
pub open spec fn run_finished(graph: RoutingGraph, from: int, optimize: bool, budget: nat) -> bool {
    run_spec(graph, initial_state(graph.size(), from), optimize, budget).queue.len() == 0
}

/// The routing relationship that the formulas of a node stand for: the
/// cubes of the constraints, optimized if that is asked for, and the cubes
/// of the activators, both sorted by their number of terms.
pub open spec fn pair_info(marker: Marker, optimize: bool) -> PairInfo {
    PairInfo {
        requires: sort_by_len(
            if optimize {
                optimize_spec(marker.constraints)
            } else {
                marker.constraints
            },
        ),
        implies: sort_by_len(marker.activated),
    }
}

/// The routing relationships of the pin `from` with all pins.
pub open spec fn routes_spec(graph: RoutingGraph, from: int, optimize: bool, budget: nat) -> Seq<
    PairInfo,
> {
    routed_markers(graph, from, optimize, budget).map_values(|m: Marker| pair_info(m, optimize))
}

/// The entries for the pin `from` and the pins below `upto`: one for every
/// other pin that the pin has a routing relationship with.
pub open spec fn pairs_spec(from: int, infos: Seq<PairInfo>, upto: int) -> Seq<Entry>
    decreases upto,
{
    if upto <= 0 {
        Seq::empty()
    } else {
        let before = pairs_spec(from, infos, upto - 1);
        let info = infos[upto - 1];
        if upto - 1 != from && (info.requires.len() != 0 || info.implies.len() != 0) {
            before.push(Entry { from, to: upto - 1, info })
        } else {
            before
        }
    }
}

/// The entries for the source pin `from`.  A pin that is an input only has
/// none.
pub open spec fn source_entries(graph: RoutingGraph, from: int, optimize: bool, budget: nat) -> Seq<
    Entry,
> {
    if graph.nodes()[from].dir is Input {
        Seq::empty()
    } else {
        pairs_spec(from, routes_spec(graph, from, optimize, budget), graph.size())
    }
}

/// The entries for the source pins from `start` up to `end`, in the order
/// of the pins.
pub open spec fn range_spec(
    graph: RoutingGraph,
    start: int,
    end: int,
    optimize: bool,
    budget: nat,
) -> Seq<Entry>
    decreases end - start,
{
    if end <= start {
        Seq::empty()
    } else {
        range_spec(graph, start, end - 1, optimize, budget) + source_entries(
            graph,
            end - 1,
            optimize,
            budget,
        )
    }
}

/// Has the expansion from every source pin from `start` up to `end` come
/// to its end?
pub open spec fn range_finished(
    graph: RoutingGraph,
    start: int,
    end: int,
    optimize: bool,
    budget: nat,
) -> bool {
    forall|from: int|
        start <= from < end && !(graph.nodes()[from].dir is Input) ==> #[trigger] run_finished(
            graph,
            from,
            optimize,
            budget,
        )
}

/// Routing a range of source pins in two parts gives the entries of the
/// whole range: those of the first part followed by those of the second.
pub proof fn lemma_range_splits(
    graph: RoutingGraph,
    start: int,
    mid: int,
    end: int,
    optimize: bool,
    budget: nat,
)
    requires
        start <= mid <= end,
    ensures
        range_spec(graph, start, end, optimize, budget) == range_spec(
            graph,
            start,
            mid,
            optimize,
            budget,
        ) + range_spec(graph, mid, end, optimize, budget),
        range_finished(graph, start, end, optimize, budget) == (range_finished(
            graph,
            start,
            mid,
            optimize,
            budget,
        ) && range_finished(graph, mid, end, optimize, budget)),
    decreases end - mid,
{
    let first = range_spec(graph, start, mid, optimize, budget);
    if mid == end {
        assert(first + Seq::<Entry>::empty() =~= first);
    } else {
        lemma_range_splits(graph, start, mid, end - 1, optimize, budget);
        let last = source_entries(graph, end - 1, optimize, budget);
        assert((first + range_spec(graph, mid, end - 1, optimize, budget)) + last =~= first + (
        range_spec(graph, mid, end - 1, optimize, budget) + last));
    }
    if range_finished(graph, start, mid, optimize, budget) && range_finished(
        graph,
        mid,
        end,
        optimize,
        budget,
    ) {
        assert forall|from: int|
            start <= from < end && !(graph.nodes()[from].dir is Input)
            implies #[trigger] run_finished(graph, from, optimize, budget) by {
            if from < mid {
            } else {
            }
        }
    }
}

/// The pin is a site port that drives into the site.
pub open spec fn is_outer_source(graph: RoutingGraph, id: int) -> bool {
    graph.nodes()[id].dir.drives() && graph.nodes()[id].kind is SitePort
}

/// The pin is a site port that is driven from inside of the site.
pub open spec fn is_outer_sink(graph: RoutingGraph, id: int) -> bool {
    graph.nodes()[id].dir.sinks() && graph.nodes()[id].kind is SitePort
}

/// For every pin the site ports that the first `upto` entries show to
/// drive it, in the order of the entries.
pub open spec fn out_sources_spec(graph: RoutingGraph, entries: Seq<Entry>, upto: int) -> Seq<
    Seq<int>,
>
    decreases upto,
{
    if upto <= 0 {
        Seq::new(graph.size() as nat, |i: int| Seq::<int>::empty())
    } else {
        let before = out_sources_spec(graph, entries, upto - 1);
        let e = entries[upto - 1];
        if is_outer_source(graph, e.from) {
            before.update(e.to, before[e.to].push(e.from))
        } else {
            before
        }
    }
}

/// For every pin the site ports that the first `upto` entries show it to
/// drive, in the order of the entries.
pub open spec fn out_sinks_spec(graph: RoutingGraph, entries: Seq<Entry>, upto: int) -> Seq<Seq<int>>
    decreases upto,
{
    if upto <= 0 {
        Seq::new(graph.size() as nat, |i: int| Seq::<int>::empty())
    } else {
        let before = out_sinks_spec(graph, entries, upto - 1);
        let e = entries[upto - 1];
        if is_outer_sink(graph, e.to) {
            before.update(e.from, before[e.from].push(e.to))
        } else {
            before
        }
    }
}

/// The entry is about pins of a graph of `n` nodes, and its cubes speak of
/// such pins only.
pub open spec fn entry_inside(e: Entry, n: int) -> bool {
    &&& 0 <= e.from < n
    &&& 0 <= e.to < n
    &&& all_terms(e.info.requires, key_below(n))
    &&& all_terms(e.info.implies, key_below(n))
}

/// The routing relationships of a pin speak of pins of the graph only.
pub proof fn lemma_routes_inside(graph: RoutingGraph, from: int, optimize: bool, budget: nat)
    requires
        0 <= from < graph.size(),
    ensures
        routes_spec(graph, from, optimize, budget).len() == graph.size(),
        forall|t: int|
            0 <= t < graph.size() ==> all_terms(
                (#[trigger] routes_spec(graph, from, optimize, budget)[t]).requires,
                key_below(graph.size()),
            ) && all_terms(
                routes_spec(graph, from, optimize, budget)[t].implies,
                key_below(graph.size()),
            ),
{
    let pred = key_below(graph.size());
    let start = initial_state(graph.size(), from);
    let end = run_spec(graph, start, optimize, budget);
    lemma_initial_state_ok(graph, from);
    lemma_run_keeps_ok(graph, start, optimize, budget);
    lemma_routed_keys(graph, from, optimize, budget);
    let routes = routes_spec(graph, from, optimize, budget);
    assert forall|t: int| 0 <= t < graph.size() implies all_terms(
        (#[trigger] routes[t]).requires,
        pred,
    ) && all_terms(routes[t].implies, pred) by {
        let marker = end.markers[t];
        assert(routes[t] == pair_info(marker, optimize));
        if optimize {
            lemma_optimize_terms(marker.constraints, pred);
            lemma_sort_by_len_terms(optimize_spec(marker.constraints), pred);
        } else {
            lemma_sort_by_len_terms(marker.constraints, pred);
        }
        lemma_sort_by_len_terms(marker.activated, pred);
    }
}

/// The entries of a range of source pins are about pins of the graph, and
/// their cubes speak of pins of the graph only.
pub proof fn lemma_range_entries_inside(
    graph: RoutingGraph,
    start: int,
    end: int,
    optimize: bool,
    budget: nat,
)
    requires
        0 <= start,
        end <= graph.size(),
    ensures
        forall|i: int|
            0 <= i < range_spec(graph, start, end, optimize, budget).len() ==> entry_inside(
                #[trigger] range_spec(graph, start, end, optimize, budget)[i],
                graph.size(),
            ),
    decreases end - start,
{
    if end > start {
        lemma_range_entries_inside(graph, start, end - 1, optimize, budget);
        let before = range_spec(graph, start, end - 1, optimize, budget);
        let last = source_entries(graph, end - 1, optimize, budget);
        let infos = routes_spec(graph, end - 1, optimize, budget);
        lemma_routes_inside(graph, end - 1, optimize, budget);
        lemma_pairs_listed(end - 1, infos, graph.size());
        let now = range_spec(graph, start, end, optimize, budget);
        assert forall|i: int| 0 <= i < now.len() implies entry_inside(
            #[trigger] now[i],
            graph.size(),
        ) by {
            if i < before.len() {
                assert(now[i] == before[i]);
            } else {
                assert(now[i] == last[i - before.len()]);
            }
        }
    }
}

/// The entries of a source pin are for pins below `upto`, each with the
/// routing relationship of its sink pin.
pub proof fn lemma_pairs_listed(from: int, infos: Seq<PairInfo>, upto: int)
    ensures
        forall|i: int|
            0 <= i < pairs_spec(from, infos, upto).len() ==> (#[trigger] pairs_spec(
                from,
                infos,
                upto,
            )[i]).from == from && 0 <= pairs_spec(from, infos, upto)[i].to < upto && pairs_spec(
                from,
                infos,
                upto,
            )[i].info == infos[pairs_spec(from, infos, upto)[i].to],
    decreases upto,
{
    if upto > 0 {
        lemma_pairs_listed(from, infos, upto - 1);
        let before = pairs_spec(from, infos, upto - 1);
        let now = pairs_spec(from, infos, upto);
        assert forall|i: int| 0 <= i < now.len() implies (#[trigger] now[i]).from == from && 0
            <= now[i].to < upto && now[i].info == infos[now[i].to] by {
            if i < before.len() {
                assert(now[i] == before[i]);
            }
        }
    }
}

/// The lists of outer sources and of outer sinks are one for each pin, and
/// hold pins of the entries only.
pub proof fn lemma_out_lists_inside(graph: RoutingGraph, entries: Seq<Entry>, upto: int)
    requires
        0 <= upto <= entries.len(),
        forall|i: int| 0 <= i < entries.len() ==> 0 <= (#[trigger] entries[i]).from < graph.size()
            && 0 <= entries[i].to < graph.size(),
    ensures
        out_sources_spec(graph, entries, upto).len() == graph.size(),
        out_sinks_spec(graph, entries, upto).len() == graph.size(),
        forall|p: int, i: int|
            0 <= p < graph.size() && 0 <= i < out_sources_spec(graph, entries, upto)[p].len() ==> 0
                <= (#[trigger] out_sources_spec(graph, entries, upto)[p][i]) < graph.size(),
        forall|p: int, i: int|
            0 <= p < graph.size() && 0 <= i < out_sinks_spec(graph, entries, upto)[p].len() ==> 0
                <= (#[trigger] out_sinks_spec(graph, entries, upto)[p][i]) < graph.size(),
    decreases upto,
{
    if upto > 0 {
        lemma_out_lists_inside(graph, entries, upto - 1);
        let e = entries[upto - 1];
        let sources_before = out_sources_spec(graph, entries, upto - 1);
        let sources = out_sources_spec(graph, entries, upto);
        assert forall|p: int, i: int|
            0 <= p < graph.size() && 0 <= i < sources[p].len() implies 0 <= (
        #[trigger] sources[p][i]) < graph.size() by {
            if is_outer_source(graph, e.from) && p == e.to {
                if i < sources_before[p].len() {
                    assert(sources[p][i] == sources_before[p][i]);
                }
            } else {
                assert(sources[p] == sources_before[p]);
            }
        }
        let sinks_before = out_sinks_spec(graph, entries, upto - 1);
        let sinks = out_sinks_spec(graph, entries, upto);
        assert forall|p: int, i: int|
            0 <= p < graph.size() && 0 <= i < sinks[p].len() implies 0 <= (#[trigger] sinks[p][i])
            < graph.size() by {
            if is_outer_sink(graph, e.to) && p == e.from {
                if i < sinks_before[p].len() {
                    assert(sinks[p][i] == sinks_before[p][i]);
                }
            } else {
                assert(sinks[p] == sinks_before[p]);
            }
        }
    }
}

/// The routes from a pin to all pins.
#[derive(Debug)]
pub struct PinRoutes {
    /// The routing relationship with every pin, by the identifier of the
    /// pin.
    pub routes: Vec<PinPairRoutingInfo>,
    /// Has the expansion come to its end within the steps allowed?
    pub finished: bool,
}

/// The entries for a range of source pins.
#[derive(Debug)]
pub struct RangeRoutes {
    pub entries: Vec<PinPairEntry>,
    /// Has every expansion come to its end within the steps allowed?
    pub finished: bool,
}

/// The routing relationships, as the contracts see them.
pub open spec fn infos_view(infos: Seq<PinPairRoutingInfo>) -> Seq<PairInfo> {
    infos.map_values(|i: PinPairRoutingInfo| i@)
}

/// Routes from the pin `from` to all pins: expands the net from the pin in
/// `max_steps` steps at most, optimizes the constraints of every pin if
/// `optimize` is set, and sorts the cubes.
pub fn route_pins(graph: &RoutingGraph, from: SitePinId, optimize: bool, max_steps: usize) -> (r:
    PinRoutes)
    requires
        from.0 < graph.size(),
        graph.size() <= u32::MAX,
    ensures
        infos_view(r.routes@) == routes_spec(*graph, from.0 as int, optimize, max_steps as nat),
        r.routes@.len() == graph.size(),
        r.finished == run_finished(*graph, from.0 as int, optimize, max_steps as nat),
{
    let mut quiet = QuietObserver;
    route_pins_observed(graph, from, optimize, max_steps, (), &mut quiet)
}

/// Routes from the pin `from` to all pins as `route_pins` does, and lets
/// the observer watch every step of the expansion.  The first frame bears
/// the accumulator `accumulator`.  The routes are those of `route_pins`,
/// whatever the observer does.
pub fn route_pins_observed<A: Clone, O: RouteObserver<A>>(
    graph: &RoutingGraph,
    from: SitePinId,
    optimize: bool,
    max_steps: usize,
    accumulator: A,
    observer: &mut O,
) -> (r: PinRoutes)
    requires
        from.0 < graph.size(),
        graph.size() <= u32::MAX,
    ensures
        infos_view(r.routes@) == routes_spec(*graph, from.0 as int, optimize, max_steps as nat),
        r.routes@.len() == graph.size(),
        r.finished == run_finished(*graph, from.0 as int, optimize, max_steps as nat),
{
    let router = PortToPortRouter::<A>::new(graph, from, optimize);
    let run = router.route_all_observed(accumulator, max_steps, observer);
    let ghost markers = routed_markers(*graph, from.0 as int, optimize, max_steps as nat);
    proof {
        lemma_initial_state_ok(*graph, from.0 as int);
        lemma_run_keeps_ok(
            *graph,
            initial_state(graph.size(), from.0 as int),
            optimize,
            max_steps as nat,
        );
    }
    let finished = run.finished;
    let mut rest = run.markers;
    let n = rest.len();
    let mut routes: Vec<PinPairRoutingInfo> = Vec::new();
    let mut t: usize = 0;
    while t < n
        invariant
            n == rest@.len(),
            markers.len() == n,
            t <= n,
            routes@.len() == t,
            forall|k: int| t <= k < n ==> (#[trigger] rest@[k])@ == markers[k],
            forall|k: int| 0 <= k < n ==> negative_only((#[trigger] markers[k]).constraints),
            forall|k: int| 0 <= k < t ==> (#[trigger] routes@[k])@ == pair_info(markers[k], optimize),
        decreases n - t,
    {
        let mut marker = PTPRMarker { constraints: DNFForm::new(), activated: DNFForm::new() };
        std::mem::swap(&mut rest[t], &mut marker);
        assert(marker@ == markers[t as int]);
        if optimize {
            let mut constraints = DNFForm::new();
            std::mem::swap(&mut marker.constraints, &mut constraints);
            marker.constraints = constraints.optimize();
        }
        routes.push(PinPairRoutingInfo::from_marker(marker));
        t += 1;
    }
    proof {
        assert(infos_view(routes@) =~= routes_spec(
            *graph,
            from.0 as int,
            optimize,
            max_steps as nat,
        ));
    }
    PinRoutes { routes, finished }
}

/// Routes from every pin from `start` up to `end` that is not an input
/// only, and gathers the routing relationships of the pairs of pins that
/// have one.
pub fn route_range(
    graph: &RoutingGraph,
    start: SitePinId,
    end: SitePinId,
    optimize: bool,
    max_steps: usize,
) -> (r: RangeRoutes)
    requires
        end.0 <= graph.size(),
        graph.size() <= u32::MAX,
    ensures
        entries_view(r.entries@) == range_spec(
            *graph,
            start.0 as int,
            end.0 as int,
            optimize,
            max_steps as nat,
        ),
        r.finished == range_finished(
            *graph,
            start.0 as int,
            end.0 as int,
            optimize,
            max_steps as nat,
        ),
{
    let mut entries: Vec<PinPairEntry> = Vec::new();
    let mut finished = true;
    let ghost budget = max_steps as nat;
    proof {
        assert(entries_view(entries@) =~= Seq::<Entry>::empty());
    }
    if start.0 >= end.0 {
        return RangeRoutes { entries, finished };
    }
    let n = graph.node_count();
    let mut from: usize = start.0;
    while from < end.0
        invariant
            start.0 <= from <= end.0,
            end.0 <= graph.size(),
            n == graph.size(),
            n <= u32::MAX,
            budget == max_steps as nat,
            entries_view(entries@) == range_spec(
                *graph,
                start.0 as int,
                from as int,
                optimize,
                budget,
            ),
            finished == range_finished(*graph, start.0 as int, from as int, optimize, budget),
        decreases end.0 - from,
    {
        proof {
            lemma_range_splits(
                *graph,
                start.0 as int,
                from as int,
                from as int + 1,
                optimize,
                budget,
            );
            assert(range_spec(*graph, from as int, from as int, optimize, budget)
                =~= Seq::<Entry>::empty());
            assert(range_spec(*graph, from as int, from as int + 1, optimize, budget)
                =~= source_entries(*graph, from as int, optimize, budget));
        }
        let is_input = match graph.get_node(from).dir {
            PinDir::Input => true,
            _ => false,
        };
        if is_input {
            proof {
                assert(entries_view(entries@) + Seq::<Entry>::empty() =~= entries_view(entries@));
                assert(range_finished(
                    *graph,
                    from as int,
                    from as int + 1,
                    optimize,
                    budget,
                ));
            }
        } else {
            let found = route_pins(graph, SitePinId(from), optimize, max_steps);
            let ghost infos = routes_spec(*graph, from as int, optimize, budget);
            let ghost before = entries_view(entries@);
            proof {
                assert(range_finished(*graph, from as int, from as int + 1, optimize, budget)
                    == found.finished) by {
                    if found.finished {
                    } else {
                        assert(!run_finished(*graph, from as int, optimize, budget));
                    }
                }
            }
            finished = finished && found.finished;
            let mut routes = found.routes;
            let mut to: usize = 0;
            proof {
                assert(before + Seq::<Entry>::empty() =~= before);
                assert(infos.len() == routes@.len());
                assert forall|k: int| 0 <= k < n implies (#[trigger] routes@[k])@ == infos[k] by {
                    assert(infos_view(routes@)[k] == routes@[k]@);
                }
            }
            while to < n
                invariant
                    to <= n,
                    n == graph.size(),
                    from < n,
                    routes@.len() == n,
                    infos.len() == n,
                    forall|k: int| to <= k < n ==> (#[trigger] routes@[k])@ == infos[k],
                    entries_view(entries@) == before + pairs_spec(from as int, infos, to as int),
                decreases n - to,
            {
                let routing_info = &routes[to];
                if to != from && !routing_info.is_empty() {
                    let mut info = PinPairRoutingInfo { requires: Vec::new(), implies: Vec::new() };
                    std::mem::swap(&mut routes[to], &mut info);
                    let ghost listed = entries_view(entries@);
                    entries.push(PinPairEntry { from: SitePinId(from), to: SitePinId(to), info });
                    proof {
                        let entry = Entry { from: from as int, to: to as int, info: infos[to as int] };
                        assert(entries_view(entries@) =~= listed.push(entry));
                        assert(listed.push(entry) =~= before + pairs_spec(
                            from as int,
                            infos,
                            to as int + 1,
                        ));
                    }
                }
                to += 1;
            }
        }
        from += 1;
    }
    RangeRoutes { entries, finished }
}

/// Gathers for every pin the site ports that can drive it from outside of
/// the site, and the site ports through which it can drive pins outside of
/// the site: where a source pin of an entry is a site port that drives, it
/// is an outer source of the sink pin; where a sink pin is a site port that
/// is driven, it is an outer sink of the source pin.
pub fn gather_out_of_site_info(graph: &RoutingGraph, entries: &Vec<PinPairEntry>) -> (r: (
    Vec<Vec<SitePinId>>,
    Vec<Vec<SitePinId>>,
))
    requires
        forall|i: int|
            0 <= i < entries@.len() ==> (#[trigger] entries@[i]).from.0 < graph.size()
                && entries@[i].to.0 < graph.size(),
    ensures
        pin_lists_view(r.0@) == out_sources_spec(
            *graph,
            entries_view(entries@),
            entries@.len() as int,
        ),
        pin_lists_view(r.1@) == out_sinks_spec(
            *graph,
            entries_view(entries@),
            entries@.len() as int,
        ),
{
    let n = graph.node_count();
    let ghost all = entries_view(entries@);
    let mut out_of_site_sources: Vec<Vec<SitePinId>> = Vec::new();
    let mut out_of_site_sinks: Vec<Vec<SitePinId>> = Vec::new();
    let mut i: usize = 0;
    while i < n
        invariant
            i <= n,
            out_of_site_sources@.len() == i,
            out_of_site_sinks@.len() == i,
            forall|k: int| 0 <= k < i ==> (#[trigger] out_of_site_sources@[k])@.len() == 0,
            forall|k: int| 0 <= k < i ==> (#[trigger] out_of_site_sinks@[k])@.len() == 0,
        decreases n - i,
    {
        out_of_site_sources.push(Vec::new());
        out_of_site_sinks.push(Vec::new());
        i += 1;
    }
    proof {
        assert(pin_lists_view(out_of_site_sources@) =~~= out_sources_spec(*graph, all, 0));
        assert(pin_lists_view(out_of_site_sinks@) =~~= out_sinks_spec(*graph, all, 0));
    }
    let mut e: usize = 0;
    while e < entries.len()
        invariant
            e <= entries@.len(),
            n == graph.size(),
            all == entries_view(entries@),
            out_of_site_sources@.len() == n,
            out_of_site_sinks@.len() == n,
            forall|i: int|
                0 <= i < entries@.len() ==> (#[trigger] entries@[i]).from.0 < graph.size()
                    && entries@[i].to.0 < graph.size(),
            pin_lists_view(out_of_site_sources@) == out_sources_spec(*graph, all, e as int),
            pin_lists_view(out_of_site_sinks@) == out_sinks_spec(*graph, all, e as int),
        decreases entries@.len() - e,
    {
        let from = entries[e].from;
        let to = entries[e].to;
        assert(all[e as int] == entries@[e as int]@);
        let from_node = graph.get_node(from.0);
        if from_node.dir.is_driver() {
            if let super::graph::RoutingGraphNodeKind::SitePort(_) = from_node.kind {
                let ghost before = pin_lists_view(out_of_site_sources@);
                out_of_site_sources[to.0].push(from);
                proof {
                    assert(pin_lists_view(out_of_site_sources@) =~~= before.update(
                        to.0 as int,
                        before[to.0 as int].push(from.0 as int),
                    ));
                }
            }
        }
        let to_node = graph.get_node(to.0);
        if to_node.dir.is_sink() {
            if let super::graph::RoutingGraphNodeKind::SitePort(_) = to_node.kind {
                let ghost before = pin_lists_view(out_of_site_sinks@);
                out_of_site_sinks[from.0].push(to);
                proof {
                    assert(pin_lists_view(out_of_site_sinks@) =~~= before.update(
                        from.0 as int,
                        before[from.0 as int].push(to.0 as int),
                    ));
                }
            }
        }
        e += 1;
    }
    (out_of_site_sources, out_of_site_sinks)
}

/// What all the routes of a site come to, as the contracts see it.
pub open spec fn is_routing_of(
    graph: RoutingGraph,
    optimize: bool,
    budget: nat,
    info: RoutingInfo,
) -> bool {
    let entries = range_spec(graph, 0, graph.size(), optimize, budget);
    &&& entries_view(info.pin_to_pin_routing@) == entries
    &&& pin_lists_view(info.out_of_site_sources@) == out_sources_spec(
        graph,
        entries,
        entries.len() as int,
    )
    &&& pin_lists_view(info.out_of_site_sinks@) == out_sinks_spec(
        graph,
        entries,
        entries.len() as int,
    )
    &&& info.finished == range_finished(graph, 0, graph.size(), optimize, budget)
}

/// The entries are for pins of the graph.
proof fn lemma_entries_inside(graph: RoutingGraph, entries: Seq<PinPairEntry>, optimize: bool, budget: nat)
    requires
        entries_view(entries) == range_spec(graph, 0, graph.size(), optimize, budget),
    ensures
        forall|i: int|
            0 <= i < entries.len() ==> (#[trigger] entries[i]).from.0 < graph.size()
                && entries[i].to.0 < graph.size(),
{
    lemma_range_entries_inside(graph, 0, graph.size(), optimize, budget);
    let spec = range_spec(graph, 0, graph.size(), optimize, budget);
    assert forall|i: int| 0 <= i < entries.len() implies (#[trigger] entries[i]).from.0
        < graph.size() && entries[i].to.0 < graph.size() by {
        assert(entries_view(entries)[i] == entries[i]@);
        assert(entry_inside(spec[i], graph.size()));
    }
}

/// Routes from every pin of the site, and gathers the routing relationships
/// of all pairs of pins and the outer sources and sinks of all pins.
pub fn route_all(graph: &RoutingGraph, optimize: bool, max_steps: usize) -> (r: RoutingInfo)
    requires
        graph.size() <= u32::MAX,
    ensures
        is_routing_of(*graph, optimize, max_steps as nat, r),
{
    let found = route_range(
        graph,
        SitePinId(0),
        SitePinId(graph.node_count()),
        optimize,
        max_steps,
    );
    proof {
        lemma_entries_inside(*graph, found.entries@, optimize, max_steps as nat);
    }
    let (out_of_site_sources, out_of_site_sinks) = gather_out_of_site_info(graph, &found.entries);
    RoutingInfo {
        pin_to_pin_routing: found.entries,
        out_of_site_sources,
        out_of_site_sinks,
        finished: found.finished,
    }
}

/// Routes from every pin of the site as `route_all` does, but deals the
/// pins into `slices` ranges, routes the ranges one by one, and puts their
/// entries together.  The result is that of `route_all`, whatever the
/// number of ranges.
pub fn route_all_in_slices(graph: &RoutingGraph, slices: usize, optimize: bool, max_steps: usize) -> (r:
    RoutingInfo)
    requires
        graph.size() <= u32::MAX,
        slices > 0,
    ensures
        is_routing_of(*graph, optimize, max_steps as nat, r),
{
    let n = graph.node_count();
    let ranges = split_range_nicely(0, n, slices);
    let ghost budget = max_steps as nat;
    let mut entries: Vec<PinPairEntry> = Vec::new();
    let mut finished = true;
    let mut k: usize = 0;
    proof {
        assert(entries_view(entries@) =~= range_spec(*graph, 0, 0, optimize, budget));
    }
    while k < ranges.len()
        invariant
            k <= ranges@.len(),
            n == graph.size(),
            n <= u32::MAX,
            budget == max_steps as nat,
            forall|i: int| 0 <= i < ranges@.len() ==> (#[trigger] ranges@[i]).0 < ranges@[i].1,
            forall|i: int| 0 <= i < ranges@.len() - 1 ==> (#[trigger] ranges@[i]).1 == ranges@[i + 1].0,
            ranges@.len() > 0 ==> ranges@[0].0 == 0 && ranges@[ranges@.len() - 1].1 == n,
            entries_view(entries@) == range_spec(
                *graph,
                0,
                if k < ranges@.len() {
                    ranges@[k as int].0 as int
                } else {
                    n as int
                },
                optimize,
                budget,
            ),
            finished == range_finished(
                *graph,
                0,
                if k < ranges@.len() {
                    ranges@[k as int].0 as int
                } else {
                    n as int
                },
                optimize,
                budget,
            ),
        decreases ranges@.len() - k,
    {
        let (start, end) = ranges[k];
        proof {
            assert(end <= n) by {
                lemma_slices_end_inside(ranges@, k as int, n as int);
            }
        }
        let mut part = route_range(graph, SitePinId(start), SitePinId(end), optimize, max_steps);
        let ghost listed = entries_view(entries@);
        let ghost added = entries_view(part.entries@);
        entries.append(&mut part.entries);
        finished = finished && part.finished;
        proof {
            assert(entries_view(entries@) =~= listed + added);
            lemma_range_splits(*graph, 0, start as int, end as int, optimize, budget);
            if k + 1 < ranges@.len() {
                assert(ranges@[k as int].1 == ranges@[k as int + 1].0);
            }
        }
        k += 1;
    }
    proof {
        if ranges@.len() == 0 {
            assert(n == 0);
        }
        lemma_entries_inside(*graph, entries@, optimize, budget);
    }
    let (out_of_site_sources, out_of_site_sinks) = gather_out_of_site_info(graph, &entries);
    RoutingInfo { pin_to_pin_routing: entries, out_of_site_sources, out_of_site_sinks, finished }
}

/// Ranges that lie one behind the other, the last of which ends at `n`,
/// all end at `n` or before it.
proof fn lemma_slices_end_inside(ranges: Seq<(usize, usize)>, k: int, n: int)
    requires
        0 <= k < ranges.len(),
        forall|i: int| 0 <= i < ranges.len() ==> (#[trigger] ranges[i]).0 < ranges[i].1,
        forall|i: int| 0 <= i < ranges.len() - 1 ==> (#[trigger] ranges[i]).1 == ranges[i + 1].0,
        ranges[ranges.len() - 1].1 == n,
    ensures
        ranges[k].1 <= n,
    decreases ranges.len() - k,
{
    if k < ranges.len() - 1 {
        lemma_slices_end_inside(ranges, k + 1, n);
        assert(ranges[k].1 == ranges[k + 1].0);
    }
}

} // verus!
