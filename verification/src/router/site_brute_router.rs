//! The pin-to-pin router of a site.
//!
//! The router expands a net from a pin breadth first.  A queue holds
//! frames, each with the node queued and the node which queued it.  Each
//! step a frame is popped from the queue and the formulas of its node are
//! updated: the constraints that routes to the node require, and what the
//! routes activate.  The constraints are formulas in disjunctive normal
//! form; a cube holds the constraints of one route, and the cubes of a node
//! are the alternatives by which it can be entered.  A node that the
//! current node has an edge to is queued unless its constraints cover those
//! of the current node already.

use super::names::SitePinId;
use super::route_spec::{conj_all, expand_spec, frame_ok, initial_state, lemma_expand_keeps_ok, lemma_new_formulas, lemma_step_keeps_ok, lemma_true_form, merged, new_frames, required_terms, run_spec, run_steps, state_ok, step_spec, true_form, Frame, Marker, RouterState};
use crate::logic_formula::cube::DNFCube;
use crate::logic_formula::form::{conjunct_term_spec, covered, DNFForm};
use crate::logic_formula::mergable::MergableDNFForm;
use crate::logic_formula::term::{FormulaTerm, Term, VarId};
use replace_with::replace_with_or_abort;
use std::collections::VecDeque;
use vstd::prelude::*;

pub use super::batch::{PinRoutes, RangeRoutes};
pub use super::brute_router::BruteRouter;
pub use super::graph::{RoutingGraph, RoutingGraphEdge, RoutingGraphNode, RoutingGraphNodeKind};
pub use super::routing_info::{PinPairEntry, PinPairRoutingInfo, RoutingInfo};

verus! {

/// `replace_with::replace_with_or_abort` takes the value out of `dest`,
/// hands it to `f`, and puts what `f` returns into `dest`.  The process is
/// aborted if `f` panics, which a verified `f` does not.
pub assume_specification<T, F: FnOnce(T) -> T>[ replace_with::replace_with_or_abort::<T, F> ](
    dest: &mut T,
    f: F,
)
    requires
        f.requires((*old(dest),)),
    ensures
        f.ensures((*old(dest),), *final(dest)),
;

/// Represents a resource congesting nets.
#[derive(PartialEq, Eq, Structural, PartialOrd, Ord, Clone, Copy, Debug, Hash)]
pub enum ConstrainingElement {
    /// Usage of a port.
    Port(u32),
}

impl VarId for ConstrainingElement {
    open spec fn key(&self) -> int {
        match self {
            ConstrainingElement::Port(p) => *p as int,
        }
    }

    fn same(&self, other: &Self) -> (r: bool) {
        match (self, other) {
            (ConstrainingElement::Port(a), ConstrainingElement::Port(b)) => *a == *b,
        }
    }

    fn before(&self, other: &Self) -> (r: bool) {
        match (self, other) {
            (ConstrainingElement::Port(a), ConstrainingElement::Port(b)) => *a < *b,
        }
    }

    fn dup(&self) -> (r: Self) {
        *self
    }
}

/// A formula over the usage of ports.
pub type PortFormula = DNFForm<ConstrainingElement>;

/// A frame of the router's queue.
#[derive(Debug)]
pub struct PortToPortRouterFrame<A> {
    /// The node which queued the frame; none where the net starts.
    pub prev_node: Option<SitePinId>,
    /// The node queued.
    pub node: SitePinId,
    /// A value that the caller threads through the expansion.  It has no
    /// part in the routing.
    pub accumulator: A,
}

impl<A> View for PortToPortRouterFrame<A> {
    type V = Frame;

    open spec fn view(&self) -> Frame {
        Frame {
            prev: match self.prev_node {
                Some(p) => Some(p.0 as int),
                None => None,
            },
            node: self.node.0 as int,
        }
    }
}

/// Watches the steps of a router.
///
/// The router calls the observer with every frame that it takes off the
/// queue, and puts what the observer returns as the accumulator into the
/// frames that the node of the frame queues.  What the observer does has no
/// part in the routing.
pub trait RouteObserver<A> {
    /// Is called with every frame that is taken off the queue, and gives
    /// the accumulator for the frames that the node of the frame queues.
    fn frame(&mut self, frame: &PortToPortRouterFrame<A>) -> A;

    /// Does the observer want to see the formulas that the frames bring to
    /// their nodes?
    fn wants_formulas(&self) -> bool;

    /// Is called with what the route of a frame requires, if the observer
    /// wants to see the formulas.
    fn requirements(&mut self, formula: PortFormula);

    /// Is called with what the route of a frame activates, if the observer
    /// wants to see the formulas.
    fn activators(&mut self, formula: PortFormula);
}

/// The observer that watches nothing: the frames that a node queues get
/// copies of the accumulator of the frame of the node.
#[derive(Debug)]
pub struct QuietObserver;

impl<A: Clone> RouteObserver<A> for QuietObserver {
    /// Hands on a copy of the accumulator of the frame.
    fn frame(&mut self, frame: &PortToPortRouterFrame<A>) -> (r: A)
        ensures
            cloned(frame.accumulator, r),
    {
        frame.accumulator.clone()
    }

    /// The quiet observer never wants to see the formulas.
    fn wants_formulas(&self) -> bool
        returns
            false,
    {
        false
    }

    fn requirements(&mut self, formula: PortFormula) {
    }

    fn activators(&mut self, formula: PortFormula) {
    }
}

/// The formulas of a node.
#[derive(Debug)]
pub struct PTPRMarker {
    pub constraints: DNFForm<ConstrainingElement>,
    pub activated: DNFForm<ConstrainingElement>,
}

impl View for PTPRMarker {
    type V = Marker;

    open spec fn view(&self) -> Marker {
        Marker { constraints: self.constraints@, activated: self.activated@ }
    }
}

/// What a run of the router has come to.
#[derive(Debug)]
pub struct RoutingRun {
    /// The formulas of all nodes.
    pub markers: Vec<PTPRMarker>,
    /// The number of steps made.
    pub steps: usize,
    /// Was the queue empty at the end?
    pub finished: bool,
}

/// The routing context for the expansion of a net from a selected pin.
pub struct PortToPortRouter<'g, A> {
    graph: &'g RoutingGraph,
    from: SitePinId,
    markers: Vec<PTPRMarker>,
    queue: VecDeque<PortToPortRouterFrame<A>>,
    optimize_implies: bool,
}

impl<'g, A: Clone> PortToPortRouter<'g, A> {
    /// The graph that the router works on.
    pub closed spec fn graph(&self) -> RoutingGraph {
        *self.graph
    }

    /// The node from which the net is expanded.
    pub closed spec fn source(&self) -> int {
        self.from.0 as int
    }

    /// Are the activators merged by a test of their own?
    pub closed spec fn optimizes_implies(&self) -> bool {
        self.optimize_implies
    }

    /// The frames of the queue, with their accumulators.
    pub closed spec fn frames(&self) -> Seq<PortToPortRouterFrame<A>> {
        self.queue@
    }

    /// The queue of the state holds the frames of the queue.
    pub proof fn lemma_frames_of_state(&self)
        ensures
            self.state().queue == self.frames().map_values(|f: PortToPortRouterFrame<A>| f@),
    {
    }

    /// The state of the router.
    pub closed spec fn state(&self) -> RouterState {
        RouterState {
            markers: self.markers@.map_values(|m: PTPRMarker| m@),
            queue: self.queue@.map_values(|f: PortToPortRouterFrame<A>| f@),
        }
    }

    /// The state fits the graph, and the nodes of the graph can be named by
    /// 32 bits.
    pub open spec fn wf(&self) -> bool {
        &&& state_ok(self.graph(), self.state())
        &&& self.graph().size() <= u32::MAX
        &&& 0 <= self.source() < self.graph().size()
    }

    /// A router for the net from the pin `from`.  No node can be reached
    /// yet, and the queue is empty.
    pub fn new(graph: &'g RoutingGraph, from: SitePinId, optimize_implies: bool) -> (r: Self)
        requires
            from.0 < graph.size(),
            graph.size() <= u32::MAX,
        ensures
            r.wf(),
            r.graph() == *graph,
            r.source() == from.0,
            r.optimizes_implies() == optimize_implies,
            r.state().queue.len() == 0,
            r.state().markers.len() == graph.size(),
            forall|i: int|
                0 <= i < graph.size() ==> (#[trigger] r.state().markers[i]) == (Marker {
                    constraints: Seq::empty(),
                    activated: Seq::empty(),
                }),
    {
        let n = graph.node_count();
        let mut markers: Vec<PTPRMarker> = Vec::new();
        let mut i: usize = 0;
        while i < n
            invariant
                i <= n,
                markers@.len() == i,
                forall|k: int|
                    0 <= k < i ==> (#[trigger] markers@[k])@ == (Marker {
                        constraints: Seq::empty(),
                        activated: Seq::empty(),
                    }),
            decreases n - i,
        {
            markers.push(PTPRMarker { constraints: DNFForm::new(), activated: DNFForm::new() });
            i += 1;
        }
        let r = Self { graph, from, markers, queue: VecDeque::new(), optimize_implies };
        proof {
            assert(r.state().queue =~= Seq::<Frame>::empty());
            assert forall|k: int| 0 <= k < n implies (#[trigger] r.state().markers[k]) == (Marker {
                constraints: Seq::empty(),
                activated: Seq::empty(),
            }) by {
                assert(r.state().markers[k] == markers@[k]@);
            }
        }
        r
    }

    /// Lets nothing be required and nothing be activated at the node.
    pub fn init_constraints_and_activators(&mut self, node: usize)
        requires
            old(self).wf(),
            node < old(self).graph().size(),
        ensures
            final(self).wf(),
            final(self).graph() == old(self).graph(),
            final(self).source() == old(self).source(),
            final(self).optimizes_implies() == old(self).optimizes_implies(),
            final(self).state() == (RouterState {
                markers: old(self).state().markers.update(
                    node as int,
                    Marker { constraints: true_form(), activated: true_form() },
                ),
                queue: old(self).state().queue,
            }),
    {
        let constraints = DNFForm::new().add_cube(DNFCube::new());
        let activated = DNFForm::new().add_cube(DNFCube::new());
        proof {
            lemma_true_form();
            assert(constraints@ =~= true_form());
            assert(activated@ =~= true_form());
        }
        self.markers[node] = PTPRMarker { constraints, activated };
        proof {
            let expected = old(self).state().markers.update(
                node as int,
                Marker { constraints: true_form(), activated: true_form() },
            );
            assert(self.state().markers =~= expected);
            assert(self.state().queue == old(self).state().queue);
            assert forall|i: int| 0 <= i < expected.len() implies crate::logic_formula::form::form_normal(
                (#[trigger] expected[i]).constraints,
            ) && crate::logic_formula::form::form_normal(expected[i].activated)
                && super::route_spec::negative_only(expected[i].constraints) by {
                if i != node {
                    assert(expected[i] == old(self).state().markers[i]);
                }
            }
        }
    }

    /// Puts the frame from which the net starts into the queue, after the
    /// node of the source was set up.
    pub fn start(&mut self, accumulator: A)
        requires
            old(self).wf(),
        ensures
            final(self).wf(),
            final(self).graph() == old(self).graph(),
            final(self).source() == old(self).source(),
            final(self).optimizes_implies() == old(self).optimizes_implies(),
            final(self).state() == (RouterState {
                markers: old(self).state().markers.update(
                    old(self).source(),
                    Marker { constraints: true_form(), activated: true_form() },
                ),
                queue: seq![Frame { prev: None, node: old(self).source() }],
            }),
            final(self).frames().len() == 1,
            final(self).frames()[0].accumulator == accumulator,
    {
        self.init_constraints_and_activators(self.from.0);
        self.queue.clear();
        self.queue.push_back(
            PortToPortRouterFrame { prev_node: None, node: self.from, accumulator },
        );
        proof {
            assert(self.state().queue =~= seq![Frame { prev: None, node: old(self).source() }]);
        }
    }

    /// Do the constraints of the node `b` cover those of the node `a`?
    /// They do if there is no node `a`.
    pub fn is_constr_subformular(&self, a: Option<SitePinId>, b: SitePinId) -> (r: bool)
        requires
            self.wf(),
            b.0 < self.graph().size(),
            a matches Some(p) ==> p.0 < self.graph().size(),
        ensures
            r == match a {
                Some(p) => covered(
                    self.state().markers[p.0 as int].constraints,
                    self.state().markers[b.0 as int].constraints,
                ),
                None => true,
            },
    {
        match a {
            Some(SitePinId(a)) => {
                assert(self.state().markers[a as int] == self.markers@[a as int]@);
                assert(self.state().markers[b.0 as int] == self.markers@[b.0 as int]@);
                let my_form = &self.markers[a].constraints;
                let other_form = &self.markers[b.0].constraints;
                my_form.is_subformula_of(other_form)
            },
            None => true,
        }
    }

    /// Do the activators of the node `b` cover those of the node `a`?
    /// They do if there is no node `a`.
    pub fn is_activators_subformular(&self, a: Option<SitePinId>, b: SitePinId) -> (r: bool)
        requires
            self.wf(),
            b.0 < self.graph().size(),
            a matches Some(p) ==> p.0 < self.graph().size(),
        ensures
            r == match a {
                Some(p) => covered(
                    self.state().markers[p.0 as int].activated,
                    self.state().markers[b.0 as int].activated,
                ),
                None => true,
            },
    {
        match a {
            Some(SitePinId(a)) => {
                assert(self.state().markers[a as int] == self.markers@[a as int]@);
                assert(self.state().markers[b.0 as int] == self.markers@[b.0 as int]@);
                let my_form = &self.markers[a].activated;
                let other_form = &self.markers[b.0].activated;
                my_form.is_subformula_of(other_form)
            },
            None => true,
        }
    }

    /// The constraints that keep a net from having several drivers: the
    /// negation of every driver of `node` but `prev_node`.
    pub fn scan_constraint_requirements(&self, node: SitePinId, prev_node: Option<SitePinId>) -> (r:
        Vec<FormulaTerm<ConstrainingElement>>)
        requires
            self.graph().size() <= u32::MAX,
            node.0 < self.graph().size(),
        ensures
            r@.map_values(|t: FormulaTerm<ConstrainingElement>| t@) == match prev_node {
                Some(p) => required_terms(
                    self.graph(),
                    node.0 as int,
                    p.0 as int,
                    self.graph().size(),
                ),
                None => Seq::empty(),
            },
    {
        let mut out: Vec<FormulaTerm<ConstrainingElement>> = Vec::new();
        let ghost view = |t: FormulaTerm<ConstrainingElement>| t@;
        match prev_node {
            Some(prev) => {
                let n = self.graph.node_count();
                let mut driver: usize = 0;
                assert(out@.map_values(view) =~= Seq::<Term>::empty());
                while driver < n
                    invariant
                        driver <= n,
                        n == self.graph().size(),
                        n <= u32::MAX,
                        node.0 < n,
                        view == |t: FormulaTerm<ConstrainingElement>| t@,
                        out@.map_values(view) == required_terms(
                            self.graph(),
                            node.0 as int,
                            prev.0 as int,
                            driver as int,
                        ),
                    decreases n - driver,
                {
                    let ghost before = out@.map_values(view);
                    if *self.graph.get_edge(driver, node.0) && driver != prev.0 {
                        out.push(FormulaTerm::NegVar(ConstrainingElement::Port(driver as u32)));
                        assert(out@.map_values(view) =~= before.push(Term::NegVar(driver as int)));
                    }
                    driver += 1;
                }
            },
            None => {
                assert(out@.map_values(view) =~= Seq::<Term>::empty());
            },
        }
        out
    }

    /// What entering `node` from `prev_node` activates: `prev_node` as a
    /// driver, if it is one of `node`.
    pub fn scan_constraint_activators(&self, node: SitePinId, prev_node: Option<SitePinId>) -> (r:
        Vec<FormulaTerm<ConstrainingElement>>)
        requires
            self.graph().size() <= u32::MAX,
            node.0 < self.graph().size(),
            prev_node matches Some(p) ==> p.0 < self.graph().size(),
        ensures
            r@.map_values(|t: FormulaTerm<ConstrainingElement>| t@) == match prev_node {
                Some(p) => if self.graph().has_edge(p.0 as int, node.0 as int) {
                    seq![Term::Var(p.0 as int)]
                } else {
                    Seq::empty()
                },
                None => Seq::empty(),
            },
    {
        let mut out: Vec<FormulaTerm<ConstrainingElement>> = Vec::new();
        let ghost view = |t: FormulaTerm<ConstrainingElement>| t@;
        match prev_node {
            Some(prev) => {
                if *self.graph.get_edge(prev.0, node.0) {
                    out.push(FormulaTerm::Var(ConstrainingElement::Port(prev.0 as u32)));
                    assert(out@.map_values(view) =~= seq![Term::Var(prev.0 as int)]);
                } else {
                    assert(out@.map_values(view) =~= Seq::<Term>::empty());
                }
            },
            None => {
                assert(out@.map_values(view) =~= Seq::<Term>::empty());
            },
        }
        out
    }

    /// Takes the next frame off the queue.
    pub fn next_frame(&mut self) -> (r: Option<PortToPortRouterFrame<A>>)
        requires
            old(self).wf(),
        ensures
            final(self).wf(),
            final(self).graph() == old(self).graph(),
            final(self).source() == old(self).source(),
            final(self).optimizes_implies() == old(self).optimizes_implies(),
            final(self).state().markers == old(self).state().markers,
            match r {
                Some(frame) => old(self).state().queue.len() > 0 && frame@ == old(
                    self,
                ).state().queue[0] && final(self).state().queue == old(self).state().queue.skip(1)
                    && frame_ok(old(self).graph(), frame@) && frame == old(self).frames()[0]
                    && final(self).frames() == old(self).frames().skip(1),
                None => old(self).state().queue.len() == 0 && final(self).state().queue == old(
                    self,
                ).state().queue && final(self).frames() == old(self).frames(),
            },
    {
        let ghost before = self.state().queue;
        let r = self.queue.pop_front();
        proof {
            if r is Some {
                assert(self.frames() =~= old(self).frames().skip(1));
                assert(r->0@ == before[0]);
                assert(self.state().queue =~= before.skip(1));
                assert forall|q: int| 0 <= q < self.state().queue.len() implies frame_ok(
                    self.graph(),
                    #[trigger] self.state().queue[q],
                ) by {
                    assert(self.state().queue[q] == before[q + 1]);
                }
            } else {
                assert(self.state().queue =~= before);
            }
        }
        r
    }

    /// The formula with all the terms added to every cube.
    fn conjunct_terms(
        form: DNFForm<ConstrainingElement>,
        terms: &Vec<FormulaTerm<ConstrainingElement>>,
    ) -> (r: DNFForm<ConstrainingElement>)
        ensures
            r@ == conj_all(form@, terms@.map_values(|t: FormulaTerm<ConstrainingElement>| t@)),
    {
        let ghost view = |t: FormulaTerm<ConstrainingElement>| t@;
        let ghost all = terms@.map_values(view);
        let mut out = form;
        let mut i: usize = 0;
        assert(all.take(0) =~= Seq::<Term>::empty());
        while i < terms.len()
            invariant
                i <= terms@.len(),
                view == |t: FormulaTerm<ConstrainingElement>| t@,
                all == terms@.map_values(view),
                out@ == conj_all(form@, all.take(i as int)),
            decreases terms@.len() - i,
        {
            proof {
                let next = all.take(i as int + 1);
                assert(next.drop_last() =~= all.take(i as int));
                assert(all[i as int] == terms@[i as int]@);
                assert(next.last() == terms@[i as int]@);
            }
            out = out.conjunct_term(&terms[i]);
            i += 1;
        }
        assert(all.take(terms@.len() as int) =~= all);
        out
    }

    /// What a route into `node` from `prev_node` requires: what `prev_node`
    /// requires, and that no other driver of `node` is in use.
    pub fn requirements_for(&self, prev_node: Option<SitePinId>, node: SitePinId) -> (r:
        PortFormula)
        requires
            self.wf(),
            frame_ok(
                self.graph(),
                Frame {
                    prev: match prev_node {
                        Some(p) => Some(p.0 as int),
                        None => None,
                    },
                    node: node.0 as int,
                },
            ),
        ensures
            r.wf(),
            r@ == super::route_spec::new_requirements(
                self.graph(),
                self.state().markers,
                Frame {
                    prev: match prev_node {
                        Some(p) => Some(p.0 as int),
                        None => None,
                    },
                    node: node.0 as int,
                },
            ),
    {
        let ghost frame = Frame {
            prev: match prev_node {
                Some(p) => Some(p.0 as int),
                None => None,
            },
            node: node.0 as int,
        };
        proof {
            lemma_new_formulas(self.graph(), self.state(), frame);
            lemma_true_form();
        }
        let base = match prev_node {
            Some(prev) => {
                assert(self.state().markers[prev.0 as int] == self.markers@[prev.0 as int]@);
                self.markers[prev.0].constraints.dup()
            },
            None => DNFForm::new().add_cube(DNFCube::new()),
        };
        let required = self.scan_constraint_requirements(node, prev_node);
        proof {
            if prev_node is None {
                assert(base@ =~= true_form());
            }
        }
        Self::conjunct_terms(base, &required)
    }

    /// What a route into `node` from `prev_node` activates: what
    /// `prev_node` activates, and `prev_node` itself as a driver.
    pub fn activators_for(&self, prev_node: Option<SitePinId>, node: SitePinId) -> (r: PortFormula)
        requires
            self.wf(),
            frame_ok(
                self.graph(),
                Frame {
                    prev: match prev_node {
                        Some(p) => Some(p.0 as int),
                        None => None,
                    },
                    node: node.0 as int,
                },
            ),
        ensures
            r.wf(),
            r@ == super::route_spec::new_activators(
                self.graph(),
                self.state().markers,
                Frame {
                    prev: match prev_node {
                        Some(p) => Some(p.0 as int),
                        None => None,
                    },
                    node: node.0 as int,
                },
            ),
    {
        let ghost frame = Frame {
            prev: match prev_node {
                Some(p) => Some(p.0 as int),
                None => None,
            },
            node: node.0 as int,
        };
        proof {
            lemma_new_formulas(self.graph(), self.state(), frame);
            lemma_true_form();
        }
        let base = match prev_node {
            Some(prev) => {
                assert(self.state().markers[prev.0 as int] == self.markers@[prev.0 as int]@);
                self.markers[prev.0].activated.dup()
            },
            None => DNFForm::new().add_cube(DNFCube::new()),
        };
        let activating = self.scan_constraint_activators(node, prev_node);
        let r = Self::conjunct_terms(base, &activating);
        proof {
            if prev_node is None {
                assert(base@ =~= true_form());
            } else {
                let prev = prev_node->0;
                let p = prev.0 as int;
                let terms = activating@.map_values(|t: FormulaTerm<ConstrainingElement>| t@);
                if self.graph().has_edge(p, node.0 as int) {
                    assert(terms.drop_last() =~= Seq::<Term>::empty());
                    assert(conj_all(base@, terms) == conjunct_term_spec(
                        conj_all(base@, terms.drop_last()),
                        terms.last(),
                    ));
                }
            }
        }
        r
    }

    /// Processes a frame: the node `node` is entered from `prev_node`.  The
    /// formulas of the node are updated, and every node that it has an edge
    /// to is queued unless the constraints of that node cover those of
    /// `node`.  The frames queued bear copies of `new_acc`.
    pub fn expand(&mut self, prev_node: Option<SitePinId>, node: SitePinId, new_acc: A)
        requires
            old(self).wf(),
            frame_ok(
                old(self).graph(),
                Frame {
                    prev: match prev_node {
                        Some(p) => Some(p.0 as int),
                        None => None,
                    },
                    node: node.0 as int,
                },
            ),
        ensures
            final(self).wf(),
            final(self).graph() == old(self).graph(),
            final(self).source() == old(self).source(),
            final(self).optimizes_implies() == old(self).optimizes_implies(),
            final(self).state() == expand_spec(
                old(self).graph(),
                old(self).state(),
                Frame {
                    prev: match prev_node {
                        Some(p) => Some(p.0 as int),
                        None => None,
                    },
                    node: node.0 as int,
                },
                old(self).optimizes_implies(),
            ),
            old(self).frames().is_prefix_of(final(self).frames()),
            forall|q: int|
                old(self).frames().len() <= q < final(self).frames().len() ==> cloned(
                    new_acc,
                    (#[trigger] final(self).frames()[q]).accumulator,
                ),
    {
        let ghost frame = Frame {
            prev: match prev_node {
                Some(p) => Some(p.0 as int),
                None => None,
            },
            node: node.0 as int,
        };
        let ghost graph = self.graph();
        let ghost before = self.state();
        let ghost expected = expand_spec(graph, before, frame, self.optimize_implies);
        proof {
            lemma_new_formulas(graph, before, frame);
            lemma_expand_keeps_ok(graph, before, frame, self.optimize_implies);
            assert(before.markers[node.0 as int] == self.markers@[node.0 as int]@);
        }
        let new_requirements = self.requirements_for(prev_node, node);
        let new_activators = self.activators_for(prev_node, node);
        let needs_alternative = !new_requirements.is_subformula_of(
            &self.markers[node.0].constraints,
        );
        let ghost requirements = new_requirements@;
        let merge_requirements = |c: PortFormula| -> (r: PortFormula)
            ensures
                r@ == merged(c@, requirements, needs_alternative)
            {
                if needs_alternative {
                    c.disjunct(new_requirements)
                } else {
                    new_requirements
                }
            };
        replace_with_or_abort(&mut self.markers[node.0].constraints, merge_requirements);
        let needs_alternative_activators = if self.optimize_implies {
            !new_activators.is_subformula_of(&self.markers[node.0].activated)
        } else {
            needs_alternative
        };
        let ghost activators = new_activators@;
        let merge_activators = |c: PortFormula| -> (r: PortFormula)
            ensures
                r@ == merged(c@, activators, needs_alternative_activators)
            {
                if needs_alternative_activators {
                    c.disjunct(new_activators)
                } else {
                    new_activators
                }
            };
        replace_with_or_abort(&mut self.markers[node.0].activated, merge_activators);
        proof {
            assert(self.state().markers =~= expected.markers);
            assert(self.state().queue == before.queue);
        }
        let n = self.graph.node_count();
        let mut next: usize = 0;
        while next < n
            invariant
                next <= n,
                n == graph.size(),
                graph == self.graph(),
                node.0 < n,
                self.graph() == old(self).graph(),
                self.source() == old(self).source(),
                self.optimizes_implies() == old(self).optimizes_implies(),
                self.wf(),
                old(self).frames().is_prefix_of(self.frames()),
                forall|q: int|
                    old(self).frames().len() <= q < self.frames().len() ==> cloned(
                        new_acc,
                        (#[trigger] self.frames()[q]).accumulator,
                    ),
                self.state().markers == expected.markers,
                self.state().queue == before.queue + new_frames(
                    graph,
                    expected.markers,
                    node.0 as int,
                    next as int,
                ),
            decreases n - next,
        {
            let ghost queue_before = self.state().queue;
            if *self.graph.get_edge(node.0, next) {
                let is_subformular = self.is_constr_subformular(Some(node), SitePinId(next));
                if !is_subformular {
                    let ghost listed = self.frames();
                    let accumulator = new_acc.clone();
                    self.queue.push_back(
                        PortToPortRouterFrame {
                            prev_node: Some(node),
                            node: SitePinId(next),
                            accumulator,
                        },
                    );
                    proof {
                        assert(self.frames() =~= listed.push(
                            PortToPortRouterFrame {
                                prev_node: Some(node),
                                node: SitePinId(next),
                                accumulator,
                            },
                        ));
                        assert forall|q: int|
                            old(self).frames().len() <= q < self.frames().len() implies cloned(
                            new_acc,
                            (#[trigger] self.frames()[q]).accumulator,
                        ) by {
                            if q < listed.len() {
                                assert(self.frames()[q] == listed[q]);
                            }
                        }
                        let pushed = Frame { prev: Some(node.0 as int), node: next as int };
                        assert(self.state().queue =~= queue_before.push(pushed));
                        assert(self.state().queue =~= before.queue + new_frames(
                            graph,
                            expected.markers,
                            node.0 as int,
                            next as int + 1,
                        ));
                        assert forall|q: int| 0 <= q < self.state().queue.len() implies frame_ok(
                            graph,
                            #[trigger] self.state().queue[q],
                        ) by {
                            if q < queue_before.len() {
                                assert(self.state().queue[q] == queue_before[q]);
                            }
                        }
                    }
                }
            }
            next += 1;
        }
    }

    /// Performs a routing step: pops a frame from the queue, processes its
    /// node and queues new frames.  Returns the node processed, or nothing
    /// if the queue was empty.
    pub fn routing_step(&mut self) -> (r: Option<SitePinId>)
        requires
            old(self).wf(),
        ensures
            final(self).wf(),
            final(self).graph() == old(self).graph(),
            final(self).source() == old(self).source(),
            final(self).optimizes_implies() == old(self).optimizes_implies(),
            match r {
                Some(node) => old(self).state().queue.len() > 0 && node.0 == old(
                    self,
                ).state().queue[0].node && final(self).state() == step_spec(
                    old(self).graph(),
                    old(self).state(),
                    old(self).optimizes_implies(),
                ),
                None => old(self).state().queue.len() == 0 && final(self).state() == old(
                    self,
                ).state(),
            },
    {
        let mut quiet = QuietObserver;
        self.routing_step_observed(&mut quiet)
    }

    /// Performs a routing step as `routing_step` does, and lets the
    /// observer watch it.
    pub fn routing_step_observed<O: RouteObserver<A>>(&mut self, observer: &mut O) -> (r: Option<
        SitePinId,
    >)
        requires
            old(self).wf(),
        ensures
            final(self).wf(),
            final(self).graph() == old(self).graph(),
            final(self).source() == old(self).source(),
            final(self).optimizes_implies() == old(self).optimizes_implies(),
            match r {
                Some(node) => old(self).state().queue.len() > 0 && node.0 == old(
                    self,
                ).state().queue[0].node && final(self).state() == step_spec(
                    old(self).graph(),
                    old(self).state(),
                    old(self).optimizes_implies(),
                ),
                None => old(self).state().queue.len() == 0 && final(self).state() == old(
                    self,
                ).state(),
            },
    {
        proof {
            if self.state().queue.len() > 0 {
                lemma_step_keeps_ok(self.graph(), self.state(), self.optimize_implies);
            }
        }
        match self.next_frame() {
            Some(frame) => {
                let new_acc = observer.frame(&frame);
                if observer.wants_formulas() {
                    observer.requirements(self.requirements_for(frame.prev_node, frame.node));
                    observer.activators(self.activators_for(frame.prev_node, frame.node));
                }
                self.expand(frame.prev_node, frame.node, new_acc);
                Some(frame.node)
            },
            None => None,
        }
    }

    /// Ends the routing: gives the formulas of all nodes, and says whether
    /// the queue is empty.
    pub fn finish(self) -> (r: (Vec<PTPRMarker>, bool))
        ensures
            r.0@.map_values(|m: PTPRMarker| m@) == self.state().markers,
            r.1 == (self.state().queue.len() == 0),
    {
        let finished = self.queue.len() == 0;
        proof {
            assert(self.state().queue.len() == self.queue@.len());
        }
        (self.markers, finished)
    }

    /// Expands the net from the source until the queue is empty, but makes
    /// `max_steps` steps at most.
    pub fn route_all(self, accumulator: A, max_steps: usize) -> (r: RoutingRun)
        requires
            self.wf(),
            self.state().queue.len() == 0,
            forall|i: int|
                0 <= i < self.graph().size() ==> (#[trigger] self.state().markers[i]) == (Marker {
                    constraints: Seq::empty(),
                    activated: Seq::empty(),
                }),
        ensures
            r.markers@.map_values(|m: PTPRMarker| m@) == run_spec(
                self.graph(),
                initial_state(self.graph().size(), self.source()),
                self.optimizes_implies(),
                max_steps as nat,
            ).markers,
            r.steps == run_steps(
                self.graph(),
                initial_state(self.graph().size(), self.source()),
                self.optimizes_implies(),
                max_steps as nat,
            ),
            r.finished == (run_spec(
                self.graph(),
                initial_state(self.graph().size(), self.source()),
                self.optimizes_implies(),
                max_steps as nat,
            ).queue.len() == 0),
    {
        let mut quiet = QuietObserver;
        self.route_all_observed(accumulator, max_steps, &mut quiet)
    }

    /// Expands the net as `route_all` does, and lets the observer watch
    /// every step.  The formulas are those of `route_all`, whatever the
    /// observer does.
    pub fn route_all_observed<O: RouteObserver<A>>(
        self,
        accumulator: A,
        max_steps: usize,
        observer: &mut O,
    ) -> (r: RoutingRun)
        requires
            self.wf(),
            self.state().queue.len() == 0,
            forall|i: int|
                0 <= i < self.graph().size() ==> (#[trigger] self.state().markers[i]) == (Marker {
                    constraints: Seq::empty(),
                    activated: Seq::empty(),
                }),
        ensures
            r.markers@.map_values(|m: PTPRMarker| m@) == run_spec(
                self.graph(),
                initial_state(self.graph().size(), self.source()),
                self.optimizes_implies(),
                max_steps as nat,
            ).markers,
            r.steps == run_steps(
                self.graph(),
                initial_state(self.graph().size(), self.source()),
                self.optimizes_implies(),
                max_steps as nat,
            ),
            r.finished == (run_spec(
                self.graph(),
                initial_state(self.graph().size(), self.source()),
                self.optimizes_implies(),
                max_steps as nat,
            ).queue.len() == 0),
    {
        let mut me = self;
        let ghost graph = me.graph();
        let ghost oi = me.optimizes_implies();
        let ghost start = initial_state(graph.size(), me.source());
        me.start(accumulator);
        proof {
            assert(me.state().markers =~= start.markers);
            assert(me.state() == start);
        }
        let mut steps: usize = 0;
        let mut finished = false;
        while steps < max_steps && !finished
            invariant
                steps <= max_steps,
                me.wf(),
                me.graph() == graph,
                me.optimizes_implies() == oi,
                finished ==> me.state().queue.len() == 0,
                run_spec(graph, me.state(), oi, (max_steps - steps) as nat) == run_spec(
                    graph,
                    start,
                    oi,
                    max_steps as nat,
                ),
                steps + run_steps(graph, me.state(), oi, (max_steps - steps) as nat) == run_steps(
                    graph,
                    start,
                    oi,
                    max_steps as nat,
                ),
            decreases max_steps - steps, if finished { 0int } else { 1int },
        {
            match me.routing_step_observed(observer) {
                Some(_) => {
                    steps += 1;
                },
                None => {
                    finished = true;
                },
            }
        }
        let finished = me.queue.len() == 0;
        proof {
            assert(me.state().queue.len() == me.queue@.len());
        }
        RoutingRun { markers: me.markers, steps, finished }
    }
}

} // verus!
