//! The routing graph of a site: one node for each BEL pin and an edge from
//! every pin to every pin that it can drive.

use super::names::PinDir;
use vstd::prelude::*;

verus! {

/// What a node of the routing graph stands for.
#[derive(Copy, Clone, PartialEq, Eq, Structural, Debug)]
pub enum RoutingGraphNodeKind {
    /// A pin of the BEL with the given index.
    BelPort(usize),
    /// A pin of a BEL that a site pseudo-pip runs through.
    RoutingBelPort(usize),
    /// The pin of a site port.
    SitePort(usize),
    /// A node that stands for nothing yet.
    FreePort,
}

/// A node of the routing graph.
#[derive(Copy, Clone, PartialEq, Eq, Structural, Debug)]
pub struct RoutingGraphNode {
    pub kind: RoutingGraphNodeKind,
    pub dir: PinDir,
}

impl Default for RoutingGraphNode {
    fn default() -> (r: Self)
        ensures
            r == (RoutingGraphNode { kind: RoutingGraphNodeKind::FreePort, dir: PinDir::Inout }),
    {
        Self { kind: RoutingGraphNodeKind::FreePort, dir: PinDir::Inout }
    }
}

/// Does the list hold the identifier?
pub open spec fn lists(v: Seq<usize>, id: int) -> bool {
    exists|e: int| 0 <= e < v.len() && (#[trigger] v[e]) as int == id
}

/// A list with one more identifier holds that one and those that it held.
pub proof fn lemma_lists_push(v: Seq<usize>, x: usize, id: int)
    ensures
        lists(v.push(x), id) == (lists(v, id) || x as int == id),
{
    let grown = v.push(x);
    if lists(v, id) {
        let e = choose|e: int| 0 <= e < v.len() && (#[trigger] v[e]) as int == id;
        assert(grown[e] as int == id);
    }
    if x as int == id {
        assert(grown[v.len() as int] as int == id);
    }
    if lists(grown, id) {
        let e = choose|e: int| 0 <= e < grown.len() && (#[trigger] grown[e]) as int == id;
        if e < v.len() {
            assert(v[e] as int == id);
        }
    }
}

/// An edge of the routing graph: is the connection there?
pub type RoutingGraphEdge = bool;

/// The routing graph: its nodes and a dense matrix of its edges.
pub struct RoutingGraph {
    nodes: Vec<RoutingGraphNode>,
    edges: Vec<RoutingGraphEdge>,
}

/// In a square matrix stored row by row, a row and a column within it have
/// a place inside the matrix.
pub proof fn lemma_cell_in_matrix(n: int, row: int, col: int)
    requires
        0 <= row < n,
        0 <= col < n,
    ensures
        0 <= row * n + col < n * n,
{
    assert(row * n + col < n * n) by (nonlinear_arith)
        requires
            0 <= row < n,
            0 <= col < n,
    ;
    assert(0 <= row * n) by (nonlinear_arith)
        requires
            0 <= row,
            0 <= n,
    ;
    assert(row * n <= row * n + col);
}

/// In a matrix stored row by row, different cells have different places.
pub proof fn lemma_cells_apart(n: int, row: int, col: int, row2: int, col2: int)
    requires
        0 <= col < n,
        0 <= col2 < n,
        0 <= row,
        0 <= row2,
        row * n + col == row2 * n + col2,
    ensures
        row == row2,
        col == col2,
{
    assert(row == row2) by (nonlinear_arith)
        requires
            0 <= col < n,
            0 <= col2 < n,
            0 <= row,
            0 <= row2,
            row * n + col == row2 * n + col2,
    ;
}

impl RoutingGraph {
    #[verifier::type_invariant]
    spec fn square(self) -> bool {
        self.edges@.len() == self.nodes@.len() * self.nodes@.len()
    }

    /// The nodes of the graph.
    pub closed spec fn nodes(&self) -> Seq<RoutingGraphNode> {
        self.nodes@
    }

    /// The number of nodes.
    pub open spec fn size(&self) -> int {
        self.nodes().len() as int
    }

    /// The edges of the graph, each as the pair of the node that it comes
    /// from and the node that it goes to.
    pub open spec fn edge_set(&self) -> Set<(int, int)> {
        Set::new(|e: (int, int)| self.has_edge(e.0, e.1))
    }

    /// Is there an edge from the node `from` to the node `to`?
    pub closed spec fn has_edge(&self, from: int, to: int) -> bool {
        0 <= from < self.nodes@.len() && 0 <= to < self.nodes@.len() && self.edges@[from
            * self.nodes@.len() + to]
    }

    /// A graph of `pin_count` nodes that stand for nothing yet, without
    /// edges.
    pub fn new(pin_count: usize) -> (r: Self)
        requires
            pin_count * pin_count <= usize::MAX,
        ensures
            r.size() == pin_count,
            forall|i: int| 0 <= i < pin_count ==> (#[trigger] r.nodes()[i]) == (RoutingGraphNode {
                kind: RoutingGraphNodeKind::FreePort,
                dir: PinDir::Inout,
            }),
            forall|from: int, to: int| !r.has_edge(from, to),
    {
        let mut nodes: Vec<RoutingGraphNode> = Vec::new();
        let mut i: usize = 0;
        while i < pin_count
            invariant
                i <= pin_count,
                nodes@.len() == i,
                forall|k: int| 0 <= k < i ==> (#[trigger] nodes@[k]) == (RoutingGraphNode {
                    kind: RoutingGraphNodeKind::FreePort,
                    dir: PinDir::Inout,
                }),
            decreases pin_count - i,
        {
            nodes.push(RoutingGraphNode::default());
            i += 1;
        }
        let total = pin_count * pin_count;
        let mut edges: Vec<RoutingGraphEdge> = Vec::new();
        let mut k: usize = 0;
        while k < total
            invariant
                k <= total,
                edges@.len() == k,
                forall|e: int| 0 <= e < k ==> !(#[trigger] edges@[e]),
            decreases total - k,
        {
            edges.push(false);
            k += 1;
        }
        let r = Self { nodes, edges };
        assert forall|from: int, to: int| !r.has_edge(from, to) by {
            if 0 <= from < pin_count && 0 <= to < pin_count {
                lemma_cell_in_matrix(pin_count as int, from, to);
            }
        }
        r
    }

    /// The number of nodes.
    pub fn node_count(&self) -> (r: usize)
        ensures
            r == self.size(),
    {
        self.nodes.len()
    }

    /// The number of cells of the matrix of edges: the number of nodes,
    /// squared.
    pub fn edge_count(&self) -> (r: usize)
        ensures
            r == self.size() * self.size(),
    {
        proof {
            use_type_invariant(self);
        }
        self.edges.len()
    }

    /// Is there an edge from `from` to `to`?
    pub fn get_edge(&self, from: usize, to: usize) -> (r: &RoutingGraphEdge)
        requires
            from < self.size(),
            to < self.size(),
        ensures
            *r == self.has_edge(from as int, to as int),
    {
        let n = self.nodes.len();
        let cells = self.edges.len();
        proof {
            use_type_invariant(self);
            lemma_cell_in_matrix(n as int, from as int, to as int);
            assert(cells == n * n);
        }
        &self.edges[from * n + to]
    }

    /// Puts an edge from `from` to `to` into the graph.  Returns `true` if
    /// the edge is new and `false` if it was there already.
    pub fn connect(&mut self, from: usize, to: usize) -> (r: bool)
        requires
            from < old(self).size(),
            to < old(self).size(),
        ensures
            r == !old(self).has_edge(from as int, to as int),
            final(self).nodes() == old(self).nodes(),
            forall|f: int, t: int|
                #![trigger final(self).has_edge(f, t)]
                final(self).has_edge(f, t) == (old(self).has_edge(f, t) || (f == from && t == to)),
    {
        let n = self.nodes.len();
        let cells = self.edges.len();
        proof {
            use_type_invariant(&*self);
            lemma_cell_in_matrix(n as int, from as int, to as int);
            assert(cells == n * n);
        }
        let at = from * n + to;
        let was = self.edges[at];
        self.edges[at] = true;
        proof {
            assert forall|f: int, t: int|
                #![trigger self.has_edge(f, t)]
                self.has_edge(f, t) == (old(self).has_edge(f, t) || (f == from && t == to)) by {
                if 0 <= f < n && 0 <= t < n {
                    lemma_cell_in_matrix(n as int, f, t);
                    if f * n + t == at {
                        lemma_cells_apart(n as int, f, t, from as int, to as int);
                    }
                }
            }
        }
        !was
    }

    /// The node with the given index.
    pub fn get_node(&self, node: usize) -> (r: &RoutingGraphNode)
        requires
            node < self.size(),
        ensures
            *r == self.nodes()[node as int],
    {
        &self.nodes[node]
    }

    /// Replaces the node with the given index.
    pub fn set_node(&mut self, node: usize, value: RoutingGraphNode)
        requires
            node < old(self).size(),
        ensures
            final(self).nodes() == old(self).nodes().update(node as int, value),
            forall|f: int, t: int|
                #![trigger final(self).has_edge(f, t)]
                final(self).has_edge(f, t) == old(self).has_edge(f, t),
    {
        proof {
            use_type_invariant(&*self);
        }
        self.nodes[node] = value;
    }

    /// The nodes that the node `from` has an edge to, in ascending order.
    pub fn edges_from(&self, from: usize) -> (r: Vec<usize>)
        requires
            from < self.size(),
        ensures
            forall|i: int, j: int| 0 <= i < j < r@.len() ==> r@[i] < r@[j],
            forall|i: int| 0 <= i < r@.len() ==> (#[trigger] r@[i]) < self.size(),
            forall|t: int| #![trigger self.has_edge(from as int, t)] self.has_edge(from as int, t) == lists(r@, t),
    {
        let n = self.nodes.len();
        let mut out: Vec<usize> = Vec::new();
        let mut to: usize = 0;
        while to < n
            invariant
                n == self.size(),
                from < n,
                to <= n,
                forall|i: int, j: int| 0 <= i < j < out@.len() ==> out@[i] < out@[j],
                forall|i: int| 0 <= i < out@.len() ==> (#[trigger] out@[i]) < to,
                forall|t: int|
                    #![trigger self.has_edge(from as int, t)]
                    0 <= t < to ==> self.has_edge(from as int, t) == lists(out@, t),
            decreases n - to,
        {
            let ghost before = out@;
            if *self.get_edge(from, to) {
                out.push(to);
                proof {
                    assert forall|t: int|
                        #![trigger self.has_edge(from as int, t)]
                        0 <= t < to + 1 implies self.has_edge(from as int, t) == lists(out@, t) by {
                        lemma_lists_push(before, to, t);
                    }
                }
            } else {
                assert(!lists(out@, to as int));
            }
            to += 1;
        }
        proof {
            assert forall|t: int|
                #![trigger self.has_edge(from as int, t)]
                self.has_edge(from as int, t) == lists(out@, t) by {
                if self.has_edge(from as int, t) {
                    self.lemma_edges_inside(from as int, t);
                }
            }
        }
        out
    }

    /// The nodes that have an edge to the node `to`, in ascending order.
    pub fn edges_to(&self, to: usize) -> (r: Vec<usize>)
        requires
            to < self.size(),
        ensures
            forall|i: int, j: int| 0 <= i < j < r@.len() ==> r@[i] < r@[j],
            forall|i: int| 0 <= i < r@.len() ==> (#[trigger] r@[i]) < self.size(),
            forall|f: int| #![trigger self.has_edge(f, to as int)] self.has_edge(f, to as int) == lists(r@, f),
    {
        let n = self.nodes.len();
        let mut out: Vec<usize> = Vec::new();
        let mut from: usize = 0;
        while from < n
            invariant
                n == self.size(),
                to < n,
                from <= n,
                forall|i: int, j: int| 0 <= i < j < out@.len() ==> out@[i] < out@[j],
                forall|i: int| 0 <= i < out@.len() ==> (#[trigger] out@[i]) < from,
                forall|f: int|
                    #![trigger self.has_edge(f, to as int)]
                    0 <= f < from ==> self.has_edge(f, to as int) == lists(out@, f),
            decreases n - from,
        {
            let ghost before = out@;
            if *self.get_edge(from, to) {
                out.push(from);
                proof {
                    assert forall|f: int|
                        #![trigger self.has_edge(f, to as int)]
                        0 <= f < from + 1 implies self.has_edge(f, to as int) == lists(out@, f) by {
                        lemma_lists_push(before, from, f);
                    }
                }
            } else {
                assert(!lists(out@, from as int));
            }
            from += 1;
        }
        proof {
            assert forall|f: int|
                #![trigger self.has_edge(f, to as int)]
                self.has_edge(f, to as int) == lists(out@, f) by {
                if self.has_edge(f, to as int) {
                    self.lemma_edges_inside(f, to as int);
                }
            }
        }
        out
    }

    /// Edges join nodes of the graph only.
    pub proof fn lemma_edges_inside(&self, from: int, to: int)
        requires
            self.has_edge(from, to),
        ensures
            0 <= from < self.size(),
            0 <= to < self.size(),
    {
    }
}

} // verus!
