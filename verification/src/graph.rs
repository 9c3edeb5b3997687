//! The dataflow graph: operation nodes joined by data edges.
//!
//! Nodes and edges live in a `petgraph` stable graph, which hands out indices and keeps
//! them stable across removals. Verified code reaches it only through the small
//! functions at the top of this file, whose contracts speak of [`graph_nodes`] and
//! [`graph_edges`], the two maps that say what the graph holds.

use crate::op::OpKind;
use crate::shape::{ShapeTracker, TrackerView};
use itertools::Itertools;
use petgraph::stable_graph::{NodeIndex, StableGraph};
use petgraph::visit::EdgeRef;
use petgraph::Directed;
use std::collections::HashMap;
use vstd::prelude::*;

verus! {

broadcast use vstd::std_specs::hash::group_hash_axioms;

/// Makes `petgraph::stable_graph::StableGraph` known as a type whose inside is not
/// seen; what a value of it holds is told by [`graph_nodes`] and [`graph_edges`].
#[verifier::external_type_specification]
#[verifier::external_body]
#[verifier::reject_recursive_types(N)]
#[verifier::reject_recursive_types(E)]
#[verifier::reject_recursive_types(Ty)]
#[verifier::reject_recursive_types(Ix)]
pub struct ExStableGraph<N, E, Ty, Ix>(StableGraph<N, E, Ty, Ix>);

/// Makes `petgraph::Directed`, the marker of graphs with directed edges, known as a
/// type.
#[verifier::external_type_specification]
#[verifier::external_body]
pub struct ExDirected(Directed);

/// What an edge carries: which operand of its target it is, which output of its source
/// it reads, and the shape through which the target sees the source's storage.
#[derive(Debug)]
pub struct EdgeData {
    pub input_order: u8,
    pub output_order: u8,
    pub shape: ShapeTracker,
}

/// The mathematical content of an edge.
pub struct EdgeView {
    pub source: usize,
    pub target: usize,
    pub input_order: u8,
    pub output_order: u8,
    pub shape: TrackerView,
}

/// One edge as read out of a graph.
#[derive(Debug)]
pub struct EdgeEntry {
    pub id: usize,
    pub source: usize,
    pub target: usize,
    pub input_order: u8,
    pub output_order: u8,
    pub shape: ShapeTracker,
}

impl View for EdgeEntry {
    type V = EdgeView;

    open spec fn view(&self) -> EdgeView {
        EdgeView {
            source: self.source,
            target: self.target,
            input_order: self.input_order,
            output_order: self.output_order,
            shape: self.shape@,
        }
    }
}

/// The storage behind a [`Graph`].
pub type Arena = StableGraph<OpKind, EdgeData, Directed, usize>;

/// The nodes a stable graph holds, each under its index.
pub uninterp spec fn graph_nodes(g: Arena) -> Map<usize, OpKind>;

/// The edges a stable graph holds, each under its index.
pub uninterp spec fn graph_edges(g: Arena) -> Map<usize, EdgeView>;

/// The edges that touch node `a` neither as source nor as target.
pub open spec fn edges_without(edges: Map<usize, EdgeView>, a: usize) -> Map<usize, EdgeView> {
    Map::new(
        |e: usize| edges.dom().contains(e) && edges[e].source != a && edges[e].target != a,
        |e: usize| edges[e],
    )
}

/// `order` lists every node once, each before all nodes it has an edge to.
pub open spec fn is_topological(
    order: Seq<usize>,
    nodes: Map<usize, OpKind>,
    edges: Map<usize, EdgeView>,
) -> bool {
    &&& order.no_duplicates()
    &&& forall|x: usize| nodes.dom().contains(x) <==> order.contains(x)
    &&& forall|e: usize, i: int, j: int|
        #![trigger edges[e], order[i], order[j]]
        edges.dom().contains(e) && 0 <= i < order.len() && 0 <= j < order.len() && order[i]
            == edges[e].source && order[j] == edges[e].target ==> i < j
}

/// The graph has no directed cycle: its nodes can be put in topological order.
pub open spec fn acyclic(nodes: Map<usize, OpKind>, edges: Map<usize, EdgeView>) -> bool {
    exists|order: Seq<usize>| is_topological(order, nodes, edges)
}

/// `entries` lists, once each, exactly the edges of `edges` whose target (`incoming`)
/// or source (otherwise) is `a`.
pub open spec fn lists_edges_of(
    entries: Seq<EdgeEntry>,
    edges: Map<usize, EdgeView>,
    a: usize,
    incoming: bool,
) -> bool {
    &&& forall|i: int|
        0 <= i < entries.len() ==> {
            &&& edges.dom().contains(#[trigger] entries[i].id)
            &&& edges[entries[i].id] == entries[i]@
            &&& (if incoming {
                entries[i].target
            } else {
                entries[i].source
            }) == a
        }
    &&& forall|i: int, j: int| 0 <= i < j < entries.len() ==> entries[i].id != entries[j].id
    &&& forall|e: usize|
        edges.dom().contains(e) && (if incoming {
            edges[e].target
        } else {
            edges[e].source
        }) == a ==> exists|i: int| 0 <= i < entries.len() && #[trigger] entries[i].id == e
}

/// No nodes.
pub open spec fn empty_nodes() -> Map<usize, OpKind> {
    Map::empty()
}

/// No edges.
pub open spec fn empty_edges() -> Map<usize, EdgeView> {
    Map::empty()
}

/// Calls `StableGraph::with_capacity`: a graph that holds nothing.
#[verifier::external_body]
fn outside_new() -> (g: Arena)
    ensures
        graph_nodes(g) == empty_nodes(),
        graph_edges(g) == empty_edges(),
{
    StableGraph::with_capacity(0, 0)
}

/// Calls `StableGraph::add_node`: the node is stored under an index that no node had,
/// and everything else stays. (With `usize` indices the graph has no node limit.)
#[verifier::external_body]
fn outside_add_node(g: &mut Arena, op: OpKind) -> (r: usize)
    ensures
        !graph_nodes(*old(g)).dom().contains(r),
        graph_nodes(*final(g)) == graph_nodes(*old(g)).insert(r, op),
        graph_edges(*final(g)) == graph_edges(*old(g)),
{
    g.add_node(op).index()
}

/// Calls `StableGraph::add_edge`, which needs both end nodes to exist: the edge is
/// stored under an index that no edge had, and everything else stays.
#[verifier::external_body]
fn outside_add_edge(g: &mut Arena, source: usize, target: usize, data: EdgeData) -> (r: usize)
    requires
        graph_nodes(*old(g)).dom().contains(source),
        graph_nodes(*old(g)).dom().contains(target),
    ensures
        !graph_edges(*old(g)).dom().contains(r),
        graph_edges(*final(g)) == graph_edges(*old(g)).insert(
            r,
            (EdgeView {
                source,
                target,
                input_order: data.input_order,
                output_order: data.output_order,
                shape: data.shape@,
            }),
        ),
        graph_nodes(*final(g)) == graph_nodes(*old(g)),
{
    g.add_edge(NodeIndex::new(source), NodeIndex::new(target), data).index()
}

/// Calls `StableGraph::remove_node`: the node leaves together with every edge that
/// starts or ends at it, and its operation is returned if it was there.
#[verifier::external_body]
fn outside_remove_node(g: &mut Arena, a: usize) -> (r: Option<OpKind>)
    ensures
        r == (if graph_nodes(*old(g)).dom().contains(a) {
            Some(graph_nodes(*old(g))[a])
        } else {
            None
        }),
        graph_nodes(*final(g)) == graph_nodes(*old(g)).remove(a),
        graph_edges(*final(g)) == edges_without(graph_edges(*old(g)), a),
{
    g.remove_node(NodeIndex::new(a))
}

/// Calls `StableGraph::node_weight`: the operation of a node, if the node exists.
#[verifier::external_body]
fn outside_node_weight(g: &Arena, a: usize) -> (r: Option<OpKind>)
    ensures
        r == (if graph_nodes(*g).dom().contains(a) {
            Some(graph_nodes(*g)[a])
        } else {
            None
        }),
{
    g.node_weight(NodeIndex::new(a)).copied()
}

/// Calls `StableGraph::node_indices`: the indices of all nodes, in increasing order.
#[verifier::external_body]
fn outside_node_indices(g: &Arena) -> (r: Vec<usize>)
    ensures
        forall|i: int, j: int| 0 <= i < j < r@.len() ==> r@[i] < r@[j],
        forall|x: usize| graph_nodes(*g).dom().contains(x) <==> r@.contains(x),
{
    g.node_indices().map(|n| n.index()).collect()
}

/// Calls `StableGraph::edges_directed` with `Incoming`: every edge that ends at `a`,
/// once, in no stated order.
#[verifier::external_body]
fn outside_edges_in(g: &Arena, a: usize) -> (r: Vec<EdgeEntry>)
    ensures
        lists_edges_of(r@, graph_edges(*g), a, true),
{
    g.edges_directed(NodeIndex::new(a), petgraph::Direction::Incoming).map(
        |e| EdgeEntry {
            id: e.id().index(),
            source: e.source().index(),
            target: e.target().index(),
            input_order: e.weight().input_order,
            output_order: e.weight().output_order,
            shape: e.weight().shape.duplicate(),
        },
    ).collect()
}

/// Calls `StableGraph::edges_directed` with `Outgoing`: every edge that starts at `a`,
/// once, in no stated order.
#[verifier::external_body]
fn outside_edges_out(g: &Arena, a: usize) -> (r: Vec<EdgeEntry>)
    ensures
        lists_edges_of(r@, graph_edges(*g), a, false),
{
    g.edges_directed(NodeIndex::new(a), petgraph::Direction::Outgoing).map(
        |e| EdgeEntry {
            id: e.id().index(),
            source: e.source().index(),
            target: e.target().index(),
            input_order: e.weight().input_order,
            output_order: e.weight().output_order,
            shape: e.weight().shape.duplicate(),
        },
    ).collect()
}

/// Calls `petgraph::algo::toposort`: a topological order of the nodes when the graph
/// has no cycle, and nothing when it has one.
#[verifier::external_body]
fn outside_toposort(g: &Arena) -> (r: Option<Vec<usize>>)
    ensures
        r is Some ==> is_topological(r.unwrap()@, graph_nodes(*g), graph_edges(*g)),
        r is None ==> !acyclic(graph_nodes(*g), graph_edges(*g)),
{
    petgraph::algo::toposort(g, None).ok().map(|v| v.into_iter().map(|n| n.index()).collect())
}

/// `perm` says where each entry of `after` stood in `before`: every place is named
/// once, the entries are in ascending order of input slot, and entries with the same
/// slot stand in their former order.
pub open spec fn sorts_by_slot(before: Seq<EdgeEntry>, after: Seq<EdgeEntry>, perm: Seq<int>) -> bool {
    &&& after.len() == before.len()
    &&& perm.len() == before.len()
    &&& forall|i: int| 0 <= i < perm.len() ==> 0 <= #[trigger] perm[i] < before.len()
    &&& forall|i: int, j: int| 0 <= i < j < perm.len() ==> perm[i] != perm[j]
    &&& forall|k: int| 0 <= k < before.len() ==> #[trigger] perm.contains(k)
    &&& forall|i: int| 0 <= i < after.len() ==> #[trigger] after[i] == before[perm[i]]
    &&& forall|i: int, j: int|
        0 <= i < j < after.len() ==> after[i].input_order <= after[j].input_order
    &&& forall|i: int, j: int|
        0 <= i < j < after.len() && after[i].input_order == after[j].input_order ==> perm[i]
            < perm[j]
}

/// `after` is `before` sorted by input slot.
pub open spec fn sorted_by_slot(before: Seq<EdgeEntry>, after: Seq<EdgeEntry>) -> bool {
    exists|perm: Seq<int>| #[trigger] sorts_by_slot(before, after, perm)
}

/// Calls `Itertools::sorted_by_key` with the input slot as key: the same entries in
/// ascending order of input slot, entries with the same slot in their former order.
#[verifier::external_body]
fn outside_sorted_by_slot(entries: Vec<EdgeEntry>) -> (r: Vec<EdgeEntry>)
    ensures
        sorted_by_slot(entries@, r@),
{
    entries.into_iter().sorted_by_key(|e| e.input_order).collect()
}

/// Sorting a listing of edges leaves it a listing of the same edges.
pub proof fn lemma_sorted_still_lists(
    before: Seq<EdgeEntry>,
    after: Seq<EdgeEntry>,
    edges: Map<usize, EdgeView>,
    a: usize,
    incoming: bool,
)
    requires
        sorted_by_slot(before, after),
        lists_edges_of(before, edges, a, incoming),
    ensures
        lists_edges_of(after, edges, a, incoming),
{
    let perm = choose|perm: Seq<int>| #[trigger] sorts_by_slot(before, after, perm);
    assert forall|i: int| 0 <= i < after.len() implies {
        &&& edges.dom().contains(#[trigger] after[i].id)
        &&& edges[after[i].id] == after[i]@
        &&& (if incoming {
            after[i].target
        } else {
            after[i].source
        }) == a
    } by {
        assert(after[i] == before[perm[i]]);
        assert(edges.dom().contains(before[perm[i]].id));
    }
    assert forall|i: int, j: int| 0 <= i < j < after.len() implies after[i].id != after[j].id by {
        assert(after[i] == before[perm[i]]);
        assert(after[j] == before[perm[j]]);
        assert(perm[i] != perm[j]);
        if perm[i] < perm[j] {
            assert(before[perm[i]].id != before[perm[j]].id);
        } else {
            assert(before[perm[j]].id != before[perm[i]].id);
        }
    }
    assert forall|e: usize|
        edges.dom().contains(e) && (if incoming {
            edges[e].target
        } else {
            edges[e].source
        }) == a implies exists|i: int| 0 <= i < after.len() && #[trigger] after[i].id == e by {
        let k = choose|k: int| 0 <= k < before.len() && #[trigger] before[k].id == e;
        assert(perm.contains(k));
        let i = choose|i: int| 0 <= i < perm.len() && perm[i] == k;
        assert(after[i] == before[perm[i]]);
        assert(after[i].id == e);
    }
}

/// The mathematical content of a [`Graph`].
pub struct GraphView {
    /// The operation of each node.
    pub nodes: Map<usize, OpKind>,
    /// The content of each edge.
    pub edges: Map<usize, EdgeView>,
    /// The declared output shape of each node marked for retrieval.
    pub retrieve: Map<usize, TrackerView>,
}

impl GraphView {
    /// Every edge joins two nodes of the graph, and only nodes are marked.
    pub open spec fn wf(self) -> bool {
        &&& forall|e: usize| #[trigger]
            self.edges.dom().contains(e) ==> self.nodes.dom().contains(self.edges[e].source)
                && self.nodes.dom().contains(self.edges[e].target)
        &&& forall|x: usize| #[trigger]
            self.retrieve.dom().contains(x) ==> self.nodes.dom().contains(x)
    }

    /// The graph has no directed cycle.
    pub open spec fn acyclic(self) -> bool {
        acyclic(self.nodes, self.edges)
    }
}

/// Where an edge stands relative to a node.
#[derive(Clone, Copy, Debug, PartialEq, Eq, Structural)]
pub enum Direction {
    /// The edge ends at the node.
    Incoming,
    /// The edge starts at the node.
    Outgoing,
}

/// A dataflow graph, with the set of nodes whose value must stay observable.
#[derive(Debug)]
pub struct Graph {
    graph: Arena,
    to_retrieve: HashMap<usize, ShapeTracker>,
}

impl View for Graph {
    type V = GraphView;

    closed spec fn view(&self) -> GraphView {
        GraphView {
            nodes: graph_nodes(self.graph),
            edges: graph_edges(self.graph),
            retrieve: Map::new(
                |x: usize| self.to_retrieve@.contains_key(x),
                |x: usize| self.to_retrieve@[x]@,
            ),
        }
    }
}

impl Graph {
    /// The invariant of a graph: every edge joins two of its nodes, and only nodes are
    /// marked for retrieval.
    pub open spec fn wf(&self) -> bool {
        self@.wf()
    }

    /// A graph with no nodes.
    pub fn new() -> (g: Graph)
        ensures
            g.wf(),
            g@.nodes == Map::<usize, OpKind>::empty(),
            g@.edges == Map::<usize, EdgeView>::empty(),
            g@.retrieve == Map::<usize, TrackerView>::empty(),
    {
        let g = Graph { graph: outside_new(), to_retrieve: HashMap::new() };
        assert(g@.retrieve =~= Map::<usize, TrackerView>::empty());
        g
    }

    /// Adds a node and returns its index, which no node of the graph had.
    pub fn add_op(&mut self, op: OpKind) -> (r: usize)
        requires
            old(self).wf(),
        ensures
            final(self).wf(),
            !old(self)@.nodes.dom().contains(r),
            final(self)@.nodes == old(self)@.nodes.insert(r, op),
            final(self)@.edges == old(self)@.edges,
            final(self)@.retrieve == old(self)@.retrieve,
    {
        let r = outside_add_node(&mut self.graph, op);
        proof {
            assert forall|x: usize| #[trigger] self@.retrieve.dom().contains(x) implies self@.nodes.dom().contains(
                x,
            ) by {
                assert(old(self)@.retrieve.dom().contains(x));
            }
            assert forall|e: usize| #[trigger] self@.edges.dom().contains(e) implies self@.nodes.dom().contains(
                self@.edges[e].source,
            ) && self@.nodes.dom().contains(self@.edges[e].target) by {
                assert(old(self)@.edges.dom().contains(e));
            }
        }
        r
    }

    /// Adds an edge and returns its index, which no edge of the graph had. Where one of
    /// the two nodes is missing, nothing is added.
    pub fn add_edge(&mut self, source: usize, target: usize, data: EdgeData) -> (r: Option<usize>)
        requires
            old(self).wf(),
        ensures
            final(self).wf(),
            final(self)@.nodes == old(self)@.nodes,
            final(self)@.retrieve == old(self)@.retrieve,
            r is Some <==> old(self)@.nodes.dom().contains(source) && old(self)@.nodes.dom().contains(
                target,
            ),
            r is None ==> final(self)@.edges == old(self)@.edges,
            r is Some ==> !old(self)@.edges.dom().contains(r.unwrap()) && final(self)@.edges == old(
                self,
            )@.edges.insert(
                r.unwrap(),
                (EdgeView {
                    source,
                    target,
                    input_order: data.input_order,
                    output_order: data.output_order,
                    shape: data.shape@,
                }),
            ),
    {
        if outside_node_weight(&self.graph, source).is_none() || outside_node_weight(
            &self.graph,
            target,
        ).is_none() {
            return None;
        }
        let r = outside_add_edge(&mut self.graph, source, target, data);
        proof {
            assert forall|x: usize| #[trigger] self@.retrieve.dom().contains(x) implies self@.nodes.dom().contains(
                x,
            ) by {
                assert(old(self)@.retrieve.dom().contains(x));
            }
            assert forall|e: usize| #[trigger] self@.edges.dom().contains(e) implies self@.nodes.dom().contains(
                self@.edges[e].source,
            ) && self@.nodes.dom().contains(self@.edges[e].target) by {
                if e != r {
                    assert(old(self)@.edges.dom().contains(e));
                }
            }
        }
        Some(r)
    }

    /// Removes a node, every edge that starts or ends at it, and its retrieval mark.
    /// Returns the node's operation if the node was there.
    pub fn remove_node(&mut self, a: usize) -> (r: Option<OpKind>)
        requires
            old(self).wf(),
        ensures
            final(self).wf(),
            r == (if old(self)@.nodes.dom().contains(a) {
                Some(old(self)@.nodes[a])
            } else {
                None
            }),
            final(self)@.nodes == old(self)@.nodes.remove(a),
            final(self)@.edges == edges_without(old(self)@.edges, a),
            final(self)@.retrieve == old(self)@.retrieve.remove(a),
    {
        let r = outside_remove_node(&mut self.graph, a);
        self.to_retrieve.remove(&a);
        proof {
            assert(self@.retrieve =~= old(self)@.retrieve.remove(a));
            assert forall|x: usize| #[trigger] self@.retrieve.dom().contains(x) implies self@.nodes.dom().contains(
                x,
            ) by {
                assert(old(self)@.retrieve.dom().contains(x));
            }
            assert forall|e: usize| #[trigger] self@.edges.dom().contains(e) implies self@.nodes.dom().contains(
                self@.edges[e].source,
            ) && self@.nodes.dom().contains(self@.edges[e].target) by {
                assert(old(self)@.edges.dom().contains(e));
            }
        }
        r
    }

    /// The operation of a node, if the node exists.
    pub fn node_weight(&self, a: usize) -> (r: Option<OpKind>)
        ensures
            r == (if self@.nodes.dom().contains(a) {
                Some(self@.nodes[a])
            } else {
                None
            }),
    {
        outside_node_weight(&self.graph, a)
    }

    /// The indices of all nodes, in increasing order.
    pub fn node_indices(&self) -> (r: Vec<usize>)
        ensures
            forall|i: int, j: int| 0 <= i < j < r@.len() ==> r@[i] < r@[j],
            forall|x: usize| self@.nodes.dom().contains(x) <==> r@.contains(x),
    {
        outside_node_indices(&self.graph)
    }

    /// The edges that end (`Incoming`) or start (`Outgoing`) at a node, each once.
    pub fn edges_directed(&self, a: usize, dir: Direction) -> (r: Vec<EdgeEntry>)
        ensures
            lists_edges_of(r@, self@.edges, a, dir == Direction::Incoming),
    {
        match dir {
            Direction::Incoming => outside_edges_in(&self.graph, a),
            Direction::Outgoing => outside_edges_out(&self.graph, a),
        }
    }

    /// The edges that end at a node, each once, in ascending order of input slot.
    pub fn operands(&self, a: usize) -> (r: Vec<EdgeEntry>)
        ensures
            lists_edges_of(r@, self@.edges, a, true),
            forall|i: int, j: int|
                0 <= i < j < r@.len() ==> r@[i].input_order <= r@[j].input_order,
    {
        let listed = outside_edges_in(&self.graph, a);
        let ghost before = listed@;
        let sorted = outside_sorted_by_slot(listed);
        proof {
            lemma_sorted_still_lists(before, sorted@, self@.edges, a, true);
            let perm = choose|perm: Seq<int>| #[trigger] sorts_by_slot(before, sorted@, perm);
        }
        sorted
    }

    /// A topological order of the nodes, or `None` where the graph has a cycle.
    pub fn toposort(&self) -> (r: Option<Vec<usize>>)
        ensures
            r is Some <==> self@.acyclic(),
            r is Some ==> is_topological(r.unwrap()@, self@.nodes, self@.edges),
    {
        outside_toposort(&self.graph)
    }

    /// Marks a node as one whose value must stay observable, with its declared shape.
    /// Returns whether the node exists; where it does not, nothing is marked.
    pub fn retrieve(&mut self, a: usize, shape: ShapeTracker) -> (r: bool)
        requires
            old(self).wf(),
        ensures
            final(self).wf(),
            r == old(self)@.nodes.dom().contains(a),
            final(self)@.nodes == old(self)@.nodes,
            final(self)@.edges == old(self)@.edges,
            final(self)@.retrieve == (if r {
                old(self)@.retrieve.insert(a, shape@)
            } else {
                old(self)@.retrieve
            }),
    {
        if outside_node_weight(&self.graph, a).is_none() {
            return false;
        }
        self.to_retrieve.insert(a, shape);
        proof {
            assert(self@.retrieve =~= old(self)@.retrieve.insert(a, shape@));
            assert forall|x: usize| #[trigger] self@.retrieve.dom().contains(x) implies self@.nodes.dom().contains(
                x,
            ) by {
                if x != a {
                    assert(old(self)@.retrieve.dom().contains(x));
                }
            }
            assert forall|e: usize| #[trigger] self@.edges.dom().contains(e) implies self@.nodes.dom().contains(
                self@.edges[e].source,
            ) && self@.nodes.dom().contains(self@.edges[e].target) by {
                assert(old(self)@.edges.dom().contains(e));
            }
        }
        true
    }

    /// The declared shape of a node marked for retrieval.
    pub fn retrieval_shape(&self, a: usize) -> (r: Option<ShapeTracker>)
        ensures
            r is Some <==> self@.retrieve.dom().contains(a),
            r is Some ==> r.unwrap()@ == self@.retrieve[a],
    {
        match self.to_retrieve.get(&a) {
            Some(s) => Some(s.duplicate()),
            None => None,
        }
    }
}

} // verus!
