//! Replacing one tensor node by one node per stored element.
//!
//! A node `x` is replaced by its *little nodes* once all its consumers have been: the
//! edges that already lead from `x` to the little nodes of its consumers are moved to
//! the little node that holds the element each of them asks for, and new edges are laid
//! from the producers of `x` to its little nodes, each remembering in the edge-index
//! table which element it asks for.

use crate::bulk::{
    extends_by, insert_all, lemma_extends_compose, lemma_insert_all_dom, lemma_insert_all_push,
    lemma_insert_all_updates,
};
use crate::error::ScalarizeError;
use crate::graph::{lists_edges_of, Direction, EdgeData, EdgeEntry, EdgeView, Graph, GraphView};
use crate::op::OpKind;
use crate::shape::{
    logical_to_physical, resolve, trivial_view, MAX_VOLUME, ShapeTracker, TrackerView,
};
use crate::validate::{out_edges_agree, uniform_out_shapes};
use std::collections::HashMap;
use vstd::pervasive::unreached;
use vstd::prelude::*;

verus! {

broadcast use vstd::std_specs::hash::group_hash_axioms;

/// Some edge leaves `x`.
pub open spec fn has_out_edge(g: GraphView, x: usize) -> bool {
    exists|e: usize| #[trigger] g.edges.dom().contains(e) && g.edges[e].source == x
}

/// One of the edges that leave `x`.
pub open spec fn some_out_edge(g: GraphView, x: usize) -> usize {
    choose|e: usize| #[trigger] g.edges.dom().contains(e) && g.edges[e].source == x
}

/// The shape of what `x` produces: the shape declared with its retrieval mark, or else
/// the shape on an edge that leaves it.
pub open spec fn own_shape(g: GraphView, x: usize) -> TrackerView {
    if g.retrieve.dom().contains(x) {
        g.retrieve[x]
    } else {
        g.edges[some_out_edge(g, x)].shape
    }
}

/// The output of `x` has a shape, and one whose element count can be computed.
pub open spec fn has_size(g: GraphView, x: usize) -> bool {
    (g.retrieve.dom().contains(x) || has_out_edge(g, x)) && own_shape(g, x).supported()
}

/// The number of elements that `x` stores: the number of little nodes it is replaced by.
pub open spec fn size_of(g: GraphView, x: usize) -> int {
    own_shape(g, x).physical_count()
}

/// Every node has a size.
pub open spec fn all_sized(g: GraphView) -> bool {
    forall|x: usize| g.nodes.dom().contains(x) ==> #[trigger] has_size(g, x)
}

/// `sizes` holds the size of every node of `g` and nothing else.
pub open spec fn sizes_match(sizes: Map<usize, usize>, g: GraphView) -> bool {
    &&& forall|x: usize| sizes.dom().contains(x) <==> g.nodes.dom().contains(x)
    &&& forall|x: usize|
        g.nodes.dom().contains(x) ==> (#[trigger] sizes[x]) == size_of(g, x) && 1 <= sizes[x]
            <= MAX_VOLUME
}

/// The error names a node of `g` that has no size.
pub open spec fn names_unsized_node(err: ScalarizeError, g: GraphView) -> bool {
    match err {
        ScalarizeError::NonStaticShape(x) => g.nodes.dom().contains(x) && !has_size(g, x),
        _ => false,
    }
}

/// Computes the size of every node, before anything is rewritten.
pub(crate) fn node_sizes(graph: &Graph) -> (r: Result<HashMap<usize, usize>, ScalarizeError>)
    requires
        graph.wf(),
        uniform_out_shapes(graph@),
    ensures
        r is Ok <==> all_sized(graph@),
        r is Ok ==> sizes_match(r->Ok_0@, graph@),
        r is Err ==> names_unsized_node(r->Err_0, graph@),
{
    let nodes = graph.node_indices();
    let mut sizes: HashMap<usize, usize> = HashMap::new();
    let mut k: usize = 0;
    while k < nodes.len()
        invariant
            k <= nodes.len(),
            graph.wf(),
            uniform_out_shapes(graph@),
            forall|x: usize| graph@.nodes.dom().contains(x) <==> nodes@.contains(x),
            forall|a: int| 0 <= a < k ==> #[trigger] has_size(graph@, nodes@[a]),
            forall|a: int|
                0 <= a < k ==> sizes@.dom().contains(#[trigger] nodes@[a]) && sizes@[nodes@[a]]
                    == size_of(graph@, nodes@[a]) && 1 <= sizes@[nodes@[a]] <= MAX_VOLUME,
            forall|x: usize| sizes@.dom().contains(x) ==> graph@.nodes.dom().contains(x),
        decreases nodes.len() - k,
    {
        let x = nodes[k];
        assert(nodes@.contains(x));
        let shape = match graph.retrieval_shape(x) {
            Some(s) => s,
            None => {
                let mut out = graph.edges_directed(x, Direction::Outgoing);
                let ghost listed = out@;
                match out.pop() {
                    Some(entry) => {
                        proof {
                            let last = listed.len() - 1;
                            let e = listed[last].id;
                            assert(graph@.edges.dom().contains(e));
                            assert(graph@.edges[e] == listed[last]@);
                            assert(has_out_edge(graph@, x));
                            let c = some_out_edge(graph@, x);
                            assert(out_edges_agree(graph@, x));
                            assert(graph@.edges[c].shape == graph@.edges[e].shape);
                        }
                        entry.shape
                    },
                    None => {
                        proof {
                            if has_out_edge(graph@, x) {
                                let c = some_out_edge(graph@, x);
                                assert(graph@.edges.dom().contains(c) && graph@.edges[c].source == x);
                                assert(false);
                            }
                            assert(!has_size(graph@, x));
                        }
                        return Err(ScalarizeError::NonStaticShape(x));
                    },
                }
            },
        };
        assert(shape@ == own_shape(graph@, x));
        assert(graph@.retrieve.dom().contains(x) || has_out_edge(graph@, x));
        match shape.n_physical_elements() {
            Some(n) => {
                sizes.insert(x, n);
                assert(has_size(graph@, x));
            },
            None => {
                assert(!has_size(graph@, x));
                return Err(ScalarizeError::NonStaticShape(x));
            },
        }
        k += 1;
    }
    proof {
        assert forall|x: usize| graph@.nodes.dom().contains(x) implies #[trigger] has_size(
            graph@,
            x,
        ) && sizes@.dom().contains(x) && sizes@[x] == size_of(graph@, x) && 1 <= sizes@[x]
            <= MAX_VOLUME by {
            assert(nodes@.contains(x));
            let a = choose|a: int| 0 <= a < nodes@.len() && nodes@[a] == x;
            assert(has_size(graph@, nodes@[a]));
        }
        assert forall|x: usize| graph@.nodes.dom().contains(x) implies (#[trigger] sizes@[x])
            == size_of(graph@, x) && 1 <= sizes@[x] <= MAX_VOLUME by {
            assert(has_size(graph@, x));
        }
        assert forall|x: usize| sizes@.dom().contains(x) <==> graph@.nodes.dom().contains(x) by {
            if graph@.nodes.dom().contains(x) {
                assert(has_size(graph@, x));
            }
        }
    }
    Ok(sizes)
}

/// `n` copies of `v`.
pub open spec fn repeat<V>(n: nat, v: V) -> Seq<V> {
    Seq::new(n, |i: int| v)
}

/// Adds `size` nodes of one kind and returns their indices in the order they were made.
fn make_nodes(graph: &mut Graph, size: usize, op: OpKind) -> (little: Vec<usize>)
    requires
        old(graph).wf(),
    ensures
        final(graph).wf(),
        little@.len() == size,
        little@.no_duplicates(),
        forall|j: int| 0 <= j < size ==> !old(graph)@.nodes.dom().contains(#[trigger] little@[j]),
        final(graph)@.nodes == insert_all(old(graph)@.nodes, little@, repeat(size as nat, op)),
        final(graph)@.edges == old(graph)@.edges,
        final(graph)@.retrieve == old(graph)@.retrieve,
{
    let mut little: Vec<usize> = Vec::new();
    let mut j: usize = 0;
    while j < size
        invariant
            j <= size,
            graph.wf(),
            little@.len() == j,
            little@.no_duplicates(),
            forall|a: int| 0 <= a < j ==> !old(graph)@.nodes.dom().contains(#[trigger] little@[a]),
            forall|a: int| 0 <= a < j ==> graph@.nodes.dom().contains(#[trigger] little@[a]),
            graph@.nodes == insert_all(old(graph)@.nodes, little@, repeat(j as nat, op)),
            graph@.edges == old(graph)@.edges,
            graph@.retrieve == old(graph)@.retrieve,
        decreases size - j,
    {
        let ghost before = little@;
        let id = graph.add_op(op);
        little.push(id);
        proof {
            lemma_insert_all_push(old(graph)@.nodes, before, repeat(j as nat, op), id, op);
            assert(repeat(j as nat, op).push(op) =~= repeat((j + 1) as nat, op));
            lemma_insert_all_dom(old(graph)@.nodes, before, repeat(j as nat, op));
            assert forall|a: int| 0 <= a < j + 1 implies graph@.nodes.dom().contains(
                #[trigger] little@[a],
            ) by {
                if a < j {
                    assert(little@[a] == before[a]);
                }
            }
        }
        j += 1;
    }
    little
}

/// Marks give way to `ids`, each with the rank-0 shape, where `x` was marked.
pub open spec fn marks_inherited(
    marks: Map<usize, TrackerView>,
    x: usize,
    ids: Seq<usize>,
) -> Map<usize, TrackerView> {
    if marks.dom().contains(x) {
        insert_all(marks, ids, repeat(ids.len(), trivial_view()))
    } else {
        marks
    }
}

/// Hands the retrieval mark of `x`, if it has one, on to each of its little nodes.
pub(crate) fn mark_retrieve(graph: &mut Graph, x: usize, little: &Vec<usize>)
    requires
        old(graph).wf(),
        forall|j: int| 0 <= j < little@.len() ==> old(graph)@.nodes.dom().contains(#[trigger] little@[j]),
    ensures
        final(graph).wf(),
        final(graph)@.nodes == old(graph)@.nodes,
        final(graph)@.edges == old(graph)@.edges,
        final(graph)@.retrieve == marks_inherited(old(graph)@.retrieve, x, little@),
{
    if graph.retrieval_shape(x).is_none() {
        return ;
    }
    let mut j: usize = 0;
    while j < little.len()
        invariant
            j <= little.len(),
            graph.wf(),
            forall|a: int|
                0 <= a < little@.len() ==> graph@.nodes.dom().contains(#[trigger] little@[a]),
            graph@.nodes == old(graph)@.nodes,
            graph@.edges == old(graph)@.edges,
            graph@.retrieve == insert_all(
                old(graph)@.retrieve,
                little@.take(j as int),
                repeat(j as nat, trivial_view()),
            ),
        decreases little.len() - j,
    {
        let ok = graph.retrieve(little[j], ShapeTracker::trivial());
        proof {
            assert(ok);
            lemma_insert_all_push(
                old(graph)@.retrieve,
                little@.take(j as int),
                repeat(j as nat, trivial_view()),
                little@[j as int],
                trivial_view(),
            );
            assert(little@.take(j as int).push(little@[j as int]) =~= little@.take(j + 1));
            assert(repeat(j as nat, trivial_view()).push(trivial_view()) =~= repeat(
                (j + 1) as nat,
                trivial_view(),
            ));
        }
        j += 1;
    }
    assert(little@.take(little@.len() as int) =~= little@);
}

/// An edge asks for an element that exists: its index is on record, resolves against
/// the edge's shape, and falls among the `n` little nodes of its source.
pub open spec fn can_reconnect(entry: EdgeEntry, indices: Map<usize, usize>, n: int) -> bool {
    &&& indices.dom().contains(entry.id)
    &&& resolve(entry.shape@, indices[entry.id]) is Some
    &&& resolve(entry.shape@, indices[entry.id]).unwrap() < n
}

/// What an edge becomes once its source has been replaced by `little`: it starts at the
/// little node that holds the element it asks for, and carries one scalar.
pub open spec fn reconnected(entry: EdgeView, little: Seq<usize>, logical: usize) -> EdgeView {
    EdgeView {
        source: little[resolve(entry.shape, logical).unwrap() as int],
        target: entry.target,
        input_order: entry.input_order,
        output_order: entry.output_order,
        shape: trivial_view(),
    }
}

/// The replacements of the first `n` listed edges.
pub open spec fn reconnections(
    out: Seq<EdgeEntry>,
    little: Seq<usize>,
    indices: Map<usize, usize>,
    n: int,
) -> Seq<EdgeView> {
    Seq::new(n as nat, |i: int| reconnected(out[i]@, little, indices[out[i].id]))
}

/// `ids` are distinct and none of them is a key of `m`.
pub open spec fn fresh_keys<V>(m: Map<usize, V>, ids: Seq<usize>) -> bool {
    &&& ids.no_duplicates()
    &&& forall|i: int| 0 <= i < ids.len() ==> !m.dom().contains(#[trigger] ids[i])
}

/// For each edge that leaves `x`, adds the edge that replaces it: from the little node
/// that holds the element the edge asks for, to the same target, carrying one scalar.
/// Fails where an edge asks for an element that does not exist.
fn connect_out_edges(
    graph: &mut Graph,
    x: usize,
    out: &Vec<EdgeEntry>,
    little: &Vec<usize>,
    indices: &HashMap<usize, usize>,
) -> (r: Result<Ghost<Seq<usize>>, ScalarizeError>)
    requires
        old(graph).wf(),
        lists_edges_of(out@, old(graph)@.edges, x, false),
        forall|j: int| 0 <= j < little@.len() ==> old(graph)@.nodes.dom().contains(#[trigger] little@[j]),
    ensures
        final(graph).wf(),
        final(graph)@.nodes == old(graph)@.nodes,
        final(graph)@.retrieve == old(graph)@.retrieve,
        r is Ok <==> (forall|i: int|
            0 <= i < out@.len() ==> #[trigger] can_reconnect(out@[i], indices@, little@.len() as int)),
        r is Ok ==> r->Ok_0@.len() == out@.len() && fresh_keys(old(graph)@.edges, r->Ok_0@)
            && final(graph)@.edges == insert_all(
            old(graph)@.edges,
            r->Ok_0@,
            reconnections(out@, little@, indices@, out@.len() as int),
        ),
        r is Err ==> r->Err_0 == ScalarizeError::IndexOutOfPhysicalRange(x),
{
    let ghost mut ids: Seq<usize> = Seq::empty();
    let mut i: usize = 0;
    while i < out.len()
        invariant
            i <= out.len(),
            graph.wf(),
            lists_edges_of(out@, old(graph)@.edges, x, false),
            old(graph).wf(),
            forall|j: int| 0 <= j < little@.len() ==> graph@.nodes.dom().contains(#[trigger] little@[j]),
            graph@.nodes == old(graph)@.nodes,
            graph@.retrieve == old(graph)@.retrieve,
            ids.len() == i,
            fresh_keys(old(graph)@.edges, ids),
            forall|a: int| 0 <= a < i ==> #[trigger] can_reconnect(out@[a], indices@, little@.len() as int),
            graph@.edges == insert_all(
                old(graph)@.edges,
                ids,
                reconnections(out@, little@, indices@, i as int),
            ),
        decreases out.len() - i,
    {
        let entry = &out[i];
        let logical = match indices.get(&entry.id) {
            Some(l) => *l,
            None => {
                assert(!can_reconnect(out@[i as int], indices@, little@.len() as int));
                return Err(ScalarizeError::IndexOutOfPhysicalRange(x));
            },
        };
        let p = match logical_to_physical(&entry.shape, logical) {
            Some(p) => p,
            None => {
                assert(!can_reconnect(out@[i as int], indices@, little@.len() as int));
                return Err(ScalarizeError::IndexOutOfPhysicalRange(x));
            },
        };
        if p >= little.len() {
            assert(!can_reconnect(out@[i as int], indices@, little@.len() as int));
            return Err(ScalarizeError::IndexOutOfPhysicalRange(x));
        }
        assert(can_reconnect(out@[i as int], indices@, little@.len() as int));
        let data = EdgeData {
            input_order: entry.input_order,
            output_order: entry.output_order,
            shape: ShapeTracker::trivial(),
        };
        proof {
            assert(old(graph)@.edges.dom().contains(out@[i as int].id));
            assert(old(graph)@.edges[out@[i as int].id] == out@[i as int]@);
            assert(graph@.nodes.dom().contains(entry.target));
            assert(graph@.nodes.dom().contains(little@[p as int]));
        }
        let ghost before = graph@.edges;
        match graph.add_edge(little[p], entry.target, data) {
            Some(id) => {
                proof {
                    let views = reconnections(out@, little@, indices@, i as int);
                    let view = reconnected(out@[i as int]@, little@, indices@[out@[i as int].id]);
                    lemma_insert_all_dom(old(graph)@.edges, ids, views);
                    lemma_insert_all_push(old(graph)@.edges, ids, views, id, view);
                    assert(views.push(view) =~= reconnections(out@, little@, indices@, i + 1));
                    assert(!ids.contains(id));
                    assert(!old(graph)@.edges.dom().contains(id));
                    ids = ids.push(id);
                }
            },
            None => unreached(),
        }
        i += 1;
    }
    Ok(Ghost(ids))
}

/// The edges laid from a producer to the first `n` little nodes of its consumer.
pub open spec fn operand_views(entry: EdgeView, little: Seq<usize>, n: int) -> Seq<EdgeView> {
    Seq::new(
        n as nat,
        |j: int|
            EdgeView {
                source: entry.source,
                target: little[j],
                input_order: entry.input_order,
                output_order: entry.output_order,
                shape: entry.shape,
            },
    )
}

/// The numbers below `n`, in order.
pub open spec fn counting(n: int) -> Seq<usize> {
    Seq::new(n as nat, |j: int| j as usize)
}

/// Lays one edge from the producer behind `entry` to each little node, edge `j` asking
/// for element `j` of what the producer hands over, and puts that on record.
fn wire_operand(
    graph: &mut Graph,
    entry: &EdgeEntry,
    little: &Vec<usize>,
    indices: &mut HashMap<usize, usize>,
) -> (r: Ghost<Seq<usize>>)
    requires
        old(graph).wf(),
        old(graph)@.nodes.dom().contains(entry.source),
        forall|j: int| 0 <= j < little@.len() ==> old(graph)@.nodes.dom().contains(#[trigger] little@[j]),
    ensures
        final(graph).wf(),
        final(graph)@.nodes == old(graph)@.nodes,
        final(graph)@.retrieve == old(graph)@.retrieve,
        r@.len() == little@.len(),
        fresh_keys(old(graph)@.edges, r@),
        final(graph)@.edges == insert_all(
            old(graph)@.edges,
            r@,
            operand_views(entry@, little@, little@.len() as int),
        ),
        final(indices)@ == insert_all(old(indices)@, r@, counting(little@.len() as int)),
{
    let ghost mut ids: Seq<usize> = Seq::empty();
    let mut j: usize = 0;
    while j < little.len()
        invariant
            j <= little.len(),
            graph.wf(),
            graph@.nodes == old(graph)@.nodes,
            graph@.retrieve == old(graph)@.retrieve,
            graph@.nodes.dom().contains(entry.source),
            forall|a: int| 0 <= a < little@.len() ==> graph@.nodes.dom().contains(#[trigger] little@[a]),
            ids.len() == j,
            fresh_keys(old(graph)@.edges, ids),
            graph@.edges == insert_all(old(graph)@.edges, ids, operand_views(entry@, little@, j as int)),
            indices@ == insert_all(old(indices)@, ids, counting(j as int)),
        decreases little.len() - j,
    {
        let data = EdgeData {
            input_order: entry.input_order,
            output_order: entry.output_order,
            shape: entry.shape.duplicate(),
        };
        match graph.add_edge(entry.source, little[j], data) {
            Some(id) => {
                indices.insert(id, j);
                proof {
                    let views = operand_views(entry@, little@, j as int);
                    let view = operand_views(entry@, little@, j + 1)[j as int];
                    lemma_insert_all_dom(old(graph)@.edges, ids, views);
                    lemma_insert_all_push(old(graph)@.edges, ids, views, id, view);
                    lemma_insert_all_push(old(indices)@, ids, counting(j as int), id, j);
                    assert(views.push(view) =~= operand_views(entry@, little@, j + 1));
                    assert(counting(j as int).push(j) =~= counting(j + 1));
                    assert(!ids.contains(id));
                    ids = ids.push(id);
                }
            },
            None => unreached(),
        }
        j += 1;
    }
    Ghost(ids)
}

/// Why an edge was added while a node was being replaced.
pub enum Role {
    /// It replaces the edge `from`, which left the node.
    Moved { from: usize },
    /// It reads, for a new node, element `logical` of what the edge `via` brought to the
    /// node.
    Laid { via: usize, logical: usize },
    /// It joins two new nodes.
    Link,
}

/// What was added to a graph while a node was being replaced: the nodes with their
/// kinds, and the edges with their content and the reason for each.
pub struct Growth {
    pub made: Seq<usize>,
    pub kinds: Seq<OpKind>,
    pub edges: Seq<usize>,
    pub views: Seq<EdgeView>,
    pub roles: Seq<Role>,
}

impl Growth {
    /// Nothing added.
    pub open spec fn empty() -> Growth {
        Growth {
            made: Seq::empty(),
            kinds: Seq::empty(),
            edges: Seq::empty(),
            views: Seq::empty(),
            roles: Seq::empty(),
        }
    }

    /// First `self`, and after it `other`.
    pub open spec fn followed_by(self, other: Growth) -> Growth {
        Growth {
            made: self.made + other.made,
            kinds: self.kinds + other.kinds,
            edges: self.edges + other.edges,
            views: self.views + other.views,
            roles: self.roles + other.roles,
        }
    }

    /// Only nodes.
    pub open spec fn of_nodes(made: Seq<usize>, kinds: Seq<OpKind>) -> Growth {
        Growth { made, kinds, edges: Seq::empty(), views: Seq::empty(), roles: Seq::empty() }
    }

    /// Only edges.
    pub open spec fn of_edges(edges: Seq<usize>, views: Seq<EdgeView>, roles: Seq<Role>) -> Growth {
        Growth { made: Seq::empty(), kinds: Seq::empty(), edges, views, roles }
    }
}

/// Away from the edges `added`, the records `rec2` are the records `rec`.
pub open spec fn records_elsewhere(
    rec: Map<usize, usize>,
    rec2: Map<usize, usize>,
    added: Seq<usize>,
) -> bool {
    forall|e: usize|
        !added.contains(e) ==> (#[trigger] rec2.dom().contains(e) <==> rec.dom().contains(e)) && (
        rec.dom().contains(e) ==> rec2[e] == rec[e])
}

/// Each edge laid for a new node has the element it asks for on record.
pub open spec fn records_made(rec2: Map<usize, usize>, w: Growth) -> bool {
    forall|i: int|
        0 <= i < w.edges.len() ==> (#[trigger] w.roles[i] matches Role::Laid { via, logical }
            ==> rec2.dom().contains(w.edges[i]) && rec2[w.edges[i]] == logical)
}

/// Graph `h` with records `rec2` is graph `g` with records `rec` after `w` was added.
pub open spec fn grows(
    g: GraphView,
    h: GraphView,
    rec: Map<usize, usize>,
    rec2: Map<usize, usize>,
    w: Growth,
) -> bool {
    &&& h.retrieve == g.retrieve
    &&& extends_by(g.nodes, h.nodes, w.made, w.kinds)
    &&& extends_by(g.edges, h.edges, w.edges, w.views)
    &&& w.roles.len() == w.edges.len()
    &&& records_elsewhere(rec, rec2, w.edges)
    &&& records_made(rec2, w)
}

/// Nothing added changes nothing.
pub proof fn lemma_grows_nothing(g: GraphView, rec: Map<usize, usize>)
    ensures
        grows(g, g, rec, rec, Growth::empty()),
{
}

/// Two additions in a row are one addition.
pub proof fn lemma_grows_twice(
    g0: GraphView,
    g1: GraphView,
    g2: GraphView,
    r0: Map<usize, usize>,
    r1: Map<usize, usize>,
    r2: Map<usize, usize>,
    w1: Growth,
    w2: Growth,
)
    requires
        grows(g0, g1, r0, r1, w1),
        grows(g1, g2, r1, r2, w2),
    ensures
        grows(g0, g2, r0, r2, w1.followed_by(w2)),
{
    lemma_extends_compose(g0.nodes, g1.nodes, g2.nodes, w1.made, w1.kinds, w2.made, w2.kinds);
    lemma_extends_compose(g0.edges, g1.edges, g2.edges, w1.edges, w1.views, w2.edges, w2.views);
    let w = w1.followed_by(w2);
    assert forall|e: usize| !w.edges.contains(e) implies (#[trigger] r2.dom().contains(e)
        <==> r0.dom().contains(e)) && (r0.dom().contains(e) ==> r2[e] == r0[e]) by {
        if w1.edges.contains(e) {
            let i = choose|i: int| 0 <= i < w1.edges.len() && w1.edges[i] == e;
            assert(w.edges[i] == e);
        }
        if w2.edges.contains(e) {
            let i = choose|i: int| 0 <= i < w2.edges.len() && w2.edges[i] == e;
            assert(w.edges[i + w1.edges.len()] == e);
        }
        assert(r1.dom().contains(e) <==> r0.dom().contains(e));
    }
    assert forall|i: int| 0 <= i < w.edges.len() implies (#[trigger] w.roles[i] matches Role::Laid {
        via,
        logical,
    } ==> r2.dom().contains(w.edges[i]) && r2[w.edges[i]] == logical) by {
        if i < w1.edges.len() {
            assert(w.roles[i] == w1.roles[i]);
            assert(w.edges[i] == w1.edges[i]);
            if w1.roles[i] is Laid {
                assert(w1.edges.contains(w1.edges[i]));
                assert(g1.edges.dom().contains(w1.edges[i]));
                assert(r1.dom().contains(w1.edges[i]));
                assert(!w2.edges.contains(w1.edges[i])) by {
                    if w2.edges.contains(w1.edges[i]) {
                        let j = choose|j: int| 0 <= j < w2.edges.len() && w2.edges[j] == w1.edges[i];
                        assert(!g1.edges.dom().contains(w2.edges[j]));
                    }
                }
            }
        } else {
            assert(w.roles[i] == w2.roles[i - w1.edges.len()]);
            assert(w.edges[i] == w2.edges[i - w1.edges.len()]);
        }
    }
}

/// Node `n` was made after the graph was `b`.
pub open spec fn is_new(b: GraphView, now: Map<usize, OpKind>, n: usize) -> bool {
    !b.nodes.dom().contains(n) && now.dom().contains(n)
}

/// An edge added while `x` was being replaced is what its role says: the replacement of
/// an edge that left `x`, a reading of what an edge brought to `x`, or a link between
/// new nodes. `b` is the graph and `rec` the records when the replacement began, `little`
/// the little nodes of `x`, `now` the nodes at present.
pub open spec fn edge_sound(
    b: GraphView,
    x: usize,
    rec: Map<usize, usize>,
    little: Seq<usize>,
    now: Map<usize, OpKind>,
    view: EdgeView,
    role: Role,
) -> bool {
    match role {
        Role::Moved { from } => {
            &&& b.edges.dom().contains(from)
            &&& b.edges[from].source == x
            &&& rec.dom().contains(from)
            &&& resolve(b.edges[from].shape, rec[from]) is Some
            &&& resolve(b.edges[from].shape, rec[from]).unwrap() < little.len()
            &&& view == reconnected(b.edges[from], little, rec[from])
        },
        Role::Laid { via, logical } => {
            &&& b.edges.dom().contains(via)
            &&& b.edges[via].target == x
            &&& view.source == b.edges[via].source
            &&& view.shape == b.edges[via].shape
            &&& view.output_order == b.edges[via].output_order
            &&& is_new(b, now, view.target)
        },
        Role::Link => {
            &&& is_new(b, now, view.source)
            &&& is_new(b, now, view.target)
            &&& view.shape == trivial_view()
        },
    }
}

/// Every edge of `w` is what its role says.
pub open spec fn all_sound(
    b: GraphView,
    x: usize,
    rec: Map<usize, usize>,
    little: Seq<usize>,
    now: Map<usize, OpKind>,
    w: Growth,
) -> bool {
    &&& w.views.len() == w.edges.len()
    &&& w.roles.len() == w.edges.len()
    &&& forall|i: int|
        0 <= i < w.edges.len() ==> edge_sound(b, x, rec, little, now, #[trigger] w.views[i], w.roles[i])
}

/// Soundness survives more nodes and more edges.
pub proof fn lemma_sound_twice(
    b: GraphView,
    x: usize,
    rec: Map<usize, usize>,
    little: Seq<usize>,
    now1: Map<usize, OpKind>,
    now2: Map<usize, OpKind>,
    w1: Growth,
    w2: Growth,
)
    requires
        all_sound(b, x, rec, little, now1, w1),
        all_sound(b, x, rec, little, now2, w2),
        forall|n: usize| now1.dom().contains(n) ==> now2.dom().contains(n),
    ensures
        all_sound(b, x, rec, little, now2, w1.followed_by(w2)),
{
    let w = w1.followed_by(w2);
    assert forall|i: int| 0 <= i < w.edges.len() implies edge_sound(
        b,
        x,
        rec,
        little,
        now2,
        #[trigger] w.views[i],
        w.roles[i],
    ) by {
        if i < w1.edges.len() {
            assert(w.views[i] == w1.views[i]);
            assert(w.roles[i] == w1.roles[i]);
            assert(edge_sound(b, x, rec, little, now1, w1.views[i], w1.roles[i]));
        } else {
            let k = i - w1.edges.len();
            assert(w.views[i] == w2.views[k]);
            assert(w.roles[i] == w2.roles[k]);
            assert(edge_sound(b, x, rec, little, now2, w2.views[k], w2.roles[k]));
        }
    }
}

/// Every listed edge asks for an element that exists among `n`.
pub open spec fn reconnectable(out: Seq<EdgeEntry>, rec: Map<usize, usize>, n: int) -> bool {
    forall|i: int| 0 <= i < out.len() ==> #[trigger] can_reconnect(out[i], rec, n)
}

/// The roles of the edges that replace the listed ones.
pub open spec fn moved_roles(out: Seq<EdgeEntry>) -> Seq<Role> {
    Seq::new(out.len(), |i: int| Role::Moved { from: out[i].id })
}

/// The roles of the edges laid for one operand.
pub open spec fn laid_roles(via: usize, n: int) -> Seq<Role> {
    Seq::new(n as nat, |j: int| Role::Laid { via, logical: j as usize })
}

/// The records `cur` say of every listed edge what the records `rec` say.
pub open spec fn records_agree(
    out: Seq<EdgeEntry>,
    rec: Map<usize, usize>,
    cur: Map<usize, usize>,
) -> bool {
    forall|i: int|
        0 <= i < out.len() ==> (cur.dom().contains(#[trigger] out[i].id) <==> rec.dom().contains(
            out[i].id,
        )) && (rec.dom().contains(out[i].id) ==> cur[out[i].id] == rec[out[i].id])
}

/// What [`connect_out_edges`] adds is a sound growth.
proof fn lemma_moved_grows(
    b: GraphView,
    g: GraphView,
    h: GraphView,
    rec: Map<usize, usize>,
    cur: Map<usize, usize>,
    x: usize,
    out: Seq<EdgeEntry>,
    little: Seq<usize>,
    ids: Seq<usize>,
)
    requires
        lists_edges_of(out, b.edges, x, false),
        records_agree(out, rec, cur),
        reconnectable(out, cur, little.len() as int),
        ids.len() == out.len(),
        fresh_keys(g.edges, ids),
        h.nodes == g.nodes,
        h.retrieve == g.retrieve,
        h.edges == insert_all(g.edges, ids, reconnections(out, little, cur, out.len() as int)),
    ensures
        reconnectable(out, rec, little.len() as int),
        grows(
            g,
            h,
            cur,
            cur,
            Growth::of_edges(
                ids,
                reconnections(out, little, rec, out.len() as int),
                moved_roles(out),
            ),
        ),
        all_sound(
            b,
            x,
            rec,
            little,
            h.nodes,
            Growth::of_edges(
                ids,
                reconnections(out, little, rec, out.len() as int),
                moved_roles(out),
            ),
        ),
{
    let views = reconnections(out, little, rec, out.len() as int);
    assert forall|i: int| 0 <= i < out.len() implies #[trigger] can_reconnect(
        out[i],
        rec,
        little.len() as int,
    ) by {
        assert(can_reconnect(out[i], cur, little.len() as int));
        assert(cur.dom().contains(out[i].id));
    }
    assert(views =~= reconnections(out, little, cur, out.len() as int)) by {
        assert forall|i: int| 0 <= i < out.len() implies views[i] == reconnections(
            out,
            little,
            cur,
            out.len() as int,
        )[i] by {
            assert(can_reconnect(out[i], cur, little.len() as int));
            assert(cur.dom().contains(out[i].id));
        }
    }
    let w = Growth::of_edges(ids, views, moved_roles(out));
    lemma_insert_all_updates(g.edges, ids, views);
    assert(extends_by(g.nodes, h.nodes, w.made, w.kinds));
    assert forall|i: int| 0 <= i < w.edges.len() implies edge_sound(
        b,
        x,
        rec,
        little,
        h.nodes,
        #[trigger] w.views[i],
        w.roles[i],
    ) by {
        assert(can_reconnect(out[i], rec, little.len() as int));
        assert(b.edges.dom().contains(out[i].id));
        assert(b.edges[out[i].id] == out[i]@);
    }
}

/// What [`wire_operand`] adds is a sound growth.
proof fn lemma_laid_grows(
    b: GraphView,
    g: GraphView,
    h: GraphView,
    rec: Map<usize, usize>,
    rec1: Map<usize, usize>,
    rec2: Map<usize, usize>,
    x: usize,
    entry: EdgeEntry,
    little: Seq<usize>,
    ids: Seq<usize>,
)
    requires
        b.edges.dom().contains(entry.id),
        b.edges[entry.id] == entry@,
        entry.target == x,
        forall|j: int| 0 <= j < little.len() ==> is_new(b, g.nodes, #[trigger] little[j]),
        ids.len() == little.len(),
        fresh_keys(g.edges, ids),
        h.nodes == g.nodes,
        h.retrieve == g.retrieve,
        h.edges == insert_all(g.edges, ids, operand_views(entry@, little, little.len() as int)),
        rec2 == insert_all(rec1, ids, counting(little.len() as int)),
    ensures
        grows(
            g,
            h,
            rec1,
            rec2,
            Growth::of_edges(
                ids,
                operand_views(entry@, little, little.len() as int),
                laid_roles(entry.id, little.len() as int),
            ),
        ),
        all_sound(
            b,
            x,
            rec,
            little,
            h.nodes,
            Growth::of_edges(
                ids,
                operand_views(entry@, little, little.len() as int),
                laid_roles(entry.id, little.len() as int),
            ),
        ),
{
    let n = little.len() as int;
    let views = operand_views(entry@, little, n);
    let w = Growth::of_edges(ids, views, laid_roles(entry.id, n));
    lemma_insert_all_updates(g.edges, ids, views);
    lemma_insert_all_updates(rec1, ids, counting(n));
    assert(extends_by(g.nodes, h.nodes, w.made, w.kinds));
    assert forall|i: int| 0 <= i < w.edges.len() implies (#[trigger] w.roles[i] matches Role::Laid {
        via,
        logical,
    } ==> rec2.dom().contains(w.edges[i]) && rec2[w.edges[i]] == logical) by {
        assert(rec2[ids[i]] == counting(n)[i]);
        assert(ids.contains(ids[i]));
    }
    assert forall|i: int| 0 <= i < w.edges.len() implies edge_sound(
        b,
        x,
        rec,
        little,
        h.nodes,
        #[trigger] w.views[i],
        w.roles[i],
    ) by {
        assert(is_new(b, g.nodes, little[i]));
    }
}

/// The number of elements that lie behind each entry of axis `ax` in what `t` shows.
pub open spec fn back_len(t: TrackerView, ax: usize) -> int {
    product(t.visible_dims().subrange(ax + 1, t.visible_dims().len() as int))
}

/// A node of kind `op` with `size` elements reads element `logical` of an operand that
/// it sees through `t`: an elementwise node reads the elements below `size`, a
/// reduction reads, for each of its elements, every entry of the folded axis.
pub open spec fn asked(op: OpKind, t: TrackerView, size: int, logical: usize) -> bool {
    if op.is_reduce() {
        exists|i: int, k: int|
            0 <= i < size && 0 <= k < t.visible_dims()[op.reduce_axis() as int] && logical
                == #[trigger] reduce_index(
                i,
                k,
                t.visible_dims()[op.reduce_axis() as int],
                back_len(t, op.reduce_axis()),
            )
    } else {
        logical < size
    }
}

/// Every edge laid reads an element that the node asks for.
pub open spec fn all_asked(b: GraphView, op: OpKind, size: int, w: Growth) -> bool {
    forall|i: int|
        0 <= i < w.roles.len() ==> (#[trigger] w.roles[i] matches Role::Laid { via, logical }
            ==> asked(op, b.edges[via].shape, size, logical))
}

/// For every element that the node asks of an operand, an edge was laid.
pub open spec fn laid_all(b: GraphView, x: usize, op: OpKind, size: int, w: Growth) -> bool {
    forall|e: usize, l: usize|
        b.edges.dom().contains(e) && b.edges[e].target == x && asked(op, b.edges[e].shape, size, l)
            ==> #[trigger] w.roles.contains(Role::Laid { via: e, logical: l })
}

/// The roles of two additions in a row are the roles of both.
pub proof fn lemma_roles_twice(b: GraphView, op: OpKind, size: int, w1: Growth, w2: Growth)
    requires
        all_asked(b, op, size, w1),
        all_asked(b, op, size, w2),
    ensures
        all_asked(b, op, size, w1.followed_by(w2)),
        forall|r: Role|
            w1.roles.contains(r) || w2.roles.contains(r) ==> #[trigger] w1.followed_by(
                w2,
            ).roles.contains(r),
{
    let w = w1.followed_by(w2);
    assert forall|i: int| 0 <= i < w.roles.len() implies (#[trigger] w.roles[i] matches Role::Laid {
        via,
        logical,
    } ==> asked(op, b.edges[via].shape, size, logical)) by {
        if i < w1.roles.len() {
            assert(w.roles[i] == w1.roles[i]);
        } else {
            assert(w.roles[i] == w2.roles[i - w1.roles.len()]);
        }
    }
    assert forall|r: Role| w1.roles.contains(r) || w2.roles.contains(r) implies #[trigger] w.roles.contains(
        r,
    ) by {
        if w1.roles.contains(r) {
            let i = choose|i: int| 0 <= i < w1.roles.len() && w1.roles[i] == r;
            assert(w.roles[i] == r);
        } else {
            let i = choose|i: int| 0 <= i < w2.roles.len() && w2.roles[i] == r;
            assert(w.roles[i + w1.roles.len()] == r);
        }
    }
}

/// Nodes and moved edges ask for nothing.
pub proof fn lemma_moves_ask_nothing(
    b: GraphView,
    op: OpKind,
    size: int,
    little: Seq<usize>,
    kinds: Seq<OpKind>,
    ids: Seq<usize>,
    views: Seq<EdgeView>,
    out: Seq<EdgeEntry>,
)
    ensures
        all_asked(b, op, size, Growth::of_nodes(little, kinds)),
        all_asked(b, op, size, Growth::of_edges(ids, views, moved_roles(out))),
{
}

/// Graph `h` with records `rec2` is graph `b` with records `rec` after `x` was given
/// its little nodes: `w` was added, every edge of it for a stated reason, and the little
/// nodes are new, distinct and of kind `kind`, as is every other node made.
pub open spec fn expanded(
    b: GraphView,
    h: GraphView,
    rec: Map<usize, usize>,
    rec2: Map<usize, usize>,
    x: usize,
    little: Seq<usize>,
    kind: OpKind,
    w: Growth,
) -> bool {
    &&& grows(b, h, rec, rec2, w)
    &&& all_sound(b, x, rec, little, h.nodes, w)
    &&& little.no_duplicates()
    &&& forall|j: int| 0 <= j < little.len() ==> w.made.contains(#[trigger] little[j])
    &&& forall|i: int| 0 <= i < w.kinds.len() ==> #[trigger] w.kinds[i] == kind
}

/// The operand behind `entry` has exactly `size` elements.
pub open spec fn operand_fits(entry: EdgeEntry, size: int) -> bool {
    entry.shape@.supported() && entry.shape@.logical_count() == size
}

/// Every operand has exactly `size` elements.
pub open spec fn operands_fit(incoming: Seq<EdgeEntry>, size: int) -> bool {
    forall|a: int| 0 <= a < incoming.len() ==> #[trigger] operand_fits(incoming[a], size)
}

/// The error says what keeps an elementwise node from being replaced.
pub open spec fn pointwise_fault(
    err: ScalarizeError,
    x: usize,
    incoming: Seq<EdgeEntry>,
    out: Seq<EdgeEntry>,
    rec: Map<usize, usize>,
    size: int,
) -> bool {
    match err {
        ScalarizeError::IndexOutOfPhysicalRange(y) => y == x && !reconnectable(out, rec, size),
        ScalarizeError::NonStaticShape(y) => exists|a: int|
            0 <= a < incoming.len() && (#[trigger] incoming[a]).source == y
                && !incoming[a].shape@.supported(),
        ScalarizeError::NonUniformOutgoingShapes(y) => exists|a: int|
            0 <= a < incoming.len() && (#[trigger] incoming[a]).source == y
                && incoming[a].shape@.supported() && incoming[a].shape@.logical_count() != size,
        _ => false,
    }
}

/// The little nodes with the replaced edges follow the plan of a node without folds,
/// and every edge that left the node is among the replaced.
proof fn lemma_moved_laid_out(
    b: GraphView,
    x: usize,
    op: OpKind,
    size: int,
    little: Seq<usize>,
    kinds: Seq<OpKind>,
    ids: Seq<usize>,
    views: Seq<EdgeView>,
    out: Seq<EdgeEntry>,
)
    requires
        lists_edges_of(out, b.edges, x, false),
        little.no_duplicates(),
        ids.len() == out.len(),
        views.len() == out.len(),
    ensures
        all_aimed(
            b,
            op,
            size,
            singles(little),
            Growth::of_nodes(little, kinds).followed_by(Growth::of_edges(ids, views, moved_roles(out))),
        ),
        moved_each(
            b,
            x,
            Growth::of_nodes(little, kinds).followed_by(Growth::of_edges(ids, views, moved_roles(out))),
        ),
        linked_each(
            singles(little),
            Growth::of_nodes(little, kinds).followed_by(Growth::of_edges(ids, views, moved_roles(out))),
        ),
        folds_made(singles(little), little, little, 1),
        marks_differ(
            Growth::of_nodes(little, kinds).followed_by(Growth::of_edges(ids, views, moved_roles(out))),
        ),
        forall|i: int|
            0 <= i < ids.len() ==> (#[trigger] Growth::of_nodes(little, kinds).followed_by(
                Growth::of_edges(ids, views, moved_roles(out)),
            ).roles[i]) is Moved,
{
    let w = Growth::of_nodes(little, kinds).followed_by(
        Growth::of_edges(ids, views, moved_roles(out)),
    );
    let folds = singles(little);
    assert(w.roles =~= moved_roles(out));
    assert(w.views =~= views);
    assert(w.edges =~= ids);
    lemma_moved_marks(Growth::empty(), ids, views, out);
    assert(w == Growth {
        made: little,
        kinds,
        edges: ids,
        views,
        roles: moved_roles(out),
    });
    assert forall|i: int, j: int| 0 <= i < j < w.edges.len() implies #[trigger] mark_of(w, i)
        != #[trigger] mark_of(w, j) by {
        let w1 = Growth::of_edges(ids, views, moved_roles(out));
        assert(mark_of(w, i) == mark_of(w1, i) && mark_of(w, j) == mark_of(w1, j));
    }
    assert forall|t: usize| #[trigger]
        b.edges.dom().contains(t) && b.edges[t].source == x implies w.roles.contains(
        Role::Moved { from: t },
    ) by {
        let k = choose|k: int| 0 <= k < out.len() && #[trigger] out[k].id == t;
        assert(w.roles[k] == Role::Moved { from: t });
    }
    assert forall|m: usize| #[trigger] little.contains(m) implies in_folds(folds, m) by {
        let j = choose|j: int| 0 <= j < little.len() && little[j] == m;
        assert(folds[j][0] == m);
    }
    assert forall|a: int, k: int|
        0 <= a < folds.len() && 0 <= k < folds[a].len() implies little.contains(
        #[trigger] folds[a][k],
    ) by {
        assert(little[a] == folds[a][k]);
    }
}

/// Every edge of `w` laid for an operand is laid for one of the first `a` listed.
pub open spec fn laid_among(w: Growth, incoming: Seq<EdgeEntry>, a: int) -> bool {
    forall|i: int|
        0 <= i < w.edges.len() ==> match #[trigger] w.roles[i] {
            Role::Laid { via, logical } => exists|aa: int|
                0 <= aa < a && #[trigger] incoming[aa].id == via,
            Role::Link => false,
            Role::Moved { from } => true,
        }
}

/// The edges laid for one more operand have marks of their own.
proof fn lemma_operand_marks(
    w: Growth,
    incoming: Seq<EdgeEntry>,
    a: int,
    little: Seq<usize>,
    ids: Seq<usize>,
)
    requires
        0 <= a < incoming.len(),
        forall|i: int, j: int| 0 <= i < j < incoming.len() ==> incoming[i].id != incoming[j].id,
        w.roles.len() == w.edges.len(),
        w.views.len() == w.edges.len(),
        ids.len() == little.len(),
        little.no_duplicates(),
        marks_differ(w),
        laid_among(w, incoming, a),
    ensures
        marks_differ(
            w.followed_by(
                Growth::of_edges(
                    ids,
                    operand_views(incoming[a]@, little, little.len() as int),
                    laid_roles(incoming[a].id, little.len() as int),
                ),
            ),
        ),
        laid_among(
            w.followed_by(
                Growth::of_edges(
                    ids,
                    operand_views(incoming[a]@, little, little.len() as int),
                    laid_roles(incoming[a].id, little.len() as int),
                ),
            ),
            incoming,
            a + 1,
        ),
{
    let n = little.len() as int;
    let w2 = Growth::of_edges(
        ids,
        operand_views(incoming[a]@, little, n),
        laid_roles(incoming[a].id, n),
    );
    let both = w.followed_by(w2);
    assert forall|i: int, j: int| 0 <= i < j < w2.edges.len() implies #[trigger] mark_of(w2, i)
        != #[trigger] mark_of(w2, j) by {
        assert(w2.views[i].target == little[i]);
        assert(w2.views[j].target == little[j]);
    }
    assert forall|i: int, j: int|
        0 <= i < w.edges.len() && 0 <= j < w2.edges.len() implies #[trigger] mark_of(w, i)
        != #[trigger] mark_of(w2, j) by {
        assert(w2.roles[j] == Role::Laid { via: incoming[a].id, logical: j as usize });
        match w.roles[i] {
            Role::Laid { via, logical } => {
                let aa = choose|aa: int| 0 <= aa < a && #[trigger] incoming[aa].id == via;
                assert(incoming[aa].id != incoming[a].id);
            },
            _ => {},
        }
    }
    lemma_marks_twice(w, w2);
    assert forall|i: int| 0 <= i < both.edges.len() implies match #[trigger] both.roles[i] {
        Role::Laid { via, logical } => exists|aa: int|
            0 <= aa < a + 1 && #[trigger] incoming[aa].id == via,
        Role::Link => false,
        Role::Moved { from } => true,
    } by {
        if i < w.edges.len() {
            assert(both.roles[i] == w.roles[i]);
            match w.roles[i] {
                Role::Laid { via, logical } => {
                    let aa = choose|aa: int| 0 <= aa < a && #[trigger] incoming[aa].id == via;
                    assert(incoming[aa].id == via);
                },
                _ => {},
            }
        } else {
            let k = i - w.edges.len();
            assert(both.roles[i] == w2.roles[k]);
            assert(w2.roles[k] == Role::Laid { via: incoming[a].id, logical: k as usize });
            assert(incoming[a].id == incoming[a].id);
        }
    }
}

/// Making the little nodes is a sound growth.
proof fn lemma_made_grows(
    b: GraphView,
    h: GraphView,
    rec: Map<usize, usize>,
    x: usize,
    little: Seq<usize>,
    op: OpKind,
)
    requires
        fresh_keys(b.nodes, little),
        h.nodes == insert_all(b.nodes, little, repeat(little.len(), op)),
        h.edges == b.edges,
        h.retrieve == b.retrieve,
    ensures
        grows(b, h, rec, rec, Growth::of_nodes(little, repeat(little.len(), op))),
        all_sound(b, x, rec, little, h.nodes, Growth::of_nodes(little, repeat(little.len(), op))),
        forall|j: int| 0 <= j < little.len() ==> is_new(b, h.nodes, #[trigger] little[j]),
{
    lemma_insert_all_updates(b.nodes, little, repeat(little.len(), op));
    let w = Growth::of_nodes(little, repeat(little.len(), op));
    assert(extends_by(b.edges, h.edges, w.edges, w.views));
    assert forall|j: int| 0 <= j < little.len() implies is_new(b, h.nodes, #[trigger] little[j]) by {
        assert(little.contains(little[j]));
    }
}

/// Replaces an elementwise node: one little node per element, each reading the same
/// element of every operand.
fn pointwise_op(
    graph: &mut Graph,
    op: OpKind,
    x: usize,
    size: usize,
    incoming: &Vec<EdgeEntry>,
    out: &Vec<EdgeEntry>,
    indices: &mut HashMap<usize, usize>,
) -> (r: Result<(Vec<usize>, Ghost<Growth>), ScalarizeError>)
    requires
        old(graph).wf(),
        !op.is_reduce(),
        lists_edges_of(incoming@, old(graph)@.edges, x, true),
        lists_edges_of(out@, old(graph)@.edges, x, false),
    ensures
        final(graph).wf(),
        r is Ok <==> reconnectable(out@, old(indices)@, size as int) && operands_fit(
            incoming@,
            size as int,
        ),
        r is Ok ==> all_asked(old(graph)@, op, size as int, r->Ok_0.1@) && laid_all(
            old(graph)@,
            x,
            op,
            size as int,
            r->Ok_0.1@,
        ),
        r is Ok ==> laid_out(
            old(graph)@,
            x,
            op,
            size as int,
            r->Ok_0.0@,
            singles(r->Ok_0.0@),
            1,
            r->Ok_0.1@,
        ),
        r is Ok ==> r->Ok_0.0@.len() == size && expanded(
            old(graph)@,
            final(graph)@,
            old(indices)@,
            final(indices)@,
            x,
            r->Ok_0.0@,
            op,
            r->Ok_0.1@,
        ),
        r is Err ==> pointwise_fault(
            r->Err_0,
            x,
            incoming@,
            out@,
            old(indices)@,
            size as int,
        ),
{
    let ghost b = graph@;
    let ghost rec = indices@;
    let little = make_nodes(graph, size, op);
    let ghost g1 = graph@;
    let ghost w0 = Growth::of_nodes(little@, repeat(size as nat, op));
    proof {
        lemma_made_grows(b, g1, rec, x, little@, op);
    }
    let moved = match connect_out_edges(graph, x, out, &little, indices) {
        Ok(m) => m,
        Err(e) => {
            assert(!reconnectable(out@, rec, size as int));
            return Err(e);
        },
    };
    let ghost g2 = graph@;
    let ghost w1 = Growth::of_edges(
        moved@,
        reconnections(out@, little@, rec, out@.len() as int),
        moved_roles(out@),
    );
    let ghost mut w = w0.followed_by(w1);
    proof {
        lemma_moved_grows(b, g1, g2, rec, rec, x, out@, little@, moved@);
        lemma_grows_twice(b, g1, g2, rec, rec, rec, w0, w1);
        lemma_sound_twice(b, x, rec, little@, g1.nodes, g2.nodes, w0, w1);
        lemma_moves_ask_nothing(
            b,
            op,
            size as int,
            little@,
            repeat(size as nat, op),
            moved@,
            reconnections(out@, little@, rec, out@.len() as int),
            out@,
        );
        lemma_roles_twice(b, op, size as int, w0, w1);
        lemma_moved_laid_out(
            b,
            x,
            op,
            size as int,
            little@,
            repeat(size as nat, op),
            moved@,
            reconnections(out@, little@, rec, out@.len() as int),
            out@,
        );
        assert(w.made =~= little@);
        assert(w.kinds =~= repeat(size as nat, op));
        assert(w.edges =~= moved@);
        assert(laid_among(w, incoming@, 0));
    }
    let mut a: usize = 0;
    while a < incoming.len()
        invariant
            a <= incoming.len(),
            graph.wf(),
            b.wf(),
            little@.len() == size,
            lists_edges_of(incoming@, b.edges, x, true),
            reconnectable(out@, rec, size as int),
            grows(b, graph@, rec, indices@, w),
            all_sound(b, x, rec, little@, graph@.nodes, w),
            forall|j: int| 0 <= j < little@.len() ==> is_new(b, graph@.nodes, #[trigger] little@[j]),
            forall|aa: int| 0 <= aa < a ==> #[trigger] operand_fits(incoming@[aa], size as int),
            w.made == little@,
            w.kinds == repeat(size as nat, op),
            !op.is_reduce(),
            all_asked(b, op, size as int, w),
            forall|aa: int, l: usize|
                0 <= aa < a && l < size ==> #[trigger] w.roles.contains(
                    Role::Laid { via: incoming@[aa].id, logical: l },
                ),
            all_aimed(b, op, size as int, singles(little@), w),
            moved_each(b, x, w),
            linked_each(singles(little@), w),
            w.roles.len() == w.edges.len(),
            w.views.len() == w.edges.len(),
            marks_differ(w),
            laid_among(w, incoming@, a as int),
            little@.no_duplicates(),
            forall|aa: int, l: usize|
                0 <= aa < a && l < size ==> #[trigger] has_laid(
                    w,
                    incoming@[aa].id,
                    l,
                    little@[l as int],
                    incoming@[aa].input_order,
                ),
        decreases incoming.len() - a,
    {
        let entry = &incoming[a];
        let k = match entry.shape.n_elements() {
            Some(k) => k,
            None => {
                assert(!operand_fits(incoming@[a as int], size as int));
                return Err(ScalarizeError::NonStaticShape(entry.source));
            },
        };
        if k != size {
            assert(!operand_fits(incoming@[a as int], size as int));
            return Err(ScalarizeError::NonUniformOutgoingShapes(entry.source));
        }
        assert(operand_fits(incoming@[a as int], size as int));
        let ghost g = graph@;
        let ghost rec1 = indices@;
        proof {
            assert(b.edges.dom().contains(incoming@[a as int].id));
            assert(b.edges[incoming@[a as int].id] == incoming@[a as int]@);
            assert(b.nodes.dom().contains(entry.source));
            assert(g.nodes.dom().contains(entry.source));
        }
        let ids = wire_operand(graph, entry, &little, indices);
        proof {
            let w2 = Growth::of_edges(
                ids@,
                operand_views(incoming@[a as int]@, little@, little@.len() as int),
                laid_roles(incoming@[a as int].id, little@.len() as int),
            );
            lemma_laid_grows(b, g, graph@, rec, rec1, indices@, x, incoming@[a as int], little@, ids@);
            lemma_grows_twice(b, g, graph@, rec, rec1, indices@, w, w2);
            lemma_sound_twice(b, x, rec, little@, g.nodes, graph@.nodes, w, w2);
            assert(w.followed_by(w2).made =~= little@);
            assert(w.followed_by(w2).kinds =~= repeat(size as nat, op));
            assert(all_asked(b, op, size as int, w2));
            lemma_roles_twice(b, op, size as int, w, w2);
            assert forall|l: usize| l < size implies w2.roles.contains(
                Role::Laid { via: incoming@[a as int].id, logical: l },
            ) by {
                assert(w2.roles[l as int] == Role::Laid { via: incoming@[a as int].id, logical: l });
            }
            assert forall|l: usize| l < size implies #[trigger] has_laid(
                w2,
                incoming@[a as int].id,
                l,
                little@[l as int],
                incoming@[a as int].input_order,
            ) by {
                assert(w2.roles[l as int] == Role::Laid { via: incoming@[a as int].id, logical: l });
                assert(w2.views[l as int].target == little@[l as int]);
            }
            assert forall|i: int| 0 <= i < w2.edges.len() implies edge_aimed(
                b,
                op,
                size as int,
                singles(little@),
                #[trigger] w2.views[i],
                w2.roles[i],
            ) by {
                assert(w2.roles[i] == Role::Laid { via: incoming@[a as int].id, logical: i as usize });
                assert(singles(little@)[i][0] == little@[i]);
            }
            lemma_aimed_twice(b, op, size as int, singles(little@), w, w2);
            lemma_has_twice(w, w2);
            assert(linked_each(singles(little@), w.followed_by(w2)));
            lemma_operand_marks(w, incoming@, a as int, little@, ids@);
            w = w.followed_by(w2);
        }
        a += 1;
    }
    proof {
        assert forall|j: int| 0 <= j < little@.len() implies w.made.contains(#[trigger] little@[j]) by {
            assert(w.made[j] == little@[j]);
        }
        assert forall|e: usize, l: usize|
            b.edges.dom().contains(e) && b.edges[e].target == x && asked(
                op,
                b.edges[e].shape,
                size as int,
                l,
            ) implies #[trigger] w.roles.contains(Role::Laid { via: e, logical: l }) by {
            let aa = choose|aa: int| 0 <= aa < incoming@.len() && #[trigger] incoming@[aa].id == e;
            assert(w.roles.contains(Role::Laid { via: incoming@[aa].id, logical: l }));
        }
        assert forall|e: usize, l: usize, n: usize, s: u8|
            b.edges.dom().contains(e) && b.edges[e].target == x && #[trigger] planned(
                op,
                b.edges[e].shape,
                b.edges[e].input_order,
                size as int,
                singles(little@),
                l,
                n,
                s,
            ) implies has_laid(w, e, l, n, s) by {
            let aa = choose|aa: int| 0 <= aa < incoming@.len() && #[trigger] incoming@[aa].id == e;
            assert(b.edges[incoming@[aa].id] == incoming@[aa]@);
            assert(singles(little@)[l as int][0] == little@[l as int]);
            assert(has_laid(w, incoming@[aa].id, l, little@[l as int], incoming@[aa].input_order));
        }
    }
    Ok((little, Ghost(w)))
}

/// Which scalar nodes stand for the inputs and constants of the tensor graph.
#[derive(Debug)]
pub struct InputsTracker {
    /// For each input node of the tensor graph, its little nodes, element by element.
    pub new_inputs: HashMap<usize, Vec<usize>>,
    /// For each little node that stands for a constant, the bits of its value.
    pub constants: HashMap<usize, u32>,
}

/// The mathematical content of an [`InputsTracker`].
pub struct InputsView {
    pub new_inputs: Map<usize, Seq<usize>>,
    pub constants: Map<usize, u32>,
}

impl View for InputsTracker {
    type V = InputsView;

    open spec fn view(&self) -> InputsView {
        InputsView {
            new_inputs: Map::new(
                |x: usize| self.new_inputs@.dom().contains(x),
                |x: usize| self.new_inputs@[x]@,
            ),
            constants: self.constants@,
        }
    }
}

impl InputsTracker {
    /// A tracker that holds nothing.
    pub fn new() -> (r: InputsTracker)
        ensures
            r@.new_inputs == Map::<usize, Seq<usize>>::empty(),
            r@.constants == Map::<usize, u32>::empty(),
    {
        let r = InputsTracker { new_inputs: HashMap::new(), constants: HashMap::new() };
        assert(r@.new_inputs =~= Map::<usize, Seq<usize>>::empty());
        r
    }
}

/// The kind of the little nodes that replace a node of kind `op`.
pub open spec fn scalar_kind(op: OpKind) -> OpKind {
    match op {
        OpKind::Input => OpKind::InputOp,
        OpKind::Constant(v) => OpKind::ConstantOp(v),
        OpKind::SumReduce(_) => OpKind::Add,
        OpKind::MaxReduce(_) => OpKind::Max,
        _ => op,
    }
}

/// What the tracker holds once the source node `x` has been replaced by `little`.
pub open spec fn noted(t: InputsView, op: OpKind, x: usize, little: Seq<usize>) -> InputsView {
    match op {
        OpKind::Input => InputsView {
            new_inputs: t.new_inputs.insert(x, little),
            constants: t.constants,
        },
        OpKind::Constant(v) => InputsView {
            new_inputs: t.new_inputs,
            constants: t.constants.insert(little[0], v),
        },
        _ => t,
    }
}

/// A node without operands can be replaced: it is an input, or a constant of one
/// element.
pub open spec fn source_ready(op: OpKind, size: int) -> bool {
    op is Input || (op is Constant && size == 1)
}

/// The error says what keeps a node without operands from being replaced.
pub open spec fn source_fault(
    err: ScalarizeError,
    x: usize,
    op: OpKind,
    out: Seq<EdgeEntry>,
    rec: Map<usize, usize>,
    size: int,
) -> bool {
    match err {
        ScalarizeError::UnsupportedSourceNodeKind(y) => y == x && !(op is Input) && !(op is Constant),
        ScalarizeError::NonScalarConstant(y) => y == x && op is Constant && size != 1,
        ScalarizeError::IndexOutOfPhysicalRange(y) => y == x && source_ready(op, size)
            && !reconnectable(out, rec, size),
        _ => false,
    }
}

/// Replaces a node without operands: an input by one marker per element, which the
/// tracker lists under the node; a constant by one marker, whose value the tracker
/// keeps.
fn source_op(
    graph: &mut Graph,
    op: OpKind,
    x: usize,
    size: usize,
    out: &Vec<EdgeEntry>,
    indices: &HashMap<usize, usize>,
    tracker: &mut InputsTracker,
) -> (r: Result<(Vec<usize>, Ghost<Growth>), ScalarizeError>)
    requires
        old(graph).wf(),
        lists_edges_of(out@, old(graph)@.edges, x, false),
        forall|e: usize| #[trigger]
            old(graph)@.edges.dom().contains(e) ==> old(graph)@.edges[e].target != x,
    ensures
        final(graph).wf(),
        r is Ok <==> source_ready(op, size as int) && reconnectable(out@, indices@, size as int),
        r is Ok ==> all_asked(old(graph)@, op, size as int, r->Ok_0.1@) && laid_all(
            old(graph)@,
            x,
            op,
            size as int,
            r->Ok_0.1@,
        ),
        r is Ok ==> laid_out(
            old(graph)@,
            x,
            op,
            size as int,
            r->Ok_0.0@,
            singles(r->Ok_0.0@),
            1,
            r->Ok_0.1@,
        ),
        r is Ok ==> r->Ok_0.0@.len() == size && expanded(
            old(graph)@,
            final(graph)@,
            indices@,
            indices@,
            x,
            r->Ok_0.0@,
            scalar_kind(op),
            r->Ok_0.1@,
        ) && final(tracker)@ == noted(old(tracker)@, op, x, r->Ok_0.0@),
        r is Err ==> source_fault(r->Err_0, x, op, out@, indices@, size as int),
{
    let kind = match op {
        OpKind::Input => OpKind::InputOp,
        OpKind::Constant(v) => {
            if size != 1 {
                return Err(ScalarizeError::NonScalarConstant(x));
            }
            OpKind::ConstantOp(v)
        },
        _ => {
            return Err(ScalarizeError::UnsupportedSourceNodeKind(x));
        },
    };
    let ghost b = graph@;
    let ghost rec = indices@;
    let little = make_nodes(graph, size, kind);
    let ghost g1 = graph@;
    let ghost w0 = Growth::of_nodes(little@, repeat(size as nat, kind));
    proof {
        lemma_made_grows(b, g1, rec, x, little@, kind);
    }
    let moved = match connect_out_edges(graph, x, out, &little, indices) {
        Ok(m) => m,
        Err(e) => {
            assert(!reconnectable(out@, rec, size as int));
            return Err(e);
        },
    };
    let ghost w1 = Growth::of_edges(
        moved@,
        reconnections(out@, little@, rec, out@.len() as int),
        moved_roles(out@),
    );
    let ghost w = w0.followed_by(w1);
    proof {
        lemma_moved_grows(b, g1, graph@, rec, rec, x, out@, little@, moved@);
        lemma_grows_twice(b, g1, graph@, rec, rec, rec, w0, w1);
        lemma_sound_twice(b, x, rec, little@, g1.nodes, graph@.nodes, w0, w1);
        lemma_moves_ask_nothing(
            b,
            op,
            size as int,
            little@,
            repeat(size as nat, kind),
            moved@,
            reconnections(out@, little@, rec, out@.len() as int),
            out@,
        );
        lemma_roles_twice(b, op, size as int, w0, w1);
        lemma_moved_laid_out(
            b,
            x,
            op,
            size as int,
            little@,
            repeat(size as nat, kind),
            moved@,
            reconnections(out@, little@, rec, out@.len() as int),
            out@,
        );
        assert(w.made =~= little@);
        assert(w.kinds =~= repeat(size as nat, kind));
        assert(laid_each(b, x, op, size as int, singles(little@), w));
        assert forall|j: int| 0 <= j < little@.len() implies w.made.contains(#[trigger] little@[j]) by {
            assert(w.made[j] == little@[j]);
        }
    }
    match op {
        OpKind::Input => {
            let listed = copy_ids(&little);
            tracker.new_inputs.insert(x, listed);
            assert(tracker@.new_inputs =~= old(tracker)@.new_inputs.insert(x, little@));
        },
        OpKind::Constant(v) => {
            tracker.constants.insert(little[0], v);
            assert(tracker@.new_inputs =~= old(tracker)@.new_inputs);
        },
        _ => {},
    }
    Ok((little, Ghost(w)))
}

/// An independent list with the same entries.
fn copy_ids(v: &Vec<usize>) -> (r: Vec<usize>)
    ensures
        r@ == v@,
{
    let mut r: Vec<usize> = Vec::new();
    let mut i: usize = 0;
    while i < v.len()
        invariant
            i <= v.len(),
            r@ == v@.take(i as int),
        decreases v.len() - i,
    {
        r.push(v[i]);
        assert(v@.take(i + 1) == v@.take(i as int).push(v@[i as int]));
        i += 1;
    }
    assert(v@.take(v.len() as int) == v@);
    r
}

/// The product of the entries of `s`.
pub open spec fn product(s: Seq<int>) -> int
    decreases s.len(),
{
    if s.len() == 0 {
        1
    } else {
        product(s.drop_last()) * s.last()
    }
}

/// The entries of a list of sizes, as integers.
pub open spec fn as_ints(v: Seq<usize>) -> Seq<int> {
    v.map_values(|d: usize| d as int)
}

/// A product of positive numbers is positive and grows with every further factor.
pub proof fn lemma_product_grows(s: Seq<int>, a: int, b: int, c: int)
    requires
        0 <= a <= b <= c <= s.len(),
        forall|i: int| 0 <= i < s.len() ==> 1 <= #[trigger] s[i],
    ensures
        1 <= product(s.subrange(a, b)) <= product(s.subrange(a, c)),
    decreases c - a,
{
    if c == a {
    } else {
        assert(s.subrange(a, c).drop_last() =~= s.subrange(a, c - 1));
        assert(s.subrange(a, c).last() == s[c - 1]);
        let p = product(s.subrange(a, c - 1));
        let d = s[c - 1];
        if b == c {
            lemma_product_grows(s, a, c - 1, c - 1);
            assert(1 <= p * d) by (nonlinear_arith)
                requires
                    1 <= p,
                    1 <= d,
            ;
        } else {
            lemma_product_grows(s, a, b, c - 1);
            assert(p <= p * d) by (nonlinear_arith)
                requires
                    1 <= p,
                    1 <= d,
            ;
        }
    }
}

/// The product of the sizes from `from` up to `to`, unless it exceeds the largest
/// volume.
fn capped_product(dims: &Vec<usize>, from: usize, to: usize) -> (r: Option<usize>)
    requires
        from <= to <= dims@.len(),
        forall|i: int| 0 <= i < dims@.len() ==> 1 <= #[trigger] dims@[i],
    ensures
        r is Some <==> product(as_ints(dims@).subrange(from as int, to as int)) <= MAX_VOLUME,
        r is Some ==> r.unwrap() == product(as_ints(dims@).subrange(from as int, to as int)),
        1 <= product(as_ints(dims@).subrange(from as int, to as int)),
{
    let ghost s = as_ints(dims@);
    let mut acc: usize = 1;
    let mut i: usize = from;
    proof {
        assert(s.subrange(from as int, from as int) =~= Seq::<int>::empty());
        lemma_product_grows(s, from as int, to as int, to as int);
    }
    while i < to
        invariant
            from <= i <= to,
            to <= dims@.len(),
            s == as_ints(dims@),
            forall|a: int| 0 <= a < dims@.len() ==> 1 <= #[trigger] dims@[a],
            forall|a: int| 0 <= a < s.len() ==> 1 <= #[trigger] s[a],
            acc == product(s.subrange(from as int, i as int)),
            1 <= acc <= MAX_VOLUME,
        decreases to - i,
    {
        let d = dims[i];
        proof {
            assert(s.subrange(from as int, i + 1).drop_last() =~= s.subrange(from as int, i as int));
            assert(s.subrange(from as int, i + 1).last() == d);
        }
        if acc > MAX_VOLUME / d {
            proof {
                assert(acc * d > MAX_VOLUME) by (nonlinear_arith)
                    requires
                        acc > MAX_VOLUME / d,
                        d >= 1,
                ;
                lemma_product_grows(s, from as int, i + 1, to as int);
            }
            return None;
        }
        assert(acc * d <= MAX_VOLUME && 1 <= acc * d) by (nonlinear_arith)
            requires
                acc <= MAX_VOLUME / d,
                d >= 1,
                acc >= 1,
        ;
        acc = acc * d;
        i += 1;
    }
    Some(acc)
}

/// The element of the operand that output position `i` folds in at step `k`, where the
/// folded axis has `ax_len` entries and `back` elements lie behind each of them.
pub open spec fn reduce_index(i: int, k: int, ax_len: int, back: int) -> int {
    (i / back) * (back * ax_len) + k * back + i % back
}

/// An element index of a reduction lies within the operand.
pub proof fn lemma_reduce_index_bound(i: int, k: int, ax_len: int, front: int, back: int)
    requires
        1 <= back,
        0 <= k < ax_len,
        0 <= i < front * back,
    ensures
        0 <= i / back < front,
        0 <= i % back < back,
        0 <= reduce_index(i, k, ax_len, back) < front * back * ax_len,
        back * ax_len <= front * back * ax_len,
{
    let q = i / back;
    let r = i % back;
    assert(i == q * back + r && 0 <= r < back) by (nonlinear_arith)
        requires
            q == i / back,
            r == i % back,
            1 <= back,
    ;
    assert(0 <= q < front) by (nonlinear_arith)
        requires
            i == q * back + r,
            0 <= r < back,
            0 <= i < front * back,
            1 <= back,
    ;
    assert(0 <= q * (back * ax_len) + k * back + r < front * back * ax_len) by (nonlinear_arith)
        requires
            0 <= q < front,
            0 <= k < ax_len,
            0 <= r < back,
            1 <= back,
    ;
    assert(back * ax_len <= front * back * ax_len) by (nonlinear_arith)
        requires
            1 <= front,
            1 <= back,
            1 <= ax_len,
    ;
}

/// Computes [`reduce_index`].
fn element_index(i: usize, k: usize, ax_len: usize, front: usize, back: usize) -> (r: usize)
    requires
        1 <= back,
        k < ax_len,
        i < front * back,
        front * back * ax_len <= MAX_VOLUME,
    ensures
        r == reduce_index(i as int, k as int, ax_len as int, back as int),
        r < front * back * ax_len,
{
    proof {
        lemma_reduce_index_bound(i as int, k as int, ax_len as int, front as int, back as int);
        let q = (i / back) as int;
        assert(q * (back * ax_len) <= front * back * ax_len && k * back <= front * back * ax_len
            && q * (back * ax_len) + k * back <= front * back * ax_len) by (nonlinear_arith)
            requires
                0 <= q < front,
                0 <= k < ax_len,
                1 <= back,
        ;
    }
    let stride = back * ax_len;
    (i / back) * stride + k * back + i % back
}

/// No edge of `w` replaces an old one.
pub open spec fn no_moves(w: Growth) -> bool {
    forall|i: int| 0 <= i < w.roles.len() ==> !(#[trigger] w.roles[i] is Moved)
}

/// Where no edge was moved, soundness does not depend on the little nodes.
pub proof fn lemma_sound_any_little(
    b: GraphView,
    x: usize,
    rec: Map<usize, usize>,
    l1: Seq<usize>,
    l2: Seq<usize>,
    now: Map<usize, OpKind>,
    w: Growth,
)
    requires
        all_sound(b, x, rec, l1, now, w),
        no_moves(w),
    ensures
        all_sound(b, x, rec, l2, now, w),
{
    assert forall|i: int| 0 <= i < w.edges.len() implies edge_sound(
        b,
        x,
        rec,
        l2,
        now,
        #[trigger] w.views[i],
        w.roles[i],
    ) by {
        assert(edge_sound(b, x, rec, l1, now, w.views[i], w.roles[i]));
        assert(!(w.roles[i] is Moved));
    }
}

/// No edge both leaves and enters `x`.
pub open spec fn no_self_loop(g: GraphView, x: usize) -> bool {
    forall|e: usize| #[trigger]
        g.edges.dom().contains(e) && g.edges[e].target == x ==> g.edges[e].source != x
}

/// Edges laid for new nodes and links between new nodes do not leave `x`: the edges that
/// leave `x` are still the listed ones, with the records they had.
pub proof fn lemma_listing_survives(
    b: GraphView,
    h: GraphView,
    rec: Map<usize, usize>,
    rec2: Map<usize, usize>,
    x: usize,
    out: Seq<EdgeEntry>,
    little: Seq<usize>,
    w: Growth,
)
    requires
        grows(b, h, rec, rec2, w),
        all_sound(b, x, rec, little, h.nodes, w),
        no_moves(w),
        no_self_loop(b, x),
        b.nodes.dom().contains(x),
        lists_edges_of(out, b.edges, x, false),
    ensures
        lists_edges_of(out, h.edges, x, false),
        records_agree(out, rec, rec2),
{
    assert forall|i: int| 0 <= i < w.edges.len() implies (#[trigger] w.views[i]).source != x by {
        assert(edge_sound(b, x, rec, little, h.nodes, w.views[i], w.roles[i]));
        assert(!(w.roles[i] is Moved));
        match w.roles[i] {
            Role::Laid { via, logical } => {
                assert(b.edges.dom().contains(via));
            },
            _ => {},
        }
    }
    assert forall|i: int| 0 <= i < out.len() implies !w.edges.contains(#[trigger] out[i].id) by {
        if w.edges.contains(out[i].id) {
            let k = choose|k: int| 0 <= k < w.edges.len() && w.edges[k] == out[i].id;
            assert(!b.edges.dom().contains(w.edges[k]));
        }
    }
    assert forall|e: usize|
        h.edges.dom().contains(e) && h.edges[e].source == x implies exists|i: int|
        0 <= i < out.len() && #[trigger] out[i].id == e by {
        if w.edges.contains(e) {
            let k = choose|k: int| 0 <= k < w.edges.len() && w.edges[k] == e;
            assert(h.edges[w.edges[k]] == w.views[k]);
            assert(w.views[k].source != x);
        } else {
            assert(b.edges.dom().contains(e));
            assert(h.edges[e] == b.edges[e]);
        }
    }
    assert forall|i: int| 0 <= i < out.len() implies {
        &&& h.edges.dom().contains(#[trigger] out[i].id)
        &&& h.edges[out[i].id] == out[i]@
        &&& out[i].source == x
    } by {
        assert(b.edges.dom().contains(out[i].id));
        assert(h.edges[out[i].id] == b.edges[out[i].id]);
    }
}

/// The two edges of one step of a fold: what was folded so far, or the operand itself
/// for the first step, as the first operand of the new node, and the operand as the
/// second.
pub open spec fn step_views(entry: EdgeView, acc: Option<usize>, new: usize) -> Seq<EdgeView> {
    seq![
        match acc {
            None => EdgeView {
                source: entry.source,
                target: new,
                input_order: 0,
                output_order: entry.output_order,
                shape: entry.shape,
            },
            Some(a) => EdgeView {
                source: a,
                target: new,
                input_order: 0,
                output_order: 0,
                shape: trivial_view(),
            },
        },
        EdgeView {
            source: entry.source,
            target: new,
            input_order: 1,
            output_order: entry.output_order,
            shape: entry.shape,
        },
    ]
}

/// The roles of the two edges of one step of a fold.
pub open spec fn step_roles(via: usize, acc: Option<usize>, first: usize, idx: usize) -> Seq<Role> {
    seq![
        if acc is None {
            Role::Laid { via, logical: first }
        } else {
            Role::Link
        },
        Role::Laid { via, logical: idx },
    ]
}

/// An edge of the fold for element `i` is one that the fold needs: the edge that
/// brings entry `k` of the folded axis to step `k`, the edge that brings the first
/// entry to the first step also as its first operand, or the link from one step to
/// the next.
pub open spec fn in_chain(
    chain: Seq<usize>,
    via: usize,
    i: int,
    ax_len: int,
    back: int,
    view: EdgeView,
    role: Role,
) -> bool {
    match role {
        Role::Laid { via: v, logical } => v == via && exists|k: int|
            0 <= k < chain.len() && k < ax_len && logical == #[trigger] reduce_index(
                i,
                k,
                ax_len,
                back,
            ) && view.target == chain[k] && (view.input_order == 1 || (view.input_order == 0 && k
                == 0)),
        Role::Link => exists|k: int|
            1 <= k < chain.len() && view.source == chain[k - 1] && view.target
                == #[trigger] chain[k] && view.input_order == 0 && view.output_order == 0,
        Role::Moved { from } => false,
    }
}

/// Every edge of `w` is one that the fold for element `i` needs.
pub open spec fn all_in_chain(w: Growth, via: usize, i: int, ax_len: int, back: int) -> bool {
    forall|j: int|
        0 <= j < w.edges.len() ==> in_chain(
            w.made,
            via,
            i,
            ax_len,
            back,
            #[trigger] w.views[j],
            w.roles[j],
        )
}

/// The first `n` steps of the fold for element `i` have all their edges.
pub open spec fn chain_laid(w: Growth, via: usize, i: int, ax_len: int, back: int, n: int) -> bool {
    &&& forall|k: int|
        0 <= k < n ==> has_laid(
            w,
            via,
            (#[trigger] reduce_index(i, k, ax_len, back)) as usize,
            w.made[k],
            1,
        )
    &&& n >= 1 ==> has_laid(w, via, reduce_index(i, 0, ax_len, back) as usize, w.made[0], 0)
    &&& forall|k: int| 1 <= k < n ==> has_link(w, w.made[k - 1], #[trigger] w.made[k])
}

/// One step of a fold: a new node that combines what was folded so far with one more
/// element of the operand. The first step has nothing folded yet and reads element
/// `first` of the operand in its place.
fn fold_step(
    graph: &mut Graph,
    op: OpKind,
    entry: &EdgeEntry,
    acc: Option<usize>,
    first: usize,
    idx: usize,
    indices: &mut HashMap<usize, usize>,
    Ghost(b): Ghost<GraphView>,
    Ghost(rec): Ghost<Map<usize, usize>>,
    Ghost(whole): Ghost<OpKind>,
    Ghost(size): Ghost<int>,
) -> (r: (usize, Ghost<Growth>))
    requires
        old(graph).wf(),
        b.edges.dom().contains(entry.id),
        b.edges[entry.id] == entry@,
        old(graph)@.nodes.dom().contains(entry.source),
        forall|n: usize| b.nodes.dom().contains(n) ==> old(graph)@.nodes.dom().contains(n),
        acc is Some ==> is_new(b, old(graph)@.nodes, acc.unwrap()),
        asked(whole, entry.shape@, size, first),
        asked(whole, entry.shape@, size, idx),
    ensures
        final(graph).wf(),
        grows(old(graph)@, final(graph)@, old(indices)@, final(indices)@, r.1@),
        all_sound(b, entry.target, rec, Seq::empty(), final(graph)@.nodes, r.1@),
        no_moves(r.1@),
        r.1@.made == seq![r.0],
        r.1@.kinds == seq![op],
        is_new(b, final(graph)@.nodes, r.0),
        all_asked(b, whole, size, r.1@),
        r.1@.roles.contains(Role::Laid { via: entry.id, logical: idx }),
        r.1@.edges.len() == 2,
        r.1@.views == step_views(entry@, acc, r.0),
        r.1@.roles == step_roles(entry.id, acc, first, idx),
        !old(graph)@.nodes.dom().contains(r.0),
{
    let ghost g0 = graph@;
    let ghost rec0 = indices@;
    let new = graph.add_op(op);
    let ghost left_view;
    let ghost left_role;
    let left = match acc {
        None => {
            let data = EdgeData {
                input_order: 0,
                output_order: entry.output_order,
                shape: entry.shape.duplicate(),
            };
            proof {
                left_view =
                EdgeView {
                    source: entry.source,
                    target: new,
                    input_order: 0,
                    output_order: entry.output_order,
                    shape: entry.shape@,
                };
                left_role = Role::Laid { via: entry.id, logical: first };
            }
            match graph.add_edge(entry.source, new, data) {
                Some(e) => {
                    indices.insert(e, first);
                    e
                },
                None => unreached(),
            }
        },
        Some(a) => {
            let data = EdgeData { input_order: 0, output_order: 0, shape: ShapeTracker::trivial() };
            proof {
                left_view =
                EdgeView {
                    source: a,
                    target: new,
                    input_order: 0,
                    output_order: 0,
                    shape: trivial_view(),
                };
                left_role = Role::Link;
            }
            match graph.add_edge(a, new, data) {
                Some(e) => e,
                None => unreached(),
            }
        },
    };
    let ghost g1 = graph@;
    let data = EdgeData {
        input_order: 1,
        output_order: entry.output_order,
        shape: entry.shape.duplicate(),
    };
    let right = match graph.add_edge(entry.source, new, data) {
        Some(e) => {
            indices.insert(e, idx);
            e
        },
        None => unreached(),
    };
    let ghost right_view = EdgeView {
        source: entry.source,
        target: new,
        input_order: 1,
        output_order: entry.output_order,
        shape: entry.shape@,
    };
    let ghost w = Growth {
        made: seq![new],
        kinds: seq![op],
        edges: seq![left, right],
        views: seq![left_view, right_view],
        roles: seq![left_role, Role::Laid { via: entry.id, logical: idx }],
    };
    proof {
        assert(g1.edges == g0.edges.insert(left, left_view));
        assert(graph@.edges == g1.edges.insert(right, right_view));
        assert(left != right);
        assert forall|e: usize| w.edges.contains(e) <==> e == left || e == right by {
            if e == left {
                assert(w.edges[0] == e);
            }
            if e == right {
                assert(w.edges[1] == e);
            }
        }
        assert forall|n: usize| w.made.contains(n) <==> n == new by {
            if n == new {
                assert(w.made[0] == n);
            }
        }
        assert(extends_by(g0.nodes, graph@.nodes, w.made, w.kinds));
        assert(extends_by(g0.edges, graph@.edges, w.edges, w.views));
        assert(records_elsewhere(rec0, indices@, w.edges));
        assert(records_made(indices@, w));
        assert(edge_sound(b, entry.target, rec, Seq::empty(), graph@.nodes, w.views[0], w.roles[0]));
        assert(edge_sound(b, entry.target, rec, Seq::empty(), graph@.nodes, w.views[1], w.roles[1]));
        assert(w.roles[1] == Role::Laid { via: entry.id, logical: idx });
        assert(w.views =~= step_views(entry@, acc, new));
        assert(w.roles =~= step_roles(entry.id, acc, first, idx));
        assert forall|n: int| 0 <= n < w.roles.len() implies (#[trigger] w.roles[n] matches Role::Laid {
            via,
            logical,
        } ==> asked(whole, b.edges[via].shape, size, logical)) by {
            if n == 0 {
                assert(w.roles[0] == left_role);
            } else {
                assert(w.roles[1] == Role::Laid { via: entry.id, logical: idx });
            }
        }
    }
    (new, Ghost(w))
}

/// The fold for output position `i`: one step for each of the `ax_len` entries of the
/// folded axis. Returns the node of the last step.
fn fold_chain(
    graph: &mut Graph,
    op: OpKind,
    entry: &EdgeEntry,
    i: usize,
    ax_len: usize,
    front: usize,
    back: usize,
    indices: &mut HashMap<usize, usize>,
    Ghost(b): Ghost<GraphView>,
    Ghost(rec): Ghost<Map<usize, usize>>,
    Ghost(whole): Ghost<OpKind>,
) -> (r: (usize, Ghost<Growth>))
    requires
        old(graph).wf(),
        b.edges.dom().contains(entry.id),
        b.edges[entry.id] == entry@,
        old(graph)@.nodes.dom().contains(entry.source),
        forall|n: usize| b.nodes.dom().contains(n) ==> old(graph)@.nodes.dom().contains(n),
        1 <= back,
        1 <= ax_len,
        i < front * back,
        front * back * ax_len <= MAX_VOLUME,
        whole.is_reduce(),
        ax_len == entry.shape@.visible_dims()[whole.reduce_axis() as int],
        back == back_len(entry.shape@, whole.reduce_axis()),
    ensures
        final(graph).wf(),
        grows(old(graph)@, final(graph)@, old(indices)@, final(indices)@, r.1@),
        all_sound(b, entry.target, rec, Seq::empty(), final(graph)@.nodes, r.1@),
        no_moves(r.1@),
        r.1@.made.contains(r.0),
        forall|n: int| 0 <= n < r.1@.kinds.len() ==> #[trigger] r.1@.kinds[n] == op,
        all_asked(b, whole, (front * back) as int, r.1@),
        forall|k: int|
            0 <= k < ax_len ==> r.1@.roles.contains(
                Role::Laid {
                    via: entry.id,
                    logical: (#[trigger] reduce_index(i as int, k, ax_len as int, back as int)) as usize,
                },
            ),
        r.1@.made.len() == ax_len,
        r.1@.made[ax_len - 1] == r.0,
        all_in_chain(r.1@, entry.id, i as int, ax_len as int, back as int),
        chain_laid(r.1@, entry.id, i as int, ax_len as int, back as int, ax_len as int),
        marks_differ(r.1@),
        targets_made(r.1@, r.1@.made),
{
    let ghost g0 = graph@;
    let ghost rec0 = indices@;
    let first = element_index(i, 0, ax_len, front, back);
    let ghost size = (front * back) as int;
    let mut acc: Option<usize> = None;
    let ghost mut w = Growth::empty();
    proof {
        lemma_grows_nothing(g0, rec0);
        assert(first == reduce_index(i as int, 0, ax_len as int, back as int));
        assert(asked(whole, entry.shape@, size, first));
    }
    let mut k: usize = 0;
    while k < ax_len
        invariant
            k <= ax_len,
            graph.wf(),
            b.edges.dom().contains(entry.id),
            b.edges[entry.id] == entry@,
            graph@.nodes.dom().contains(entry.source),
            forall|n: usize| b.nodes.dom().contains(n) ==> graph@.nodes.dom().contains(n),
            1 <= back,
            i < front * back,
            front * back * ax_len <= MAX_VOLUME,
            k >= 1 ==> acc is Some,
            acc is Some ==> is_new(b, graph@.nodes, acc.unwrap()) && w.made.contains(acc.unwrap()),
            grows(g0, graph@, rec0, indices@, w),
            all_sound(b, entry.target, rec, Seq::empty(), graph@.nodes, w),
            no_moves(w),
            forall|n: int| 0 <= n < w.kinds.len() ==> #[trigger] w.kinds[n] == op,
            whole.is_reduce(),
            ax_len == entry.shape@.visible_dims()[whole.reduce_axis() as int],
            back == back_len(entry.shape@, whole.reduce_axis()),
            size == front * back,
            asked(whole, entry.shape@, size, first),
            all_asked(b, whole, size, w),
            forall|kk: int|
                0 <= kk < k ==> w.roles.contains(
                    Role::Laid {
                        via: entry.id,
                        logical: (#[trigger] reduce_index(i as int, kk, ax_len as int, back as int)) as usize,
                    },
                ),
            first == reduce_index(i as int, 0, ax_len as int, back as int),
            w.made.len() == k,
            k >= 1 ==> acc == Some(w.made[k - 1]),
            k == 0 ==> acc is None,
            all_in_chain(w, entry.id, i as int, ax_len as int, back as int),
            chain_laid(w, entry.id, i as int, ax_len as int, back as int, k as int),
            w.roles.len() == w.edges.len(),
            w.views.len() == w.edges.len(),
            marks_differ(w),
            targets_made(w, w.made),
        decreases ax_len - k,
    {
        let idx = element_index(i, k, ax_len, front, back);
        let ghost g = graph@;
        let ghost rec1 = indices@;
        proof {
            assert(idx == reduce_index(i as int, k as int, ax_len as int, back as int));
            assert(asked(whole, entry.shape@, size, idx));
        }
        let (new, step) = fold_step(
            graph,
            op,
            entry,
            acc,
            first,
            idx,
            indices,
            Ghost(b),
            Ghost(rec),
            Ghost(whole),
            Ghost(size),
        );
        proof {
            lemma_roles_twice(b, whole, size, w, step@);
            lemma_grows_twice(g0, g, graph@, rec0, rec1, indices@, w, step@);
            lemma_sound_twice(
                b,
                entry.target,
                rec,
                Seq::empty(),
                g.nodes,
                graph@.nodes,
                w,
                step@,
            );
            let w2 = w.followed_by(step@);
            assert(w2.made[w.made.len() as int] == new);
            assert forall|n: int| 0 <= n < w2.kinds.len() implies #[trigger] w2.kinds[n] == op by {
                if n < w.kinds.len() {
                    assert(w2.kinds[n] == w.kinds[n]);
                } else {
                    assert(w2.kinds[n] == step@.kinds[n - w.kinds.len()]);
                }
            }
            assert forall|n: int| 0 <= n < w2.roles.len() implies !(#[trigger] w2.roles[n] is Moved) by {
                if n < w.roles.len() {
                    assert(w2.roles[n] == w.roles[n]);
                } else {
                    assert(w2.roles[n] == step@.roles[n - w.roles.len()]);
                }
            }
            let via = entry.id;
            let ii = i as int;
            let al = ax_len as int;
            let bk = back as int;
            assert(w2.made =~= w.made.push(new));
            assert forall|j: int| 0 <= j < w2.edges.len() implies in_chain(
                w2.made,
                via,
                ii,
                al,
                bk,
                #[trigger] w2.views[j],
                w2.roles[j],
            ) by {
                if j < w.edges.len() {
                    assert(w2.views[j] == w.views[j] && w2.roles[j] == w.roles[j]);
                    assert(in_chain(w.made, via, ii, al, bk, w.views[j], w.roles[j]));
                    match w.roles[j] {
                        Role::Laid { via: v, logical } => {
                            let kk = choose|kk: int|
                                0 <= kk < w.made.len() && kk < al && logical
                                    == #[trigger] reduce_index(ii, kk, al, bk) && w.views[j].target
                                    == w.made[kk] && (w.views[j].input_order == 1 || (
                                w.views[j].input_order == 0 && kk == 0));
                            assert(w2.made[kk] == w.made[kk]);
                        },
                        Role::Link => {
                            let kk = choose|kk: int|
                                1 <= kk < w.made.len() && w.views[j].source == w.made[kk - 1]
                                    && w.views[j].target == #[trigger] w.made[kk]
                                    && w.views[j].input_order == 0 && w.views[j].output_order == 0;
                            assert(w2.made[kk] == w.made[kk]);
                            assert(w2.made[kk - 1] == w.made[kk - 1]);
                        },
                        Role::Moved { from } => {},
                    }
                } else {
                    let d = j - w.edges.len();
                    assert(w2.views[j] == step@.views[d] && w2.roles[j] == step@.roles[d]);
                    assert(w2.made[k as int] == new);
                    if d == 0 {
                        if k == 0 {
                            assert(first == reduce_index(ii, 0, al, bk));
                        } else {
                            assert(w2.made[k - 1] == w.made[k - 1]);
                            assert(w2.views[j].target == w2.made[k as int]);
                        }
                    } else {
                        assert(idx == reduce_index(ii, k as int, al, bk));
                    }
                }
            }
            lemma_has_twice(w, step@);
            assert forall|m: usize| w.made.contains(m) implies g.nodes.dom().contains(m) by {
                let q = choose|q: int| 0 <= q < w.made.len() && w.made[q] == m;
                assert(g.nodes.dom().contains(w.made[q]));
            }
            assert forall|m: usize| step@.made.contains(m) implies !g.nodes.dom().contains(m) by {
                assert(m == new);
            }
            assert(targets_made(step@, step@.made)) by {
                assert(step@.made[0] == new);
                assert(step@.views[0].target == new && step@.views[1].target == new);
            }
            assert(marks_differ(step@)) by {
                assert(step@.views[0].input_order == 0 && step@.views[1].input_order == 1);
            }
            assert forall|q: int| 0 <= q < step@.edges.len() implies !(#[trigger] step@.roles[q] is Moved) by {
                if q == 0 {
                } else {
                    assert(step@.roles[1] == Role::Laid { via: entry.id, logical: idx });
                }
            }
            lemma_fresh_targets_apart(w, step@, g.nodes);
            lemma_marks_twice(w, step@);
            assert(has_laid(step@, via, idx, new, 1)) by {
                assert(step@.roles[1] == Role::Laid { via, logical: idx });
                assert(step@.views[1].target == new);
            }
            if k == 0 {
                assert(has_laid(step@, via, first, new, 0)) by {
                    assert(step@.roles[0] == Role::Laid { via, logical: first });
                    assert(step@.views[0].target == new);
                }
            } else {
                assert(has_link(step@, w.made[k - 1], new)) by {
                    assert(step@.roles[0] == Role::Link);
                    assert(step@.views[0].source == w.made[k - 1]);
                }
            }
            assert forall|kk: int| 0 <= kk < k + 1 implies has_laid(
                w2,
                via,
                (#[trigger] reduce_index(ii, kk, al, bk)) as usize,
                w2.made[kk],
                1,
            ) by {
                if kk < k {
                    assert(w2.made[kk] == w.made[kk]);
                    assert(has_laid(w, via, reduce_index(ii, kk, al, bk) as usize, w.made[kk], 1));
                }
            }
            assert(has_laid(w2, via, reduce_index(ii, 0, al, bk) as usize, w2.made[0], 0)) by {
                if k >= 1 {
                    assert(w2.made[0] == w.made[0]);
                    assert(has_laid(w, via, reduce_index(ii, 0, al, bk) as usize, w.made[0], 0));
                }
            }
            assert forall|kk: int| 1 <= kk < k + 1 implies has_link(
                w2,
                w2.made[kk - 1],
                #[trigger] w2.made[kk],
            ) by {
                assert(w2.made[kk - 1] == w.made[kk - 1]);
                if kk < k {
                    assert(w2.made[kk] == w.made[kk]);
                    assert(has_link(w, w.made[kk - 1], w.made[kk]));
                }
            }
            w = w2;
        }
        acc = Some(new);
        k += 1;
    }
    (acc.unwrap(), Ghost(w))
}

/// What holds of the folds made so far for a reduction: they follow the plan, each has
/// all its steps, links and readings, and their nodes are exactly the nodes made, each
/// once.
pub open spec fn folds_so_far(
    b: GraphView,
    whole: OpKind,
    size: int,
    via: usize,
    al: int,
    bk: int,
    folds: Seq<Seq<usize>>,
    little: Seq<usize>,
    w: Growth,
) -> bool {
    &&& w.roles.len() == w.edges.len()
    &&& w.views.len() == w.edges.len()
    &&& marks_differ(w)
    &&& targets_made(w, w.made)
    &&& no_moves(w)
    &&& folds.len() == little.len()
    &&& forall|a: int|
        0 <= a < folds.len() ==> (#[trigger] folds[a]).len() == al && folds[a][al - 1] == little[a]
    &&& forall|a: int, k: int|
        0 <= a < folds.len() && 0 <= k < folds[a].len() ==> w.made.contains(#[trigger] folds[a][k])
    &&& forall|m: usize| #[trigger] w.made.contains(m) ==> in_folds(folds, m)
    &&& forall|a: int, k: int, a2: int, k2: int|
        0 <= a < folds.len() && 0 <= k < folds[a].len() && 0 <= a2 < folds.len() && 0 <= k2
            < folds[a2].len() && (a != a2 || k != k2) ==> #[trigger] folds[a][k]
            != #[trigger] folds[a2][k2]
    &&& all_aimed(b, whole, size, folds, w)
    &&& linked_each(folds, w)
    &&& forall|a: int, k: int|
        0 <= a < folds.len() && 0 <= k < al ==> has_laid(
            w,
            via,
            (#[trigger] reduce_index(a, k, al, bk)) as usize,
            folds[a][k],
            1,
        )
    &&& forall|a: int|
        0 <= a < folds.len() ==> has_laid(
            w,
            via,
            reduce_index(a, 0, al, bk) as usize,
            (#[trigger] folds[a])[0],
            0,
        )
}

/// One more fold joins the folds made so far.
pub proof fn lemma_chain_joins(
    b: GraphView,
    prior: Map<usize, OpKind>,
    whole: OpKind,
    size: int,
    via: usize,
    al: int,
    bk: int,
    folds: Seq<Seq<usize>>,
    little: Seq<usize>,
    w: Growth,
    c: Growth,
    last: usize,
)
    requires
        folds_so_far(b, whole, size, via, al, bk, folds, little, w),
        folds.len() < size,
        whole.is_reduce(),
        1 <= al,
        al == b.edges[via].shape.visible_dims()[whole.reduce_axis() as int],
        bk == back_len(b.edges[via].shape, whole.reduce_axis()),
        c.roles.len() == c.edges.len(),
        c.views.len() == c.edges.len(),
        c.made.len() == al,
        c.made[al - 1] == last,
        c.made.no_duplicates(),
        all_in_chain(c, via, folds.len() as int, al, bk),
        chain_laid(c, via, folds.len() as int, al, bk, al),
        marks_differ(c),
        targets_made(c, c.made),
        no_moves(c),
        forall|k: int| 0 <= k < c.made.len() ==> !prior.dom().contains(#[trigger] c.made[k]),
        forall|m: usize| w.made.contains(m) ==> prior.dom().contains(m),
    ensures
        folds_so_far(
            b,
            whole,
            size,
            via,
            al,
            bk,
            folds.push(c.made),
            little.push(last),
            w.followed_by(c),
        ),
{
    let f2 = folds.push(c.made);
    let w2 = w.followed_by(c);
    let ii = folds.len() as int;
    assert forall|a: int, k: int|
        0 <= a < folds.len() && 0 <= k < folds[a].len() implies prior.dom().contains(
        #[trigger] folds[a][k],
    ) by {
        assert(w.made.contains(folds[a][k]));
    }
    lemma_aimed_grows(b, whole, size, folds, f2, w);
    lemma_chain_aimed(b, whole, size, via, al, bk, f2, c);
    lemma_aimed_twice(b, whole, size, f2, w, c);
    lemma_has_twice(w, c);
    assert forall|m: usize| c.made.contains(m) implies !prior.dom().contains(m) by {
        let q = choose|q: int| 0 <= q < c.made.len() && c.made[q] == m;
        assert(!prior.dom().contains(c.made[q]));
    }
    lemma_fresh_targets_apart(w, c, prior);
    lemma_marks_twice(w, c);
    assert forall|q: int| 0 <= q < w2.roles.len() implies !(#[trigger] w2.roles[q] is Moved) by {
        if q < w.roles.len() {
            assert(w2.roles[q] == w.roles[q]);
        } else {
            assert(w2.roles[q] == c.roles[q - w.roles.len()]);
        }
    }
    assert forall|a: int| 0 <= a < f2.len() implies (#[trigger] f2[a]).len() == al && f2[a][al
        - 1] == little.push(last)[a] by {
        if a < folds.len() {
            assert(f2[a] == folds[a]);
        }
    }
    assert forall|a: int, k: int|
        0 <= a < f2.len() && 0 <= k < f2[a].len() implies w2.made.contains(
        #[trigger] f2[a][k],
    ) by {
        if a < folds.len() {
            assert(f2[a] == folds[a]);
            let q = choose|q: int| 0 <= q < w.made.len() && w.made[q] == folds[a][k];
            assert(w2.made[q] == folds[a][k]);
        } else {
            assert(w2.made[w.made.len() + k] == c.made[k]);
        }
    }
    assert forall|m: usize| #[trigger] w2.made.contains(m) implies in_folds(f2, m) by {
        let q = choose|q: int| 0 <= q < w2.made.len() && w2.made[q] == m;
        if q < w.made.len() {
            assert(w.made[q] == m);
            assert(w.made.contains(m));
            let (a, k) = choose|a: int, k: int|
                0 <= a < folds.len() && 0 <= k < folds[a].len() && #[trigger] folds[a][k] == m;
            assert(f2[a][k] == m);
        } else {
            assert(f2[ii][q - w.made.len()] == m);
        }
    }
    assert forall|a: int, k: int, a2: int, k2: int|
        0 <= a < f2.len() && 0 <= k < f2[a].len() && 0 <= a2 < f2.len() && 0 <= k2
            < f2[a2].len() && (a != a2 || k != k2) implies #[trigger] f2[a][k]
        != #[trigger] f2[a2][k2] by {
        if a < folds.len() && a2 < folds.len() {
            assert(f2[a] == folds[a] && f2[a2] == folds[a2]);
        } else if a < folds.len() {
            assert(f2[a] == folds[a]);
            assert(prior.dom().contains(folds[a][k]));
            assert(!prior.dom().contains(c.made[k2]));
        } else if a2 < folds.len() {
            assert(f2[a2] == folds[a2]);
            assert(prior.dom().contains(folds[a2][k2]));
            assert(!prior.dom().contains(c.made[k]));
        } else {
            assert(c.made[k] != c.made[k2]);
        }
    }
    assert forall|a: int, k: int| 0 <= a < f2.len() && 1 <= k < f2[a].len() implies has_link(
        w2,
        f2[a][k - 1],
        #[trigger] f2[a][k],
    ) by {
        if a < folds.len() {
            assert(f2[a] == folds[a]);
            assert(has_link(w, folds[a][k - 1], folds[a][k]));
        } else {
            assert(has_link(c, c.made[k - 1], c.made[k]));
        }
    }
    assert forall|a: int, k: int| 0 <= a < f2.len() && 0 <= k < al implies has_laid(
        w2,
        via,
        (#[trigger] reduce_index(a, k, al, bk)) as usize,
        f2[a][k],
        1,
    ) by {
        if a < folds.len() {
            assert(f2[a] == folds[a]);
            assert(has_laid(w, via, reduce_index(a, k, al, bk) as usize, folds[a][k], 1));
        } else {
            assert(has_laid(c, via, reduce_index(ii, k, al, bk) as usize, c.made[k], 1));
        }
    }
    assert forall|a: int| 0 <= a < f2.len() implies has_laid(
        w2,
        via,
        reduce_index(a, 0, al, bk) as usize,
        (#[trigger] f2[a])[0],
        0,
    ) by {
        if a < folds.len() {
            assert(f2[a] == folds[a]);
            assert(has_laid(w, via, reduce_index(a, 0, al, bk) as usize, folds[a][0], 0));
        } else {
            assert(has_laid(c, via, reduce_index(ii, 0, al, bk) as usize, c.made[0], 0));
        }
    }
}

/// The edges of the newest fold follow the plan.
pub proof fn lemma_chain_aimed(
    b: GraphView,
    whole: OpKind,
    size: int,
    via: usize,
    al: int,
    bk: int,
    f2: Seq<Seq<usize>>,
    c: Growth,
)
    requires
        f2.len() >= 1,
        f2.len() <= size,
        f2[f2.len() - 1] == c.made,
        whole.is_reduce(),
        al == b.edges[via].shape.visible_dims()[whole.reduce_axis() as int],
        bk == back_len(b.edges[via].shape, whole.reduce_axis()),
        c.roles.len() == c.edges.len(),
        c.views.len() == c.edges.len(),
        all_in_chain(c, via, f2.len() - 1, al, bk),
    ensures
        all_aimed(b, whole, size, f2, c),
{
    let ii = f2.len() - 1;
    assert forall|j: int| 0 <= j < c.edges.len() implies edge_aimed(
        b,
        whole,
        size,
        f2,
        #[trigger] c.views[j],
        c.roles[j],
    ) by {
        assert(in_chain(c.made, via, ii, al, bk, c.views[j], c.roles[j]));
        match c.roles[j] {
            Role::Laid { via: v, logical } => {
                let k = choose|k: int|
                    0 <= k < c.made.len() && k < al && logical == #[trigger] reduce_index(
                        ii,
                        k,
                        al,
                        bk,
                    ) && c.views[j].target == c.made[k] && (c.views[j].input_order == 1 || (
                    c.views[j].input_order == 0 && k == 0));
                assert(c.views[j].target == f2[ii][k]);
            },
            Role::Link => {
                let k = choose|k: int|
                    1 <= k < c.made.len() && c.views[j].source == c.made[k - 1]
                        && c.views[j].target == #[trigger] c.made[k] && c.views[j].input_order == 0
                        && c.views[j].output_order == 0;
                assert(c.views[j].target == f2[ii][k]);
            },
            Role::Moved { from } => {},
        }
    }
}

/// The folds of a reduction, with the replaced edges, are laid out as planned.
pub proof fn lemma_folds_laid_out(
    b: GraphView,
    x: usize,
    whole: OpKind,
    size: int,
    via: usize,
    al: int,
    bk: int,
    folds: Seq<Seq<usize>>,
    little: Seq<usize>,
    w: Growth,
    ids: Seq<usize>,
    views: Seq<EdgeView>,
    out: Seq<EdgeEntry>,
)
    requires
        folds_so_far(b, whole, size, via, al, bk, folds, little, w),
        folds.len() == size,
        whole.is_reduce(),
        1 <= al,
        al == b.edges[via].shape.visible_dims()[whole.reduce_axis() as int],
        bk == back_len(b.edges[via].shape, whole.reduce_axis()),
        forall|e: usize| #[trigger] b.edges.dom().contains(e) && b.edges[e].target == x ==> e == via,
        lists_edges_of(out, b.edges, x, false),
        ids.len() == out.len(),
        views.len() == out.len(),
    ensures
        laid_out(
            b,
            x,
            whole,
            size,
            little,
            folds,
            al,
            w.followed_by(Growth::of_edges(ids, views, moved_roles(out))),
        ),
{
    let w1 = Growth::of_edges(ids, views, moved_roles(out));
    let w2 = w.followed_by(w1);
    let t = b.edges[via].shape;
    assert(w2.made =~= w.made);
    assert(all_aimed(b, whole, size, folds, w1));
    lemma_aimed_twice(b, whole, size, folds, w, w1);
    lemma_has_twice(w, w1);
    lemma_moved_marks(w, ids, views, out);
    lemma_marks_twice(w, w1);
    assert forall|t0: usize| #[trigger]
        b.edges.dom().contains(t0) && b.edges[t0].source == x implies w2.roles.contains(
        Role::Moved { from: t0 },
    ) by {
        let k = choose|k: int| 0 <= k < out.len() && #[trigger] out[k].id == t0;
        assert(w1.roles[k] == Role::Moved { from: t0 });
        assert(w1.roles.contains(Role::Moved { from: t0 }));
    }
    assert forall|a: int, k: int| 0 <= a < folds.len() && 1 <= k < folds[a].len() implies has_link(
        w2,
        folds[a][k - 1],
        #[trigger] folds[a][k],
    ) by {
        assert(has_link(w, folds[a][k - 1], folds[a][k]));
    }
    assert forall|e: usize, l: usize, n: usize, s0: u8|
        b.edges.dom().contains(e) && b.edges[e].target == x && #[trigger] planned(
            whole,
            b.edges[e].shape,
            b.edges[e].input_order,
            size,
            folds,
            l,
            n,
            s0,
        ) implies has_laid(w2, e, l, n, s0) by {
        assert(e == via);
        let (a, k) = choose|a: int, k: int|
            0 <= a < size && a < folds.len() && 0 <= k < t.visible_dims()[whole.reduce_axis() as int]
                && l == #[trigger] reduce_index(
                a,
                k,
                t.visible_dims()[whole.reduce_axis() as int],
                back_len(t, whole.reduce_axis()),
            ) && n == folds[a][k] && (s0 == 1 || (s0 == 0 && k == 0));
        if s0 == 1 {
            assert(has_laid(w, via, reduce_index(a, k, al, bk) as usize, folds[a][k], 1));
        } else {
            assert(has_laid(w, via, reduce_index(a, 0, al, bk) as usize, folds[a][0], 0));
        }
    }
}

/// Axis `ax` exists in what `t` shows, and has more than one entry.
pub open spec fn axis_foldable(t: TrackerView, ax: usize) -> bool {
    ax < t.visible_dims().len() && t.visible_dims()[ax as int] > 1
}

/// Folding axis `ax` of the operand away leaves exactly `size` elements: the operand
/// reads the first output of its producer, its element count divided by the length of
/// the axis is `size`, and so is the product of its other dimensions.
pub open spec fn counts_fit(entry: EdgeEntry, ax: usize, size: int) -> bool {
    let t = entry.shape@;
    let dims = t.visible_dims();
    &&& entry.output_order == 0
    &&& size == t.logical_count() / dims[ax as int]
    &&& size == product(dims.subrange(0, ax as int)) * product(
        dims.subrange(ax + 1, dims.len() as int),
    )
}

/// A reduction over axis `ax` of the operand behind `entry` can be replaced by `size`
/// folds.
pub open spec fn reduce_fits(entry: EdgeEntry, ax: usize, size: int) -> bool {
    &&& entry.shape@.supported()
    &&& axis_foldable(entry.shape@, ax)
    &&& counts_fit(entry, ax, size)
}

/// The error says what keeps a reduction from being replaced.
pub open spec fn reduce_fault(
    err: ScalarizeError,
    x: usize,
    entry: EdgeEntry,
    ax: usize,
    out: Seq<EdgeEntry>,
    rec: Map<usize, usize>,
    size: int,
) -> bool {
    match err {
        ScalarizeError::NonStaticShape(y) => y == entry.source && !entry.shape@.supported(),
        ScalarizeError::DegenerateReduceAxis(y) => y == x && entry.shape@.supported()
            && !axis_foldable(entry.shape@, ax),
        ScalarizeError::NonUniformOutgoingShapes(y) => y == entry.source
            && entry.shape@.supported() && axis_foldable(entry.shape@, ax) && !counts_fit(
            entry,
            ax,
            size,
        ),
        ScalarizeError::IndexOutOfPhysicalRange(y) => y == x && reduce_fits(entry, ax, size)
            && !reconnectable(out, rec, size),
        _ => false,
    }
}

/// Every dimension that a supported tracker shows has at least one entry.
pub proof fn lemma_visible_dims_positive(t: TrackerView)
    requires
        t.supported(),
    ensures
        forall|k: int| 0 <= k < t.visible_dims().len() ==> 1 <= #[trigger] t.visible_dims()[k],
{
    assert forall|k: int| 0 <= k < t.visible_dims().len() implies 1
        <= #[trigger] t.visible_dims()[k] by {
        let i = t.indexes[k] as int;
        assert(t.dim_supported(i));
    }
}

/// Replaces a reduction: for each output position a fold over the entries of the
/// reduced axis, whose last node is the little node of that position.
fn reduce_op(
    graph: &mut Graph,
    op: OpKind,
    x: usize,
    size: usize,
    ax: usize,
    entry: &EdgeEntry,
    out: &Vec<EdgeEntry>,
    indices: &mut HashMap<usize, usize>,
    Ghost(whole): Ghost<OpKind>,
) -> (r: Result<(Vec<usize>, Ghost<Growth>, Ghost<Seq<Seq<usize>>>), ScalarizeError>)
    requires
        old(graph).wf(),
        old(graph)@.nodes.dom().contains(x),
        old(graph)@.edges.dom().contains(entry.id),
        old(graph)@.edges[entry.id] == entry@,
        entry.target == x,
        forall|e: usize| #[trigger]
            old(graph)@.edges.dom().contains(e) && old(graph)@.edges[e].target == x ==> e
                == entry.id,
        no_self_loop(old(graph)@, x),
        lists_edges_of(out@, old(graph)@.edges, x, false),
        1 <= size <= MAX_VOLUME,
        whole.is_reduce(),
        whole.reduce_axis() == ax,
    ensures
        final(graph).wf(),
        r is Ok ==> all_asked(old(graph)@, whole, size as int, r->Ok_0.1@) && laid_all(
            old(graph)@,
            x,
            whole,
            size as int,
            r->Ok_0.1@,
        ),
        r is Ok ==> laid_out(
            old(graph)@,
            x,
            whole,
            size as int,
            r->Ok_0.0@,
            r->Ok_0.2@,
            entry.shape@.visible_dims()[ax as int],
            r->Ok_0.1@,
        ),
        r is Ok <==> reduce_fits(*entry, ax, size as int) && reconnectable(
            out@,
            old(indices)@,
            size as int,
        ),
        r is Ok ==> r->Ok_0.0@.len() == size && expanded(
            old(graph)@,
            final(graph)@,
            old(indices)@,
            final(indices)@,
            x,
            r->Ok_0.0@,
            op,
            r->Ok_0.1@,
        ),
        r is Err ==> reduce_fault(r->Err_0, x, *entry, ax, out@, old(indices)@, size as int),
{
    let ghost b = graph@;
    let ghost rec = indices@;
    let ghost t = entry.shape@;
    let dims = match entry.shape.shape_usize() {
        Some(d) => d,
        None => {
            return Err(ScalarizeError::NonStaticShape(entry.source));
        },
    };
    proof {
        lemma_visible_dims_positive(t);
        assert(as_ints(dims@) == t.visible_dims());
        assert forall|k: int| 0 <= k < dims@.len() implies 1 <= #[trigger] dims@[k] by {
            assert(as_ints(dims@)[k] == dims@[k] as int);
            assert(1 <= t.visible_dims()[k]);
        }
    }
    if ax >= dims.len() {
        return Err(ScalarizeError::DegenerateReduceAxis(x));
    }
    let ax_len = dims[ax];
    assert(ax_len as int == t.visible_dims()[ax as int]) by {
        assert(as_ints(dims@)[ax as int] == dims@[ax as int] as int);
    }
    if ax_len <= 1 {
        return Err(ScalarizeError::DegenerateReduceAxis(x));
    }
    if entry.output_order != 0 {
        return Err(ScalarizeError::NonUniformOutgoingShapes(entry.source));
    }
    let n = match entry.shape.n_elements() {
        Some(n) => n,
        None => unreached(),
    };
    if size != n / ax_len {
        return Err(ScalarizeError::NonUniformOutgoingShapes(entry.source));
    }
    let ghost pf = product(as_ints(dims@).subrange(0, ax as int));
    let ghost pb = product(as_ints(dims@).subrange(ax + 1, dims@.len() as int));
    let front_found = capped_product(&dims, 0, ax);
    let back_found = capped_product(&dims, ax + 1, dims.len());
    let (front, back) = match (front_found, back_found) {
        (Some(f), Some(k)) => (f, k),
        _ => {
            proof {
                assert(pf * pb > MAX_VOLUME) by (nonlinear_arith)
                    requires
                        1 <= pf,
                        1 <= pb,
                        pf > MAX_VOLUME || pb > MAX_VOLUME,
                ;
            }
            return Err(ScalarizeError::NonUniformOutgoingShapes(entry.source));
        },
    };
    assert(front * back <= 0x0800_0000 * 0x0800_0000) by (nonlinear_arith)
        requires
            front <= 0x0800_0000,
            back <= 0x0800_0000,
    ;
    if (front as u64) * (back as u64) != size as u64 {
        return Err(ScalarizeError::NonUniformOutgoingShapes(entry.source));
    }
    proof {
        assert(counts_fit(*entry, ax, size as int));
        assert(size * ax_len <= n) by (nonlinear_arith)
            requires
                size == n / ax_len,
                ax_len >= 1,
        ;
        assert(front * back * ax_len == size * ax_len) by (nonlinear_arith)
            requires
                front * back == size,
        ;
        lemma_grows_nothing(b, rec);
    }
    let mut little: Vec<usize> = Vec::new();
    let ghost mut w = Growth::empty();
    let ghost mut folds: Seq<Seq<usize>> = Seq::empty();
    proof {
        assert(folds_so_far(
            b,
            whole,
            size as int,
            entry.id,
            ax_len as int,
            back as int,
            folds,
            little@,
            w,
        ));
    }
    let mut i: usize = 0;
    while i < size
        invariant
            i <= size,
            graph.wf(),
            b.wf(),
            b.nodes.dom().contains(x),
            b.edges.dom().contains(entry.id),
            b.edges[entry.id] == entry@,
            entry.target == x,
            1 <= back,
            2 <= ax_len,
            front * back == size,
            front * back * ax_len <= MAX_VOLUME,
            little@.len() == i,
            little@.no_duplicates(),
            forall|j: int|
                0 <= j < little@.len() ==> is_new(b, graph@.nodes, #[trigger] little@[j])
                    && w.made.contains(little@[j]),
            grows(b, graph@, rec, indices@, w),
            all_sound(b, x, rec, Seq::empty(), graph@.nodes, w),
            no_moves(w),
            forall|n: int| 0 <= n < w.kinds.len() ==> #[trigger] w.kinds[n] == op,
            whole.is_reduce(),
            ax_len == entry.shape@.visible_dims()[whole.reduce_axis() as int],
            back == back_len(entry.shape@, whole.reduce_axis()),
            all_asked(b, whole, size as int, w),
            forall|ii: int, k: int|
                0 <= ii < i && 0 <= k < ax_len ==> w.roles.contains(
                    Role::Laid {
                        via: entry.id,
                        logical: (#[trigger] reduce_index(ii, k, ax_len as int, back as int)) as usize,
                    },
                ),
            folds_so_far(
                b,
                whole,
                size as int,
                entry.id,
                ax_len as int,
                back as int,
                folds,
                little@,
                w,
            ),
        decreases size - i,
    {
        let ghost g = graph@;
        let ghost rec1 = indices@;
        proof {
            assert(b.nodes.dom().contains(entry.source));
            assert(g.nodes.dom().contains(entry.source));
        }
        let (last, chain) = fold_chain(
            graph,
            op,
            entry,
            i,
            ax_len,
            front,
            back,
            indices,
            Ghost(b),
            Ghost(rec),
            Ghost(whole),
        );
        proof {
            lemma_roles_twice(b, whole, size as int, w, chain@);
            lemma_grows_twice(b, g, graph@, rec, rec1, indices@, w, chain@);
            lemma_sound_twice(b, x, rec, Seq::empty(), g.nodes, graph@.nodes, w, chain@);
            let w2 = w.followed_by(chain@);
            let at = choose|at: int| 0 <= at < chain@.made.len() && chain@.made[at] == last;
            assert(w2.made[w.made.len() + at] == last);
            assert(!g.nodes.dom().contains(chain@.made[at]));
            assert(graph@.nodes.dom().contains(last));
            assert forall|j: int| 0 <= j < little@.len() implies is_new(
                b,
                graph@.nodes,
                #[trigger] little@[j],
            ) && w2.made.contains(little@[j]) && little@[j] != last by {
                let p = choose|p: int| 0 <= p < w.made.len() && w.made[p] == little@[j];
                assert(w2.made[p] == little@[j]);
            }
            assert forall|n: int| 0 <= n < w2.kinds.len() implies #[trigger] w2.kinds[n] == op by {
                if n < w.kinds.len() {
                    assert(w2.kinds[n] == w.kinds[n]);
                } else {
                    assert(w2.kinds[n] == chain@.kinds[n - w.kinds.len()]);
                }
            }
            assert forall|n: int| 0 <= n < w2.roles.len() implies !(#[trigger] w2.roles[n] is Moved) by {
                if n < w.roles.len() {
                    assert(w2.roles[n] == w.roles[n]);
                } else {
                    assert(w2.roles[n] == chain@.roles[n - w.roles.len()]);
                }
            }
            assert forall|k: int| 0 <= k < chain@.made.len() implies !g.nodes.dom().contains(
                #[trigger] chain@.made[k],
            ) by {}
            assert forall|m: usize| w.made.contains(m) implies g.nodes.dom().contains(m) by {}
            lemma_chain_joins(
                b,
                g.nodes,
                whole,
                size as int,
                entry.id,
                ax_len as int,
                back as int,
                folds,
                little@,
                w,
                chain@,
                last,
            );
            let f2 = folds.push(chain@.made);
            folds = f2;
            w = w2;
        }
        little.push(last);
        i += 1;
    }
    let ghost g2 = graph@;
    let ghost cur = indices@;
    proof {
        lemma_listing_survives(b, g2, rec, cur, x, out@, Seq::empty(), w);
        assert forall|j: int| 0 <= j < little@.len() implies g2.nodes.dom().contains(
            #[trigger] little@[j],
        ) by {
            assert(is_new(b, g2.nodes, little@[j]));
        }
    }
    let moved = match connect_out_edges(graph, x, out, &little, indices) {
        Ok(m) => m,
        Err(e) => {
            proof {
                if reconnectable(out@, rec, size as int) {
                    assert forall|k: int| 0 <= k < out@.len() implies #[trigger] can_reconnect(
                        out@[k],
                        cur,
                        little@.len() as int,
                    ) by {
                        assert(can_reconnect(out@[k], rec, size as int));
                        assert(rec.dom().contains(out@[k].id));
                    }
                }
            }
            return Err(e);
        },
    };
    let ghost w1 = Growth::of_edges(
        moved@,
        reconnections(out@, little@, rec, out@.len() as int),
        moved_roles(out@),
    );
    proof {
        lemma_moved_grows(b, g2, graph@, rec, cur, x, out@, little@, moved@);
        lemma_grows_twice(b, g2, graph@, rec, cur, cur, w, w1);
        lemma_sound_any_little(b, x, rec, Seq::empty(), little@, g2.nodes, w);
        lemma_sound_twice(b, x, rec, little@, g2.nodes, graph@.nodes, w, w1);
        lemma_moves_ask_nothing(
            b,
            whole,
            size as int,
            little@,
            Seq::empty(),
            moved@,
            reconnections(out@, little@, rec, out@.len() as int),
            out@,
        );
        lemma_roles_twice(b, whole, size as int, w, w1);
        let w2 = w.followed_by(w1);
        assert(w2.made =~= w.made);
        assert(w2.kinds =~= w.kinds);
        lemma_folds_laid_out(
            b,
            x,
            whole,
            size as int,
            entry.id,
            ax_len as int,
            back as int,
            folds,
            little@,
            w,
            moved@,
            reconnections(out@, little@, rec, out@.len() as int),
            out@,
        );
        w = w2;
    }
    Ok((little, Ghost(w), Ghost(folds)))
}

/// The new node `n` reads, as operand `s`, element `l` of an operand that the node
/// being replaced sees through `t` as its operand `slot0`. `folds` holds, for each
/// element of the node, the new nodes that compute it, the little node last.
///
/// The little node of element `l` of an elementwise node reads element `l` of every
/// operand, in the operand's own slot. In the fold for element `i` of a reduction, the
/// node of step `k` reads entry `k` of the folded axis as its second operand, and the
/// node of the first step reads the first entry also as its first operand.
pub open spec fn planned(
    op: OpKind,
    t: TrackerView,
    slot0: u8,
    size: int,
    folds: Seq<Seq<usize>>,
    l: usize,
    n: usize,
    s: u8,
) -> bool {
    if op.is_reduce() {
        exists|i: int, k: int|
            0 <= i < size && i < folds.len() && 0 <= k < t.visible_dims()[op.reduce_axis() as int]
                && l == #[trigger] reduce_index(
                i,
                k,
                t.visible_dims()[op.reduce_axis() as int],
                back_len(t, op.reduce_axis()),
            ) && n == folds[i][k] && (s == 1 || (s == 0 && k == 0))
    } else {
        l < size && l < folds.len() && n == folds[l as int][0] && s == slot0
    }
}

/// In some fold, `to` is the node of the step after the step of `from`.
pub open spec fn is_link(folds: Seq<Seq<usize>>, from: usize, to: usize) -> bool {
    exists|a: int, k: int|
        0 <= a < folds.len() && 1 <= k < folds[a].len() && from == folds[a][k - 1] && to
            == #[trigger] folds[a][k]
}

/// An edge added while a node was being replaced goes where the plan says.
pub open spec fn edge_aimed(
    b: GraphView,
    op: OpKind,
    size: int,
    folds: Seq<Seq<usize>>,
    view: EdgeView,
    role: Role,
) -> bool {
    match role {
        Role::Laid { via, logical } => planned(
            op,
            b.edges[via].shape,
            b.edges[via].input_order,
            size,
            folds,
            logical,
            view.target,
            view.input_order,
        ),
        Role::Link => is_link(folds, view.source, view.target) && view.input_order == 0
            && view.output_order == 0,
        Role::Moved { from } => true,
    }
}

/// Every edge of `w` goes where the plan says.
pub open spec fn all_aimed(
    b: GraphView,
    op: OpKind,
    size: int,
    folds: Seq<Seq<usize>>,
    w: Growth,
) -> bool {
    forall|i: int|
        0 <= i < w.edges.len() ==> edge_aimed(b, op, size, folds, #[trigger] w.views[i], w.roles[i])
}

/// Some edge of `w` was laid for node `n` to read, as operand `s`, element `l` of what
/// edge `e` brought.
pub open spec fn has_laid(w: Growth, e: usize, l: usize, n: usize, s: u8) -> bool {
    exists|i: int|
        0 <= i < w.edges.len() && #[trigger] w.roles[i] == (Role::Laid { via: e, logical: l })
            && w.views[i].target == n && w.views[i].input_order == s
}

/// Some edge of `w` links node `from` to node `to`.
pub open spec fn has_link(w: Growth, from: usize, to: usize) -> bool {
    exists|i: int|
        0 <= i < w.edges.len() && #[trigger] w.roles[i] == Role::Link && w.views[i].source == from
            && w.views[i].target == to
}

/// For everything the plan says the node reads, an edge was laid.
pub open spec fn laid_each(
    b: GraphView,
    x: usize,
    op: OpKind,
    size: int,
    folds: Seq<Seq<usize>>,
    w: Growth,
) -> bool {
    forall|e: usize, l: usize, n: usize, s: u8|
        b.edges.dom().contains(e) && b.edges[e].target == x && #[trigger] planned(
            op,
            b.edges[e].shape,
            b.edges[e].input_order,
            size,
            folds,
            l,
            n,
            s,
        ) ==> has_laid(w, e, l, n, s)
}

/// Every step of every fold is linked to the step before it.
pub open spec fn linked_each(folds: Seq<Seq<usize>>, w: Growth) -> bool {
    forall|a: int, k: int|
        0 <= a < folds.len() && 1 <= k < folds[a].len() ==> has_link(
            w,
            folds[a][k - 1],
            #[trigger] folds[a][k],
        )
}

/// Every edge that left `x` has been replaced.
pub open spec fn moved_each(b: GraphView, x: usize, w: Growth) -> bool {
    forall|t: usize| #[trigger]
        b.edges.dom().contains(t) && b.edges[t].source == x ==> w.roles.contains(
            Role::Moved { from: t },
        )
}

/// Node `m` is a step of some fold.
pub open spec fn in_folds(folds: Seq<Seq<usize>>, m: usize) -> bool {
    exists|a: int, k: int| 0 <= a < folds.len() && 0 <= k < folds[a].len() && #[trigger] folds[a][k] == m
}

/// The folds are made of exactly the nodes `made`, each once; there is one fold of
/// `len` steps for each little node, and the little node is its last step.
pub open spec fn folds_made(
    folds: Seq<Seq<usize>>,
    little: Seq<usize>,
    made: Seq<usize>,
    len: int,
) -> bool {
    &&& folds.len() == little.len()
    &&& len >= 1
    &&& forall|a: int|
        0 <= a < folds.len() ==> (#[trigger] folds[a]).len() == len && folds[a][len - 1]
            == little[a]
    &&& forall|a: int, k: int|
        0 <= a < folds.len() && 0 <= k < folds[a].len() ==> made.contains(#[trigger] folds[a][k])
    &&& forall|m: usize| #[trigger] made.contains(m) ==> in_folds(folds, m)
    &&& forall|a: int, k: int, a2: int, k2: int|
        0 <= a < folds.len() && 0 <= k < folds[a].len() && 0 <= a2 < folds.len() && 0 <= k2
            < folds[a2].len() && (a != a2 || k != k2) ==> #[trigger] folds[a][k]
            != #[trigger] folds[a2][k2]
}

/// What was added follows the plan, and everything planned was added.
pub open spec fn laid_out(
    b: GraphView,
    x: usize,
    op: OpKind,
    size: int,
    little: Seq<usize>,
    folds: Seq<Seq<usize>>,
    len: int,
    w: Growth,
) -> bool {
    &&& all_aimed(b, op, size, folds, w)
    &&& laid_each(b, x, op, size, folds, w)
    &&& linked_each(folds, w)
    &&& moved_each(b, x, w)
    &&& folds_made(folds, little, w.made, len)
    &&& marks_differ(w)
}

/// One fold of one step for each little node.
pub open spec fn singles(little: Seq<usize>) -> Seq<Seq<usize>> {
    Seq::new(little.len(), |j: int| seq![little[j]])
}

/// What tells one added edge from another: its role, the node it goes to and the slot.
pub open spec fn mark_of(w: Growth, i: int) -> (Role, usize, u8) {
    (w.roles[i], w.views[i].target, w.views[i].input_order)
}

/// No two edges of `w` have the same role, target and slot.
pub open spec fn marks_differ(w: Growth) -> bool {
    forall|i: int, j: int|
        0 <= i < j < w.edges.len() ==> #[trigger] mark_of(w, i) != #[trigger] mark_of(w, j)
}

/// No edge of `w1` has the role, target and slot of an edge of `w2`.
pub open spec fn marks_apart(w1: Growth, w2: Growth) -> bool {
    forall|i: int, j: int|
        0 <= i < w1.edges.len() && 0 <= j < w2.edges.len() ==> #[trigger] mark_of(w1, i)
            != #[trigger] mark_of(w2, j)
}

/// Two additions in a row with different marks within and between them have different
/// marks.
pub proof fn lemma_marks_twice(w1: Growth, w2: Growth)
    requires
        w1.roles.len() == w1.edges.len(),
        w1.views.len() == w1.edges.len(),
        w2.roles.len() == w2.edges.len(),
        w2.views.len() == w2.edges.len(),
        marks_differ(w1),
        marks_differ(w2),
        marks_apart(w1, w2),
    ensures
        marks_differ(w1.followed_by(w2)),
{
    let w = w1.followed_by(w2);
    let d = w1.edges.len() as int;
    assert forall|i: int, j: int| 0 <= i < j < w.edges.len() implies #[trigger] mark_of(w, i)
        != #[trigger] mark_of(w, j) by {
        if j < d {
            assert(mark_of(w, i) == mark_of(w1, i) && mark_of(w, j) == mark_of(w1, j));
        } else if i >= d {
            assert(mark_of(w, i) == mark_of(w2, i - d) && mark_of(w, j) == mark_of(w2, j - d));
        } else {
            assert(mark_of(w, i) == mark_of(w1, i) && mark_of(w, j) == mark_of(w2, j - d));
        }
    }
}

/// Every edge of `w` that is not a replacement goes to a node of `made`.
pub open spec fn targets_made(w: Growth, made: Seq<usize>) -> bool {
    forall|i: int|
        0 <= i < w.edges.len() ==> (#[trigger] w.roles[i]) is Moved || made.contains(
            w.views[i].target,
        )
}

/// Additions whose edges go to different nodes have marks apart.
pub proof fn lemma_fresh_targets_apart(w1: Growth, w2: Growth, prior: Map<usize, OpKind>)
    requires
        w1.roles.len() == w1.edges.len(),
        w1.views.len() == w1.edges.len(),
        w2.roles.len() == w2.edges.len(),
        w2.views.len() == w2.edges.len(),
        targets_made(w1, w1.made),
        targets_made(w2, w2.made),
        forall|i: int| 0 <= i < w1.edges.len() ==> !(#[trigger] w1.roles[i] is Moved),
        forall|i: int| 0 <= i < w2.edges.len() ==> !(#[trigger] w2.roles[i] is Moved),
        forall|m: usize| w1.made.contains(m) ==> prior.dom().contains(m),
        forall|m: usize| w2.made.contains(m) ==> !prior.dom().contains(m),
    ensures
        marks_apart(w1, w2),
        targets_made(w1.followed_by(w2), w1.followed_by(w2).made),
{
    let w = w1.followed_by(w2);
    assert forall|i: int, j: int|
        0 <= i < w1.edges.len() && 0 <= j < w2.edges.len() implies #[trigger] mark_of(w1, i)
        != #[trigger] mark_of(w2, j) by {
        assert(!(w1.roles[i] is Moved));
        assert(!(w2.roles[j] is Moved));
        assert(w1.made.contains(w1.views[i].target));
        assert(w2.made.contains(w2.views[j].target));
    }
    assert forall|i: int| 0 <= i < w.edges.len() implies (#[trigger] w.roles[i]) is Moved
        || w.made.contains(w.views[i].target) by {
        if i < w1.edges.len() {
            assert(w.roles[i] == w1.roles[i] && w.views[i] == w1.views[i]);
            assert(!(w1.roles[i] is Moved));
            let q = choose|q: int| 0 <= q < w1.made.len() && w1.made[q] == w1.views[i].target;
            assert(w.made[q] == w1.views[i].target);
        } else {
            let k = i - w1.edges.len();
            assert(w.roles[i] == w2.roles[k] && w.views[i] == w2.views[k]);
            assert(!(w2.roles[k] is Moved));
            let q = choose|q: int| 0 <= q < w2.made.len() && w2.made[q] == w2.views[k].target;
            assert(w.made[q + w1.made.len()] == w2.views[k].target);
        }
    }
}

/// Replacements of different edges have different marks, and their marks are apart
/// from those of edges that are not replacements.
pub proof fn lemma_moved_marks(w: Growth, ids: Seq<usize>, views: Seq<EdgeView>, out: Seq<EdgeEntry>)
    requires
        w.roles.len() == w.edges.len(),
        w.views.len() == w.edges.len(),
        forall|i: int| 0 <= i < w.edges.len() ==> !(#[trigger] w.roles[i] is Moved),
        forall|i: int, j: int| 0 <= i < j < out.len() ==> out[i].id != out[j].id,
        ids.len() == out.len(),
        views.len() == out.len(),
    ensures
        marks_differ(Growth::of_edges(ids, views, moved_roles(out))),
        marks_apart(w, Growth::of_edges(ids, views, moved_roles(out))),
{
    let w1 = Growth::of_edges(ids, views, moved_roles(out));
    assert forall|i: int, j: int| 0 <= i < j < w1.edges.len() implies #[trigger] mark_of(w1, i)
        != #[trigger] mark_of(w1, j) by {
        assert(w1.roles[i] == Role::Moved { from: out[i].id });
        assert(w1.roles[j] == Role::Moved { from: out[j].id });
    }
    assert forall|i: int, j: int|
        0 <= i < w.edges.len() && 0 <= j < w1.edges.len() implies #[trigger] mark_of(w, i)
        != #[trigger] mark_of(w1, j) by {
        assert(!(w.roles[i] is Moved));
        assert(w1.roles[j] == Role::Moved { from: out[j].id });
    }
}

/// What was laid, linked or moved in one of two additions in a row is in both.
pub proof fn lemma_has_twice(w1: Growth, w2: Growth)
    requires
        w1.roles.len() == w1.edges.len(),
        w1.views.len() == w1.edges.len(),
        w2.roles.len() == w2.edges.len(),
        w2.views.len() == w2.edges.len(),
    ensures
        forall|e: usize, l: usize, n: usize, s: u8|
            has_laid(w1, e, l, n, s) || has_laid(w2, e, l, n, s) ==> #[trigger] has_laid(
                w1.followed_by(w2),
                e,
                l,
                n,
                s,
            ),
        forall|from: usize, to: usize|
            has_link(w1, from, to) || has_link(w2, from, to) ==> #[trigger] has_link(
                w1.followed_by(w2),
                from,
                to,
            ),
        forall|r: Role|
            w1.roles.contains(r) || w2.roles.contains(r) ==> #[trigger] w1.followed_by(
                w2,
            ).roles.contains(r),
{
    let w = w1.followed_by(w2);
    let d = w1.edges.len() as int;
    assert forall|e: usize, l: usize, n: usize, s: u8|
        has_laid(w1, e, l, n, s) || has_laid(w2, e, l, n, s) implies #[trigger] has_laid(
        w,
        e,
        l,
        n,
        s,
    ) by {
        let role = Role::Laid { via: e, logical: l };
        if has_laid(w1, e, l, n, s) {
            let i = choose|i: int|
                0 <= i < w1.edges.len() && #[trigger] w1.roles[i] == role && w1.views[i].target
                    == n && w1.views[i].input_order == s;
            assert(w.roles[i] == role && w.views[i] == w1.views[i]);
        } else {
            let i = choose|i: int|
                0 <= i < w2.edges.len() && #[trigger] w2.roles[i] == role && w2.views[i].target
                    == n && w2.views[i].input_order == s;
            assert(w.roles[i + d] == role && w.views[i + d] == w2.views[i]);
        }
    }
    assert forall|from: usize, to: usize|
        has_link(w1, from, to) || has_link(w2, from, to) implies #[trigger] has_link(
        w,
        from,
        to,
    ) by {
        if has_link(w1, from, to) {
            let i = choose|i: int|
                0 <= i < w1.edges.len() && #[trigger] w1.roles[i] == Role::Link
                    && w1.views[i].source == from && w1.views[i].target == to;
            assert(w.roles[i] == Role::Link && w.views[i] == w1.views[i]);
        } else {
            let i = choose|i: int|
                0 <= i < w2.edges.len() && #[trigger] w2.roles[i] == Role::Link
                    && w2.views[i].source == from && w2.views[i].target == to;
            assert(w.roles[i + d] == Role::Link && w.views[i + d] == w2.views[i]);
        }
    }
    assert forall|r: Role| w1.roles.contains(r) || w2.roles.contains(r) implies #[trigger] w.roles.contains(
        r,
    ) by {
        if w1.roles.contains(r) {
            let i = choose|i: int| 0 <= i < w1.roles.len() && w1.roles[i] == r;
            assert(w.roles[i] == r);
        } else {
            let i = choose|i: int| 0 <= i < w2.roles.len() && w2.roles[i] == r;
            assert(w.roles[i + d] == r);
        }
    }
}

/// Two additions in a row that follow the plan follow the plan.
pub proof fn lemma_aimed_twice(
    b: GraphView,
    op: OpKind,
    size: int,
    folds: Seq<Seq<usize>>,
    w1: Growth,
    w2: Growth,
)
    requires
        w1.roles.len() == w1.edges.len(),
        w1.views.len() == w1.edges.len(),
        w2.roles.len() == w2.edges.len(),
        w2.views.len() == w2.edges.len(),
        all_aimed(b, op, size, folds, w1),
        all_aimed(b, op, size, folds, w2),
    ensures
        all_aimed(b, op, size, folds, w1.followed_by(w2)),
{
    let w = w1.followed_by(w2);
    assert forall|i: int| 0 <= i < w.edges.len() implies edge_aimed(
        b,
        op,
        size,
        folds,
        #[trigger] w.views[i],
        w.roles[i],
    ) by {
        if i < w1.edges.len() {
            assert(w.views[i] == w1.views[i] && w.roles[i] == w1.roles[i]);
            assert(edge_aimed(b, op, size, folds, w1.views[i], w1.roles[i]));
        } else {
            let k = i - w1.edges.len();
            assert(w.views[i] == w2.views[k] && w.roles[i] == w2.roles[k]);
            assert(edge_aimed(b, op, size, folds, w2.views[k], w2.roles[k]));
        }
    }
}

/// A plan that holds of the first folds holds of all.
pub proof fn lemma_aimed_grows(
    b: GraphView,
    op: OpKind,
    size: int,
    f1: Seq<Seq<usize>>,
    f2: Seq<Seq<usize>>,
    w: Growth,
)
    requires
        all_aimed(b, op, size, f1, w),
        f1.len() <= f2.len(),
        forall|a: int| 0 <= a < f1.len() ==> #[trigger] f2[a] == f1[a],
    ensures
        all_aimed(b, op, size, f2, w),
{
    assert forall|i: int| 0 <= i < w.edges.len() implies edge_aimed(
        b,
        op,
        size,
        f2,
        #[trigger] w.views[i],
        w.roles[i],
    ) by {
        assert(edge_aimed(b, op, size, f1, w.views[i], w.roles[i]));
        match w.roles[i] {
            Role::Laid { via, logical } => {
                let t = b.edges[via].shape;
                if op.is_reduce() {
                    let (a, k) = choose|a: int, k: int|
                        0 <= a < size && a < f1.len() && 0 <= k
                            < t.visible_dims()[op.reduce_axis() as int] && logical
                            == #[trigger] reduce_index(
                            a,
                            k,
                            t.visible_dims()[op.reduce_axis() as int],
                            back_len(t, op.reduce_axis()),
                        ) && w.views[i].target == f1[a][k] && (w.views[i].input_order == 1 || (
                        w.views[i].input_order == 0 && k == 0));
                    assert(f2[a] == f1[a]);
                } else {
                    assert(f2[logical as int] == f1[logical as int]);
                }
            },
            Role::Link => {
                let (a, k) = choose|a: int, k: int|
                    0 <= a < f1.len() && 1 <= k < f1[a].len() && w.views[i].source == f1[a][k - 1]
                        && w.views[i].target == #[trigger] f1[a][k];
                assert(f2[a] == f1[a]);
                assert(w.views[i].target == f2[a][k]);
            },
            Role::Moved { from } => {},
        }
    }
}

/// The kinds a scalarized graph is made of.
pub open spec fn is_scalar(op: OpKind) -> bool {
    match op {
        OpKind::Recip | OpKind::Add | OpKind::Mul | OpKind::LessThan => true,
        OpKind::InputOp | OpKind::ConstantOp(_) | OpKind::Max => true,
        _ => false,
    }
}

/// A node of kind `op` with these operands and `size` elements can be replaced.
pub open spec fn node_ready(op: OpKind, incoming: Seq<EdgeEntry>, size: int) -> bool {
    if incoming.len() == 0 {
        source_ready(op, size)
    } else if incoming.len() == 1 {
        if op == OpKind::Recip {
            operands_fit(incoming, size)
        } else {
            op.is_reduce() && reduce_fits(incoming[0], op.reduce_axis(), size)
        }
    } else if incoming.len() == 2 {
        op.is_binary_pointwise() && operands_fit(incoming, size)
    } else {
        false
    }
}

/// The error says what keeps node `x` from being replaced.
pub open spec fn node_fault(
    err: ScalarizeError,
    x: usize,
    op: OpKind,
    incoming: Seq<EdgeEntry>,
    out: Seq<EdgeEntry>,
    rec: Map<usize, usize>,
    size: int,
) -> bool {
    if incoming.len() == 0 {
        source_fault(err, x, op, out, rec, size)
    } else if incoming.len() == 1 {
        if op == OpKind::Recip {
            pointwise_fault(err, x, incoming, out, rec, size)
        } else if op.is_reduce() {
            reduce_fault(err, x, incoming[0], op.reduce_axis(), out, rec, size)
        } else {
            err == ScalarizeError::UnsupportedUnaryOp(x)
        }
    } else if incoming.len() == 2 {
        if op.is_binary_pointwise() {
            pointwise_fault(err, x, incoming, out, rec, size)
        } else {
            err == ScalarizeError::UnsupportedBinaryOp(x)
        }
    } else {
        err == ScalarizeError::UnsupportedNodeArity(x)
    }
}

/// What the tracker holds once node `x` has been replaced by `little`: only a node
/// without operands is noted.
pub open spec fn noted_for(
    t: InputsView,
    op: OpKind,
    arity: nat,
    x: usize,
    little: Seq<usize>,
) -> InputsView {
    if arity == 0 {
        noted(t, op, x, little)
    } else {
        t
    }
}

/// The number of steps in each fold of a node: the length of the folded axis for a
/// reduction, one for every other node.
pub open spec fn span(op: OpKind, incoming: Seq<EdgeEntry>) -> int {
    if op.is_reduce() && incoming.len() == 1 {
        incoming[0].shape@.visible_dims()[op.reduce_axis() as int]
    } else {
        1
    }
}

/// The result of an elementwise replacement, with one fold of one step for each
/// little node.
fn with_singles(r: Result<(Vec<usize>, Ghost<Growth>), ScalarizeError>) -> (q: Result<
    (Vec<usize>, Ghost<Growth>, Ghost<Seq<Seq<usize>>>),
    ScalarizeError,
>)
    ensures
        q is Ok <==> r is Ok,
        q is Ok ==> q->Ok_0.0 == r->Ok_0.0 && q->Ok_0.1 == r->Ok_0.1 && q->Ok_0.2@ == singles(
            r->Ok_0.0@,
        ),
        q is Err ==> q->Err_0 == r->Err_0,
{
    match r {
        Ok((little, w)) => {
            let ghost folds = singles(little@);
            Ok((little, w, Ghost(folds)))
        },
        Err(e) => Err(e),
    }
}

/// Gives node `x` its little nodes, by the number of its operands and its kind.
pub(crate) fn expand_node(
    graph: &mut Graph,
    x: usize,
    op: OpKind,
    size: usize,
    incoming: &Vec<EdgeEntry>,
    out: &Vec<EdgeEntry>,
    indices: &mut HashMap<usize, usize>,
    tracker: &mut InputsTracker,
) -> (r: Result<(Vec<usize>, Ghost<Growth>, Ghost<Seq<Seq<usize>>>), ScalarizeError>)
    requires
        old(graph).wf(),
        old(graph)@.nodes.dom().contains(x),
        no_self_loop(old(graph)@, x),
        lists_edges_of(incoming@, old(graph)@.edges, x, true),
        lists_edges_of(out@, old(graph)@.edges, x, false),
        1 <= size <= MAX_VOLUME,
    ensures
        final(graph).wf(),
        r is Ok <==> node_ready(op, incoming@, size as int) && reconnectable(
            out@,
            old(indices)@,
            size as int,
        ),
        r is Ok ==> r->Ok_0.0@.len() == size && is_scalar(scalar_kind(op)) && expanded(
            old(graph)@,
            final(graph)@,
            old(indices)@,
            final(indices)@,
            x,
            r->Ok_0.0@,
            scalar_kind(op),
            r->Ok_0.1@,
        ) && final(tracker)@ == noted_for(old(tracker)@, op, incoming@.len(), x, r->Ok_0.0@),
        r is Ok ==> all_asked(old(graph)@, op, size as int, r->Ok_0.1@) && laid_all(
            old(graph)@,
            x,
            op,
            size as int,
            r->Ok_0.1@,
        ),
        r is Ok ==> laid_out(
            old(graph)@,
            x,
            op,
            size as int,
            r->Ok_0.0@,
            r->Ok_0.2@,
            span(op, incoming@),
            r->Ok_0.1@,
        ),
        r is Err ==> node_fault(r->Err_0, x, op, incoming@, out@, old(indices)@, size as int),
{
    if incoming.len() == 0 {
        proof {
            assert forall|e: usize| #[trigger] graph@.edges.dom().contains(e) implies graph@.edges[e].target
                != x by {
                if graph@.edges[e].target == x {
                    let a = choose|a: int|
                        0 <= a < incoming@.len() && #[trigger] incoming@[a].id == e;
                }
            }
        }
        with_singles(source_op(graph, op, x, size, out, indices, tracker))
    } else if incoming.len() == 1 {
        proof {
            assert(graph@.edges.dom().contains(incoming@[0].id));
            assert(incoming@[0].target == x);
            assert forall|e: usize| #[trigger]
                graph@.edges.dom().contains(e) && graph@.edges[e].target == x implies e
                == incoming@[0].id by {
                let a = choose|a: int| 0 <= a < incoming@.len() && #[trigger] incoming@[a].id == e;
            }
        }
        match op {
            OpKind::Recip => with_singles(
                pointwise_op(graph, op, x, size, incoming, out, indices),
            ),
            OpKind::SumReduce(ax) => reduce_op(
                graph,
                OpKind::Add,
                x,
                size,
                ax,
                &incoming[0],
                out,
                indices,
                Ghost(op),
            ),
            OpKind::MaxReduce(ax) => reduce_op(
                graph,
                OpKind::Max,
                x,
                size,
                ax,
                &incoming[0],
                out,
                indices,
                Ghost(op),
            ),
            _ => Err(ScalarizeError::UnsupportedUnaryOp(x)),
        }
    } else if incoming.len() == 2 {
        match op {
            OpKind::Add | OpKind::Mul | OpKind::LessThan => with_singles(
                pointwise_op(graph, op, x, size, incoming, out, indices),
            ),
            _ => Err(ScalarizeError::UnsupportedBinaryOp(x)),
        }
    } else {
        Err(ScalarizeError::UnsupportedNodeArity(x))
    }
}

} // verus!
