//! Scalarization: the pass over the whole graph, and what holds while it runs.
//!
//! The nodes are taken in reverse topological order. At any moment the nodes not yet
//! taken are untouched, together with the edges that enter them; everything else has
//! already been rewritten into scalar nodes joined by scalar edges. [`scalarized`] says
//! what the finished graph is, and [`compilable`] on which graphs the pass succeeds.

use crate::bulk::{lemma_insert_all_dom, lemma_insert_all_get};
use crate::error::ScalarizeError;
use crate::expand::{
    all_aimed, all_asked, all_sized, asked, can_reconnect, edge_aimed, edge_sound, expand_node,
    expanded, folds_made, grows, has_laid, has_link, in_folds, is_link, is_scalar, laid_all,
    laid_each, laid_out, linked_each, mark_of, mark_retrieve, marks_inherited, moved_each,
    names_unsized_node, no_self_loop, node_fault, node_ready, node_sizes, operand_fits, planned,
    reconnectable, reconnected, records_elsewhere, records_made, reduce_fits, repeat, scalar_kind,
    size_of, sizes_match, span, Growth, InputsView, Role,
};
use crate::graph::{
    edges_without, is_topological, lists_edges_of, Direction, EdgeEntry, Graph, GraphView,
};
use crate::op::OpKind;
use crate::shape::{resolve, trivial_view};
use crate::validate::{names_disagreeing_node, uniform_out_shapes};
use std::collections::HashMap;
use vstd::pervasive::unreached;
use vstd::prelude::*;

pub use crate::expand::InputsTracker;
pub use crate::validate::UniformOutShapes;

verus! {

broadcast use vstd::std_specs::hash::group_hash_axioms;

/// How far the pass has come: the graph it began with, the topological order it
/// follows from the back, the number of nodes not yet taken, and the little nodes of
/// those already taken.
pub struct Progress {
    pub start: GraphView,
    pub topo: Seq<usize>,
    pub left: int,
    pub little: Map<usize, Seq<usize>>,
}

impl Progress {
    /// Node `y` has not been taken yet.
    pub open spec fn pending(self, y: usize) -> bool {
        self.topo.take(self.left).contains(y)
    }

    /// The node to take next.
    pub open spec fn next(self) -> usize {
        self.topo[self.left - 1]
    }

    /// The progress after the next node has been replaced by `little`.
    pub open spec fn advance(self, little: Seq<usize>) -> Progress {
        Progress {
            start: self.start,
            topo: self.topo,
            left: self.left - 1,
            little: self.little.insert(self.next(), little),
        }
    }

    /// The order is a topological order of the graph the pass began with, which is
    /// well formed.
    pub open spec fn well_begun(self) -> bool {
        &&& self.start.wf()
        &&& is_topological(self.topo, self.start.nodes, self.start.edges)
        &&& 0 <= self.left <= self.topo.len()
    }
}

/// The nodes not yet taken are as they were.
pub open spec fn nodes_kept(p: Progress, g: GraphView) -> bool {
    forall|y: usize| #[trigger]
        p.pending(y) ==> g.nodes.dom().contains(y) && g.nodes[y] == p.start.nodes[y]
}

/// The edges that enter nodes not yet taken are as they were.
pub open spec fn inputs_kept(p: Progress, g: GraphView) -> bool {
    &&& forall|e: usize| #[trigger]
        g.edges.dom().contains(e) && p.pending(g.edges[e].target) ==> p.start.edges.dom().contains(
            e,
        ) && p.start.edges[e] == g.edges[e]
    &&& forall|e: usize| #[trigger]
        p.start.edges.dom().contains(e) && p.pending(p.start.edges[e].target)
            ==> g.edges.dom().contains(e) && g.edges[e] == p.start.edges[e]
}

/// Every edge that leaves a node already rewritten carries one scalar.
pub open spec fn outputs_scalar(p: Progress, g: GraphView) -> bool {
    forall|e: usize| #[trigger]
        g.edges.dom().contains(e) && !p.pending(g.edges[e].source) ==> g.edges[e].shape
            == trivial_view()
}

/// The marks of nodes not yet taken are as they were, and every other mark declares
/// one scalar.
pub open spec fn marks_kept(p: Progress, g: GraphView) -> bool {
    &&& forall|y: usize| #[trigger]
        p.pending(y) ==> (g.retrieve.dom().contains(y) <==> p.start.retrieve.dom().contains(y))
            && (g.retrieve.dom().contains(y) ==> g.retrieve[y] == p.start.retrieve[y])
    &&& forall|y: usize| #[trigger]
        g.retrieve.dom().contains(y) && !p.pending(y) ==> g.retrieve[y] == trivial_view()
}

/// Every node already rewritten is of a scalar kind.
pub open spec fn kinds_scalar(p: Progress, g: GraphView) -> bool {
    forall|n: usize| #[trigger] g.nodes.dom().contains(n) && !p.pending(n) ==> is_scalar(g.nodes[n])
}

/// Taking the next node leaves the earlier ones pending.
pub proof fn lemma_rest_shrinks(p: Progress, little: Seq<usize>)
    requires
        p.well_begun(),
        p.left >= 1,
    ensures
        p.advance(little).well_begun(),
        p.pending(p.next()),
        p.start.nodes.dom().contains(p.next()),
        forall|y: usize| #[trigger]
            p.advance(little).pending(y) <==> p.pending(y) && y != p.next(),
{
    let q = p.advance(little);
    let a = p.topo.take(p.left);
    let c = p.topo.take(p.left - 1);
    assert(a[p.left - 1] == p.next());
    assert(p.topo.contains(p.next())) by {
        assert(p.topo[p.left - 1] == p.next());
    }
    assert forall|y: usize| #[trigger] q.pending(y) <==> p.pending(y) && y != p.next() by {
        if c.contains(y) {
            let i = choose|i: int| 0 <= i < c.len() && c[i] == y;
            assert(a[i] == y);
            assert(p.topo[i] == y);
            assert(p.topo[p.left - 1] == p.next());
        }
        if a.contains(y) && y != p.next() {
            let i = choose|i: int| 0 <= i < a.len() && a[i] == y;
            assert(c[i] == y);
        }
    }
}

/// Where a node not yet taken stands in the order.
pub open spec fn place(p: Progress, y: usize) -> int {
    choose|i: int| 0 <= i < p.left && p.topo[i] == y
}

/// A pending node stands before the count of nodes left.
pub proof fn lemma_place(p: Progress, y: usize)
    requires
        p.well_begun(),
        p.pending(y),
    ensures
        0 <= place(p, y) < p.left,
        p.topo[place(p, y)] == y,
{
    let a = p.topo.take(p.left);
    let i = choose|i: int| 0 <= i < a.len() && a[i] == y;
    assert(p.topo[i] == y);
}

/// Of an edge of the first graph that enters a pending node, the source is pending too, and
/// stands earlier; so it is not the next node unless the target is later than it,
/// which cannot be.
pub proof fn lemma_source_pending(p: Progress, e: usize)
    requires
        p.well_begun(),
        p.start.edges.dom().contains(e),
        p.pending(p.start.edges[e].target),
    ensures
        p.pending(p.start.edges[e].source),
        place(p, p.start.edges[e].source) < place(p, p.start.edges[e].target),
{
    let src = p.start.edges[e].source;
    let dst = p.start.edges[e].target;
    lemma_place(p, dst);
    let j = place(p, dst);
    assert(p.start.nodes.dom().contains(src));
    assert(p.topo.contains(src));
    let i = choose|i: int| 0 <= i < p.topo.len() && p.topo[i] == src;
    assert(p.start.edges[e].source == p.topo[i] && p.start.edges[e].target == p.topo[j]);
    assert(i < j);
    assert(p.topo.take(p.left)[i] == src);
    lemma_place(p, src);
    let k = place(p, src);
    if k != i {
        assert(p.topo[k] == p.topo[i]);
    }
}

/// Graph `g2` is what graph `b` becomes when node `x` is replaced: `h` is `b` with the
/// little nodes of `x` and their edges added, and `g2` is `h` without `x`, the mark of
/// `x` handed on to its little nodes.
pub open spec fn replaced(
    b: GraphView,
    h: GraphView,
    g2: GraphView,
    rec: Map<usize, usize>,
    rec2: Map<usize, usize>,
    x: usize,
    little: Seq<usize>,
    kind: OpKind,
    w: Growth,
) -> bool {
    &&& expanded(b, h, rec, rec2, x, little, kind, w)
    &&& g2.nodes == h.nodes.remove(x)
    &&& g2.edges == edges_without(h.edges, x)
    &&& g2.retrieve == marks_inherited(h.retrieve, x, little).remove(x)
}

/// The nodes not yet taken stay as they were when the next node is replaced.
pub proof fn lemma_nodes_kept(
    p: Progress,
    b: GraphView,
    h: GraphView,
    g2: GraphView,
    rec: Map<usize, usize>,
    rec2: Map<usize, usize>,
    little: Seq<usize>,
    kind: OpKind,
    w: Growth,
)
    requires
        p.well_begun(),
        p.left >= 1,
        nodes_kept(p, b),
        replaced(b, h, g2, rec, rec2, p.next(), little, kind, w),
    ensures
        nodes_kept(p.advance(little), g2),
{
    let q = p.advance(little);
    lemma_rest_shrinks(p, little);
    assert forall|y: usize| #[trigger] q.pending(y) implies g2.nodes.dom().contains(y)
        && g2.nodes[y] == p.start.nodes[y] by {
        assert(p.pending(y));
        assert(b.nodes.dom().contains(y));
        assert(h.nodes[y] == b.nodes[y]);
    }
}

/// The edges that enter nodes not yet taken stay as they were when the next node is
/// replaced.
pub proof fn lemma_inputs_kept(
    p: Progress,
    b: GraphView,
    h: GraphView,
    g2: GraphView,
    rec: Map<usize, usize>,
    rec2: Map<usize, usize>,
    little: Seq<usize>,
    kind: OpKind,
    w: Growth,
)
    requires
        p.well_begun(),
        p.left >= 1,
        nodes_kept(p, b),
        inputs_kept(p, b),
        replaced(b, h, g2, rec, rec2, p.next(), little, kind, w),
    ensures
        inputs_kept(p.advance(little), g2),
{
    let q = p.advance(little);
    let x = p.next();
    lemma_rest_shrinks(p, little);
    lemma_place(p, x);
    assert(place(p, x) == p.left - 1) by {
        if place(p, x) != p.left - 1 {
            assert(p.topo[place(p, x)] == p.topo[p.left - 1]);
        }
    }
    assert forall|e: usize| #[trigger]
        g2.edges.dom().contains(e) && q.pending(g2.edges[e].target) implies p.start.edges.dom().contains(
        e,
    ) && p.start.edges[e] == g2.edges[e] by {
        let dst = g2.edges[e].target;
        assert(h.edges.dom().contains(e));
        assert(p.pending(dst));
        if b.edges.dom().contains(e) {
            assert(h.edges[e] == b.edges[e]);
        } else {
            assert(w.edges.contains(e));
            let i = choose|i: int| 0 <= i < w.edges.len() && w.edges[i] == e;
            assert(h.edges[w.edges[i]] == w.views[i]);
            assert(edge_sound(b, x, rec, little, h.nodes, w.views[i], w.roles[i]));
            assert(b.nodes.dom().contains(dst));
            match w.roles[i] {
                Role::Moved { from } => {
                    assert(b.edges[from].target == dst);
                    assert(p.start.edges.dom().contains(from) && p.start.edges[from]
                        == b.edges[from]);
                    lemma_source_pending(p, from);
                    lemma_place(p, dst);
                },
                _ => {},
            }
        }
    }
    assert forall|e: usize| #[trigger]
        p.start.edges.dom().contains(e) && q.pending(
            p.start.edges[e].target,
        ) implies g2.edges.dom().contains(e) && g2.edges[e] == p.start.edges[e] by {
        let dst = p.start.edges[e].target;
        assert(p.pending(dst));
        assert(b.edges.dom().contains(e));
        assert(h.edges.dom().contains(e) && h.edges[e] == b.edges[e]);
        lemma_source_pending(p, e);
        lemma_place(p, dst);
    }
}

/// Every edge that leaves a rewritten node carries one scalar, also after the next
/// node is replaced.
pub proof fn lemma_outputs_scalar(
    p: Progress,
    b: GraphView,
    h: GraphView,
    g2: GraphView,
    rec: Map<usize, usize>,
    rec2: Map<usize, usize>,
    little: Seq<usize>,
    kind: OpKind,
    w: Growth,
)
    requires
        p.well_begun(),
        p.left >= 1,
        nodes_kept(p, b),
        inputs_kept(p, b),
        outputs_scalar(p, b),
        replaced(b, h, g2, rec, rec2, p.next(), little, kind, w),
    ensures
        outputs_scalar(p.advance(little), g2),
{
    let q = p.advance(little);
    let x = p.next();
    lemma_rest_shrinks(p, little);
    lemma_place(p, x);
    assert(place(p, x) == p.left - 1) by {
        if place(p, x) != p.left - 1 {
            assert(p.topo[place(p, x)] == p.topo[p.left - 1]);
        }
    }
    assert forall|e: usize| #[trigger]
        g2.edges.dom().contains(e) && !q.pending(g2.edges[e].source) implies g2.edges[e].shape
        == trivial_view() by {
        let src = g2.edges[e].source;
        assert(h.edges.dom().contains(e) && h.edges[e].source != x);
        assert(!p.pending(src));
        if b.edges.dom().contains(e) {
            assert(h.edges[e] == b.edges[e]);
        } else {
            assert(w.edges.contains(e));
            let i = choose|i: int| 0 <= i < w.edges.len() && w.edges[i] == e;
            assert(h.edges[w.edges[i]] == w.views[i]);
            assert(edge_sound(b, x, rec, little, h.nodes, w.views[i], w.roles[i]));
            match w.roles[i] {
                Role::Laid { via, logical } => {
                    assert(p.start.edges.dom().contains(via) && p.start.edges[via] == b.edges[via]);
                    lemma_source_pending(p, via);
                },
                _ => {},
            }
        }
    }
}

/// The marks stay in order when the next node is replaced.
pub proof fn lemma_marks_kept(
    p: Progress,
    b: GraphView,
    h: GraphView,
    g2: GraphView,
    rec: Map<usize, usize>,
    rec2: Map<usize, usize>,
    little: Seq<usize>,
    kind: OpKind,
    w: Growth,
)
    requires
        p.well_begun(),
        p.left >= 1,
        b.wf(),
        nodes_kept(p, b),
        marks_kept(p, b),
        replaced(b, h, g2, rec, rec2, p.next(), little, kind, w),
    ensures
        marks_kept(p.advance(little), g2),
{
    let q = p.advance(little);
    let x = p.next();
    lemma_rest_shrinks(p, little);
    let vals = repeat(little.len(), trivial_view());
    lemma_insert_all_dom(b.retrieve, little, vals);
    assert forall|j: int| 0 <= j < little.len() implies !b.nodes.dom().contains(
        #[trigger] little[j],
    ) by {
        let i = choose|i: int| 0 <= i < w.made.len() && w.made[i] == little[j];
        assert(!b.nodes.dom().contains(w.made[i]));
    }
    assert forall|y: usize| little.contains(y) implies !b.nodes.dom().contains(y) by {
        let j = choose|j: int| 0 <= j < little.len() && little[j] == y;
        assert(!b.nodes.dom().contains(little[j]));
    }
    assert forall|y: usize| #[trigger] q.pending(y) implies (g2.retrieve.dom().contains(y)
        <==> p.start.retrieve.dom().contains(y)) && (g2.retrieve.dom().contains(y)
        ==> g2.retrieve[y] == p.start.retrieve[y]) by {
        assert(p.pending(y));
        assert(b.nodes.dom().contains(y));
        assert(!little.contains(y));
    }
    assert forall|y: usize| #[trigger]
        g2.retrieve.dom().contains(y) && !q.pending(y) implies g2.retrieve[y]
        == trivial_view() by {
        assert(y != x);
        assert(!p.pending(y));
        if b.retrieve.dom().contains(x) {
            if little.contains(y) {
                let j = choose|j: int| 0 <= j < little.len() && little[j] == y;
                lemma_insert_all_get(b.retrieve, little, vals, j);
            } else {
                assert(b.retrieve.dom().contains(y));
            }
        }
    }
}

/// Every rewritten node is of a scalar kind, also after the next node is replaced.
pub proof fn lemma_kinds_scalar(
    p: Progress,
    b: GraphView,
    h: GraphView,
    g2: GraphView,
    rec: Map<usize, usize>,
    rec2: Map<usize, usize>,
    little: Seq<usize>,
    kind: OpKind,
    w: Growth,
)
    requires
        p.well_begun(),
        p.left >= 1,
        kinds_scalar(p, b),
        is_scalar(kind),
        replaced(b, h, g2, rec, rec2, p.next(), little, kind, w),
    ensures
        kinds_scalar(p.advance(little), g2),
{
    let q = p.advance(little);
    let x = p.next();
    lemma_rest_shrinks(p, little);
    assert forall|n: usize| #[trigger] g2.nodes.dom().contains(n) && !q.pending(n) implies is_scalar(
        g2.nodes[n],
    ) by {
        assert(n != x);
        assert(!p.pending(n));
        if b.nodes.dom().contains(n) {
            assert(h.nodes[n] == b.nodes[n]);
        } else {
            assert(w.made.contains(n));
            let i = choose|i: int| 0 <= i < w.made.len() && w.made[i] == n;
            assert(h.nodes[w.made[i]] == w.kinds[i]);
        }
    }
}

/// Node `y` of the graph the pass began with has been replaced.
pub open spec fn taken(p: Progress, y: usize) -> bool {
    p.start.nodes.dom().contains(y) && !p.pending(y)
}

/// Every replaced node has as many little nodes as it had elements; they are nodes of
/// the graph, of the scalar kind that stands for the node's kind, and no two of them
/// are the same.
pub open spec fn littles_known(p: Progress, g: GraphView, sizes: Map<usize, usize>) -> bool {
    &&& forall|y: usize| #[trigger]
        taken(p, y) ==> p.little.dom().contains(y) && p.little[y].len() == sizes[y]
    &&& forall|y: usize, j: int|
        taken(p, y) && 0 <= j < p.little[y].len() ==> g.nodes.dom().contains(
            #[trigger] p.little[y][j],
        ) && !p.pending(p.little[y][j]) && g.nodes[p.little[y][j]] == scalar_kind(
            p.start.nodes[y],
        )
    &&& forall|y1: usize, j1: int, y2: usize, j2: int|
        taken(p, y1) && taken(p, y2) && 0 <= j1 < p.little[y1].len() && 0 <= j2
            < p.little[y2].len() && (y1 != y2 || j1 != j2) ==> #[trigger] p.little[y1][j1]
            != #[trigger] p.little[y2][j2]
}

/// The tracker lists exactly the replaced inputs, each with its little nodes, and holds
/// the value of every replaced constant under its little node; every node it holds a
/// value for is a constant marker with that value.
pub open spec fn tracker_right(p: Progress, g: GraphView, tr: InputsView) -> bool {
    &&& forall|y: usize| #[trigger]
        tr.new_inputs.dom().contains(y) <==> taken(p, y) && p.start.nodes[y] is Input
    &&& forall|y: usize|
        tr.new_inputs.dom().contains(y) ==> #[trigger] tr.new_inputs[y] == p.little[y]
    &&& forall|c: usize|
        taken(p, c) && p.start.nodes[c] is Constant ==> tr.constants.dom().contains(
            #[trigger] p.little[c][0],
        ) && tr.constants[p.little[c][0]] == p.start.nodes[c]->Constant_0
    &&& forall|n: usize| #[trigger]
        tr.constants.dom().contains(n) ==> g.nodes.dom().contains(n) && !p.pending(n)
            && g.nodes[n] == OpKind::ConstantOp(tr.constants[n])
}

/// The little nodes are known, also after the next node is replaced.
pub proof fn lemma_littles_known(
    p: Progress,
    b: GraphView,
    h: GraphView,
    g2: GraphView,
    rec: Map<usize, usize>,
    rec2: Map<usize, usize>,
    little: Seq<usize>,
    w: Growth,
    sizes: Map<usize, usize>,
)
    requires
        p.well_begun(),
        p.left >= 1,
        nodes_kept(p, b),
        littles_known(p, b, sizes),
        little.len() == sizes[p.next()],
        replaced(b, h, g2, rec, rec2, p.next(), little, scalar_kind(p.start.nodes[p.next()]), w),
    ensures
        littles_known(p.advance(little), g2, sizes),
{
    let q = p.advance(little);
    let x = p.next();
    lemma_rest_shrinks(p, little);
    assert forall|j: int| 0 <= j < little.len() implies !b.nodes.dom().contains(
        #[trigger] little[j],
    ) && h.nodes.dom().contains(little[j]) && h.nodes[little[j]] == scalar_kind(
        p.start.nodes[x],
    ) by {
        let i = choose|i: int| 0 <= i < w.made.len() && w.made[i] == little[j];
        assert(!b.nodes.dom().contains(w.made[i]));
        assert(h.nodes[w.made[i]] == w.kinds[i]);
    }
    assert(b.nodes.dom().contains(x));
    assert forall|y: usize| #[trigger] taken(q, y) implies q.little.dom().contains(y)
        && q.little[y].len() == sizes[y] by {
        if y != x {
            assert(taken(p, y));
        }
    }
    assert forall|y: usize, j: int|
        taken(q, y) && 0 <= j < q.little[y].len() implies g2.nodes.dom().contains(
        #[trigger] q.little[y][j],
    ) && !q.pending(q.little[y][j]) && g2.nodes[q.little[y][j]] == scalar_kind(
        p.start.nodes[y],
    ) by {
        if y != x {
            assert(taken(p, y));
            let n = p.little[y][j];
            assert(b.nodes.dom().contains(n) && !p.pending(n));
            assert(h.nodes[n] == b.nodes[n]);
        } else {
            let n = little[j];
            assert(!b.nodes.dom().contains(n));
            if p.pending(n) {
                assert(b.nodes.dom().contains(n));
            }
        }
    }
    assert forall|y1: usize, j1: int, y2: usize, j2: int|
        taken(q, y1) && taken(q, y2) && 0 <= j1 < q.little[y1].len() && 0 <= j2
            < q.little[y2].len() && (y1 != y2 || j1 != j2) implies #[trigger] q.little[y1][j1]
        != #[trigger] q.little[y2][j2] by {
        if y1 != x && y2 != x {
            assert(taken(p, y1) && taken(p, y2));
        } else if y1 == x && y2 == x {
            assert(little[j1] != little[j2]);
        } else if y1 == x {
            assert(taken(p, y2));
            assert(b.nodes.dom().contains(p.little[y2][j2]));
            assert(!b.nodes.dom().contains(little[j1]));
        } else {
            assert(taken(p, y1));
            assert(b.nodes.dom().contains(p.little[y1][j1]));
            assert(!b.nodes.dom().contains(little[j2]));
        }
    }
}

/// What the tracker holds after the next node is replaced.
pub open spec fn tracker_after(
    tr: InputsView,
    op: OpKind,
    x: usize,
    little: Seq<usize>,
) -> InputsView {
    match op {
        OpKind::Input => InputsView {
            new_inputs: tr.new_inputs.insert(x, little),
            constants: tr.constants,
        },
        OpKind::Constant(v) => InputsView {
            new_inputs: tr.new_inputs,
            constants: tr.constants.insert(little[0], v),
        },
        _ => tr,
    }
}

/// The tracker is right, also after the next node is replaced.
pub proof fn lemma_tracker_right(
    p: Progress,
    b: GraphView,
    h: GraphView,
    g2: GraphView,
    rec: Map<usize, usize>,
    rec2: Map<usize, usize>,
    little: Seq<usize>,
    w: Growth,
    sizes: Map<usize, usize>,
    tr: InputsView,
)
    requires
        p.well_begun(),
        p.left >= 1,
        nodes_kept(p, b),
        littles_known(p, b, sizes),
        tracker_right(p, b, tr),
        p.start.nodes[p.next()] is Constant ==> little.len() == 1,
        replaced(b, h, g2, rec, rec2, p.next(), little, scalar_kind(p.start.nodes[p.next()]), w),
    ensures
        tracker_right(
            p.advance(little),
            g2,
            tracker_after(tr, p.start.nodes[p.next()], p.next(), little),
        ),
{
    let q = p.advance(little);
    let x = p.next();
    let op = p.start.nodes[x];
    let tr2 = tracker_after(tr, op, x, little);
    lemma_rest_shrinks(p, little);
    assert(b.nodes.dom().contains(x));
    assert forall|j: int| 0 <= j < little.len() implies !b.nodes.dom().contains(
        #[trigger] little[j],
    ) && h.nodes.dom().contains(little[j]) && h.nodes[little[j]] == scalar_kind(op) by {
        let i = choose|i: int| 0 <= i < w.made.len() && w.made[i] == little[j];
        assert(!b.nodes.dom().contains(w.made[i]));
        assert(h.nodes[w.made[i]] == w.kinds[i]);
    }
    assert forall|y: usize| #[trigger]
        tr2.new_inputs.dom().contains(y) <==> taken(q, y) && p.start.nodes[y] is Input by {
        if y != x {
            assert(taken(q, y) <==> taken(p, y));
            assert(tr.new_inputs.dom().contains(y) <==> taken(p, y) && p.start.nodes[y] is Input);
        } else {
            assert(!taken(p, x));
            assert(!tr.new_inputs.dom().contains(x));
        }
    }
    assert forall|y: usize| tr2.new_inputs.dom().contains(y) implies #[trigger] tr2.new_inputs[y]
        == q.little[y] by {
        if y != x {
            assert(tr.new_inputs.dom().contains(y));
        } else {
            assert(!tr.new_inputs.dom().contains(x));
        }
    }
    assert forall|c: usize|
        taken(q, c) && p.start.nodes[c] is Constant implies tr2.constants.dom().contains(
        #[trigger] q.little[c][0],
    ) && tr2.constants[q.little[c][0]] == p.start.nodes[c]->Constant_0 by {
        if c != x {
            assert(taken(p, c));
            let n = p.little[c][0];
            assert(tr.constants.dom().contains(n));
            assert(b.nodes.dom().contains(n));
            if op is Constant {
                assert(!b.nodes.dom().contains(little[0]));
            }
        }
    }
    assert forall|n: usize| #[trigger] tr2.constants.dom().contains(n) implies g2.nodes.dom().contains(
        n,
    ) && !q.pending(n) && g2.nodes[n] == OpKind::ConstantOp(tr2.constants[n]) by {
        if tr.constants.dom().contains(n) {
            assert(b.nodes.dom().contains(n) && !p.pending(n));
            assert(h.nodes[n] == b.nodes[n]);
            if op is Constant {
                assert(!b.nodes.dom().contains(little[0]));
            }
        } else {
            assert(op is Constant && n == little[0]);
            if p.pending(n) {
                assert(b.nodes.dom().contains(n));
            }
        }
    }
}

/// Edge `f` of `g` stands for a reading that the plan names.
pub open spec fn wire_of(
    start: GraphView,
    little: Map<usize, Seq<usize>>,
    fm: Folds,
    g: GraphView,
    f: usize,
) -> bool {
    exists|e: usize, l: usize|
        start.edges.dom().contains(e) && #[trigger] aimed_at(
            start,
            fm,
            e,
            l,
            g.edges[f].target,
            g.edges[f].input_order,
        ) && g.edges[f] == wire_view(start, little, e, l, g.edges[f].target, g.edges[f].input_order)
}

/// Edge `f` of `g` links a step of a fold to the next.
pub open spec fn link_of(start: GraphView, fm: Folds, g: GraphView, f: usize) -> bool {
    exists|c: usize| #[trigger]
        start.nodes.dom().contains(c) && is_link(fm[c], g.edges[f].source, g.edges[f].target)
            && g.edges[f] == link_view(g.edges[f].source, g.edges[f].target)
}

/// Node `n` is a step of a fold of a node of `start`.
pub open spec fn step_of(start: GraphView, fm: Folds, n: usize) -> bool {
    exists|c: usize| #[trigger] start.nodes.dom().contains(c) && in_folds(fm[c], n)
}

/// Node `n` is a little node of a marked node of `start`.
pub open spec fn marked_of(start: GraphView, little: Map<usize, Seq<usize>>, n: usize) -> bool {
    exists|c: usize| #[trigger]
        start.nodes.dom().contains(c) && start.retrieve.dom().contains(c) && little[c].contains(n)
}

/// Edge `f` of the scalarized graph `g` is what `name` says: the scalar edge that
/// stands for the reading, or the link into the step.
pub open spec fn name_holds(
    start: GraphView,
    little: Map<usize, Seq<usize>>,
    fm: Folds,
    g: GraphView,
    f: usize,
    name: Name,
) -> bool {
    match name {
        Name::Reading { e, l } => start.edges.dom().contains(e) && aimed_at(
            start,
            fm,
            e,
            l,
            g.edges[f].target,
            g.edges[f].input_order,
        ) && g.edges[f] == wire_view(start, little, e, l, g.edges[f].target, g.edges[f].input_order),
        Name::Step { c, a, k } => start.nodes.dom().contains(c) && 0 <= a < fm[c].len() && 1 <= k
            < fm[c][a].len() && g.edges[f] == link_view(fm[c][a][k - 1], fm[c][a][k]),
    }
}

/// The edges of the scalarized graph `g` are, one for one, the planned readings and the
/// links of the folds: `nm` names every edge by what it stands for, no two edges with
/// the same target and slot have the same name, and every planned reading and every
/// link is the name of an edge.
pub open spec fn edges_named(
    start: GraphView,
    little: Map<usize, Seq<usize>>,
    fm: Folds,
    g: GraphView,
    nm: Names,
) -> bool {
    &&& forall|f: usize| #[trigger]
        g.edges.dom().contains(f) ==> nm.dom().contains(f) && name_holds(
            start,
            little,
            fm,
            g,
            f,
            nm[f],
        )
    &&& forall|f: usize, f2: usize|
        g.edges.dom().contains(f) && g.edges.dom().contains(f2) && f != f2 ==> #[trigger] tag_of(
            g,
            nm,
            f,
        ) != #[trigger] tag_of(g, nm, f2)
    &&& forall|e: usize, l: usize, n: usize, s: u8|
        start.edges.dom().contains(e) && #[trigger] aimed_at(start, fm, e, l, n, s) ==> reading_edge(
            g,
            nm,
            e,
            l,
            n,
            s,
        )
    &&& forall|c: usize, a: int, k: int|
        start.nodes.dom().contains(c) && 0 <= a < fm[c].len() && 1 <= k < fm[c][a].len()
            ==> #[trigger] step_edge(g, nm, c, a, k)
}

/// Some edge of `g` is named the reading of element `l` through edge `e`, for node `n`
/// as operand `s`.
pub open spec fn reading_edge(g: GraphView, nm: Names, e: usize, l: usize, n: usize, s: u8) -> bool {
    exists|f: usize| #[trigger]
        g.edges.dom().contains(f) && nm[f] == (Name::Reading { e, l }) && g.edges[f].target == n
            && g.edges[f].input_order == s
}

/// Some edge of `g` is named the link into step `k` of fold `a` of node `c`.
pub open spec fn step_edge(g: GraphView, nm: Names, c: usize, a: int, k: int) -> bool {
    exists|f: usize| #[trigger] g.edges.dom().contains(f) && nm[f] == (Name::Step { c, a, k })
}

/// Some edge of `g` is the scalar edge `v`.
pub open spec fn wire_stands(g: GraphView, v: crate::graph::EdgeView) -> bool {
    exists|f: usize| #[trigger] g.edges.dom().contains(f) && g.edges[f] == v
}

/// Graph `g` with tracker `tr` is the scalarized form of graph `start`, where `little`
/// gives the little nodes of every node of `start` and `fm` its folds.
///
/// Every node of `start` has one fold for each of its elements, whose last step is
/// the little node of that element. For every element that a node reads of an operand
/// by the plan (see [`planned`]), an edge leads from the little node of the producer
/// that holds the element to the node that reads it, in the slot that the plan names;
/// and every step of a fold is linked to the step before it.
///
/// These are all the edges and the steps of the folds are all the nodes: every node of
/// `g` is a step of exactly one fold, of the scalar kind that stands for the kind of
/// the node of `start`, and every edge of `g` is one of the edges above. The marked
/// nodes of `g` are the little nodes of the marked nodes of `start`.
///
/// Every edge carries one scalar, every node is of a scalar kind, and every mark
/// declares one scalar. Every node of `start` has as many little nodes as it had
/// elements, of the kind that stands for its own, all distinct. The tracker lists
/// exactly the inputs of `start`, each with its little nodes, and holds the value of
/// every constant of `start` under its little node.
pub open spec fn scalarized(
    start: GraphView,
    g: GraphView,
    tr: InputsView,
    little: Map<usize, Seq<usize>>,
    fm: Folds,
) -> bool {
    &&& forall|c: usize| #[trigger]
        start.nodes.dom().contains(c) ==> fm.dom().contains(c) && fm[c].len() == size_of(start, c)
            && forall|a: int|
            0 <= a < fm[c].len() ==> (#[trigger] fm[c][a]).len() >= 1 && fm[c][a].len()
                == fold_len(start, c) && fm[c][a].last() == little[c][a]
    &&& forall|e: usize, l: usize, n: usize, s: u8|
        start.edges.dom().contains(e) && #[trigger] aimed_at(start, fm, e, l, n, s) ==> wire_stands(
            g,
            wire_view(start, little, e, l, n, s),
        )
    &&& forall|c: usize, a: int, k: int|
        start.nodes.dom().contains(c) && 0 <= a < fm[c].len() && 1 <= k < fm[c][a].len()
            ==> wire_stands(g, link_view(fm[c][a][k - 1], #[trigger] fm[c][a][k]))
    &&& forall|f: usize| #[trigger]
        g.edges.dom().contains(f) ==> wire_of(start, little, fm, g, f) || link_of(start, fm, g, f)
    &&& forall|c: usize, a: int, k: int|
        start.nodes.dom().contains(c) && 0 <= a < fm[c].len() && 0 <= k < fm[c][a].len()
            ==> g.nodes.dom().contains(#[trigger] fm[c][a][k]) && g.nodes[fm[c][a][k]]
            == scalar_kind(start.nodes[c])
    &&& forall|c: usize, a: int, k: int, c2: usize, a2: int, k2: int|
        start.nodes.dom().contains(c) && 0 <= a < fm[c].len() && 0 <= k < fm[c][a].len()
            && start.nodes.dom().contains(c2) && 0 <= a2 < fm[c2].len() && 0 <= k2
            < fm[c2][a2].len() && (c != c2 || a != a2 || k != k2) ==> #[trigger] fm[c][a][k]
            != #[trigger] fm[c2][a2][k2]
    &&& forall|n: usize| #[trigger] g.nodes.dom().contains(n) ==> step_of(start, fm, n)
    &&& forall|n: usize| #[trigger] g.retrieve.dom().contains(n) ==> marked_of(start, little, n)
    &&& forall|c: usize, a: int|
        start.nodes.dom().contains(c) && start.retrieve.dom().contains(c) && 0 <= a
            < little[c].len() ==> g.retrieve.dom().contains(#[trigger] little[c][a])
    &&& g.wf()
    &&& forall|e: usize| #[trigger] g.edges.dom().contains(e) ==> g.edges[e].shape == trivial_view()
    &&& forall|n: usize| #[trigger] g.nodes.dom().contains(n) ==> is_scalar(g.nodes[n])
    &&& forall|n: usize| #[trigger]
        g.retrieve.dom().contains(n) ==> g.retrieve[n] == trivial_view()
    &&& forall|y: usize| #[trigger]
        start.nodes.dom().contains(y) ==> little.dom().contains(y) && little[y].len() == size_of(
            start,
            y,
        )
    &&& forall|y: usize, j: int|
        start.nodes.dom().contains(y) && 0 <= j < little[y].len() ==> g.nodes.dom().contains(
            #[trigger] little[y][j],
        ) && g.nodes[little[y][j]] == scalar_kind(start.nodes[y])
    &&& forall|y1: usize, j1: int, y2: usize, j2: int|
        start.nodes.dom().contains(y1) && start.nodes.dom().contains(y2) && 0 <= j1
            < little[y1].len() && 0 <= j2 < little[y2].len() && (y1 != y2 || j1 != j2)
            ==> #[trigger] little[y1][j1] != #[trigger] little[y2][j2]
    &&& forall|y: usize| #[trigger]
        tr.new_inputs.dom().contains(y) <==> start.nodes.dom().contains(y)
            && start.nodes[y] is Input
    &&& forall|y: usize| tr.new_inputs.dom().contains(y) ==> #[trigger] tr.new_inputs[y] == little[y]
    &&& forall|c: usize|
        start.nodes.dom().contains(c) && start.nodes[c] is Constant ==> tr.constants.dom().contains(
            #[trigger] little[c][0],
        ) && tr.constants[little[c][0]] == start.nodes[c]->Constant_0
    &&& forall|n: usize| #[trigger]
        tr.constants.dom().contains(n) ==> g.nodes.dom().contains(n) && g.nodes[n]
            == OpKind::ConstantOp(tr.constants[n])
}

/// Graph `g` with tracker `tr` is the scalarized form of graph `start`: for some choice
/// of little nodes and of fold chains the nodes, marks and tracker are as `scalarized`
/// says, and the edges of `g` are, one for one, the readings and fold steps that the
/// choice calls for.
pub open spec fn scalar_form(start: GraphView, g: GraphView, tr: InputsView) -> bool {
    exists|little: Map<usize, Seq<usize>>, fm: Folds, nm: Names|
        scalarized(start, g, tr, little, fm) && #[trigger] edges_named(start, little, fm, g, nm)
}

/// Everything that holds while the pass runs.
pub open spec fn rewriting(
    p: Progress,
    fm: Folds,
    nm: Names,
    g: GraphView,
    rec: Map<usize, usize>,
    tr: InputsView,
    sizes: Map<usize, usize>,
) -> bool {
    &&& names_fit(p, fm, g, rec, nm)
    &&& names_differ(p, g, nm)
    &&& names_all(p, fm, g, nm)
    &&& steps_known(p, fm, g)
    &&& nodes_exact(p, fm, g)
    &&& edges_exact(p, fm, g)
    &&& marks_exact(p, g)
    &&& transients_aimed(p, fm, g, rec)
    &&& transients_planned(p, fm, g, rec)
    &&& wired(p, fm, g)
    &&& linked(p, fm, g)
    &&& folds_known(p, fm, sizes)
    &&& transients_sound(p, g, rec)
    &&& transients_complete(p, g, rec)
    &&& taken_fit(p)
    &&& p.well_begun()
    &&& g.wf()
    &&& sizes_match(sizes, p.start)
    &&& nodes_kept(p, g)
    &&& inputs_kept(p, g)
    &&& outputs_scalar(p, g)
    &&& marks_kept(p, g)
    &&& kinds_scalar(p, g)
    &&& littles_known(p, g, sizes)
    &&& tracker_right(p, g, tr)
}

/// Before any node is taken, the graph is the graph the pass began with.
pub proof fn lemma_rewriting_begins(
    start: GraphView,
    topo: Seq<usize>,
    sizes: Map<usize, usize>,
    tr: InputsView,
)
    requires
        start.wf(),
        is_topological(topo, start.nodes, start.edges),
        sizes_match(sizes, start),
        tr.new_inputs == Map::<usize, Seq<usize>>::empty(),
        tr.constants == Map::<usize, u32>::empty(),
    ensures
        rewriting(
            Progress { start, topo, left: topo.len() as int, little: Map::empty() },
            Map::empty(),
            Map::empty(),
            start,
            Map::empty(),
            tr,
            sizes,
        ),
{
    let p = Progress { start, topo, left: topo.len() as int, little: Map::empty() };
    assert(topo.take(topo.len() as int) =~= topo);
    assert forall|y: usize| p.pending(y) <==> start.nodes.dom().contains(y) by {}
    assert forall|e: usize| #[trigger]
        start.edges.dom().contains(e) && !p.pending(start.edges[e].source) implies start.edges[e].shape
        == trivial_view() by {
        assert(start.nodes.dom().contains(start.edges[e].source));
    }
    assert forall|e: usize| #[trigger] start.edges.dom().contains(e) implies p.pending(
        start.edges[e].target,
    ) && p.pending(start.edges[e].source) by {
        assert(start.nodes.dom().contains(start.edges[e].target));
        assert(start.nodes.dom().contains(start.edges[e].source));
    }
    assert(transients_sound(p, start, Map::empty()));
    assert(transients_complete(p, start, Map::empty()));
    assert forall|x: usize| !taken(p, x) by {}
    assert(transients_aimed(p, Map::empty(), start, Map::empty()));
    assert(transients_planned(p, Map::empty(), start, Map::empty()));
    assert(edges_exact(p, Map::empty(), start));
    assert(nodes_exact(p, Map::empty(), start));
    assert(marks_exact(p, start));
    assert forall|f: usize| !made_edge(p, start, f) by {}
    assert(names_all(p, Map::empty(), start, Map::empty()));
}

/// Once every node is taken, the names are the names of the edges of the scalarized
/// graph.
pub proof fn lemma_names_end(p: Progress, fm: Folds, nm: Names, g: GraphView, rec: Map<usize, usize>)
    requires
        p.well_begun(),
        p.left == 0,
        g.wf(),
        names_fit(p, fm, g, rec, nm),
        names_differ(p, g, nm),
        names_all(p, fm, g, nm),
    ensures
        edges_named(p.start, p.little, fm, g, nm),
{
    assert(p.topo.take(0) =~= Seq::<usize>::empty());
    assert forall|y: usize| !p.pending(y) by {}
    assert forall|f: usize| #[trigger] g.edges.dom().contains(f) implies nm.dom().contains(f)
        && name_holds(p.start, p.little, fm, g, f, nm[f]) by {
        assert(made_edge(p, g, f));
        assert(name_fits(p, fm, g, rec, f, nm[f]));
    }
    assert forall|f: usize, f2: usize|
        g.edges.dom().contains(f) && g.edges.dom().contains(f2) && f != f2 implies #[trigger] tag_of(
        g,
        nm,
        f,
    ) != #[trigger] tag_of(g, nm, f2) by {
        assert(made_edge(p, g, f) && made_edge(p, g, f2));
    }
    assert forall|e: usize, l: usize, n: usize, s: u8|
        p.start.edges.dom().contains(e) && #[trigger] aimed_at(
            p.start,
            fm,
            e,
            l,
            n,
            s,
        ) implies reading_edge(g, nm, e, l, n, s) by {
        assert(reading_named(p, g, nm, e, l, n, s));
        let f = choose|f: usize| #[trigger]
            made_edge(p, g, f) && nm.dom().contains(f) && nm[f] == (Name::Reading { e, l })
                && g.edges[f].target == n && g.edges[f].input_order == s;
        assert(made_edge(p, g, f));
        assert(g.edges.dom().contains(f));
    }
    assert forall|c: usize, a: int, k: int|
        p.start.nodes.dom().contains(c) && 0 <= a < fm[c].len() && 1 <= k
            < fm[c][a].len() implies #[trigger] step_edge(g, nm, c, a, k) by {
        assert(taken(p, c));
        assert(step_named(p, g, nm, c, a, k));
        let f = choose|f: usize| #[trigger]
            made_edge(p, g, f) && nm.dom().contains(f) && nm[f] == (Name::Step { c, a, k });
        assert(made_edge(p, g, f));
        assert(g.edges.dom().contains(f));
    }
}

/// Once every node is taken, the graph is scalarized.
pub proof fn lemma_rewriting_ends(
    p: Progress,
    fm: Folds,
    nm: Names,
    g: GraphView,
    rec: Map<usize, usize>,
    tr: InputsView,
    sizes: Map<usize, usize>,
)
    requires
        rewriting(p, fm, nm, g, rec, tr, sizes),
        all_sized(p.start),
        p.left == 0,
    ensures
        scalarized(p.start, g, tr, p.little, fm),
        edges_named(p.start, p.little, fm, g, nm),
        compilable(p.start),
{
    lemma_names_end(p, fm, nm, g, rec);
    assert(p.topo.take(0) =~= Seq::<usize>::empty());
    assert forall|y: usize| !p.pending(y) by {}
    assert forall|c: usize| #[trigger] p.start.nodes.dom().contains(c) implies fm.dom().contains(c)
        && fm[c].len() == size_of(p.start, c) && forall|a: int|
        0 <= a < fm[c].len() ==> (#[trigger] fm[c][a]).len() >= 1 && fm[c][a].len() == fold_len(
            p.start,
            c,
        ) && fm[c][a].last() == p.little[c][a] by {
        assert(taken(p, c));
        assert(sizes[c] == size_of(p.start, c));
    }
    assert forall|e: usize, l: usize, n: usize, s: u8|
        p.start.edges.dom().contains(e) && #[trigger] aimed_at(
            p.start,
            fm,
            e,
            l,
            n,
            s,
        ) implies wire_stands(g, wire_view(p.start, p.little, e, l, n, s)) by {
        assert(p.start.nodes.dom().contains(p.start.edges[e].source));
        assert(p.start.nodes.dom().contains(p.start.edges[e].target));
        assert(taken(p, p.start.edges[e].source) && taken(p, p.start.edges[e].target));
        let f = choose|f: usize| #[trigger]
            stands(p, g, f, wire_view(p.start, p.little, e, l, n, s));
        assert(stands(p, g, f, wire_view(p.start, p.little, e, l, n, s)));
    }
    assert forall|f: usize| #[trigger] g.edges.dom().contains(f) implies wire_of(
        p.start,
        p.little,
        fm,
        g,
        f,
    ) || link_of(p.start, fm, g, f) by {
        let v = g.edges[f];
        if is_wire(p, fm, g, f) {
            let (e, l) = choose|e: usize, l: usize|
                p.start.edges.dom().contains(e) && taken(p, p.start.edges[e].source) && taken(
                    p,
                    p.start.edges[e].target,
                ) && #[trigger] aimed_at(p.start, fm, e, l, v.target, v.input_order) && v
                    == wire_view(p.start, p.little, e, l, v.target, v.input_order);
            assert(wire_of(p.start, p.little, fm, g, f));
        } else {
            assert(is_link_edge(p, fm, g, f));
            let c = choose|c: usize| #[trigger]
                taken(p, c) && is_link(fm[c], v.source, v.target) && v == link_view(
                    v.source,
                    v.target,
                );
            assert(p.start.nodes.dom().contains(c));
            assert(link_of(p.start, fm, g, f));
        }
    }
    assert forall|c: usize, a: int, k: int|
        p.start.nodes.dom().contains(c) && 0 <= a < fm[c].len() && 0 <= k
            < fm[c][a].len() implies g.nodes.dom().contains(#[trigger] fm[c][a][k])
        && g.nodes[fm[c][a][k]] == scalar_kind(p.start.nodes[c]) by {
        assert(taken(p, c));
    }
    assert forall|c: usize, a: int, k: int, c2: usize, a2: int, k2: int|
        p.start.nodes.dom().contains(c) && 0 <= a < fm[c].len() && 0 <= k < fm[c][a].len()
            && p.start.nodes.dom().contains(c2) && 0 <= a2 < fm[c2].len() && 0 <= k2
            < fm[c2][a2].len() && (c != c2 || a != a2 || k != k2) implies #[trigger] fm[c][a][k]
        != #[trigger] fm[c2][a2][k2] by {
        assert(taken(p, c) && taken(p, c2));
    }
    assert forall|n: usize| #[trigger] g.nodes.dom().contains(n) implies step_of(
        p.start,
        fm,
        n,
    ) by {
        assert(is_step(p, fm, n));
        let c = choose|c: usize| #[trigger] taken(p, c) && in_folds(fm[c], n);
        assert(p.start.nodes.dom().contains(c) && in_folds(fm[c], n));
    }
    assert forall|n: usize| #[trigger] g.retrieve.dom().contains(n) implies marked_of(
        p.start,
        p.little,
        n,
    ) by {
        assert(marked_little(p, n));
        let c = choose|c: usize| #[trigger]
            taken(p, c) && p.start.retrieve.dom().contains(c) && p.little[c].contains(n);
        assert(p.start.nodes.dom().contains(c) && p.start.retrieve.dom().contains(c)
            && p.little[c].contains(n));
    }
    assert forall|c: usize, a: int|
        p.start.nodes.dom().contains(c) && p.start.retrieve.dom().contains(c) && 0 <= a
            < p.little[c].len() implies g.retrieve.dom().contains(#[trigger] p.little[c][a]) by {
        assert(taken(p, c));
    }
    assert forall|c: usize, a: int, k: int|
        p.start.nodes.dom().contains(c) && 0 <= a < fm[c].len() && 1 <= k
            < fm[c][a].len() implies wire_stands(
        g,
        link_view(fm[c][a][k - 1], #[trigger] fm[c][a][k]),
    ) by {
        assert(taken(p, c));
        assert(link_stands(p, g, fm[c][a][k - 1], fm[c][a][k]));
        let f = choose|f: usize| #[trigger]
            stands(p, g, f, link_view(fm[c][a][k - 1], fm[c][a][k]));
        assert(stands(p, g, f, link_view(fm[c][a][k - 1], fm[c][a][k])));
    }
    assert(is_topological(p.topo, p.start.nodes, p.start.edges));
    assert(p.start.acyclic());
    assert forall|x: usize| p.start.nodes.dom().contains(x) implies #[trigger] node_fit(
        p.start,
        x,
    ) by {
        assert(taken(p, x));
    }
    assert forall|e: usize| p.start.edges.dom().contains(e) implies #[trigger] edge_served(
        p.start,
        e,
    ) by {
        assert(p.start.nodes.dom().contains(p.start.edges[e].source));
        assert(taken(p, p.start.edges[e].source));
    }
    assert forall|y: usize| #[trigger] p.start.nodes.dom().contains(y) implies p.little.dom().contains(
        y,
    ) && p.little[y].len() == size_of(p.start, y) by {
        assert(taken(p, y));
        assert(sizes[y] == size_of(p.start, y));
    }
    assert forall|y: usize, j: int|
        p.start.nodes.dom().contains(y) && 0 <= j < p.little[y].len() implies g.nodes.dom().contains(
        #[trigger] p.little[y][j],
    ) && g.nodes[p.little[y][j]] == scalar_kind(p.start.nodes[y]) by {
        assert(taken(p, y));
    }
    assert forall|y1: usize, j1: int, y2: usize, j2: int|
        p.start.nodes.dom().contains(y1) && p.start.nodes.dom().contains(y2) && 0 <= j1
            < p.little[y1].len() && 0 <= j2 < p.little[y2].len() && (y1 != y2 || j1
            != j2) implies #[trigger] p.little[y1][j1] != #[trigger] p.little[y2][j2] by {
        assert(taken(p, y1) && taken(p, y2));
    }
    assert forall|y: usize| #[trigger]
        tr.new_inputs.dom().contains(y) <==> p.start.nodes.dom().contains(y)
            && p.start.nodes[y] is Input by {
        assert(taken(p, y) <==> p.start.nodes.dom().contains(y));
    }
    assert forall|c: usize|
        p.start.nodes.dom().contains(c) && p.start.nodes[c] is Constant implies tr.constants.dom().contains(
        #[trigger] p.little[c][0],
    ) && tr.constants[p.little[c][0]] == p.start.nodes[c]->Constant_0 by {
        assert(taken(p, c));
    }
}

/// Everything that holds while the pass runs holds again after the next node is
/// replaced.
pub proof fn lemma_rewriting_goes_on(
    p: Progress,
    b: GraphView,
    h: GraphView,
    g2: GraphView,
    rec: Map<usize, usize>,
    rec2: Map<usize, usize>,
    little: Seq<usize>,
    w: Growth,
    sizes: Map<usize, usize>,
    tr: InputsView,
    ins: Seq<EdgeEntry>,
    out: Seq<EdgeEntry>,
    fm: Folds,
    folds: Seq<Seq<usize>>,
    len: int,
    nm: Names,
)
    requires
        rewriting(p, fm, nm, b, rec, tr, sizes),
        laid_out(
            b,
            p.next(),
            p.start.nodes[p.next()],
            sizes[p.next()] as int,
            little,
            folds,
            len,
            w,
        ),
        len == span(p.start.nodes[p.next()], ins),
        p.left >= 1,
        g2.wf(),
        little.len() == sizes[p.next()],
        p.start.nodes[p.next()] is Constant ==> little.len() == 1,
        is_scalar(scalar_kind(p.start.nodes[p.next()])),
        replaced(b, h, g2, rec, rec2, p.next(), little, scalar_kind(p.start.nodes[p.next()]), w),
        all_asked(b, p.start.nodes[p.next()], sizes[p.next()] as int, w),
        laid_all(b, p.next(), p.start.nodes[p.next()], sizes[p.next()] as int, w),
        lists_edges_of(ins, b.edges, p.next(), true),
        lists_edges_of(out, b.edges, p.next(), false),
        node_ready(p.start.nodes[p.next()], ins, sizes[p.next()] as int),
        reconnectable(out, rec, sizes[p.next()] as int),
    ensures
        rewriting(
            p.advance(little),
            fm.insert(p.next(), folds),
            names_after(nm, w, p.next(), folds),
            g2,
            rec2,
            tracker_after(tr, p.start.nodes[p.next()], p.next(), little),
            sizes,
        ),
{
    let kind = scalar_kind(p.start.nodes[p.next()]);
    lemma_names_fit(p, fm, b, h, g2, rec, rec2, little, folds, len, kind, w, sizes, nm);
    lemma_names_differ(p, fm, b, h, g2, rec, rec2, little, folds, len, kind, w, sizes, nm);
    lemma_names_all(p, fm, b, h, g2, rec, rec2, little, folds, len, kind, w, sizes, nm);
    lemma_steps_known(p, fm, b, h, g2, rec, rec2, little, folds, len, w);
    lemma_edges_exact(p, fm, b, h, g2, rec, rec2, little, folds, kind, w, sizes);
    lemma_marks_exact(p, b, h, g2, rec, rec2, little, kind, w, sizes);
    lemma_transients_aimed(p, fm, b, h, g2, rec, rec2, little, folds, kind, w, sizes);
    lemma_transients_planned(p, fm, b, h, g2, rec, rec2, little, folds, kind, w, sizes);
    lemma_wired(p, fm, b, h, g2, rec, rec2, little, folds, kind, w);
    lemma_linked(p, fm, b, h, g2, rec, rec2, little, folds, kind, w, sizes);
    lemma_span_is_fold_len(p, b, ins, sizes);
    lemma_folds_known(p, fm, little, folds, w.made, len, sizes);
    lemma_transients_sound(p, b, h, g2, rec, rec2, little, kind, w, sizes);
    lemma_transients_complete(p, b, h, g2, rec, rec2, little, kind, w, sizes);
    lemma_taken_fit(p, b, rec, little, sizes, ins, out);
    lemma_rest_shrinks(p, little);
    lemma_nodes_kept(p, b, h, g2, rec, rec2, little, kind, w);
    lemma_inputs_kept(p, b, h, g2, rec, rec2, little, kind, w);
    lemma_outputs_scalar(p, b, h, g2, rec, rec2, little, kind, w);
    lemma_marks_kept(p, b, h, g2, rec, rec2, little, kind, w);
    lemma_kinds_scalar(p, b, h, g2, rec, rec2, little, kind, w);
    lemma_littles_known(p, b, h, g2, rec, rec2, little, w, sizes);
    lemma_tracker_right(p, b, h, g2, rec, rec2, little, w, sizes, tr);
}

/// No edge both leaves and enters the next node.
pub proof fn lemma_next_has_no_loop(p: Progress, g: GraphView)
    requires
        p.well_begun(),
        p.left >= 1,
        inputs_kept(p, g),
    ensures
        no_self_loop(g, p.next()),
{
    let x = p.next();
    lemma_rest_shrinks(p, Seq::empty());
    assert forall|e: usize| #[trigger]
        g.edges.dom().contains(e) && g.edges[e].target == x implies g.edges[e].source != x by {
        assert(p.start.edges.dom().contains(e) && p.start.edges[e] == g.edges[e]);
        lemma_source_pending(p, e);
    }
}

/// The consumer at the end of edge `e` asks for element `l` of what `e` brings.
pub open spec fn wanted(g: GraphView, e: usize, l: usize) -> bool {
    asked(g.nodes[g.edges[e].target], g.edges[e].shape, size_of(g, g.edges[e].target), l)
}

/// Every element asked for through edge `e` is one that the producer stores.
pub open spec fn edge_served(g: GraphView, e: usize) -> bool {
    forall|l: usize| #[trigger]
        wanted(g, e, l) ==> resolve(g.edges[e].shape, l) is Some && resolve(
            g.edges[e].shape,
            l,
        ).unwrap() < size_of(g, g.edges[e].source)
}

/// Node `x` can be replaced, as far as its kind and its operands go.
pub open spec fn node_fit(g: GraphView, x: usize) -> bool {
    exists|ins: Seq<EdgeEntry>|
        lists_edges_of(ins, g.edges, x, true) && #[trigger] node_ready(
            g.nodes[x],
            ins,
            size_of(g, x),
        )
}

/// The graphs that can be scalarized: every node has a size, there is no cycle, every
/// node is of a kind that fits the number and the sizes of its operands, and every
/// element that a node asks of an operand is stored by the producer.
pub open spec fn compilable(g: GraphView) -> bool {
    &&& all_sized(g)
    &&& g.acyclic()
    &&& forall|x: usize| g.nodes.dom().contains(x) ==> #[trigger] node_fit(g, x)
    &&& forall|e: usize| g.edges.dom().contains(e) ==> #[trigger] edge_served(g, e)
}

/// What an error says of the graph that was to be scalarized.
pub open spec fn explained(g: GraphView, err: ScalarizeError) -> bool {
    match err {
        ScalarizeError::CyclicGraph => !g.acyclic(),
        ScalarizeError::IndexOutOfPhysicalRange(y) => exists|e: usize| #[trigger]
            g.edges.dom().contains(e) && g.edges[e].source == y && !edge_served(g, e),
        _ => names_unsized_node(err, g) || exists|x: usize, ins: Seq<EdgeEntry>|
            g.nodes.dom().contains(x) && lists_edges_of(ins, g.edges, x, true)
                && #[trigger] node_fault(
                err,
                x,
                g.nodes[x],
                ins,
                Seq::empty(),
                Map::empty(),
                size_of(g, x),
            ),
    }
}

/// The indices of the listed edges.
pub open spec fn ids_of(ins: Seq<EdgeEntry>) -> Seq<usize> {
    Seq::new(ins.len(), |i: int| ins[i].id)
}

/// Some entry of `a` has the content `v`.
pub open spec fn has_like(a: Seq<EdgeEntry>, v: crate::graph::EdgeView) -> bool {
    exists|j: int| 0 <= j < a.len() && (#[trigger] a[j])@ == v
}

/// Two listings of the edges that enter a node are equally long, and each entry of one
/// is, by content, an entry of the other.
pub proof fn lemma_listings_alike(
    edges: Map<usize, crate::graph::EdgeView>,
    x: usize,
    a: Seq<EdgeEntry>,
    b: Seq<EdgeEntry>,
)
    requires
        lists_edges_of(a, edges, x, true),
        lists_edges_of(b, edges, x, true),
    ensures
        a.len() == b.len(),
        forall|i: int| 0 <= i < b.len() ==> has_like(a, (#[trigger] b[i])@),
{
    let ia = ids_of(a);
    let ib = ids_of(b);
    assert(ia.no_duplicates());
    assert(ib.no_duplicates());
    assert forall|e: usize| ia.to_set().contains(e) <==> ib.to_set().contains(e) by {
        if ia.contains(e) {
            let i = choose|i: int| 0 <= i < ia.len() && ia[i] == e;
            assert(edges.dom().contains(a[i].id));
            let j = choose|j: int| 0 <= j < b.len() && #[trigger] b[j].id == e;
            assert(ib[j] == e);
        }
        if ib.contains(e) {
            let i = choose|i: int| 0 <= i < ib.len() && ib[i] == e;
            assert(edges.dom().contains(b[i].id));
            let j = choose|j: int| 0 <= j < a.len() && #[trigger] a[j].id == e;
            assert(ia[j] == e);
        }
    }
    assert(ia.to_set() =~= ib.to_set());
    ia.unique_seq_to_set();
    ib.unique_seq_to_set();
    assert forall|i: int| 0 <= i < b.len() implies has_like(a, (#[trigger] b[i])@) by {
        assert(edges.dom().contains(b[i].id));
        let j = choose|j: int| 0 <= j < a.len() && #[trigger] a[j].id == b[i].id;
        assert(edges[a[j].id] == a[j]@);
        assert(edges[b[i].id] == b[i]@);
    }
}

/// Whether a node can be replaced does not depend on how its operands are listed.
pub proof fn lemma_ready_any_listing(
    edges: Map<usize, crate::graph::EdgeView>,
    x: usize,
    op: OpKind,
    size: int,
    a: Seq<EdgeEntry>,
    b: Seq<EdgeEntry>,
)
    requires
        lists_edges_of(a, edges, x, true),
        lists_edges_of(b, edges, x, true),
        node_ready(op, a, size),
    ensures
        node_ready(op, b, size),
{
    lemma_listings_alike(edges, x, a, b);
    if a.len() == 1 {
        assert(has_like(a, b[0]@));
        let j = choose|j: int| 0 <= j < a.len() && (#[trigger] a[j])@ == b[0]@;
        assert(a[0]@ == b[0]@);
        if op == OpKind::Recip {
            assert(operand_fits(a[0], size));
            assert forall|i: int| 0 <= i < b.len() implies #[trigger] operand_fits(b[i], size) by {}
        } else {
            assert(reduce_fits(a[0], op.reduce_axis(), size));
            assert(reduce_fits(b[0], op.reduce_axis(), size));
        }
    } else if a.len() == 2 {
        assert forall|i: int| 0 <= i < b.len() implies #[trigger] operand_fits(b[i], size) by {
            assert(has_like(a, b[i]@));
            let j = choose|j: int| 0 <= j < a.len() && (#[trigger] a[j])@ == b[i]@;
            assert(operand_fits(a[j], size));
        }
    }
}

/// The transient edge `t`, laid for a little node, serves edge `e` of the first graph: it
/// comes from the same producer through the same shape, and the element it has on
/// record is one that the consumer of `e` asks for.
pub open spec fn serves(
    p: Progress,
    g: GraphView,
    rec: Map<usize, usize>,
    t: usize,
    e: usize,
) -> bool {
    &&& p.start.edges.dom().contains(e)
    &&& p.start.edges[e].source == g.edges[t].source
    &&& !p.pending(p.start.edges[e].target)
    &&& g.edges[t].shape == p.start.edges[e].shape
    &&& rec.dom().contains(t)
    &&& wanted(p.start, e, rec[t])
}

/// Every edge from a node not yet taken to a node already rewritten serves an edge of
/// the graph the pass began with.
pub open spec fn transients_sound(p: Progress, g: GraphView, rec: Map<usize, usize>) -> bool {
    forall|t: usize| #[trigger]
        g.edges.dom().contains(t) && p.pending(g.edges[t].source) && !p.pending(
            g.edges[t].target,
        ) ==> exists|e: usize| #[trigger] serves(p, g, rec, t, e)
}

/// The transient edge `t` brings element `l` of producer `src` through `shape`.
pub open spec fn carries(
    p: Progress,
    g: GraphView,
    rec: Map<usize, usize>,
    t: usize,
    src: usize,
    shape: crate::shape::TrackerView,
    l: usize,
) -> bool {
    &&& g.edges.dom().contains(t)
    &&& g.edges[t].source == src
    &&& !p.pending(g.edges[t].target)
    &&& g.edges[t].shape == shape
    &&& rec.dom().contains(t)
    &&& rec[t] == l
}

/// For every element that a replaced consumer asks of a producer not yet taken, there
/// is a transient edge that brings it.
pub open spec fn transients_complete(p: Progress, g: GraphView, rec: Map<usize, usize>) -> bool {
    forall|e: usize, l: usize|
        p.start.edges.dom().contains(e) && p.pending(p.start.edges[e].source) && !p.pending(
            p.start.edges[e].target,
        ) && #[trigger] wanted(p.start, e, l) ==> exists|t: usize| #[trigger]
            carries(p, g, rec, t, p.start.edges[e].source, p.start.edges[e].shape, l)
}

/// Every node already taken could be replaced, and was asked only for elements it
/// stores.
pub open spec fn taken_fit(p: Progress) -> bool {
    &&& forall|x: usize| #[trigger] taken(p, x) ==> node_fit(p.start, x)
    &&& forall|e: usize| #[trigger]
        p.start.edges.dom().contains(e) && taken(p, p.start.edges[e].source) ==> edge_served(
            p.start,
            e,
        )
}

/// The target of an edge that leaves the next node has been taken.
pub proof fn lemma_target_taken(p: Progress, e: usize)
    requires
        p.well_begun(),
        p.left >= 1,
        p.start.edges.dom().contains(e),
        p.start.edges[e].source == p.next(),
    ensures
        !p.pending(p.start.edges[e].target),
{
    lemma_rest_shrinks(p, Seq::empty());
    let x = p.next();
    lemma_place(p, x);
    assert(place(p, x) == p.left - 1) by {
        if place(p, x) != p.left - 1 {
            assert(p.topo[place(p, x)] == p.topo[p.left - 1]);
        }
    }
    if p.pending(p.start.edges[e].target) {
        lemma_source_pending(p, e);
        lemma_place(p, p.start.edges[e].target);
    }
}

/// The edges that enter the next node are listed as they were at the start.
pub proof fn lemma_listing_from_start(p: Progress, g: GraphView, ins: Seq<EdgeEntry>)
    requires
        p.well_begun(),
        p.left >= 1,
        inputs_kept(p, g),
        lists_edges_of(ins, g.edges, p.next(), true),
    ensures
        lists_edges_of(ins, p.start.edges, p.next(), true),
{
    lemma_rest_shrinks(p, Seq::empty());
    let x = p.next();
    assert forall|i: int| 0 <= i < ins.len() implies {
        &&& p.start.edges.dom().contains(#[trigger] ins[i].id)
        &&& p.start.edges[ins[i].id] == ins[i]@
        &&& ins[i].target == x
    } by {
        assert(g.edges.dom().contains(ins[i].id));
        assert(g.edges[ins[i].id] == ins[i]@);
    }
    assert forall|e: usize|
        p.start.edges.dom().contains(e) && p.start.edges[e].target == x implies exists|i: int|
        0 <= i < ins.len() && #[trigger] ins[i].id == e by {
        assert(g.edges.dom().contains(e) && g.edges[e] == p.start.edges[e]);
    }
}

/// The transient edges stay sound when the next node is replaced.
pub proof fn lemma_transients_sound(
    p: Progress,
    b: GraphView,
    h: GraphView,
    g2: GraphView,
    rec: Map<usize, usize>,
    rec2: Map<usize, usize>,
    little: Seq<usize>,
    kind: OpKind,
    w: Growth,
    sizes: Map<usize, usize>,
)
    requires
        p.well_begun(),
        p.left >= 1,
        sizes_match(sizes, p.start),
        nodes_kept(p, b),
        inputs_kept(p, b),
        transients_sound(p, b, rec),
        replaced(b, h, g2, rec, rec2, p.next(), little, kind, w),
        all_asked(b, p.start.nodes[p.next()], sizes[p.next()] as int, w),
    ensures
        transients_sound(p.advance(little), g2, rec2),
{
    let q = p.advance(little);
    let x = p.next();
    lemma_rest_shrinks(p, little);
    assert forall|t: usize| #[trigger]
        g2.edges.dom().contains(t) && q.pending(g2.edges[t].source) && !q.pending(
            g2.edges[t].target,
        ) implies exists|e: usize| #[trigger] serves(q, g2, rec2, t, e) by {
        assert(h.edges.dom().contains(t) && h.edges[t].source != x && h.edges[t].target != x);
        assert(p.pending(g2.edges[t].source));
        assert(!p.pending(g2.edges[t].target));
        if b.edges.dom().contains(t) {
            assert(h.edges[t] == b.edges[t]);
            let e = choose|e: usize| #[trigger] serves(p, b, rec, t, e);
            assert(!w.edges.contains(t)) by {
                if w.edges.contains(t) {
                    let i = choose|i: int| 0 <= i < w.edges.len() && w.edges[i] == t;
                    assert(!b.edges.dom().contains(w.edges[i]));
                }
            }
            assert(serves(p, b, rec, t, e));
            assert(grows(b, h, rec, rec2, w));
            assert(records_elsewhere(rec, rec2, w.edges));
            assert(rec2.dom().contains(t) <==> rec.dom().contains(t));
            assert(rec2.dom().contains(t) && rec2[t] == rec[t]);
            assert(serves(q, g2, rec2, t, e));
        } else {
            assert(w.edges.contains(t));
            let i = choose|i: int| 0 <= i < w.edges.len() && w.edges[i] == t;
            assert(h.edges[w.edges[i]] == w.views[i]);
            assert(edge_sound(b, x, rec, little, h.nodes, w.views[i], w.roles[i]));
            assert(b.nodes.dom().contains(g2.edges[t].source));
            match w.roles[i] {
                Role::Laid { via, logical } => {
                    assert(p.start.edges.dom().contains(via) && p.start.edges[via] == b.edges[via]);
                    assert(asked(p.start.nodes[x], b.edges[via].shape, sizes[x] as int, logical));
                    assert(sizes[x] == size_of(p.start, x));
                    assert(rec2.dom().contains(w.edges[i]) && rec2[w.edges[i]] == logical);
                    assert(serves(q, g2, rec2, t, via));
                },
                Role::Moved { from } => {
                    let at = crate::shape::resolve(b.edges[from].shape, rec[from]).unwrap() as int;
                    let n = little[at];
                    let k = choose|k: int| 0 <= k < w.made.len() && w.made[k] == n;
                    assert(!b.nodes.dom().contains(w.made[k]));
                    assert(false);
                },
                Role::Link => {
                    assert(false);
                },
            }
        }
    }
}

/// The transient edges stay complete when the next node is replaced.
pub proof fn lemma_transients_complete(
    p: Progress,
    b: GraphView,
    h: GraphView,
    g2: GraphView,
    rec: Map<usize, usize>,
    rec2: Map<usize, usize>,
    little: Seq<usize>,
    kind: OpKind,
    w: Growth,
    sizes: Map<usize, usize>,
)
    requires
        p.well_begun(),
        p.left >= 1,
        sizes_match(sizes, p.start),
        nodes_kept(p, b),
        inputs_kept(p, b),
        transients_complete(p, b, rec),
        replaced(b, h, g2, rec, rec2, p.next(), little, kind, w),
        laid_all(b, p.next(), p.start.nodes[p.next()], sizes[p.next()] as int, w),
    ensures
        transients_complete(p.advance(little), g2, rec2),
{
    let q = p.advance(little);
    let x = p.next();
    lemma_rest_shrinks(p, little);
    assert forall|e: usize, l: usize|
        p.start.edges.dom().contains(e) && q.pending(p.start.edges[e].source) && !q.pending(
            p.start.edges[e].target,
        ) && #[trigger] wanted(p.start, e, l) implies exists|t: usize| #[trigger]
        carries(q, g2, rec2, t, p.start.edges[e].source, p.start.edges[e].shape, l) by {
        let src = p.start.edges[e].source;
        let dst = p.start.edges[e].target;
        assert(p.pending(src) && src != x);
        if dst == x {
            assert(b.edges.dom().contains(e) && b.edges[e] == p.start.edges[e]);
            assert(sizes[x] == size_of(p.start, x));
            assert(asked(p.start.nodes[x], b.edges[e].shape, sizes[x] as int, l));
            let role = Role::Laid { via: e, logical: l };
            assert(w.roles.contains(role));
            let i = choose|i: int| 0 <= i < w.roles.len() && w.roles[i] == role;
            let t = w.edges[i];
            assert(w.edges.contains(t));
            assert(h.edges[w.edges[i]] == w.views[i]);
            assert(edge_sound(b, x, rec, little, h.nodes, w.views[i], w.roles[i]));
            assert(rec2.dom().contains(w.edges[i]) && rec2[w.edges[i]] == l);
            assert(b.nodes.dom().contains(x));
            if p.pending(w.views[i].target) {
                assert(b.nodes.dom().contains(w.views[i].target));
            }
            assert(carries(q, g2, rec2, t, src, p.start.edges[e].shape, l));
        } else {
            assert(!p.pending(dst));
            let t = choose|t: usize| #[trigger] carries(p, b, rec, t, src, p.start.edges[e].shape, l);
            assert(h.edges.dom().contains(t) && h.edges[t] == b.edges[t]);
            assert(!w.edges.contains(t)) by {
                if w.edges.contains(t) {
                    let i = choose|i: int| 0 <= i < w.edges.len() && w.edges[i] == t;
                    assert(!b.edges.dom().contains(w.edges[i]));
                }
            }
            assert(carries(p, b, rec, t, src, p.start.edges[e].shape, l));
            assert(grows(b, h, rec, rec2, w));
            assert(records_elsewhere(rec, rec2, w.edges));
            assert(rec2.dom().contains(t) <==> rec.dom().contains(t));
            assert(rec2.dom().contains(t) && rec2[t] == rec[t]);
            assert(b.edges[t].target != x);
            assert(carries(q, g2, rec2, t, src, p.start.edges[e].shape, l));
        }
    }
}

/// Every edge that leaves the next node and can be reconnected shows that the next
/// node stores what it was asked for.
pub proof fn lemma_taken_fit(
    p: Progress,
    b: GraphView,
    rec: Map<usize, usize>,
    little: Seq<usize>,
    sizes: Map<usize, usize>,
    ins: Seq<EdgeEntry>,
    out: Seq<EdgeEntry>,
)
    requires
        p.well_begun(),
        p.left >= 1,
        sizes_match(sizes, p.start),
        nodes_kept(p, b),
        inputs_kept(p, b),
        transients_complete(p, b, rec),
        taken_fit(p),
        lists_edges_of(ins, b.edges, p.next(), true),
        lists_edges_of(out, b.edges, p.next(), false),
        node_ready(p.start.nodes[p.next()], ins, sizes[p.next()] as int),
        reconnectable(out, rec, sizes[p.next()] as int),
    ensures
        taken_fit(p.advance(little)),
{
    let q = p.advance(little);
    let x = p.next();
    lemma_rest_shrinks(p, little);
    lemma_listing_from_start(p, b, ins);
    assert(sizes[x] == size_of(p.start, x));
    assert(node_fit(p.start, x));
    assert forall|y: usize| #[trigger] taken(q, y) implies node_fit(p.start, y) by {
        if y != x {
            assert(taken(p, y));
        }
    }
    assert forall|e: usize| #[trigger]
        p.start.edges.dom().contains(e) && taken(q, p.start.edges[e].source) implies edge_served(
        p.start,
        e,
    ) by {
        if p.start.edges[e].source != x {
            assert(taken(p, p.start.edges[e].source));
        } else {
            lemma_target_taken(p, e);
            assert forall|l: usize| #[trigger] wanted(p.start, e, l) implies resolve(
                p.start.edges[e].shape,
                l,
            ) is Some && resolve(p.start.edges[e].shape, l).unwrap() < size_of(p.start, x) by {
                let t = choose|t: usize| #[trigger]
                    carries(p, b, rec, t, x, p.start.edges[e].shape, l);
                let i = choose|i: int| 0 <= i < out.len() && #[trigger] out[i].id == t;
                assert(can_reconnect(out[i], rec, sizes[x] as int));
                assert(b.edges[out[i].id] == out[i]@);
            }
        }
    }
}

/// Where the next node cannot be replaced, the graph the pass began with cannot be
/// scalarized.
pub proof fn lemma_step_fails(
    p: Progress,
    b: GraphView,
    rec: Map<usize, usize>,
    sizes: Map<usize, usize>,
    ins: Seq<EdgeEntry>,
    out: Seq<EdgeEntry>,
    err: ScalarizeError,
)
    requires
        p.well_begun(),
        p.left >= 1,
        sizes_match(sizes, p.start),
        nodes_kept(p, b),
        inputs_kept(p, b),
        transients_sound(p, b, rec),
        lists_edges_of(ins, b.edges, p.next(), true),
        lists_edges_of(out, b.edges, p.next(), false),
        !(node_ready(p.start.nodes[p.next()], ins, sizes[p.next()] as int) && reconnectable(
            out,
            rec,
            sizes[p.next()] as int,
        )),
        node_fault(err, p.next(), p.start.nodes[p.next()], ins, out, rec, sizes[p.next()] as int),
    ensures
        !compilable(p.start),
        explained(p.start, err),
{
    let x = p.next();
    let op = p.start.nodes[x];
    let n = sizes[x] as int;
    lemma_rest_shrinks(p, Seq::empty());
    lemma_listing_from_start(p, b, ins);
    assert(n == size_of(p.start, x));
    if !node_ready(op, ins, n) {
        if node_fit(p.start, x) {
            let other = choose|other: Seq<EdgeEntry>|
                lists_edges_of(other, p.start.edges, x, true) && #[trigger] node_ready(
                    p.start.nodes[x],
                    other,
                    size_of(p.start, x),
                );
            lemma_ready_any_listing(p.start.edges, x, op, n, other, ins);
        }
        assert(!node_fit(p.start, x));
    }
    if !reconnectable(out, rec, n) {
        let i = choose|i: int| 0 <= i < out.len() && !#[trigger] can_reconnect(out[i], rec, n);
        let t = out[i].id;
        assert(b.edges.dom().contains(t) && b.edges[t] == out[i]@);
        if p.pending(b.edges[t].target) {
            assert(p.start.edges.dom().contains(t) && p.start.edges[t] == b.edges[t]);
            lemma_target_taken(p, t);
        }
        let e = choose|e: usize| #[trigger] serves(p, b, rec, t, e);
        assert(wanted(p.start, e, rec[t]));
        assert(!edge_served(p.start, e));
    }
    lemma_fault_explained(p, b, rec, sizes, ins, out, err);
}

/// What keeps the next node from being replaced is a fault of the graph the pass began
/// with.
pub proof fn lemma_fault_explained(
    p: Progress,
    b: GraphView,
    rec: Map<usize, usize>,
    sizes: Map<usize, usize>,
    ins: Seq<EdgeEntry>,
    out: Seq<EdgeEntry>,
    err: ScalarizeError,
)
    requires
        p.well_begun(),
        p.left >= 1,
        sizes_match(sizes, p.start),
        nodes_kept(p, b),
        inputs_kept(p, b),
        transients_sound(p, b, rec),
        lists_edges_of(ins, p.start.edges, p.next(), true),
        lists_edges_of(out, b.edges, p.next(), false),
        node_fault(err, p.next(), p.start.nodes[p.next()], ins, out, rec, sizes[p.next()] as int),
    ensures
        explained(p.start, err),
{
    let x = p.next();
    let op = p.start.nodes[x];
    let n = sizes[x] as int;
    lemma_rest_shrinks(p, Seq::empty());
    assert(n == size_of(p.start, x));
    assert(err != ScalarizeError::CyclicGraph);
    if err is IndexOutOfPhysicalRange {
        assert(err == ScalarizeError::IndexOutOfPhysicalRange(x));
        assert(!reconnectable(out, rec, n));
        let i = choose|i: int| 0 <= i < out.len() && !#[trigger] can_reconnect(out[i], rec, n);
        let t = out[i].id;
        assert(b.edges.dom().contains(t) && b.edges[t] == out[i]@);
        if p.pending(b.edges[t].target) {
            assert(p.start.edges.dom().contains(t) && p.start.edges[t] == b.edges[t]);
            lemma_target_taken(p, t);
        }
        let e = choose|e: usize| #[trigger] serves(p, b, rec, t, e);
        assert(wanted(p.start, e, rec[t]));
        assert(!edge_served(p.start, e));
        assert(p.start.edges.dom().contains(e) && p.start.edges[e].source == x);
    } else {
        assert(node_fault(err, x, op, ins, Seq::empty(), Map::empty(), n));
    }
}

/// The folds of every node already taken.
pub type Folds = Map<usize, Seq<Seq<usize>>>;

/// By the plan of the consumer at the end of edge `e`, the new node `n` reads, as
/// operand `s`, element `l` of what `e` brings.
pub open spec fn aimed_at(g: GraphView, fm: Folds, e: usize, l: usize, n: usize, s: u8) -> bool {
    planned(
        g.nodes[g.edges[e].target],
        g.edges[e].shape,
        g.edges[e].input_order,
        size_of(g, g.edges[e].target),
        fm[g.edges[e].target],
        l,
        n,
        s,
    )
}

/// The scalar edge that stands for a reading: from the little node of the producer that
/// holds the element, to the node that reads it.
pub open spec fn wire_view(g: GraphView, little: Map<usize, Seq<usize>>, e: usize, l: usize, n: usize, s: u8) -> crate::graph::EdgeView {
    crate::graph::EdgeView {
        source: little[g.edges[e].source][resolve(g.edges[e].shape, l).unwrap() as int],
        target: n,
        input_order: s,
        output_order: g.edges[e].output_order,
        shape: trivial_view(),
    }
}

/// The scalar edge that hands one step of a fold on to the next.
pub open spec fn link_view(from: usize, to: usize) -> crate::graph::EdgeView {
    crate::graph::EdgeView {
        source: from,
        target: to,
        input_order: 0,
        output_order: 0,
        shape: trivial_view(),
    }
}

/// The transient edge `t` serves edge `e` of the first graph as planned: it goes to the node
/// and the slot that the plan names for the element it has on record.
pub open spec fn serves_as(
    p: Progress,
    fm: Folds,
    g: GraphView,
    rec: Map<usize, usize>,
    t: usize,
    e: usize,
) -> bool {
    &&& serves(p, g, rec, t, e)
    &&& aimed_at(p.start, fm, e, rec[t], g.edges[t].target, g.edges[t].input_order)
    &&& g.edges[t].output_order == p.start.edges[e].output_order
}

/// Every transient edge serves an edge of the first graph as planned.
pub open spec fn transients_aimed(p: Progress, fm: Folds, g: GraphView, rec: Map<usize, usize>) -> bool {
    forall|t: usize| #[trigger]
        g.edges.dom().contains(t) && p.pending(g.edges[t].source) && !p.pending(
            g.edges[t].target,
        ) ==> exists|e: usize| #[trigger] serves_as(p, fm, g, rec, t, e)
}

/// The transient edge `t` brings element `l` of what edge `e` brought to node `n` as
/// operand `s`.
pub open spec fn carries_to(
    p: Progress,
    g: GraphView,
    rec: Map<usize, usize>,
    t: usize,
    e: usize,
    l: usize,
    n: usize,
    s: u8,
) -> bool {
    &&& carries(p, g, rec, t, p.start.edges[e].source, p.start.edges[e].shape, l)
    &&& g.edges[t].target == n
    &&& g.edges[t].input_order == s
    &&& g.edges[t].output_order == p.start.edges[e].output_order
}

/// For every reading planned of a producer not yet taken, there is a transient edge.
pub open spec fn transients_planned(
    p: Progress,
    fm: Folds,
    g: GraphView,
    rec: Map<usize, usize>,
) -> bool {
    forall|e: usize, l: usize, n: usize, s: u8|
        p.start.edges.dom().contains(e) && p.pending(p.start.edges[e].source) && !p.pending(
            p.start.edges[e].target,
        ) && #[trigger] aimed_at(p.start, fm, e, l, n, s) ==> exists|t: usize| #[trigger]
            carries_to(p, g, rec, t, e, l, n, s)
}

/// Edge `f` of `g` is the scalar edge `v`, between nodes already rewritten.
pub open spec fn stands(p: Progress, g: GraphView, f: usize, v: crate::graph::EdgeView) -> bool {
    &&& g.edges.dom().contains(f)
    &&& g.edges[f] == v
    &&& !p.pending(v.source)
    &&& !p.pending(v.target)
}

/// For every reading planned between two nodes already taken, the scalar edge stands.
pub open spec fn wired(p: Progress, fm: Folds, g: GraphView) -> bool {
    forall|e: usize, l: usize, n: usize, s: u8|
        p.start.edges.dom().contains(e) && taken(p, p.start.edges[e].source) && taken(
            p,
            p.start.edges[e].target,
        ) && #[trigger] aimed_at(p.start, fm, e, l, n, s) ==> exists|f: usize| #[trigger]
            stands(p, g, f, wire_view(p.start, p.little, e, l, n, s))
}

/// In every fold of a node already taken, every step is linked to the one before.
pub open spec fn linked(p: Progress, fm: Folds, g: GraphView) -> bool {
    forall|c: usize, a: int, k: int|
        taken(p, c) && 0 <= a < fm[c].len() && 1 <= k < fm[c][a].len() ==> link_stands(
            p,
            g,
            fm[c][a][k - 1],
            #[trigger] fm[c][a][k],
        )
}

/// The scalar edge that links step `from` to step `to` stands.
pub open spec fn link_stands(p: Progress, g: GraphView, from: usize, to: usize) -> bool {
    exists|f: usize| #[trigger] stands(p, g, f, link_view(from, to))
}

/// One of the edges that enter `c`.
pub open spec fn some_in_edge(g: GraphView, c: usize) -> usize {
    choose|e: usize| #[trigger] g.edges.dom().contains(e) && g.edges[e].target == c
}

/// The number of steps in each fold of node `c`: the length of the folded axis for a
/// reduction, one for every other node.
pub open spec fn fold_len(g: GraphView, c: usize) -> int {
    if g.nodes[c].is_reduce() {
        g.edges[some_in_edge(g, c)].shape.visible_dims()[g.nodes[c].reduce_axis() as int]
    } else {
        1
    }
}

/// Every node already taken has one fold for each of its elements, of as many steps
/// as its kind needs, whose last step is the little node of the element.
pub open spec fn folds_known(p: Progress, fm: Folds, sizes: Map<usize, usize>) -> bool {
    forall|c: usize| #[trigger]
        taken(p, c) ==> fm.dom().contains(c) && fm[c].len() == sizes[c] && forall|a: int|
            0 <= a < fm[c].len() ==> (#[trigger] fm[c][a]).len() >= 1 && fm[c][a].len()
                == fold_len(p.start, c) && fm[c][a].last() == p.little[c][a]
}

/// The transient edges stay as planned when the next node is replaced.
pub proof fn lemma_transients_aimed(
    p: Progress,
    fm: Folds,
    b: GraphView,
    h: GraphView,
    g2: GraphView,
    rec: Map<usize, usize>,
    rec2: Map<usize, usize>,
    little: Seq<usize>,
    folds: Seq<Seq<usize>>,
    kind: OpKind,
    w: Growth,
    sizes: Map<usize, usize>,
)
    requires
        p.well_begun(),
        p.left >= 1,
        sizes_match(sizes, p.start),
        nodes_kept(p, b),
        inputs_kept(p, b),
        transients_aimed(p, fm, b, rec),
        replaced(b, h, g2, rec, rec2, p.next(), little, kind, w),
        all_asked(b, p.start.nodes[p.next()], sizes[p.next()] as int, w),
        all_aimed(b, p.start.nodes[p.next()], sizes[p.next()] as int, folds, w),
    ensures
        transients_aimed(p.advance(little), fm.insert(p.next(), folds), g2, rec2),
{
    let q = p.advance(little);
    let fm2 = fm.insert(p.next(), folds);
    let x = p.next();
    lemma_rest_shrinks(p, little);
    assert forall|t: usize| #[trigger]
        g2.edges.dom().contains(t) && q.pending(g2.edges[t].source) && !q.pending(
            g2.edges[t].target,
        ) implies exists|e: usize| #[trigger] serves_as(q, fm2, g2, rec2, t, e) by {
        assert(h.edges.dom().contains(t) && h.edges[t].source != x && h.edges[t].target != x);
        assert(p.pending(g2.edges[t].source));
        assert(!p.pending(g2.edges[t].target));
        if b.edges.dom().contains(t) {
            assert(h.edges[t] == b.edges[t]);
            let e = choose|e: usize| #[trigger] serves_as(p, fm, b, rec, t, e);
            assert(serves_as(p, fm, b, rec, t, e));
            assert(!w.edges.contains(t)) by {
                if w.edges.contains(t) {
                    let i = choose|i: int| 0 <= i < w.edges.len() && w.edges[i] == t;
                    assert(!b.edges.dom().contains(w.edges[i]));
                }
            }
            assert(grows(b, h, rec, rec2, w));
            assert(records_elsewhere(rec, rec2, w.edges));
            assert(rec2.dom().contains(t) <==> rec.dom().contains(t));
            assert(rec2.dom().contains(t) && rec2[t] == rec[t]);
            assert(p.start.edges[e].target != x);
            assert(fm2[p.start.edges[e].target] == fm[p.start.edges[e].target]);
            assert(serves_as(q, fm2, g2, rec2, t, e));
        } else {
            assert(w.edges.contains(t));
            let i = choose|i: int| 0 <= i < w.edges.len() && w.edges[i] == t;
            assert(h.edges[w.edges[i]] == w.views[i]);
            assert(edge_sound(b, x, rec, little, h.nodes, w.views[i], w.roles[i]));
            assert(edge_aimed(
                b,
                p.start.nodes[x],
                sizes[x] as int,
                folds,
                w.views[i],
                w.roles[i],
            ));
            assert(b.nodes.dom().contains(g2.edges[t].source));
            match w.roles[i] {
                Role::Laid { via, logical } => {
                    assert(p.start.edges.dom().contains(via) && p.start.edges[via] == b.edges[via]);
                    assert(asked(p.start.nodes[x], b.edges[via].shape, sizes[x] as int, logical));
                    assert(sizes[x] == size_of(p.start, x));
                    assert(grows(b, h, rec, rec2, w));
                    assert(records_made(rec2, w));
                    assert(rec2.dom().contains(w.edges[i]) && rec2[w.edges[i]] == logical);
                    assert(fm2[x] == folds);
                    assert(serves_as(q, fm2, g2, rec2, t, via));
                },
                Role::Moved { from } => {
                    let at = resolve(b.edges[from].shape, rec[from]).unwrap() as int;
                    let n = little[at];
                    let k = choose|k: int| 0 <= k < w.made.len() && w.made[k] == n;
                    assert(!b.nodes.dom().contains(w.made[k]));
                    assert(false);
                },
                Role::Link => {
                    assert(false);
                },
            }
        }
    }
}

/// Every planned reading of a producer not yet taken keeps its transient edge when the
/// next node is replaced.
pub proof fn lemma_transients_planned(
    p: Progress,
    fm: Folds,
    b: GraphView,
    h: GraphView,
    g2: GraphView,
    rec: Map<usize, usize>,
    rec2: Map<usize, usize>,
    little: Seq<usize>,
    folds: Seq<Seq<usize>>,
    kind: OpKind,
    w: Growth,
    sizes: Map<usize, usize>,
)
    requires
        p.well_begun(),
        p.left >= 1,
        sizes_match(sizes, p.start),
        nodes_kept(p, b),
        inputs_kept(p, b),
        transients_planned(p, fm, b, rec),
        replaced(b, h, g2, rec, rec2, p.next(), little, kind, w),
        laid_each(b, p.next(), p.start.nodes[p.next()], sizes[p.next()] as int, folds, w),
    ensures
        transients_planned(p.advance(little), fm.insert(p.next(), folds), g2, rec2),
{
    let q = p.advance(little);
    let fm2 = fm.insert(p.next(), folds);
    let x = p.next();
    lemma_rest_shrinks(p, little);
    assert forall|e: usize, l: usize, n: usize, s: u8|
        p.start.edges.dom().contains(e) && q.pending(p.start.edges[e].source) && !q.pending(
            p.start.edges[e].target,
        ) && #[trigger] aimed_at(p.start, fm2, e, l, n, s) implies exists|t: usize| #[trigger]
        carries_to(q, g2, rec2, t, e, l, n, s) by {
        let src = p.start.edges[e].source;
        let dst = p.start.edges[e].target;
        assert(p.pending(src) && src != x);
        if dst == x {
            assert(b.edges.dom().contains(e) && b.edges[e] == p.start.edges[e]);
            assert(sizes[x] == size_of(p.start, x));
            assert(fm2[x] == folds);
            assert(planned(
                p.start.nodes[x],
                b.edges[e].shape,
                b.edges[e].input_order,
                sizes[x] as int,
                folds,
                l,
                n,
                s,
            ));
            assert(has_laid(w, e, l, n, s));
            let role = Role::Laid { via: e, logical: l };
            let i = choose|i: int|
                0 <= i < w.edges.len() && #[trigger] w.roles[i] == role && w.views[i].target == n
                    && w.views[i].input_order == s;
            let t = w.edges[i];
            assert(w.edges.contains(t));
            assert(h.edges[w.edges[i]] == w.views[i]);
            assert(edge_sound(b, x, rec, little, h.nodes, w.views[i], w.roles[i]));
            assert(grows(b, h, rec, rec2, w));
            assert(records_made(rec2, w));
            assert(rec2.dom().contains(w.edges[i]) && rec2[w.edges[i]] == l);
            assert(b.nodes.dom().contains(x));
            if p.pending(w.views[i].target) {
                assert(b.nodes.dom().contains(w.views[i].target));
            }
            assert(carries_to(q, g2, rec2, t, e, l, n, s));
        } else {
            assert(!p.pending(dst));
            assert(fm2[dst] == fm[dst]);
            assert(aimed_at(p.start, fm, e, l, n, s));
            let t = choose|t: usize| #[trigger] carries_to(p, b, rec, t, e, l, n, s);
            assert(carries_to(p, b, rec, t, e, l, n, s));
            assert(h.edges.dom().contains(t) && h.edges[t] == b.edges[t]);
            assert(!w.edges.contains(t)) by {
                if w.edges.contains(t) {
                    let i = choose|i: int| 0 <= i < w.edges.len() && w.edges[i] == t;
                    assert(!b.edges.dom().contains(w.edges[i]));
                }
            }
            assert(grows(b, h, rec, rec2, w));
            assert(records_elsewhere(rec, rec2, w.edges));
            assert(rec2.dom().contains(t) <==> rec.dom().contains(t));
            assert(rec2.dom().contains(t) && rec2[t] == rec[t]);
            assert(b.edges[t].target != x);
            assert(carries_to(q, g2, rec2, t, e, l, n, s));
        }
    }
}

/// Every step of every fold of a node already taken is a node of the graph, of the
/// scalar kind that stands for the kind of the node taken, and no node is a step twice.
pub open spec fn steps_known(p: Progress, fm: Folds, g: GraphView) -> bool {
    &&& forall|c: usize, a: int, k: int|
        taken(p, c) && 0 <= a < fm[c].len() && 0 <= k < fm[c][a].len() ==> g.nodes.dom().contains(
            #[trigger] fm[c][a][k],
        ) && !p.pending(fm[c][a][k]) && g.nodes[fm[c][a][k]] == scalar_kind(p.start.nodes[c])
    &&& forall|c: usize, a: int, k: int, c2: usize, a2: int, k2: int|
        taken(p, c) && 0 <= a < fm[c].len() && 0 <= k < fm[c][a].len() && taken(p, c2) && 0 <= a2
            < fm[c2].len() && 0 <= k2 < fm[c2][a2].len() && (c != c2 || a != a2 || k != k2)
            ==> #[trigger] fm[c][a][k] != #[trigger] fm[c2][a2][k2]
}

/// Node `n` is a step of a fold of a node already taken.
pub open spec fn is_step(p: Progress, fm: Folds, n: usize) -> bool {
    exists|c: usize| #[trigger] taken(p, c) && in_folds(fm[c], n)
}

/// Every node already rewritten is a step of a fold.
pub open spec fn nodes_exact(p: Progress, fm: Folds, g: GraphView) -> bool {
    forall|n: usize| #[trigger] g.nodes.dom().contains(n) && !p.pending(n) ==> is_step(p, fm, n)
}

/// Edge `f` stands for a reading that the plan names.
pub open spec fn is_wire(p: Progress, fm: Folds, g: GraphView, f: usize) -> bool {
    exists|e: usize, l: usize|
        p.start.edges.dom().contains(e) && taken(p, p.start.edges[e].source) && taken(
            p,
            p.start.edges[e].target,
        ) && #[trigger] aimed_at(p.start, fm, e, l, g.edges[f].target, g.edges[f].input_order)
            && g.edges[f] == wire_view(
            p.start,
            p.little,
            e,
            l,
            g.edges[f].target,
            g.edges[f].input_order,
        )
}

/// Edge `f` links a step of a fold to the next.
pub open spec fn is_link_edge(p: Progress, fm: Folds, g: GraphView, f: usize) -> bool {
    exists|c: usize| #[trigger] taken(p, c) && is_link(fm[c], g.edges[f].source, g.edges[f].target)
        && g.edges[f] == link_view(g.edges[f].source, g.edges[f].target)
}

/// Every edge that leaves a node already rewritten stands for a planned reading or
/// links two steps of a fold.
pub open spec fn edges_exact(p: Progress, fm: Folds, g: GraphView) -> bool {
    forall|f: usize| #[trigger]
        g.edges.dom().contains(f) && !p.pending(g.edges[f].source) ==> is_wire(p, fm, g, f)
            || is_link_edge(p, fm, g, f)
}

/// The steps stay known when the next node is replaced.
pub proof fn lemma_steps_known(
    p: Progress,
    fm: Folds,
    b: GraphView,
    h: GraphView,
    g2: GraphView,
    rec: Map<usize, usize>,
    rec2: Map<usize, usize>,
    little: Seq<usize>,
    folds: Seq<Seq<usize>>,
    len: int,
    w: Growth,
)
    requires
        p.well_begun(),
        p.left >= 1,
        nodes_kept(p, b),
        steps_known(p, fm, b),
        nodes_exact(p, fm, b),
        replaced(b, h, g2, rec, rec2, p.next(), little, scalar_kind(p.start.nodes[p.next()]), w),
        folds_made(folds, little, w.made, len),
    ensures
        steps_known(p.advance(little), fm.insert(p.next(), folds), g2),
        nodes_exact(p.advance(little), fm.insert(p.next(), folds), g2),
{
    let q = p.advance(little);
    let fm2 = fm.insert(p.next(), folds);
    let x = p.next();
    lemma_rest_shrinks(p, little);
    assert(b.nodes.dom().contains(x));
    assert forall|m: usize| w.made.contains(m) implies !b.nodes.dom().contains(m)
        && h.nodes.dom().contains(m) && h.nodes[m] == scalar_kind(p.start.nodes[x]) by {
        let i = choose|i: int| 0 <= i < w.made.len() && w.made[i] == m;
        assert(!b.nodes.dom().contains(w.made[i]));
        assert(h.nodes[w.made[i]] == w.kinds[i]);
    }
    assert forall|c: usize, a: int, k: int|
        taken(q, c) && 0 <= a < fm2[c].len() && 0 <= k < fm2[c][a].len() implies g2.nodes.dom().contains(
        #[trigger] fm2[c][a][k],
    ) && !q.pending(fm2[c][a][k]) && g2.nodes[fm2[c][a][k]] == scalar_kind(p.start.nodes[c]) by {
        if c == x {
            assert(fm2[c] == folds);
            assert(w.made.contains(folds[a][k]));
            if p.pending(folds[a][k]) {
                assert(b.nodes.dom().contains(folds[a][k]));
            }
        } else {
            assert(taken(p, c));
            assert(fm2[c] == fm[c]);
            let n = fm[c][a][k];
            assert(b.nodes.dom().contains(n) && !p.pending(n));
            assert(h.nodes[n] == b.nodes[n]);
        }
    }
    assert forall|c: usize, a: int, k: int, c2: usize, a2: int, k2: int|
        taken(q, c) && 0 <= a < fm2[c].len() && 0 <= k < fm2[c][a].len() && taken(q, c2) && 0
            <= a2 < fm2[c2].len() && 0 <= k2 < fm2[c2][a2].len() && (c != c2 || a != a2 || k
            != k2) implies #[trigger] fm2[c][a][k] != #[trigger] fm2[c2][a2][k2] by {
        if c != x {
            assert(taken(p, c));
            assert(fm2[c] == fm[c]);
            assert(b.nodes.dom().contains(fm[c][a][k]));
        } else {
            assert(fm2[c] == folds);
            assert(w.made.contains(folds[a][k]));
        }
        if c2 != x {
            assert(taken(p, c2));
            assert(fm2[c2] == fm[c2]);
            assert(b.nodes.dom().contains(fm[c2][a2][k2]));
        } else {
            assert(fm2[c2] == folds);
            assert(w.made.contains(folds[a2][k2]));
        }
    }
    assert forall|n: usize| #[trigger] g2.nodes.dom().contains(n) && !q.pending(n) implies is_step(
        q,
        fm2,
        n,
    ) by {
        assert(n != x);
        assert(!p.pending(n));
        if b.nodes.dom().contains(n) {
            assert(is_step(p, fm, n));
            let c = choose|c: usize| #[trigger] taken(p, c) && in_folds(fm[c], n);
            assert(fm2[c] == fm[c]);
            assert(taken(q, c) && in_folds(fm2[c], n));
        } else {
            assert(w.made.contains(n));
            assert(in_folds(folds, n));
            assert(fm2[x] == folds);
            assert(taken(q, x) && in_folds(fm2[x], n));
        }
    }
}

/// Every scalar edge stays accounted for when the next node is replaced.
pub proof fn lemma_edges_exact(
    p: Progress,
    fm: Folds,
    b: GraphView,
    h: GraphView,
    g2: GraphView,
    rec: Map<usize, usize>,
    rec2: Map<usize, usize>,
    little: Seq<usize>,
    folds: Seq<Seq<usize>>,
    kind: OpKind,
    w: Growth,
    sizes: Map<usize, usize>,
)
    requires
        p.well_begun(),
        p.left >= 1,
        nodes_kept(p, b),
        inputs_kept(p, b),
        transients_aimed(p, fm, b, rec),
        edges_exact(p, fm, b),
        replaced(b, h, g2, rec, rec2, p.next(), little, kind, w),
        all_aimed(b, p.start.nodes[p.next()], sizes[p.next()] as int, folds, w),
    ensures
        edges_exact(p.advance(little), fm.insert(p.next(), folds), g2),
{
    let q = p.advance(little);
    let fm2 = fm.insert(p.next(), folds);
    let x = p.next();
    lemma_rest_shrinks(p, little);
    assert(b.nodes.dom().contains(x));
    assert forall|f: usize| #[trigger]
        g2.edges.dom().contains(f) && !q.pending(g2.edges[f].source) implies is_wire(q, fm2, g2, f)
        || is_link_edge(q, fm2, g2, f) by {
        assert(h.edges.dom().contains(f) && h.edges[f].source != x && h.edges[f].target != x);
        assert(!p.pending(g2.edges[f].source));
        let v = g2.edges[f];
        if b.edges.dom().contains(f) {
            assert(h.edges[f] == b.edges[f]);
            if is_wire(p, fm, b, f) {
                let (e, l) = choose|e: usize, l: usize|
                    p.start.edges.dom().contains(e) && taken(p, p.start.edges[e].source) && taken(
                        p,
                        p.start.edges[e].target,
                    ) && #[trigger] aimed_at(p.start, fm, e, l, v.target, v.input_order) && v
                        == wire_view(p.start, p.little, e, l, v.target, v.input_order);
                assert(fm2[p.start.edges[e].target] == fm[p.start.edges[e].target]);
                assert(q.little[p.start.edges[e].source] == p.little[p.start.edges[e].source]);
                assert(aimed_at(p.start, fm2, e, l, v.target, v.input_order));
                assert(is_wire(q, fm2, g2, f));
            } else {
                assert(is_link_edge(p, fm, b, f));
                let c = choose|c: usize| #[trigger]
                    taken(p, c) && is_link(fm[c], v.source, v.target) && v == link_view(
                        v.source,
                        v.target,
                    );
                assert(fm2[c] == fm[c]);
                assert(taken(q, c) && is_link(fm2[c], v.source, v.target));
                assert(is_link_edge(q, fm2, g2, f));
            }
        } else {
            assert(w.edges.contains(f));
            let i = choose|i: int| 0 <= i < w.edges.len() && w.edges[i] == f;
            assert(h.edges[w.edges[i]] == w.views[i]);
            assert(edge_sound(b, x, rec, little, h.nodes, w.views[i], w.roles[i]));
            assert(edge_aimed(
                b,
                p.start.nodes[x],
                sizes[x] as int,
                folds,
                w.views[i],
                w.roles[i],
            ));
            match w.roles[i] {
                Role::Moved { from } => {
                    let t = from;
                    if p.pending(b.edges[t].target) {
                        assert(p.start.edges.dom().contains(t) && p.start.edges[t] == b.edges[t]);
                        lemma_target_taken(p, t);
                    }
                    let e = choose|e: usize| #[trigger] serves_as(p, fm, b, rec, t, e);
                    assert(serves_as(p, fm, b, rec, t, e));
                    let dst = p.start.edges[e].target;
                    assert(dst != x);
                    assert(fm2[dst] == fm[dst]);
                    assert(q.little[x] == little);
                    assert(aimed_at(p.start, fm2, e, rec[t], v.target, v.input_order));
                    assert(v == wire_view(p.start, q.little, e, rec[t], v.target, v.input_order));
                    assert(taken(q, x) && taken(q, dst));
                    assert(is_wire(q, fm2, g2, f));
                },
                Role::Laid { via, logical } => {
                    assert(p.start.edges.dom().contains(via) && p.start.edges[via] == b.edges[via]);
                    lemma_source_pending(p, via);
                    assert(false);
                },
                Role::Link => {
                    assert(fm2[x] == folds);
                    assert(taken(q, x) && is_link(fm2[x], v.source, v.target));
                    assert(v == link_view(v.source, v.target));
                    assert(is_link_edge(q, fm2, g2, f));
                },
            }
        }
    }
}

/// Node `n` is a little node of a marked node already taken.
pub open spec fn marked_little(p: Progress, n: usize) -> bool {
    exists|c: usize| #[trigger]
        taken(p, c) && p.start.retrieve.dom().contains(c) && p.little[c].contains(n)
}

/// The marks on nodes already rewritten are exactly the marks on the little nodes of
/// the marked nodes taken.
pub open spec fn marks_exact(p: Progress, g: GraphView) -> bool {
    &&& forall|n: usize| #[trigger]
        g.retrieve.dom().contains(n) && !p.pending(n) ==> marked_little(p, n)
    &&& forall|c: usize, a: int|
        taken(p, c) && p.start.retrieve.dom().contains(c) && 0 <= a < p.little[c].len()
            ==> g.retrieve.dom().contains(#[trigger] p.little[c][a])
}

/// The marks stay exact when the next node is replaced.
pub proof fn lemma_marks_exact(
    p: Progress,
    b: GraphView,
    h: GraphView,
    g2: GraphView,
    rec: Map<usize, usize>,
    rec2: Map<usize, usize>,
    little: Seq<usize>,
    kind: OpKind,
    w: Growth,
    sizes: Map<usize, usize>,
)
    requires
        p.well_begun(),
        p.left >= 1,
        b.wf(),
        nodes_kept(p, b),
        marks_kept(p, b),
        marks_exact(p, b),
        littles_known(p, b, sizes),
        replaced(b, h, g2, rec, rec2, p.next(), little, kind, w),
    ensures
        marks_exact(p.advance(little), g2),
{
    let q = p.advance(little);
    let x = p.next();
    lemma_rest_shrinks(p, little);
    let vals = repeat(little.len(), trivial_view());
    lemma_insert_all_dom(b.retrieve, little, vals);
    assert(b.nodes.dom().contains(x));
    assert forall|j: int| 0 <= j < little.len() implies !b.nodes.dom().contains(
        #[trigger] little[j],
    ) by {
        let i = choose|i: int| 0 <= i < w.made.len() && w.made[i] == little[j];
        assert(!b.nodes.dom().contains(w.made[i]));
    }
    assert forall|n: usize| #[trigger]
        g2.retrieve.dom().contains(n) && !q.pending(n) implies marked_little(q, n) by {
        assert(n != x);
        assert(!p.pending(n));
        if b.retrieve.dom().contains(n) {
            assert(marked_little(p, n));
            let c = choose|c: usize| #[trigger]
                taken(p, c) && p.start.retrieve.dom().contains(c) && p.little[c].contains(n);
            assert(q.little[c] == p.little[c]);
            assert(taken(q, c) && p.start.retrieve.dom().contains(c) && q.little[c].contains(n));
        } else {
            assert(b.retrieve.dom().contains(x));
            assert(little.contains(n));
            assert(q.little[x] == little);
            assert(taken(q, x) && p.start.retrieve.dom().contains(x) && q.little[x].contains(n));
        }
    }
    assert forall|c: usize, a: int|
        taken(q, c) && p.start.retrieve.dom().contains(c) && 0 <= a
            < q.little[c].len() implies g2.retrieve.dom().contains(#[trigger] q.little[c][a]) by {
        if c == x {
            assert(q.little[x] == little);
            assert(b.retrieve.dom().contains(x));
            assert(little.contains(little[a]));
        } else {
            assert(taken(p, c));
            assert(q.little[c] == p.little[c]);
            let n = p.little[c][a];
            assert(b.retrieve.dom().contains(n));
            assert(b.nodes.dom().contains(n) && !p.pending(n));
        }
    }
}

/// What an edge made by the pass stands for.
pub enum Name {
    /// The reading of element `l` of what edge `e` of the first graph brings.
    Reading { e: usize, l: usize },
    /// The link into step `k` of fold `a` of node `c`.
    Step { c: usize, a: int, k: int },
}

/// The name of every edge made by the pass.
pub type Names = Map<usize, Name>;

/// Edge `f` stands for what `name` says.
///
/// An edge named a reading goes to the node and slot that the plan names for the
/// reading; while its producer is not yet taken it still leaves the producer, with the
/// shape of the edge read and the element on record, and afterwards it is the scalar
/// edge from the little node that holds the element. An edge named a step is the link
/// into that step.
pub open spec fn name_fits(
    p: Progress,
    fm: Folds,
    g: GraphView,
    rec: Map<usize, usize>,
    f: usize,
    name: Name,
) -> bool {
    match name {
        Name::Reading { e, l } => {
            &&& p.start.edges.dom().contains(e)
            &&& !p.pending(p.start.edges[e].target)
            &&& aimed_at(p.start, fm, e, l, g.edges[f].target, g.edges[f].input_order)
            &&& if p.pending(g.edges[f].source) {
                serves(p, g, rec, f, e) && rec[f] == l && g.edges[f].output_order
                    == p.start.edges[e].output_order
            } else {
                !p.pending(p.start.edges[e].source) && g.edges[f] == wire_view(
                    p.start,
                    p.little,
                    e,
                    l,
                    g.edges[f].target,
                    g.edges[f].input_order,
                )
            }
        },
        Name::Step { c, a, k } => {
            &&& !p.pending(g.edges[f].source)
            &&& taken(p, c)
            &&& 0 <= a < fm[c].len()
            &&& 1 <= k < fm[c][a].len()
            &&& g.edges[f] == link_view(fm[c][a][k - 1], fm[c][a][k])
        },
    }
}

/// Edge `f` was made by the pass: it goes to a node already rewritten.
pub open spec fn made_edge(p: Progress, g: GraphView, f: usize) -> bool {
    g.edges.dom().contains(f) && !p.pending(g.edges[f].target)
}

/// Every edge made by the pass has a name that fits.
pub open spec fn names_fit(p: Progress, fm: Folds, g: GraphView, rec: Map<usize, usize>, nm: Names) -> bool {
    forall|f: usize| #[trigger]
        made_edge(p, g, f) ==> nm.dom().contains(f) && name_fits(p, fm, g, rec, f, nm[f])
}

/// What tells one edge made by the pass from another: its name, its target and its slot.
pub open spec fn tag_of(g: GraphView, nm: Names, f: usize) -> (Name, usize, u8) {
    (nm[f], g.edges[f].target, g.edges[f].input_order)
}

/// No two edges made by the pass have the same name, target and slot.
pub open spec fn names_differ(p: Progress, g: GraphView, nm: Names) -> bool {
    forall|f: usize, f2: usize|
        made_edge(p, g, f) && made_edge(p, g, f2) && f != f2 ==> #[trigger] tag_of(g, nm, f)
            != #[trigger] tag_of(g, nm, f2)
}

/// Some edge made by the pass is named the reading of element `l` through edge `e`, for
/// node `n` as operand `s`.
pub open spec fn reading_named(
    p: Progress,
    g: GraphView,
    nm: Names,
    e: usize,
    l: usize,
    n: usize,
    s: u8,
) -> bool {
    exists|f: usize| #[trigger]
        made_edge(p, g, f) && nm.dom().contains(f) && nm[f] == (Name::Reading { e, l })
            && g.edges[f].target == n && g.edges[f].input_order == s
}

/// Some edge made by the pass is named the link into step `k` of fold `a` of node `c`.
pub open spec fn step_named(p: Progress, g: GraphView, nm: Names, c: usize, a: int, k: int) -> bool {
    exists|f: usize| #[trigger]
        made_edge(p, g, f) && nm.dom().contains(f) && nm[f] == (Name::Step { c, a, k })
}

/// Every planned reading of a consumer already taken, and every link of a fold of a
/// node already taken, is the name of an edge.
pub open spec fn names_all(p: Progress, fm: Folds, g: GraphView, nm: Names) -> bool {
    &&& forall|e: usize, l: usize, n: usize, s: u8|
        p.start.edges.dom().contains(e) && !p.pending(p.start.edges[e].target)
            && #[trigger] aimed_at(p.start, fm, e, l, n, s) ==> reading_named(p, g, nm, e, l, n, s)
    &&& forall|c: usize, a: int, k: int|
        taken(p, c) && 0 <= a < fm[c].len() && 1 <= k < fm[c][a].len() ==> #[trigger] step_named(
            p,
            g,
            nm,
            c,
            a,
            k,
        )
}

/// Where the edge `f` stands among the edges of `w`.
pub open spec fn spot(w: Growth, f: usize) -> int {
    choose|i: int| 0 <= i < w.edges.len() && w.edges[i] == f
}

/// The step of the folds that node `n` is: the fold and the place in it.
pub open spec fn step_at(folds: Seq<Seq<usize>>, n: usize) -> (int, int) {
    choose|a: int, k: int| 0 <= a < folds.len() && 0 <= k < folds[a].len() && #[trigger] folds[a][k] == n
}

/// The name of edge `i` of what was added while node `x` was replaced.
pub open spec fn new_name(nm: Names, w: Growth, x: usize, folds: Seq<Seq<usize>>, i: int) -> Name {
    match w.roles[i] {
        Role::Laid { via, logical } => Name::Reading { e: via, l: logical },
        Role::Moved { from } => nm[from],
        Role::Link => Name::Step {
            c: x,
            a: step_at(folds, w.views[i].target).0,
            k: step_at(folds, w.views[i].target).1,
        },
    }
}

/// The names once node `x` has been replaced: the edges added get their names, the
/// others keep theirs.
pub open spec fn names_after(nm: Names, w: Growth, x: usize, folds: Seq<Seq<usize>>) -> Names {
    Map::new(
        |f: usize| nm.dom().contains(f) || w.edges.contains(f),
        |f: usize|
            if w.edges.contains(f) {
                new_name(nm, w, x, folds, spot(w, f))
            } else {
                nm[f]
            },
    )
}

/// The place of an edge among the edges added is the place where it stands.
pub proof fn lemma_spot(w: Growth, i: int)
    requires
        w.edges.no_duplicates(),
        0 <= i < w.edges.len(),
    ensures
        w.edges.contains(w.edges[i]),
        spot(w, w.edges[i]) == i,
{
    let j = spot(w, w.edges[i]);
    if j != i {
        assert(w.edges[j] != w.edges[i]);
    }
}

/// The step that a node of the folds is said to be is the step that it is.
pub proof fn lemma_step_at(
    folds: Seq<Seq<usize>>,
    little: Seq<usize>,
    made: Seq<usize>,
    len: int,
    a: int,
    k: int,
)
    requires
        folds_made(folds, little, made, len),
        0 <= a < folds.len(),
        0 <= k < folds[a].len(),
    ensures
        step_at(folds, folds[a][k]) == (a, k),
{
    let (a2, k2) = step_at(folds, folds[a][k]);
    assert(0 <= a2 < folds.len() && 0 <= k2 < folds[a2].len() && folds[a2][k2] == folds[a][k]);
    if a2 != a || k2 != k {
        assert(folds[a][k] != folds[a2][k2]);
    }
}

/// An edge that leaves the next node for a node already rewritten is named a reading,
/// which it still serves.
pub proof fn lemma_out_edge_named(
    p: Progress,
    fm: Folds,
    b: GraphView,
    rec: Map<usize, usize>,
    nm: Names,
    t: usize,
) -> (r: (usize, usize))
    requires
        p.well_begun(),
        p.left >= 1,
        inputs_kept(p, b),
        names_fit(p, fm, b, rec, nm),
        b.edges.dom().contains(t),
        b.edges[t].source == p.next(),
    ensures
        made_edge(p, b, t),
        nm.dom().contains(t),
        nm[t] == (Name::Reading { e: r.0, l: r.1 }),
        name_fits(p, fm, b, rec, t, nm[t]),
        p.start.edges[r.0].source == p.next(),
        p.start.edges[r.0].target != p.next(),
{
    lemma_rest_shrinks(p, Seq::empty());
    if p.pending(b.edges[t].target) {
        assert(p.start.edges.dom().contains(t) && p.start.edges[t] == b.edges[t]);
        lemma_target_taken(p, t);
    }
    assert(made_edge(p, b, t));
    match nm[t] {
        Name::Reading { e, l } => (e, l),
        Name::Step { c, a, k } => {
            assert(false);
            (0, 0)
        },
    }
}

/// The names fit, also after the next node is replaced.
pub proof fn lemma_names_fit(
    p: Progress,
    fm: Folds,
    b: GraphView,
    h: GraphView,
    g2: GraphView,
    rec: Map<usize, usize>,
    rec2: Map<usize, usize>,
    little: Seq<usize>,
    folds: Seq<Seq<usize>>,
    len: int,
    kind: OpKind,
    w: Growth,
    sizes: Map<usize, usize>,
    nm: Names,
)
    requires
        p.well_begun(),
        p.left >= 1,
        sizes_match(sizes, p.start),
        nodes_kept(p, b),
        inputs_kept(p, b),
        names_fit(p, fm, b, rec, nm),
        replaced(b, h, g2, rec, rec2, p.next(), little, kind, w),
        laid_out(
            b,
            p.next(),
            p.start.nodes[p.next()],
            sizes[p.next()] as int,
            little,
            folds,
            len,
            w,
        ),
    ensures
        names_fit(
            p.advance(little),
            fm.insert(p.next(), folds),
            g2,
            rec2,
            names_after(nm, w, p.next(), folds),
        ),
{
    let q = p.advance(little);
    let fm2 = fm.insert(p.next(), folds);
    let nm2 = names_after(nm, w, p.next(), folds);
    let x = p.next();
    lemma_rest_shrinks(p, little);
    assert(b.nodes.dom().contains(x));
    assert(grows(b, h, rec, rec2, w));
    assert forall|f: usize| #[trigger] made_edge(q, g2, f) implies nm2.dom().contains(f)
        && name_fits(q, fm2, g2, rec2, f, nm2[f]) by {
        assert(h.edges.dom().contains(f) && h.edges[f].source != x && h.edges[f].target != x);
        assert(!p.pending(h.edges[f].target));
        let v = g2.edges[f];
        if b.edges.dom().contains(f) {
            assert(h.edges[f] == b.edges[f]);
            assert(made_edge(p, b, f));
            assert(!w.edges.contains(f)) by {
                if w.edges.contains(f) {
                    let i = choose|i: int| 0 <= i < w.edges.len() && w.edges[i] == f;
                    assert(!b.edges.dom().contains(w.edges[i]));
                }
            }
            assert(nm2[f] == nm[f]);
            assert(name_fits(p, fm, b, rec, f, nm[f]));
            match nm[f] {
                Name::Reading { e, l } => {
                    let c = p.start.edges[e].target;
                    assert(c != x);
                    assert(fm2[c] == fm[c]);
                    if p.pending(v.source) {
                        assert(records_elsewhere(rec, rec2, w.edges));
                        assert(rec2.dom().contains(f) <==> rec.dom().contains(f));
                        assert(rec2[f] == rec[f]);
                        assert(q.pending(v.source));
                    } else {
                        assert(q.little[p.start.edges[e].source] == p.little[p.start.edges[e].source]);
                    }
                },
                Name::Step { c, a, k } => {
                    assert(fm2[c] == fm[c]);
                },
            }
        } else {
            assert(w.edges.contains(f));
            let i = spot(w, f);
            assert(0 <= i < w.edges.len() && w.edges[i] == f);
            assert(h.edges[w.edges[i]] == w.views[i]);
            assert(edge_sound(b, x, rec, little, h.nodes, w.views[i], w.roles[i]));
            assert(edge_aimed(
                b,
                p.start.nodes[x],
                sizes[x] as int,
                folds,
                w.views[i],
                w.roles[i],
            ));
            assert(nm2[f] == new_name(nm, w, x, folds, i));
            assert(fm2[x] == folds);
            assert(sizes[x] == size_of(p.start, x));
            match w.roles[i] {
                Role::Laid { via, logical } => {
                    assert(p.start.edges.dom().contains(via) && p.start.edges[via] == b.edges[via]);
                    lemma_source_pending(p, via);
                    assert(records_made(rec2, w));
                    assert(rec2.dom().contains(w.edges[i]) && rec2[w.edges[i]] == logical);
                    assert(q.pending(v.source));
                    assert(serves(q, g2, rec2, f, via));
                },
                Role::Moved { from } => {
                    let (e, l) = lemma_out_edge_named(p, fm, b, rec, nm, from);
                    assert(name_fits(p, fm, b, rec, from, nm[from]));
                    let c = p.start.edges[e].target;
                    assert(fm2[c] == fm[c]);
                    let at = resolve(b.edges[from].shape, rec[from]).unwrap() as int;
                    let m = little[at];
                    let k = choose|k: int| 0 <= k < w.made.len() && w.made[k] == m;
                    assert(!b.nodes.dom().contains(w.made[k]));
                    if p.pending(m) {
                        assert(b.nodes.dom().contains(m));
                    }
                    assert(q.little[x] == little);
                    assert(v == wire_view(p.start, q.little, e, l, v.target, v.input_order));
                },
                Role::Link => {
                    let (a, k) = choose|a: int, k: int|
                        0 <= a < folds.len() && 1 <= k < folds[a].len() && v.source == folds[a][k
                            - 1] && v.target == #[trigger] folds[a][k];
                    lemma_step_at(folds, little, w.made, len, a, k);
                    if p.pending(v.source) {
                        assert(b.nodes.dom().contains(v.source));
                    }
                    assert(v == link_view(folds[a][k - 1], folds[a][k]));
                },
            }
        }
    }
}

/// What is known of an edge added while the next node was replaced, if it is still
/// there once the node is gone.
pub open spec fn new_edge_kept(
    p: Progress,
    b: GraphView,
    g2: GraphView,
    w: Growth,
    nm: Names,
    nm2: Names,
    folds: Seq<Seq<usize>>,
    i: int,
) -> bool {
    &&& g2.edges.dom().contains(w.edges[i])
    &&& g2.edges[w.edges[i]] == w.views[i]
    &&& !b.edges.dom().contains(w.edges[i])
    &&& nm2[w.edges[i]] == new_name(nm, w, p.next(), folds, i)
    &&& match w.roles[i] {
        Role::Moved { from } => b.edges.dom().contains(from) && b.edges[from].source == p.next()
            && b.edges[from].target == w.views[i].target && b.edges[from].input_order
            == w.views[i].input_order && b.nodes.dom().contains(w.views[i].target),
        _ => !b.nodes.dom().contains(w.views[i].target),
    }
}

/// Every edge added that is still there once the next node is gone is known.
pub proof fn lemma_new_edges_kept(
    p: Progress,
    b: GraphView,
    h: GraphView,
    g2: GraphView,
    rec: Map<usize, usize>,
    rec2: Map<usize, usize>,
    little: Seq<usize>,
    folds: Seq<Seq<usize>>,
    kind: OpKind,
    w: Growth,
    nm: Names,
)
    requires
        p.well_begun(),
        p.left >= 1,
        b.wf(),
        replaced(b, h, g2, rec, rec2, p.next(), little, kind, w),
    ensures
        forall|i: int|
            0 <= i < w.edges.len() && g2.edges.dom().contains(#[trigger] w.edges[i])
                ==> new_edge_kept(
                p,
                b,
                g2,
                w,
                nm,
                names_after(nm, w, p.next(), folds),
                folds,
                i,
            ),
{
    let x = p.next();
    let nm2 = names_after(nm, w, x, folds);
    assert(grows(b, h, rec, rec2, w));
    assert forall|i: int|
        0 <= i < w.edges.len() && g2.edges.dom().contains(
            #[trigger] w.edges[i],
        ) implies new_edge_kept(p, b, g2, w, nm, nm2, folds, i) by {
        lemma_spot(w, i);
        assert(h.edges[w.edges[i]] == w.views[i]);
        assert(edge_sound(b, x, rec, little, h.nodes, w.views[i], w.roles[i]));
        match w.roles[i] {
            Role::Moved { from } => {
                assert(b.nodes.dom().contains(b.edges[from].target));
            },
            _ => {},
        }
    }
}

/// No two edges have the same name, target and slot, also after the next node is
/// replaced.
pub proof fn lemma_names_differ(
    p: Progress,
    fm: Folds,
    b: GraphView,
    h: GraphView,
    g2: GraphView,
    rec: Map<usize, usize>,
    rec2: Map<usize, usize>,
    little: Seq<usize>,
    folds: Seq<Seq<usize>>,
    len: int,
    kind: OpKind,
    w: Growth,
    sizes: Map<usize, usize>,
    nm: Names,
)
    requires
        p.well_begun(),
        p.left >= 1,
        b.wf(),
        sizes_match(sizes, p.start),
        nodes_kept(p, b),
        inputs_kept(p, b),
        names_fit(p, fm, b, rec, nm),
        names_differ(p, b, nm),
        replaced(b, h, g2, rec, rec2, p.next(), little, kind, w),
        laid_out(
            b,
            p.next(),
            p.start.nodes[p.next()],
            sizes[p.next()] as int,
            little,
            folds,
            len,
            w,
        ),
    ensures
        names_differ(p.advance(little), g2, names_after(nm, w, p.next(), folds)),
{
    let q = p.advance(little);
    let nm2 = names_after(nm, w, p.next(), folds);
    let x = p.next();
    lemma_rest_shrinks(p, little);
    lemma_new_edges_kept(p, b, h, g2, rec, rec2, little, folds, kind, w, nm);
    assert(grows(b, h, rec, rec2, w));
    assert forall|f: usize, f2: usize|
        made_edge(q, g2, f) && made_edge(q, g2, f2) && f != f2 implies #[trigger] tag_of(g2, nm2, f)
        != #[trigger] tag_of(g2, nm2, f2) by {
        assert(h.edges.dom().contains(f) && h.edges[f].source != x && h.edges[f].target != x);
        assert(h.edges.dom().contains(f2) && h.edges[f2].source != x && h.edges[f2].target != x);
        let old1 = b.edges.dom().contains(f);
        let old2 = b.edges.dom().contains(f2);
        if old1 {
            assert(h.edges[f] == b.edges[f]);
            assert(made_edge(p, b, f));
            assert(!w.edges.contains(f)) by {
                if w.edges.contains(f) {
                    let i = choose|i: int| 0 <= i < w.edges.len() && w.edges[i] == f;
                    assert(!b.edges.dom().contains(w.edges[i]));
                }
            }
            assert(nm2[f] == nm[f]);
        }
        if old2 {
            assert(h.edges[f2] == b.edges[f2]);
            assert(made_edge(p, b, f2));
            assert(!w.edges.contains(f2)) by {
                if w.edges.contains(f2) {
                    let i = choose|i: int| 0 <= i < w.edges.len() && w.edges[i] == f2;
                    assert(!b.edges.dom().contains(w.edges[i]));
                }
            }
            assert(nm2[f2] == nm[f2]);
        }
        if old1 && old2 {
            assert(tag_of(b, nm, f) != tag_of(b, nm, f2));
        } else if !old1 && !old2 {
            let i = spot(w, f);
            let j = spot(w, f2);
            assert(w.edges.contains(f) && w.edges.contains(f2));
            assert(0 <= i < w.edges.len() && w.edges[i] == f);
            assert(0 <= j < w.edges.len() && w.edges[j] == f2);
            assert(new_edge_kept(p, b, g2, w, nm, nm2, folds, i));
            assert(new_edge_kept(p, b, g2, w, nm, nm2, folds, j));
            assert(i != j);
            if i < j {
                assert(mark_of(w, i) != mark_of(w, j));
            } else {
                assert(mark_of(w, j) != mark_of(w, i));
            }
            lemma_new_names_differ(p, fm, b, rec, nm, w, folds, i, j);
        } else if old1 {
            let j = spot(w, f2);
            assert(w.edges.contains(f2));
            assert(0 <= j < w.edges.len() && w.edges[j] == f2);
            assert(new_edge_kept(p, b, g2, w, nm, nm2, folds, j));
            lemma_old_new_differ(p, fm, b, rec, nm, w, folds, f, j);
        } else {
            let i = spot(w, f);
            assert(w.edges.contains(f));
            assert(0 <= i < w.edges.len() && w.edges[i] == f);
            assert(new_edge_kept(p, b, g2, w, nm, nm2, folds, i));
            lemma_old_new_differ(p, fm, b, rec, nm, w, folds, f2, i);
        }
    }
}

/// Two edges added with different marks, targets and slots alike, have different names.
pub proof fn lemma_new_names_differ(
    p: Progress,
    fm: Folds,
    b: GraphView,
    rec: Map<usize, usize>,
    nm: Names,
    w: Growth,
    folds: Seq<Seq<usize>>,
    i: int,
    j: int,
)
    requires
        p.well_begun(),
        p.left >= 1,
        inputs_kept(p, b),
        names_fit(p, fm, b, rec, nm),
        names_differ(p, b, nm),
        0 <= i < w.edges.len(),
        0 <= j < w.edges.len(),
        w.roles.len() == w.edges.len(),
        w.views.len() == w.edges.len(),
        mark_of(w, i) != mark_of(w, j),
        w.roles[i] is Moved ==> b.edges.dom().contains(w.roles[i]->Moved_from)
            && b.edges[w.roles[i]->Moved_from].source == p.next() && b.edges[w.roles[i]->Moved_from].target
            == w.views[i].target && b.edges[w.roles[i]->Moved_from].input_order
            == w.views[i].input_order,
        w.roles[j] is Moved ==> b.edges.dom().contains(w.roles[j]->Moved_from)
            && b.edges[w.roles[j]->Moved_from].source == p.next() && b.edges[w.roles[j]->Moved_from].target
            == w.views[j].target && b.edges[w.roles[j]->Moved_from].input_order
            == w.views[j].input_order,
        w.roles[i] is Laid ==> b.edges.dom().contains(w.roles[i]->Laid_via)
            && b.edges[w.roles[i]->Laid_via].target == p.next(),
        w.roles[j] is Laid ==> b.edges.dom().contains(w.roles[j]->Laid_via)
            && b.edges[w.roles[j]->Laid_via].target == p.next(),
    ensures
        (new_name(nm, w, p.next(), folds, i), w.views[i].target, w.views[i].input_order) != (
            new_name(nm, w, p.next(), folds, j),
            w.views[j].target,
            w.views[j].input_order,
        ),
{
    let x = p.next();
    lemma_rest_shrinks(p, Seq::empty());
    if w.views[i].target == w.views[j].target && w.views[i].input_order == w.views[j].input_order {
        assert(w.roles[i] != w.roles[j]);
        match (w.roles[i], w.roles[j]) {
            (Role::Moved { from }, Role::Moved { from: from2 }) => {
                let r1 = lemma_out_edge_named(p, fm, b, rec, nm, from);
                let r2 = lemma_out_edge_named(p, fm, b, rec, nm, from2);
                assert(tag_of(b, nm, from) != tag_of(b, nm, from2));
            },
            (Role::Moved { from }, Role::Laid { via, logical }) => {
                let r1 = lemma_out_edge_named(p, fm, b, rec, nm, from);
                assert(p.start.edges.dom().contains(via) && p.start.edges[via] == b.edges[via]);
            },
            (Role::Laid { via, logical }, Role::Moved { from }) => {
                let r1 = lemma_out_edge_named(p, fm, b, rec, nm, from);
                assert(p.start.edges.dom().contains(via) && p.start.edges[via] == b.edges[via]);
            },
            (Role::Moved { from }, Role::Link) => {
                let r1 = lemma_out_edge_named(p, fm, b, rec, nm, from);
            },
            (Role::Link, Role::Moved { from }) => {
                let r1 = lemma_out_edge_named(p, fm, b, rec, nm, from);
            },
            _ => {},
        }
    }
}

/// An edge that was there before and an edge added have different names, or different
/// targets or slots.
pub proof fn lemma_old_new_differ(
    p: Progress,
    fm: Folds,
    b: GraphView,
    rec: Map<usize, usize>,
    nm: Names,
    w: Growth,
    folds: Seq<Seq<usize>>,
    f: usize,
    j: int,
)
    requires
        p.well_begun(),
        p.left >= 1,
        b.wf(),
        inputs_kept(p, b),
        names_fit(p, fm, b, rec, nm),
        names_differ(p, b, nm),
        made_edge(p, b, f),
        b.edges[f].source != p.next(),
        0 <= j < w.edges.len(),
        w.roles.len() == w.edges.len(),
        w.views.len() == w.edges.len(),
        match w.roles[j] {
            Role::Moved { from } => b.edges.dom().contains(from) && b.edges[from].source
                == p.next() && b.edges[from].target == w.views[j].target && b.edges[from].input_order
                == w.views[j].input_order,
            _ => !b.nodes.dom().contains(w.views[j].target),
        },
    ensures
        (nm[f], b.edges[f].target, b.edges[f].input_order) != (
            new_name(nm, w, p.next(), folds, j),
            w.views[j].target,
            w.views[j].input_order,
        ),
{
    match w.roles[j] {
        Role::Moved { from } => {
            let r = lemma_out_edge_named(p, fm, b, rec, nm, from);
            assert(f != from);
            assert(tag_of(b, nm, f) != tag_of(b, nm, from));
        },
        _ => {
            assert(b.nodes.dom().contains(b.edges[f].target));
        },
    }
}

/// Every planned reading and every link is still the name of an edge after the next
/// node is replaced.
pub proof fn lemma_names_all(
    p: Progress,
    fm: Folds,
    b: GraphView,
    h: GraphView,
    g2: GraphView,
    rec: Map<usize, usize>,
    rec2: Map<usize, usize>,
    little: Seq<usize>,
    folds: Seq<Seq<usize>>,
    len: int,
    kind: OpKind,
    w: Growth,
    sizes: Map<usize, usize>,
    nm: Names,
)
    requires
        p.well_begun(),
        p.left >= 1,
        b.wf(),
        sizes_match(sizes, p.start),
        nodes_kept(p, b),
        inputs_kept(p, b),
        names_fit(p, fm, b, rec, nm),
        names_all(p, fm, b, nm),
        steps_known(p, fm, b),
        replaced(b, h, g2, rec, rec2, p.next(), little, kind, w),
        laid_out(
            b,
            p.next(),
            p.start.nodes[p.next()],
            sizes[p.next()] as int,
            little,
            folds,
            len,
            w,
        ),
    ensures
        names_all(
            p.advance(little),
            fm.insert(p.next(), folds),
            g2,
            names_after(nm, w, p.next(), folds),
        ),
{
    let q = p.advance(little);
    let fm2 = fm.insert(p.next(), folds);
    let nm2 = names_after(nm, w, p.next(), folds);
    let x = p.next();
    lemma_rest_shrinks(p, little);
    lemma_new_edges_kept(p, b, h, g2, rec, rec2, little, folds, kind, w, nm);
    assert(b.nodes.dom().contains(x));
    assert(grows(b, h, rec, rec2, w));
    assert(sizes[x] == size_of(p.start, x));
    assert(fm2[x] == folds);
    assert forall|e: usize, l: usize, n: usize, s: u8|
        p.start.edges.dom().contains(e) && !q.pending(p.start.edges[e].target)
            && #[trigger] aimed_at(p.start, fm2, e, l, n, s) implies reading_named(
        q,
        g2,
        nm2,
        e,
        l,
        n,
        s,
    ) by {
        let dst = p.start.edges[e].target;
        if dst == x {
            assert(b.edges.dom().contains(e) && b.edges[e] == p.start.edges[e]);
            assert(has_laid(w, e, l, n, s));
            let role = Role::Laid { via: e, logical: l };
            let i = choose|i: int|
                0 <= i < w.edges.len() && #[trigger] w.roles[i] == role && w.views[i].target == n
                    && w.views[i].input_order == s;
            let f = w.edges[i];
            lemma_spot(w, i);
            assert(h.edges[w.edges[i]] == w.views[i]);
            assert(edge_sound(b, x, rec, little, h.nodes, w.views[i], w.roles[i]));
            lemma_source_pending(p, e);
            if p.pending(n) {
                assert(b.nodes.dom().contains(n));
            }
            assert(g2.edges.dom().contains(f));
            assert(made_edge(q, g2, f) && nm2[f] == (Name::Reading { e, l }));
        } else {
            assert(!p.pending(dst));
            assert(fm2[dst] == fm[dst]);
            assert(aimed_at(p.start, fm, e, l, n, s));
            assert(reading_named(p, b, nm, e, l, n, s));
            let f0 = choose|f0: usize| #[trigger]
                made_edge(p, b, f0) && nm.dom().contains(f0) && nm[f0] == (Name::Reading { e, l })
                    && b.edges[f0].target == n && b.edges[f0].input_order == s;
            assert(h.edges.dom().contains(f0) && h.edges[f0] == b.edges[f0]);
            if b.edges[f0].source == x {
                let role = Role::Moved { from: f0 };
                assert(w.roles.contains(role));
                let i = choose|i: int| 0 <= i < w.roles.len() && w.roles[i] == role;
                let f = w.edges[i];
                lemma_spot(w, i);
                assert(h.edges[w.edges[i]] == w.views[i]);
                assert(edge_sound(b, x, rec, little, h.nodes, w.views[i], w.roles[i]));
                let at = resolve(b.edges[f0].shape, rec[f0]).unwrap() as int;
                let m = little[at];
                let k = choose|k: int| 0 <= k < w.made.len() && w.made[k] == m;
                assert(!b.nodes.dom().contains(w.made[k]));
                assert(g2.edges.dom().contains(f));
                assert(made_edge(q, g2, f) && nm2[f] == nm[f0]);
            } else {
                assert(!w.edges.contains(f0)) by {
                    if w.edges.contains(f0) {
                        let i = choose|i: int| 0 <= i < w.edges.len() && w.edges[i] == f0;
                        assert(!b.edges.dom().contains(w.edges[i]));
                    }
                }
                assert(g2.edges.dom().contains(f0));
                assert(made_edge(q, g2, f0) && nm2[f0] == nm[f0]);
            }
        }
    }
    assert forall|c: usize, a: int, k: int|
        taken(q, c) && 0 <= a < fm2[c].len() && 1 <= k < fm2[c][a].len() implies #[trigger] step_named(
        q,
        g2,
        nm2,
        c,
        a,
        k,
    ) by {
        if c == x {
            assert(has_link(w, folds[a][k - 1], folds[a][k]));
            let i = choose|i: int|
                0 <= i < w.edges.len() && #[trigger] w.roles[i] == Role::Link && w.views[i].source
                    == folds[a][k - 1] && w.views[i].target == folds[a][k];
            let f = w.edges[i];
            lemma_spot(w, i);
            assert(h.edges[w.edges[i]] == w.views[i]);
            assert(edge_sound(b, x, rec, little, h.nodes, w.views[i], w.roles[i]));
            lemma_step_at(folds, little, w.made, len, a, k);
            if p.pending(w.views[i].target) {
                assert(b.nodes.dom().contains(w.views[i].target));
            }
            assert(g2.edges.dom().contains(f));
            assert(made_edge(q, g2, f) && nm2[f] == (Name::Step { c, a, k }));
        } else {
            assert(taken(p, c));
            assert(fm2[c] == fm[c]);
            assert(step_named(p, b, nm, c, a, k));
            let f0 = choose|f0: usize| #[trigger]
                made_edge(p, b, f0) && nm.dom().contains(f0) && nm[f0] == (Name::Step { c, a, k });
            assert(name_fits(p, fm, b, rec, f0, nm[f0]));
            assert(h.edges.dom().contains(f0) && h.edges[f0] == b.edges[f0]);
            assert(!p.pending(fm[c][a][k - 1]));
            assert(!w.edges.contains(f0)) by {
                if w.edges.contains(f0) {
                    let i = choose|i: int| 0 <= i < w.edges.len() && w.edges[i] == f0;
                    assert(!b.edges.dom().contains(w.edges[i]));
                }
            }
            assert(g2.edges.dom().contains(f0));
            assert(made_edge(q, g2, f0) && nm2[f0] == nm[f0]);
        }
    }
}

/// No edge of the graph the pass began with both leaves and enters the next node.
pub proof fn lemma_no_loop_at_start(p: Progress, e: usize)
    requires
        p.well_begun(),
        p.left >= 1,
        p.start.edges.dom().contains(e),
        p.start.edges[e].target == p.next(),
    ensures
        p.start.edges[e].source != p.next(),
        p.pending(p.start.edges[e].source),
{
    lemma_rest_shrinks(p, Seq::empty());
    lemma_source_pending(p, e);
}

/// The planned scalar edges stand, also after the next node is replaced.
pub proof fn lemma_wired(
    p: Progress,
    fm: Folds,
    b: GraphView,
    h: GraphView,
    g2: GraphView,
    rec: Map<usize, usize>,
    rec2: Map<usize, usize>,
    little: Seq<usize>,
    folds: Seq<Seq<usize>>,
    kind: OpKind,
    w: Growth,
)
    requires
        p.well_begun(),
        p.left >= 1,
        nodes_kept(p, b),
        transients_planned(p, fm, b, rec),
        wired(p, fm, b),
        replaced(b, h, g2, rec, rec2, p.next(), little, kind, w),
        moved_each(b, p.next(), w),
    ensures
        wired(p.advance(little), fm.insert(p.next(), folds), g2),
{
    let q = p.advance(little);
    let fm2 = fm.insert(p.next(), folds);
    let x = p.next();
    lemma_rest_shrinks(p, little);
    assert(b.nodes.dom().contains(x));
    assert forall|e: usize, l: usize, n: usize, s: u8|
        p.start.edges.dom().contains(e) && taken(q, p.start.edges[e].source) && taken(
            q,
            p.start.edges[e].target,
        ) && #[trigger] aimed_at(p.start, fm2, e, l, n, s) implies exists|f: usize| #[trigger]
        stands(q, g2, f, wire_view(p.start, q.little, e, l, n, s)) by {
        let src = p.start.edges[e].source;
        let dst = p.start.edges[e].target;
        if dst == x {
            lemma_no_loop_at_start(p, e);
            assert(false);
        }
        assert(!p.pending(dst));
        assert(fm2[dst] == fm[dst]);
        assert(aimed_at(p.start, fm, e, l, n, s));
        if src == x {
            let t = choose|t: usize| #[trigger] carries_to(p, b, rec, t, e, l, n, s);
            assert(carries_to(p, b, rec, t, e, l, n, s));
            let role = Role::Moved { from: t };
            assert(w.roles.contains(role));
            let i = choose|i: int| 0 <= i < w.roles.len() && w.roles[i] == role;
            let f = w.edges[i];
            assert(w.edges.contains(f));
            assert(h.edges[w.edges[i]] == w.views[i]);
            assert(edge_sound(b, x, rec, little, h.nodes, w.views[i], w.roles[i]));
            let at = resolve(b.edges[t].shape, rec[t]).unwrap() as int;
            let m = little[at];
            let k = choose|k: int| 0 <= k < w.made.len() && w.made[k] == m;
            assert(!b.nodes.dom().contains(w.made[k]));
            if p.pending(m) {
                assert(b.nodes.dom().contains(m));
            }
            assert(q.little[x] == little);
            assert(w.views[i] == wire_view(p.start, q.little, e, l, n, s));
            assert(stands(q, g2, f, wire_view(p.start, q.little, e, l, n, s)));
        } else {
            assert(taken(p, src) && taken(p, dst));
            let f = choose|f: usize| #[trigger]
                stands(p, b, f, wire_view(p.start, p.little, e, l, n, s));
            assert(stands(p, b, f, wire_view(p.start, p.little, e, l, n, s)));
            assert(q.little[src] == p.little[src]);
            assert(h.edges.dom().contains(f) && h.edges[f] == b.edges[f]);
            assert(stands(q, g2, f, wire_view(p.start, q.little, e, l, n, s)));
        }
    }
}

/// The steps of every fold stay linked, also after the next node is replaced.
pub proof fn lemma_linked(
    p: Progress,
    fm: Folds,
    b: GraphView,
    h: GraphView,
    g2: GraphView,
    rec: Map<usize, usize>,
    rec2: Map<usize, usize>,
    little: Seq<usize>,
    folds: Seq<Seq<usize>>,
    kind: OpKind,
    w: Growth,
    sizes: Map<usize, usize>,
)
    requires
        p.well_begun(),
        p.left >= 1,
        nodes_kept(p, b),
        linked(p, fm, b),
        replaced(b, h, g2, rec, rec2, p.next(), little, kind, w),
        all_aimed(b, p.start.nodes[p.next()], sizes[p.next()] as int, folds, w),
        linked_each(folds, w),
    ensures
        linked(p.advance(little), fm.insert(p.next(), folds), g2),
{
    let q = p.advance(little);
    let fm2 = fm.insert(p.next(), folds);
    let x = p.next();
    lemma_rest_shrinks(p, little);
    assert(b.nodes.dom().contains(x));
    assert forall|c: usize, a: int, k: int|
        taken(q, c) && 0 <= a < fm2[c].len() && 1 <= k < fm2[c][a].len() implies link_stands(
        q,
        g2,
        fm2[c][a][k - 1],
        #[trigger] fm2[c][a][k],
    ) by {
        if c == x {
            assert(fm2[x] == folds);
            let from = folds[a][k - 1];
            let to = folds[a][k];
            assert(has_link(w, from, to));
            let i = choose|i: int|
                0 <= i < w.edges.len() && #[trigger] w.roles[i] == Role::Link && w.views[i].source
                    == from && w.views[i].target == to;
            let f = w.edges[i];
            assert(w.edges.contains(f));
            assert(h.edges[w.edges[i]] == w.views[i]);
            assert(edge_sound(b, x, rec, little, h.nodes, w.views[i], w.roles[i]));
            assert(edge_aimed(
                b,
                p.start.nodes[x],
                sizes[x] as int,
                folds,
                w.views[i],
                w.roles[i],
            ));
            if p.pending(from) {
                assert(b.nodes.dom().contains(from));
            }
            if p.pending(to) {
                assert(b.nodes.dom().contains(to));
            }
            assert(w.views[i] == link_view(from, to));
            assert(stands(q, g2, f, link_view(from, to)));
        } else {
            assert(taken(p, c));
            assert(fm2[c] == fm[c]);
            assert(link_stands(p, b, fm[c][a][k - 1], fm[c][a][k]));
            let f = choose|f: usize| #[trigger]
                stands(p, b, f, link_view(fm[c][a][k - 1], fm[c][a][k]));
            assert(stands(p, b, f, link_view(fm[c][a][k - 1], fm[c][a][k])));
            assert(h.edges.dom().contains(f) && h.edges[f] == b.edges[f]);
            assert(stands(q, g2, f, link_view(fm2[c][a][k - 1], fm2[c][a][k])));
        }
    }
}

/// The number of steps that replacing the next node takes is the number that its kind
/// needs.
pub proof fn lemma_span_is_fold_len(
    p: Progress,
    b: GraphView,
    ins: Seq<EdgeEntry>,
    sizes: Map<usize, usize>,
)
    requires
        p.well_begun(),
        p.left >= 1,
        inputs_kept(p, b),
        lists_edges_of(ins, b.edges, p.next(), true),
        node_ready(p.start.nodes[p.next()], ins, sizes[p.next()] as int),
    ensures
        span(p.start.nodes[p.next()], ins) == fold_len(p.start, p.next()),
{
    let x = p.next();
    let op = p.start.nodes[x];
    lemma_listing_from_start(p, b, ins);
    if op.is_reduce() {
        assert(ins.len() == 1);
        assert(p.start.edges.dom().contains(ins[0].id));
        assert(p.start.edges[ins[0].id] == ins[0]@);
        let e = some_in_edge(p.start, x);
        assert(p.start.edges.dom().contains(e) && p.start.edges[e].target == x);
        let i = choose|i: int| 0 <= i < ins.len() && #[trigger] ins[i].id == e;
        assert(e == ins[0].id);
    }
}

/// The folds of every node taken are known, also after the next node is replaced.
pub proof fn lemma_folds_known(
    p: Progress,
    fm: Folds,
    little: Seq<usize>,
    folds: Seq<Seq<usize>>,
    made: Seq<usize>,
    len: int,
    sizes: Map<usize, usize>,
)
    requires
        p.well_begun(),
        p.left >= 1,
        folds_known(p, fm, sizes),
        folds_made(folds, little, made, len),
        little.len() == sizes[p.next()],
        len == fold_len(p.start, p.next()),
    ensures
        folds_known(p.advance(little), fm.insert(p.next(), folds), sizes),
{
    let q = p.advance(little);
    let fm2 = fm.insert(p.next(), folds);
    let x = p.next();
    lemma_rest_shrinks(p, little);
    assert forall|c: usize| #[trigger] taken(q, c) implies fm2.dom().contains(c) && fm2[c].len()
        == sizes[c] && forall|a: int|
        0 <= a < fm2[c].len() ==> (#[trigger] fm2[c][a]).len() >= 1 && fm2[c][a].len()
            == fold_len(p.start, c) && fm2[c][a].last() == q.little[c][a] by {
        if c == x {
            assert(fm2[c] == folds);
            assert(q.little[c] == little);
            assert forall|a: int| 0 <= a < fm2[c].len() implies (#[trigger] fm2[c][a]).len() >= 1
                && fm2[c][a].len() == fold_len(p.start, c) && fm2[c][a].last()
                == q.little[c][a] by {
                assert(folds[a].len() == len);
            }
        } else {
            assert(taken(p, c));
            assert(fm2[c] == fm[c]);
            assert(q.little[c] == p.little[c]);
        }
    }
}

/// The pass that rewrites a tensor graph into a scalar graph.
#[derive(Debug, Default)]
pub struct Scalarize;

impl Scalarize {
    /// Rewrites `graph` in place so that every node stands for one scalar, and returns
    /// the tracker of its inputs and constants.
    ///
    /// The graph must have passed [`UniformOutShapes`]. The pass
    /// succeeds exactly on the graphs that can be scalarized, and the result is then
    /// the scalarized form of the graph as it was. Where it fails, the error names a
    /// fault of the graph; after a failure the graph is well formed and otherwise
    /// unspecified.
    pub fn compile(&self, graph: &mut Graph) -> (r: Result<InputsTracker, ScalarizeError>)
        requires
            old(graph).wf(),
            uniform_out_shapes(old(graph)@),
        ensures
            final(graph).wf(),
            r is Ok <==> compilable(old(graph)@),
            r is Ok ==> scalar_form(old(graph)@, final(graph)@, r->Ok_0@),
            r is Err ==> explained(old(graph)@, r->Err_0),
            !all_sized(old(graph)@) ==> r is Err && names_unsized_node(r->Err_0, old(graph)@),
            all_sized(old(graph)@) ==> (r is Err && r->Err_0 == ScalarizeError::CyclicGraph
                <==> !old(graph)@.acyclic()),
    {
        match rewrite(graph) {
            Ok((tracker, little, folds, names)) => {
                assert(scalarized(old(graph)@, graph@, tracker@, little@, folds@) && edges_named(
                    old(graph)@,
                    little@,
                    folds@,
                    graph@,
                    names@,
                ));
                Ok(tracker)
            },
            Err(e) => Err(e),
        }
    }
}

/// The pass itself; also hands back the little nodes of every node.
fn rewrite(graph: &mut Graph) -> (r: Result<
    (InputsTracker, Ghost<Map<usize, Seq<usize>>>, Ghost<Folds>, Ghost<Names>),
    ScalarizeError,
>)
    requires
        old(graph).wf(),
        uniform_out_shapes(old(graph)@),
    ensures
        final(graph).wf(),
        r is Ok <==> compilable(old(graph)@),
        r is Ok ==> scalarized(old(graph)@, final(graph)@, r->Ok_0.0@, r->Ok_0.1@, r->Ok_0.2@),
        r is Ok ==> edges_named(old(graph)@, r->Ok_0.1@, r->Ok_0.2@, final(graph)@, r->Ok_0.3@),
        r is Err ==> explained(old(graph)@, r->Err_0),
        !all_sized(old(graph)@) ==> r is Err && names_unsized_node(r->Err_0, old(graph)@),
        all_sized(old(graph)@) ==> (r is Err && r->Err_0 == ScalarizeError::CyclicGraph
            <==> !old(graph)@.acyclic()),
{
    let ghost start = graph@;
    let sizes = match node_sizes(graph) {
        Ok(s) => s,
        Err(e) => {
            return Err(e);
        },
    };
    let topo = match graph.toposort() {
        Some(t) => t,
        None => {
            return Err(ScalarizeError::CyclicGraph);
        },
    };
    let mut indices: HashMap<usize, usize> = HashMap::new();
    let mut tracker = InputsTracker::new();
    let ghost mut p = Progress { start, topo: topo@, left: topo.len() as int, little: Map::empty() };
    let ghost mut fm: Folds = Map::empty();
    let ghost mut nm: Names = Map::empty();
    proof {
        lemma_rewriting_begins(start, topo@, sizes@, tracker@);
        assert(is_topological(topo@, start.nodes, start.edges));
        assert(start.acyclic());
    }
    let mut left: usize = topo.len();
    while left > 0
        invariant
            left == p.left,
            start == old(graph)@,
            all_sized(start),
            start.acyclic(),
            p.start == start,
            p.topo == topo@,
            graph.wf(),
            rewriting(p, fm, nm, graph@, indices@, tracker@, sizes@),
        decreases left,
    {
        let x = topo[left - 1];
        proof {
            lemma_rest_shrinks(p, Seq::empty());
            lemma_next_has_no_loop(p, graph@);
            assert(x == p.next());
        }
        let op = match graph.node_weight(x) {
            Some(op) => op,
            None => unreached(),
        };
        let size = match sizes.get(&x) {
            Some(s) => *s,
            None => unreached(),
        };
        let incoming = graph.operands(x);
        let out = graph.edges_directed(x, Direction::Outgoing);
        let ghost b = graph@;
        let ghost rec = indices@;
        let ghost tr = tracker@;
        let (little, grown, folds) = match expand_node(
            graph,
            x,
            op,
            size,
            &incoming,
            &out,
            &mut indices,
            &mut tracker,
        ) {
            Ok(v) => v,
            Err(e) => {
                proof {
                    lemma_step_fails(p, b, rec, sizes@, incoming@, out@, e);
                }
                return Err(e);
            },
        };
        let ghost h = graph@;
        proof {
            assert forall|j: int| 0 <= j < little@.len() implies h.nodes.dom().contains(
                #[trigger] little@[j],
            ) by {
                assert(grown@.made.contains(little@[j]));
            }
        }
        mark_retrieve(graph, x, &little);
        graph.remove_node(x);
        proof {
            assert(replaced(
                b,
                h,
                graph@,
                rec,
                indices@,
                x,
                little@,
                scalar_kind(op),
                grown@,
            ));
            assert(tracker@ == tracker_after(tr, op, x, little@));
            lemma_rewriting_goes_on(
                p,
                b,
                h,
                graph@,
                rec,
                indices@,
                little@,
                grown@,
                sizes@,
                tr,
                incoming@,
                out@,
                fm,
                folds@,
                span(op, incoming@),
                nm,
            );
            nm = names_after(nm, grown@, x, folds@);
            fm = fm.insert(x, folds@);
            p = p.advance(little@);
        }
        left -= 1;
    }
    proof {
        lemma_rewriting_ends(p, fm, nm, graph@, indices@, tracker@, sizes@);
    }
    Ok((tracker, Ghost(p.little), Ghost(fm), Ghost(nm)))
}

/// A scalar graph together with the tracker that says which of its nodes stand for
/// the inputs and constants of the tensor graph it came from.
#[derive(Debug)]
pub struct ScalarGraph {
    /// The graph; every edge carries one scalar.
    pub graph: Graph,
    /// The scalar nodes that stand for inputs and constants.
    pub inputs_tracker: InputsTracker,
}

/// Checks a tensor graph and rewrites it into a scalar graph.
///
/// Succeeds exactly where every node hands all its consumers the same output and the
/// graph can be scalarized; the result is then the scalarized form of `cx`. Fails with
/// `NonUniformOutgoingShapes` where some node hands its consumers different outputs,
/// and otherwise with an error that names a fault of the graph.
pub fn scalar(cx: Graph) -> (r: Result<ScalarGraph, ScalarizeError>)
    requires
        cx.wf(),
    ensures
        r is Ok ==> r->Ok_0.graph.wf() && scalar_form(
            cx@,
            r->Ok_0.graph@,
            r->Ok_0.inputs_tracker@,
        ),
        r is Ok <==> uniform_out_shapes(cx@) && compilable(cx@),
        r is Err ==> names_disagreeing_node(r->Err_0, cx@) || explained(cx@, r->Err_0),
        !uniform_out_shapes(cx@) ==> r is Err && names_disagreeing_node(r->Err_0, cx@),
        uniform_out_shapes(cx@) && !all_sized(cx@) ==> r is Err && names_unsized_node(
            r->Err_0,
            cx@,
        ),
        uniform_out_shapes(cx@) && all_sized(cx@) ==> (r is Err && r->Err_0
            == ScalarizeError::CyclicGraph <==> !cx@.acyclic()),
{
    let mut graph = cx;
    match UniformOutShapes.compile(&graph) {
        Ok(()) => {},
        Err(e) => {
            return Err(e);
        },
    }
    match Scalarize.compile(&mut graph) {
        Ok(inputs_tracker) => Ok(ScalarGraph { graph, inputs_tracker }),
        Err(e) => Err(e),
    }
}

} // verus!