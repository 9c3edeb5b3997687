//! What follows from the contract of the pass.

use crate::expand::{
    axis_foldable, back_len, in_folds, node_ready, planned, reduce_fits, reduce_index, scalar_kind,
    size_of, source_ready, InputsView,
};
use crate::graph::{lists_edges_of, EdgeEntry, EdgeView, GraphView};
use crate::op::OpKind;
use crate::scalar::{
    aimed_at, compilable, edge_served, edges_named, fold_len, link_view, marked_of, name_holds,
    node_fit, reading_edge, scalarized, some_in_edge, step_edge, step_of, tag_of, wanted, wire_view,
    Folds, Name, Names,
};
use crate::shape::resolve;
use vstd::prelude::*;

verus! {

/// The kinds that a tensor graph may hold.
pub open spec fn in_vocabulary(op: OpKind) -> bool {
    match op {
        OpKind::Input | OpKind::Constant(_) => true,
        OpKind::Recip | OpKind::Add | OpKind::Mul | OpKind::LessThan => true,
        OpKind::SumReduce(_) | OpKind::MaxReduce(_) => true,
        _ => false,
    }
}

/// A graph that holds a node of a kind outside the vocabulary cannot be scalarized.
pub proof fn lemma_outside_vocabulary_rejected(g: GraphView, x: usize)
    requires
        g.nodes.dom().contains(x),
        !in_vocabulary(g.nodes[x]),
    ensures
        !compilable(g),
{
    if node_fit(g, x) {
        let ins = choose|ins: Seq<EdgeEntry>|
            lists_edges_of(ins, g.edges, x, true) && #[trigger] node_ready(
                g.nodes[x],
                ins,
                size_of(g, x),
            );
        assert(false);
    }
}

/// A graph that reduces an axis which is missing or has at most one entry cannot be
/// scalarized.
pub proof fn lemma_degenerate_reduce_rejected(g: GraphView, x: usize, e: usize)
    requires
        g.nodes.dom().contains(x),
        g.nodes[x].is_reduce(),
        g.edges.dom().contains(e),
        g.edges[e].target == x,
        !axis_foldable(g.edges[e].shape, g.nodes[x].reduce_axis()),
    ensures
        !compilable(g),
{
    if node_fit(g, x) {
        let ins = choose|ins: Seq<EdgeEntry>|
            lists_edges_of(ins, g.edges, x, true) && #[trigger] node_ready(
                g.nodes[x],
                ins,
                size_of(g, x),
            );
        let i = choose|i: int| 0 <= i < ins.len() && #[trigger] ins[i].id == e;
        assert(ins.len() == 1);
        assert(g.edges[ins[0].id] == ins[0]@);
        assert(reduce_fits(ins[0], g.nodes[x].reduce_axis(), size_of(g, x)));
        assert(false);
    }
}

/// Every node of a graph that can be scalarized has a kind of the vocabulary.
pub proof fn lemma_compilable_in_vocabulary(g: GraphView, x: usize)
    requires
        compilable(g),
        g.nodes.dom().contains(x),
    ensures
        in_vocabulary(g.nodes[x]),
{
    if !in_vocabulary(g.nodes[x]) {
        lemma_outside_vocabulary_rejected(g, x);
    }
}

/// Node `n` is step `k` of fold `a` of node `c` of `start`.
pub open spec fn is_step_at(start: GraphView, fm: Folds, n: usize, c: usize, a: int, k: int) -> bool {
    start.nodes.dom().contains(c) && 0 <= a < fm[c].len() && 0 <= k < fm[c][a].len() && fm[c][a][k]
        == n
}

/// The node that stands in the folds `f2` where node `n` stands in the folds `f1`.
pub open spec fn twin(start: GraphView, f1: Folds, f2: Folds, n: usize) -> usize {
    let (c, a, k) = choose|c: usize, a: int, k: int| #[trigger] is_step_at(start, f1, n, c, a, k);
    f2[c][a][k]
}

/// An edge with both ends replaced by their twins.
pub open spec fn twinned(start: GraphView, f1: Folds, f2: Folds, v: EdgeView) -> EdgeView {
    EdgeView {
        source: twin(start, f1, f2, v.source),
        target: twin(start, f1, f2, v.target),
        input_order: v.input_order,
        output_order: v.output_order,
        shape: v.shape,
    }
}

/// The twin of a step is the step at the same place.
pub proof fn lemma_twin_of_step(
    start: GraphView,
    g1: GraphView,
    t1: InputsView,
    l1: Map<usize, Seq<usize>>,
    f1: Folds,
    f2: Folds,
    c: usize,
    a: int,
    k: int,
)
    requires
        scalarized(start, g1, t1, l1, f1),
        start.nodes.dom().contains(c),
        0 <= a < f1[c].len(),
        0 <= k < f1[c][a].len(),
    ensures
        twin(start, f1, f2, f1[c][a][k]) == f2[c][a][k],
{
    let n = f1[c][a][k];
    assert(is_step_at(start, f1, n, c, a, k));
    let (c2, a2, k2) = choose|c2: usize, a2: int, k2: int| #[trigger]
        is_step_at(start, f1, n, c2, a2, k2);
    if c != c2 || a != a2 || k != k2 {
        assert(f1[c][a][k] != f1[c2][a2][k2]);
    }
}

/// Two scalarized forms of one graph have folds of the same lengths.
pub proof fn lemma_same_lengths(
    start: GraphView,
    g1: GraphView,
    t1: InputsView,
    l1: Map<usize, Seq<usize>>,
    f1: Folds,
    g2: GraphView,
    t2: InputsView,
    l2: Map<usize, Seq<usize>>,
    f2: Folds,
    c: usize,
    a: int,
)
    requires
        scalarized(start, g1, t1, l1, f1),
        scalarized(start, g2, t2, l2, f2),
        start.nodes.dom().contains(c),
        0 <= a < f1[c].len(),
    ensures
        f2[c].len() == f1[c].len(),
        f2[c][a].len() == f1[c][a].len(),
        f1[c][a].len() >= 1,
        f1[c][a].last() == l1[c][a],
        f2[c][a].last() == l2[c][a],
        l1[c].len() == f1[c].len(),
        l2[c].len() == f1[c].len(),
{
    assert(f1[c][a].len() == fold_len(start, c));
    assert(f2[c][a].len() == fold_len(start, c));
}

/// The twin of a little node is the little node of the same element.
pub proof fn lemma_twin_of_little(
    start: GraphView,
    g1: GraphView,
    t1: InputsView,
    l1: Map<usize, Seq<usize>>,
    f1: Folds,
    g2: GraphView,
    t2: InputsView,
    l2: Map<usize, Seq<usize>>,
    f2: Folds,
    c: usize,
    a: int,
)
    requires
        scalarized(start, g1, t1, l1, f1),
        scalarized(start, g2, t2, l2, f2),
        start.nodes.dom().contains(c),
        0 <= a < f1[c].len(),
    ensures
        twin(start, f1, f2, l1[c][a]) == l2[c][a],
{
    lemma_same_lengths(start, g1, t1, l1, f1, g2, t2, l2, f2, c, a);
    lemma_twin_of_step(start, g1, t1, l1, f1, f2, c, a, f1[c][a].len() - 1);
}

/// The place of a node of a scalarized form among the folds.
pub proof fn lemma_place_of_node(
    start: GraphView,
    g1: GraphView,
    t1: InputsView,
    l1: Map<usize, Seq<usize>>,
    f1: Folds,
    n: usize,
) -> (r: (usize, int, int))
    requires
        scalarized(start, g1, t1, l1, f1),
        g1.nodes.dom().contains(n),
    ensures
        is_step_at(start, f1, n, r.0, r.1, r.2),
        g1.nodes[n] == scalar_kind(start.nodes[r.0]),
{
    assert(step_of(start, f1, n));
    let c = choose|c: usize| #[trigger] start.nodes.dom().contains(c) && in_folds(f1[c], n);
    let (a, k) = choose|a: int, k: int|
        0 <= a < f1[c].len() && 0 <= k < f1[c][a].len() && #[trigger] f1[c][a][k] == n;
    assert(g1.nodes[f1[c][a][k]] == scalar_kind(start.nodes[c]));
    (c, a, k)
}

/// A step of a fold is a node of the scalarized form, of the kind that stands for the
/// kind of the node folded, and no other step is the same node.
pub proof fn lemma_step_is_node(
    start: GraphView,
    g1: GraphView,
    t1: InputsView,
    l1: Map<usize, Seq<usize>>,
    f1: Folds,
    c: usize,
    a: int,
    k: int,
)
    requires
        scalarized(start, g1, t1, l1, f1),
        start.nodes.dom().contains(c),
        0 <= a < f1[c].len(),
        0 <= k < f1[c][a].len(),
    ensures
        g1.nodes.dom().contains(f1[c][a][k]),
        g1.nodes[f1[c][a][k]] == scalar_kind(start.nodes[c]),
        forall|c2: usize, a2: int, k2: int|
            is_step_at(start, f1, f1[c][a][k], c2, a2, k2) ==> c2 == c && a2 == a && k2 == k,
{
    assert forall|c2: usize, a2: int, k2: int|
        is_step_at(start, f1, f1[c][a][k], c2, a2, k2) implies c2 == c && a2 == a && k2 == k by {
        if c != c2 || a != a2 || k != k2 {
            assert(f1[c][a][k] != f1[c2][a2][k2]);
        }
    }
}

/// The twin of a node of one scalarized form is a node of the other, of the same kind.
pub proof fn lemma_twin_is_node(
    start: GraphView,
    g1: GraphView,
    t1: InputsView,
    l1: Map<usize, Seq<usize>>,
    f1: Folds,
    g2: GraphView,
    t2: InputsView,
    l2: Map<usize, Seq<usize>>,
    f2: Folds,
    n: usize,
)
    requires
        scalarized(start, g1, t1, l1, f1),
        scalarized(start, g2, t2, l2, f2),
        g1.nodes.dom().contains(n),
    ensures
        g2.nodes.dom().contains(twin(start, f1, f2, n)),
        g2.nodes[twin(start, f1, f2, n)] == g1.nodes[n],
{
    let (c, a, k) = lemma_place_of_node(start, g1, t1, l1, f1, n);
    lemma_twin_of_step(start, g1, t1, l1, f1, f2, c, a, k);
    lemma_same_lengths(start, g1, t1, l1, f1, g2, t2, l2, f2, c, a);
    lemma_step_is_node(start, g2, t2, l2, f2, c, a, k);
}

/// Two nodes of a scalarized form have different twins.
pub proof fn lemma_twins_differ(
    start: GraphView,
    g1: GraphView,
    t1: InputsView,
    l1: Map<usize, Seq<usize>>,
    f1: Folds,
    g2: GraphView,
    t2: InputsView,
    l2: Map<usize, Seq<usize>>,
    f2: Folds,
    n: usize,
    m: usize,
)
    requires
        scalarized(start, g1, t1, l1, f1),
        scalarized(start, g2, t2, l2, f2),
        g1.nodes.dom().contains(n),
        g1.nodes.dom().contains(m),
        n != m,
    ensures
        twin(start, f1, f2, n) != twin(start, f1, f2, m),
{
    let (c, a, k) = lemma_place_of_node(start, g1, t1, l1, f1, n);
    let (c2, a2, k2) = lemma_place_of_node(start, g1, t1, l1, f1, m);
    lemma_twin_of_step(start, g1, t1, l1, f1, f2, c, a, k);
    lemma_twin_of_step(start, g1, t1, l1, f1, f2, c2, a2, k2);
    lemma_same_lengths(start, g1, t1, l1, f1, g2, t2, l2, f2, c, a);
    lemma_same_lengths(start, g1, t1, l1, f1, g2, t2, l2, f2, c2, a2);
    lemma_step_is_node(start, g2, t2, l2, f2, c, a, k);
    assert(is_step_at(start, f2, f2[c2][a2][k2], c2, a2, k2));
}

/// Every node of one scalarized form is the twin of a node of the other.
pub proof fn lemma_twin_onto(
    start: GraphView,
    g1: GraphView,
    t1: InputsView,
    l1: Map<usize, Seq<usize>>,
    f1: Folds,
    g2: GraphView,
    t2: InputsView,
    l2: Map<usize, Seq<usize>>,
    f2: Folds,
    m: usize,
) -> (n: usize)
    requires
        scalarized(start, g1, t1, l1, f1),
        scalarized(start, g2, t2, l2, f2),
        g2.nodes.dom().contains(m),
    ensures
        g1.nodes.dom().contains(n),
        twin(start, f1, f2, n) == m,
{
    let (c, a, k) = lemma_place_of_node(start, g2, t2, l2, f2, m);
    lemma_same_lengths(start, g2, t2, l2, f2, g1, t1, l1, f1, c, a);
    lemma_twin_of_step(start, g1, t1, l1, f1, f2, c, a, k);
    lemma_step_is_node(start, g1, t1, l1, f1, c, a, k);
    f1[c][a][k]
}

/// The only edge that enters a reduction of a graph that can be scalarized is the
/// edge by which the length of its folds is told.
pub proof fn lemma_reduce_has_one_operand(g: GraphView, e: usize)
    requires
        compilable(g),
        g.wf(),
        g.edges.dom().contains(e),
        g.nodes[g.edges[e].target].is_reduce(),
    ensures
        some_in_edge(g, g.edges[e].target) == e,
{
    let c = g.edges[e].target;
    assert(g.nodes.dom().contains(c));
    assert(node_fit(g, c));
    let ins = choose|ins: Seq<EdgeEntry>|
        lists_edges_of(ins, g.edges, c, true) && #[trigger] node_ready(
            g.nodes[c],
            ins,
            size_of(g, c),
        );
    assert(ins.len() == 1);
    let i = choose|i: int| 0 <= i < ins.len() && #[trigger] ins[i].id == e;
    let d = some_in_edge(g, c);
    assert(g.edges.dom().contains(d) && g.edges[d].target == c);
    let j = choose|j: int| 0 <= j < ins.len() && #[trigger] ins[j].id == d;
}

/// A reading planned in one scalarized form of a graph is planned in every other, for
/// the twin of the node that reads.
pub proof fn lemma_plan_alike(
    start: GraphView,
    g1: GraphView,
    t1: InputsView,
    l1: Map<usize, Seq<usize>>,
    f1: Folds,
    g2: GraphView,
    t2: InputsView,
    l2: Map<usize, Seq<usize>>,
    f2: Folds,
    e: usize,
    l: usize,
    n: usize,
    s: u8,
)
    requires
        scalarized(start, g1, t1, l1, f1),
        scalarized(start, g2, t2, l2, f2),
        compilable(start),
        start.wf(),
        start.edges.dom().contains(e),
        aimed_at(start, f1, e, l, n, s),
    ensures
        aimed_at(start, f2, e, l, twin(start, f1, f2, n), s),
        twin(start, f1, f2, wire_view(start, l1, e, l, n, s).source) == wire_view(
            start,
            l2,
            e,
            l,
            twin(start, f1, f2, n),
            s,
        ).source,
{
    let c = start.edges[e].target;
    let src = start.edges[e].source;
    let op = start.nodes[c];
    let t = start.edges[e].shape;
    assert(start.nodes.dom().contains(c) && start.nodes.dom().contains(src));
    if op.is_reduce() {
        lemma_reduce_has_one_operand(start, e);
        let (i, k) = choose|i: int, k: int|
            0 <= i < size_of(start, c) && i < f1[c].len() && 0 <= k
                < t.visible_dims()[op.reduce_axis() as int] && l == #[trigger] reduce_index(
                i,
                k,
                t.visible_dims()[op.reduce_axis() as int],
                back_len(t, op.reduce_axis()),
            ) && n == f1[c][i][k] && (s == 1 || (s == 0 && k == 0));
        lemma_same_lengths(start, g1, t1, l1, f1, g2, t2, l2, f2, c, i);
        assert(f1[c][i].len() == fold_len(start, c));
        lemma_twin_of_step(start, g1, t1, l1, f1, f2, c, i, k);
        assert(l == reduce_index(
            i,
            k,
            t.visible_dims()[op.reduce_axis() as int],
            back_len(t, op.reduce_axis()),
        ));
    } else {
        let i = l as int;
        lemma_same_lengths(start, g1, t1, l1, f1, g2, t2, l2, f2, c, i);
        lemma_twin_of_step(start, g1, t1, l1, f1, f2, c, i, 0);
    }
    assert(wanted(start, e, l));
    assert(edge_served(start, e));
    let at = resolve(t, l).unwrap() as int;
    assert(at < size_of(start, src));
    assert(f1[src].len() == size_of(start, src));
    lemma_twin_of_little(start, g1, t1, l1, f1, g2, t2, l2, f2, src, at);
}

/// The trackers of two scalarized forms of a graph that can be scalarized list the same
/// inputs, each with the twins of its little nodes, and hold the same values under
/// twin nodes; and the twin of a marked node is marked.
pub proof fn lemma_tracker_twin(
    start: GraphView,
    g1: GraphView,
    t1: InputsView,
    l1: Map<usize, Seq<usize>>,
    f1: Folds,
    g2: GraphView,
    t2: InputsView,
    l2: Map<usize, Seq<usize>>,
    f2: Folds,
)
    requires
        scalarized(start, g1, t1, l1, f1),
        scalarized(start, g2, t2, l2, f2),
        compilable(start),
        start.wf(),
    ensures
        forall|x: usize| t1.new_inputs.dom().contains(x) <==> t2.new_inputs.dom().contains(x),
        forall|x: usize| #[trigger]
            t1.new_inputs.dom().contains(x) ==> t2.new_inputs[x].len() == t1.new_inputs[x].len(),
        forall|x: usize, j: int|
            t1.new_inputs.dom().contains(x) && 0 <= j < t1.new_inputs[x].len() ==> (
            #[trigger] t2.new_inputs[x][j]) == twin(start, f1, f2, t1.new_inputs[x][j]),
        forall|n: usize| #[trigger]
            t1.constants.dom().contains(n) ==> t2.constants.dom().contains(twin(start, f1, f2, n))
                && t2.constants[twin(start, f1, f2, n)] == t1.constants[n],
        forall|n: usize| #[trigger]
            g1.retrieve.dom().contains(n) ==> g2.retrieve.dom().contains(twin(start, f1, f2, n)),
{
    assert forall|x: usize| t1.new_inputs.dom().contains(x) <==> t2.new_inputs.dom().contains(x) by {
        assert(t1.new_inputs.dom().contains(x) <==> start.nodes.dom().contains(x)
            && start.nodes[x] is Input);
        assert(t2.new_inputs.dom().contains(x) <==> start.nodes.dom().contains(x)
            && start.nodes[x] is Input);
    }
    assert forall|x: usize| #[trigger]
        t1.new_inputs.dom().contains(x) implies t2.new_inputs[x].len() == t1.new_inputs[x].len() by {
        assert(t2.new_inputs.dom().contains(x));
        assert(t1.new_inputs[x] == l1[x]);
        assert(t2.new_inputs[x] == l2[x]);
        assert(start.nodes.dom().contains(x));
    }
    assert forall|x: usize, j: int|
        t1.new_inputs.dom().contains(x) && 0 <= j < t1.new_inputs[x].len() implies (
    #[trigger] t2.new_inputs[x][j]) == twin(start, f1, f2, t1.new_inputs[x][j]) by {
        assert(t2.new_inputs.dom().contains(x));
        assert(t1.new_inputs[x] == l1[x]);
        assert(t2.new_inputs[x] == l2[x]);
        assert(start.nodes.dom().contains(x));
        assert(f1[x].len() == l1[x].len());
        lemma_twin_of_little(start, g1, t1, l1, f1, g2, t2, l2, f2, x, j);
    }
    assert forall|n: usize| #[trigger]
        t1.constants.dom().contains(n) implies t2.constants.dom().contains(twin(start, f1, f2, n))
        && t2.constants[twin(start, f1, f2, n)] == t1.constants[n] by {
        lemma_constant_twin(start, g1, t1, l1, f1, g2, t2, l2, f2, n);
    }
    assert forall|n: usize| #[trigger] g1.retrieve.dom().contains(n) implies g2.retrieve.dom().contains(
        twin(start, f1, f2, n),
    ) by {
        assert(marked_of(start, l1, n));
        let c = choose|c: usize| #[trigger]
            start.nodes.dom().contains(c) && start.retrieve.dom().contains(c) && l1[c].contains(n);
        let j = choose|j: int| 0 <= j < l1[c].len() && l1[c][j] == n;
        assert(f1[c].len() == l1[c].len());
        lemma_twin_of_little(start, g1, t1, l1, f1, g2, t2, l2, f2, c, j);
        lemma_same_lengths(start, g1, t1, l1, f1, g2, t2, l2, f2, c, j);
        assert(g2.retrieve.dom().contains(l2[c][j]));
    }
}

/// The value held for a constant marker is held for its twin.
pub proof fn lemma_constant_twin(
    start: GraphView,
    g1: GraphView,
    t1: InputsView,
    l1: Map<usize, Seq<usize>>,
    f1: Folds,
    g2: GraphView,
    t2: InputsView,
    l2: Map<usize, Seq<usize>>,
    f2: Folds,
    n: usize,
)
    requires
        scalarized(start, g1, t1, l1, f1),
        scalarized(start, g2, t2, l2, f2),
        compilable(start),
        start.wf(),
        t1.constants.dom().contains(n),
    ensures
        t2.constants.dom().contains(twin(start, f1, f2, n)),
        t2.constants[twin(start, f1, f2, n)] == t1.constants[n],
{
    let v = t1.constants[n];
    assert(g1.nodes.dom().contains(n) && g1.nodes[n] == OpKind::ConstantOp(v));
    let (c, a, k) = lemma_place_of_node(start, g1, t1, l1, f1, n);
    lemma_compilable_in_vocabulary(start, c);
    assert(start.nodes[c] == OpKind::Constant(v));
    assert(node_fit(start, c));
    let ins = choose|ins: Seq<EdgeEntry>|
        lists_edges_of(ins, start.edges, c, true) && #[trigger] node_ready(
            start.nodes[c],
            ins,
            size_of(start, c),
        );
    assert(ins.len() == 0);
    assert(source_ready(start.nodes[c], size_of(start, c)));
    assert(size_of(start, c) == 1);
    assert(f1[c].len() == 1);
    assert(a == 0);
    assert(f1[c][a].len() == fold_len(start, c));
    assert(k == 0);
    lemma_twin_of_little(start, g1, t1, l1, f1, g2, t2, l2, f2, c, 0);
    lemma_same_lengths(start, g1, t1, l1, f1, g2, t2, l2, f2, c, 0);
    assert(l1[c][0] == n);
    assert(t2.constants.dom().contains(l2[c][0]));
    assert(t2.constants[l2[c][0]] == start.nodes[c]->Constant_0);
}

/// Edge `h` of `g2` stands in `g2` for what edge `f` stands for in `g1`: it has the
/// name of `f` and joins the twins of the ends of `f`, in the same slot.
pub open spec fn matched(
    start: GraphView,
    f1: Folds,
    f2: Folds,
    g1: GraphView,
    g2: GraphView,
    nm1: Names,
    nm2: Names,
    f: usize,
    h: usize,
) -> bool {
    g2.edges.dom().contains(h) && nm2[h] == nm1[f] && g2.edges[h] == twinned(
        start,
        f1,
        f2,
        g1.edges[f],
    )
}

/// For every edge of one scalarized form of a graph that can be scalarized, every other
/// has an edge that stands for the same.
pub proof fn lemma_edge_match(
    start: GraphView,
    g1: GraphView,
    t1: InputsView,
    l1: Map<usize, Seq<usize>>,
    f1: Folds,
    nm1: Names,
    g2: GraphView,
    t2: InputsView,
    l2: Map<usize, Seq<usize>>,
    f2: Folds,
    nm2: Names,
    f: usize,
) -> (h: usize)
    requires
        start.wf(),
        compilable(start),
        scalarized(start, g1, t1, l1, f1),
        scalarized(start, g2, t2, l2, f2),
        edges_named(start, l1, f1, g1, nm1),
        edges_named(start, l2, f2, g2, nm2),
        g1.edges.dom().contains(f),
    ensures
        matched(start, f1, f2, g1, g2, nm1, nm2, f, h),
{
    let v = g1.edges[f];
    assert(name_holds(start, l1, f1, g1, f, nm1[f]));
    match nm1[f] {
        Name::Reading { e, l } => {
            lemma_plan_alike(start, g1, t1, l1, f1, g2, t2, l2, f2, e, l, v.target, v.input_order);
            let n2 = twin(start, f1, f2, v.target);
            assert(aimed_at(start, f2, e, l, n2, v.input_order));
            assert(reading_edge(g2, nm2, e, l, n2, v.input_order));
            let h = choose|h: usize| #[trigger]
                g2.edges.dom().contains(h) && nm2[h] == (Name::Reading { e, l }) && g2.edges[h].target
                    == n2 && g2.edges[h].input_order == v.input_order;
            assert(name_holds(start, l2, f2, g2, h, nm2[h]));
            assert(twinned(start, f1, f2, v) == wire_view(start, l2, e, l, n2, v.input_order));
            h
        },
        Name::Step { c, a, k } => {
            lemma_same_lengths(start, g1, t1, l1, f1, g2, t2, l2, f2, c, a);
            lemma_twin_of_step(start, g1, t1, l1, f1, f2, c, a, k);
            lemma_twin_of_step(start, g1, t1, l1, f1, f2, c, a, k - 1);
            assert(step_edge(g2, nm2, c, a, k));
            let h = choose|h: usize| #[trigger]
                g2.edges.dom().contains(h) && nm2[h] == (Name::Step { c, a, k });
            assert(name_holds(start, l2, f2, g2, h, nm2[h]));
            assert(twinned(start, f1, f2, v) == link_view(f2[c][a][k - 1], f2[c][a][k]));
            h
        },
    }
}

/// Different edges of one scalarized form are matched by different edges of another.
pub proof fn lemma_matches_differ(
    start: GraphView,
    g1: GraphView,
    t1: InputsView,
    l1: Map<usize, Seq<usize>>,
    f1: Folds,
    nm1: Names,
    g2: GraphView,
    t2: InputsView,
    l2: Map<usize, Seq<usize>>,
    f2: Folds,
    nm2: Names,
    f: usize,
    d: usize,
    h: usize,
)
    requires
        scalarized(start, g1, t1, l1, f1),
        scalarized(start, g2, t2, l2, f2),
        edges_named(start, l1, f1, g1, nm1),
        g1.edges.dom().contains(f),
        g1.edges.dom().contains(d),
        f != d,
        matched(start, f1, f2, g1, g2, nm1, nm2, f, h),
    ensures
        !matched(start, f1, f2, g1, g2, nm1, nm2, d, h),
{
    if matched(start, f1, f2, g1, g2, nm1, nm2, d, h) {
        let v = g1.edges[f];
        let u = g1.edges[d];
        assert(g1.wf());
        assert(g1.nodes.dom().contains(v.target) && g1.nodes.dom().contains(u.target));
        if v.target != u.target {
            lemma_twins_differ(start, g1, t1, l1, f1, g2, t2, l2, f2, v.target, u.target);
        }
        assert(tag_of(g1, nm1, f) != tag_of(g1, nm1, d));
    }
}

/// Scalarizing one graph twice gives the same graph but for the names of nodes and
/// edges.
///
/// Let both `g1` with tracker `t1` and `g2` with tracker `t2` be scalarized forms of
/// `start`. Then the nodes of `g2` are the twins of the nodes of `g1`, one for one and
/// kind for kind; the edges of `g2` match the edges of `g1` one for one, each joining
/// the twins of the ends of the edge it matches, in the same slot; the twin of a marked
/// node is marked; and the trackers list the same inputs with twin little nodes and
/// hold the same values under twin nodes.
pub proof fn lemma_compiling_twice_alike(
    start: GraphView,
    g1: GraphView,
    t1: InputsView,
    l1: Map<usize, Seq<usize>>,
    f1: Folds,
    nm1: Names,
    g2: GraphView,
    t2: InputsView,
    l2: Map<usize, Seq<usize>>,
    f2: Folds,
    nm2: Names,
)
    requires
        start.wf(),
        compilable(start),
        scalarized(start, g1, t1, l1, f1),
        scalarized(start, g2, t2, l2, f2),
        edges_named(start, l1, f1, g1, nm1),
        edges_named(start, l2, f2, g2, nm2),
    ensures
        forall|n: usize| #[trigger]
            g1.nodes.dom().contains(n) ==> g2.nodes.dom().contains(twin(start, f1, f2, n))
                && g2.nodes[twin(start, f1, f2, n)] == g1.nodes[n],
        forall|n: usize, m: usize|
            g1.nodes.dom().contains(n) && g1.nodes.dom().contains(m) && n != m ==> #[trigger] twin(
                start,
                f1,
                f2,
                n,
            ) != #[trigger] twin(start, f1, f2, m),
        forall|m: usize| #[trigger]
            g2.nodes.dom().contains(m) ==> exists|n: usize|
                g1.nodes.dom().contains(n) && #[trigger] twin(start, f1, f2, n) == m,
        forall|f: usize| #[trigger]
            g1.edges.dom().contains(f) ==> exists|h: usize| #[trigger]
                matched(start, f1, f2, g1, g2, nm1, nm2, f, h),
        forall|f: usize, d: usize, h: usize|
            g1.edges.dom().contains(f) && g1.edges.dom().contains(d) && f != d && #[trigger] matched(
                start,
                f1,
                f2,
                g1,
                g2,
                nm1,
                nm2,
                f,
                h,
            ) ==> !#[trigger] matched(start, f1, f2, g1, g2, nm1, nm2, d, h),
        forall|n: usize| #[trigger]
            g1.retrieve.dom().contains(n) ==> g2.retrieve.dom().contains(twin(start, f1, f2, n)),
        forall|x: usize| t1.new_inputs.dom().contains(x) <==> t2.new_inputs.dom().contains(x),
        forall|x: usize| #[trigger]
            t1.new_inputs.dom().contains(x) ==> t2.new_inputs[x].len() == t1.new_inputs[x].len(),
        forall|x: usize, j: int|
            t1.new_inputs.dom().contains(x) && 0 <= j < t1.new_inputs[x].len() ==> (
            #[trigger] t2.new_inputs[x][j]) == twin(start, f1, f2, t1.new_inputs[x][j]),
        forall|n: usize| #[trigger]
            t1.constants.dom().contains(n) ==> t2.constants.dom().contains(twin(start, f1, f2, n))
                && t2.constants[twin(start, f1, f2, n)] == t1.constants[n],
{
    assert forall|n: usize| #[trigger] g1.nodes.dom().contains(n) implies g2.nodes.dom().contains(
        twin(start, f1, f2, n),
    ) && g2.nodes[twin(start, f1, f2, n)] == g1.nodes[n] by {
        lemma_twin_is_node(start, g1, t1, l1, f1, g2, t2, l2, f2, n);
    }
    assert forall|n: usize, m: usize|
        g1.nodes.dom().contains(n) && g1.nodes.dom().contains(m) && n != m implies #[trigger] twin(
        start,
        f1,
        f2,
        n,
    ) != #[trigger] twin(start, f1, f2, m) by {
        lemma_twins_differ(start, g1, t1, l1, f1, g2, t2, l2, f2, n, m);
    }
    assert forall|m: usize| #[trigger] g2.nodes.dom().contains(m) implies exists|n: usize|
        g1.nodes.dom().contains(n) && #[trigger] twin(start, f1, f2, n) == m by {
        let n = lemma_twin_onto(start, g1, t1, l1, f1, g2, t2, l2, f2, m);
        assert(g1.nodes.dom().contains(n) && twin(start, f1, f2, n) == m);
    }
    assert forall|f: usize| #[trigger] g1.edges.dom().contains(f) implies exists|h: usize| #[trigger]
        matched(start, f1, f2, g1, g2, nm1, nm2, f, h) by {
        let h = lemma_edge_match(start, g1, t1, l1, f1, nm1, g2, t2, l2, f2, nm2, f);
        assert(matched(start, f1, f2, g1, g2, nm1, nm2, f, h));
    }
    assert forall|f: usize, d: usize, h: usize|
        g1.edges.dom().contains(f) && g1.edges.dom().contains(d) && f != d && #[trigger] matched(
            start,
            f1,
            f2,
            g1,
            g2,
            nm1,
            nm2,
            f,
            h,
        ) implies !#[trigger] matched(start, f1, f2, g1, g2, nm1, nm2, d, h) by {
        lemma_matches_differ(start, g1, t1, l1, f1, nm1, g2, t2, l2, f2, nm2, f, d, h);
    }
    lemma_tracker_twin(start, g1, t1, l1, f1, g2, t2, l2, f2);
}

} // verus!
