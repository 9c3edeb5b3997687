//! Copies of a graph.

use crate::expand::{InputsTracker, InputsView};
use crate::graph::{lists_edges_of, Direction, EdgeData, EdgeView, Graph, GraphView};
use crate::scalar::ScalarGraph;
use std::collections::HashMap;
use vstd::pervasive::unreached;
use vstd::std_specs::iter::IteratorSpec;
use vstd::prelude::*;

verus! {

broadcast use vstd::std_specs::hash::group_hash_axioms;

/// An edge with both ends renamed by `m`.
pub open spec fn moved_view(v: EdgeView, m: Map<usize, usize>) -> EdgeView {
    EdgeView {
        source: m[v.source],
        target: m[v.target],
        input_order: v.input_order,
        output_order: v.output_order,
        shape: v.shape,
    }
}

/// No two keys of `m` have the same value.
pub open spec fn one_to_one(m: Map<usize, usize>) -> bool {
    forall|x: usize, y: usize|
        m.dom().contains(x) && m.dom().contains(y) && x != y ==> #[trigger] m[x] != #[trigger] m[y]
}

/// The nodes of `c` are the nodes of `g` renamed by `m`, with their kinds and marks.
pub open spec fn nodes_copied(g: GraphView, c: GraphView, m: Map<usize, usize>) -> bool {
    &&& forall|x: usize| m.dom().contains(x) ==> g.nodes.dom().contains(x)
    &&& one_to_one(m)
    &&& forall|x: usize| #[trigger]
        m.dom().contains(x) ==> c.nodes.dom().contains(m[x]) && c.nodes[m[x]] == g.nodes[x]
    &&& forall|n: usize| #[trigger]
        c.nodes.dom().contains(n) ==> exists|x: usize| m.dom().contains(x) && #[trigger] m[x] == n
    &&& forall|x: usize| #[trigger]
        m.dom().contains(x) ==> (c.retrieve.dom().contains(m[x]) <==> g.retrieve.dom().contains(x))
            && (g.retrieve.dom().contains(x) ==> c.retrieve[m[x]] == g.retrieve[x])
}

/// The edges of `c` are the edges of `g` named by `em`, each with its ends renamed by
/// `m`; `back` names, for each edge of `c`, the edge of `g` it is the copy of.
pub open spec fn edges_copied(
    g: GraphView,
    c: GraphView,
    m: Map<usize, usize>,
    em: Map<usize, usize>,
    back: Map<usize, usize>,
) -> bool {
    &&& forall|e: usize| em.dom().contains(e) ==> g.edges.dom().contains(e)
    &&& forall|e: usize| #[trigger]
        em.dom().contains(e) ==> c.edges.dom().contains(em[e]) && c.edges[em[e]] == moved_view(
            g.edges[e],
            m,
        ) && back.dom().contains(em[e]) && back[em[e]] == e
    &&& forall|f: usize| #[trigger]
        c.edges.dom().contains(f) ==> back.dom().contains(f) && em.dom().contains(back[f])
            && em[back[f]] == f
}

/// Graph `c` is a copy of graph `g`, node `x` of `g` being node `m[x]` of `c` and edge
/// `e` of `g` being edge `em[e]` of `c`.
pub open spec fn copied(
    g: GraphView,
    c: GraphView,
    m: Map<usize, usize>,
    em: Map<usize, usize>,
) -> bool {
    &&& forall|x: usize| m.dom().contains(x) <==> g.nodes.dom().contains(x)
    &&& nodes_copied(g, c, m)
    &&& forall|e: usize| em.dom().contains(e) <==> g.edges.dom().contains(e)
    &&& one_to_one(em)
    &&& forall|e: usize| #[trigger]
        em.dom().contains(e) ==> c.edges.dom().contains(em[e]) && c.edges[em[e]] == moved_view(
            g.edges[e],
            m,
        )
    &&& forall|f: usize| #[trigger]
        c.edges.dom().contains(f) ==> exists|e: usize| em.dom().contains(e) && #[trigger] em[e] == f
}

/// Graph `c` is a copy of graph `g` with the nodes renamed by `m`.
pub open spec fn is_copy(g: GraphView, c: GraphView, m: Map<usize, usize>) -> bool {
    exists|em: Map<usize, usize>| #[trigger] copied(g, c, m, em)
}

/// Copies the edges that leave `x`.
fn copy_out_edges(
    graph: &Graph,
    copy: &mut Graph,
    remap: &HashMap<usize, usize>,
    x: usize,
    Ghost(em): Ghost<Map<usize, usize>>,
    Ghost(back): Ghost<Map<usize, usize>>,
) -> (r: (Ghost<Map<usize, usize>>, Ghost<Map<usize, usize>>))
    requires
        graph.wf(),
        old(copy).wf(),
        forall|y: usize| remap@.dom().contains(y) <==> graph@.nodes.dom().contains(y),
        nodes_copied(graph@, old(copy)@, remap@),
        edges_copied(graph@, old(copy)@, remap@, em, back),
        forall|e: usize| em.dom().contains(e) ==> graph@.edges[e].source != x,
    ensures
        final(copy).wf(),
        final(copy)@.nodes == old(copy)@.nodes,
        final(copy)@.retrieve == old(copy)@.retrieve,
        edges_copied(graph@, final(copy)@, remap@, r.0@, r.1@),
        forall|e: usize|
            r.0@.dom().contains(e) <==> em.dom().contains(e) || (graph@.edges.dom().contains(e)
                && graph@.edges[e].source == x),
{
    let out = graph.edges_directed(x, Direction::Outgoing);
    let ghost mut em2 = em;
    let ghost mut back2 = back;
    let mut i: usize = 0;
    while i < out.len()
        invariant
            i <= out.len(),
            graph.wf(),
            copy.wf(),
            lists_edges_of(out@, graph@.edges, x, false),
            forall|y: usize| remap@.dom().contains(y) <==> graph@.nodes.dom().contains(y),
            copy@.nodes == old(copy)@.nodes,
            copy@.retrieve == old(copy)@.retrieve,
            nodes_copied(graph@, copy@, remap@),
            edges_copied(graph@, copy@, remap@, em2, back2),
            forall|e: usize| em.dom().contains(e) ==> graph@.edges[e].source != x,
            forall|e: usize|
                em2.dom().contains(e) <==> em.dom().contains(e) || exists|j: int|
                    0 <= j < i && #[trigger] out@[j].id == e,
        decreases out.len() - i,
    {
        let entry = &out[i];
        proof {
            assert(graph@.edges.dom().contains(out@[i as int].id));
            assert(graph@.edges[out@[i as int].id] == out@[i as int]@);
            assert(graph@.nodes.dom().contains(entry.source));
            assert(graph@.nodes.dom().contains(entry.target));
        }
        let source = match remap.get(&entry.source) {
            Some(n) => *n,
            None => unreached(),
        };
        let target = match remap.get(&entry.target) {
            Some(n) => *n,
            None => unreached(),
        };
        let data = EdgeData {
            input_order: entry.input_order,
            output_order: entry.output_order,
            shape: entry.shape.duplicate(),
        };
        let ghost before = copy@;
        match copy.add_edge(source, target, data) {
            Some(f) => {
                proof {
                    let e = out@[i as int].id;
                    assert(!em2.dom().contains(e)) by {
                        if em2.dom().contains(e) {
                            if em.dom().contains(e) {
                                assert(graph@.edges[e].source != x);
                            } else {
                                let j = choose|j: int| 0 <= j < i && #[trigger] out@[j].id == e;
                                assert(out@[j].id != out@[i as int].id);
                            }
                        }
                    }
                    let em3 = em2.insert(e, f);
                    let back3 = back2.insert(f, e);
                    assert forall|d: usize| #[trigger] em3.dom().contains(d) implies copy@.edges.dom().contains(
                        em3[d],
                    ) && copy@.edges[em3[d]] == moved_view(graph@.edges[d], remap@)
                        && back3.dom().contains(em3[d]) && back3[em3[d]] == d by {
                        if d != e {
                            assert(em2.dom().contains(d));
                            assert(before.edges.dom().contains(em2[d]));
                        }
                    }
                    assert forall|c: usize| #[trigger] copy@.edges.dom().contains(c) implies back3.dom().contains(
                        c,
                    ) && em3.dom().contains(back3[c]) && em3[back3[c]] == c by {
                        if c != f {
                            assert(before.edges.dom().contains(c));
                            assert(back2[c] != e);
                        }
                    }
                    assert forall|d: usize|
                        em3.dom().contains(d) <==> em.dom().contains(d) || exists|j: int|
                            0 <= j < i + 1 && #[trigger] out@[j].id == d by {
                        if d == e {
                            assert(out@[i as int].id == d);
                        }
                        if em2.dom().contains(d) && !em.dom().contains(d) {
                            let j = choose|j: int| 0 <= j < i && #[trigger] out@[j].id == d;
                            assert(out@[j].id == d);
                        }
                        if !em.dom().contains(d) && (exists|j: int|
                            0 <= j < i + 1 && #[trigger] out@[j].id == d) {
                            let j = choose|j: int| 0 <= j < i + 1 && #[trigger] out@[j].id == d;
                            if j < i {
                                assert(out@[j].id == d);
                            }
                        }
                    }
                    em2 = em3;
                    back2 = back3;
                }
            },
            None => unreached(),
        }
        i += 1;
    }
    proof {
        assert forall|e: usize|
            em2.dom().contains(e) <==> em.dom().contains(e) || (graph@.edges.dom().contains(e)
                && graph@.edges[e].source == x) by {
            if graph@.edges.dom().contains(e) && graph@.edges[e].source == x {
                let j = choose|j: int| 0 <= j < out@.len() && #[trigger] out@[j].id == e;
                assert(out@[j].id == e);
            }
            if em2.dom().contains(e) && !em.dom().contains(e) {
                let j = choose|j: int| 0 <= j < i && #[trigger] out@[j].id == e;
                assert(graph@.edges.dom().contains(out@[j].id));
            }
        }
    }
    (Ghost(em2), Ghost(back2))
}

/// Copies a graph into an independent graph, and returns with it the index that each
/// node has in the copy.
pub fn copy_graph_roughly(graph: &Graph) -> (r: (Graph, HashMap<usize, usize>))
    requires
        graph.wf(),
    ensures
        r.0.wf(),
        is_copy(graph@, r.0@, r.1@),
{
    let mut copy = Graph::new();
    let mut remap: HashMap<usize, usize> = HashMap::new();
    let nodes = graph.node_indices();
    let mut k: usize = 0;
    while k < nodes.len()
        invariant
            k <= nodes.len(),
            graph.wf(),
            copy.wf(),
            forall|i: int, j: int| 0 <= i < j < nodes@.len() ==> nodes@[i] < nodes@[j],
            forall|x: usize| graph@.nodes.dom().contains(x) <==> nodes@.contains(x),
            forall|x: usize|
                remap@.dom().contains(x) <==> exists|a: int| 0 <= a < k && #[trigger] nodes@[a] == x,
            nodes_copied(graph@, copy@, remap@),
            copy@.edges == Map::<usize, EdgeView>::empty(),
        decreases nodes.len() - k,
    {
        let x = nodes[k];
        assert(nodes@.contains(x));
        let op = match graph.node_weight(x) {
            Some(op) => op,
            None => unreached(),
        };
        let ghost before = copy@;
        let ghost m0 = remap@;
        let n = copy.add_op(op);
        let marked = match graph.retrieval_shape(x) {
            Some(shape) => copy.retrieve(n, shape),
            None => false,
        };
        remap.insert(x, n);
        proof {
            assert(!m0.dom().contains(x)) by {
                if m0.dom().contains(x) {
                    let a = choose|a: int| 0 <= a < k && #[trigger] nodes@[a] == x;
                    assert(nodes@[a] < nodes@[k as int]);
                }
            }
            assert forall|y: usize|
                remap@.dom().contains(y) <==> exists|a: int|
                    0 <= a < k + 1 && #[trigger] nodes@[a] == y by {
                if y == x {
                    assert(nodes@[k as int] == y);
                }
                if m0.dom().contains(y) {
                    let a = choose|a: int| 0 <= a < k && #[trigger] nodes@[a] == y;
                    assert(nodes@[a] == y);
                }
                if y != x && (exists|a: int| 0 <= a < k + 1 && #[trigger] nodes@[a] == y) {
                    let a = choose|a: int| 0 <= a < k + 1 && #[trigger] nodes@[a] == y;
                    assert(a < k);
                    assert(nodes@[a] == y);
                }
            }
            assert forall|y: usize, z: usize|
                remap@.dom().contains(y) && remap@.dom().contains(z) && y != z implies #[trigger] remap@[y]
                != #[trigger] remap@[z] by {
                if y != x {
                    assert(m0.dom().contains(y));
                    assert(before.nodes.dom().contains(m0[y]));
                }
                if z != x {
                    assert(m0.dom().contains(z));
                    assert(before.nodes.dom().contains(m0[z]));
                }
            }
            assert forall|y: usize| #[trigger] remap@.dom().contains(y) implies copy@.nodes.dom().contains(
                remap@[y],
            ) && copy@.nodes[remap@[y]] == graph@.nodes[y] by {
                if y != x {
                    assert(m0.dom().contains(y));
                    assert(before.nodes.dom().contains(m0[y]));
                }
            }
            assert forall|c: usize| #[trigger] copy@.nodes.dom().contains(c) implies exists|y: usize|
                remap@.dom().contains(y) && #[trigger] remap@[y] == c by {
                if c == n {
                    assert(remap@.dom().contains(x) && remap@[x] == c);
                } else {
                    assert(before.nodes.dom().contains(c));
                    let y = choose|y: usize| m0.dom().contains(y) && #[trigger] m0[y] == c;
                    assert(remap@.dom().contains(y) && remap@[y] == c);
                }
            }
            assert forall|y: usize| #[trigger] remap@.dom().contains(y) implies (
            copy@.retrieve.dom().contains(remap@[y]) <==> graph@.retrieve.dom().contains(y)) && (
            graph@.retrieve.dom().contains(y) ==> copy@.retrieve[remap@[y]]
                == graph@.retrieve[y]) by {
                if y != x {
                    assert(m0.dom().contains(y));
                    assert(before.nodes.dom().contains(m0[y]));
                    assert(m0[y] != n);
                } else {
                    if before.retrieve.dom().contains(n) {
                        assert(before.nodes.dom().contains(n));
                    }
                }
            }
        }
        k += 1;
    }
    proof {
        assert forall|x: usize| remap@.dom().contains(x) <==> graph@.nodes.dom().contains(x) by {
            if graph@.nodes.dom().contains(x) {
                assert(nodes@.contains(x));
                let a = choose|a: int| 0 <= a < nodes@.len() && nodes@[a] == x;
                assert(nodes@[a] == x);
            }
            if remap@.dom().contains(x) {
                let a = choose|a: int| 0 <= a < k && #[trigger] nodes@[a] == x;
                assert(nodes@.contains(nodes@[a]));
            }
        }
    }
    let ghost mut em: Map<usize, usize> = Map::empty();
    let ghost mut back: Map<usize, usize> = Map::empty();
    let mut k: usize = 0;
    while k < nodes.len()
        invariant
            k <= nodes.len(),
            graph.wf(),
            copy.wf(),
            forall|i: int, j: int| 0 <= i < j < nodes@.len() ==> nodes@[i] < nodes@[j],
            forall|x: usize| graph@.nodes.dom().contains(x) <==> nodes@.contains(x),
            forall|x: usize| remap@.dom().contains(x) <==> graph@.nodes.dom().contains(x),
            nodes_copied(graph@, copy@, remap@),
            edges_copied(graph@, copy@, remap@, em, back),
            forall|e: usize|
                em.dom().contains(e) <==> graph@.edges.dom().contains(e) && exists|a: int|
                    0 <= a < k && #[trigger] nodes@[a] == graph@.edges[e].source,
        decreases nodes.len() - k,
    {
        let x = nodes[k];
        proof {
            assert forall|e: usize| em.dom().contains(e) implies graph@.edges[e].source != x by {
                let a = choose|a: int| 0 <= a < k && #[trigger] nodes@[a] == graph@.edges[e].source;
                assert(nodes@[a] < nodes@[k as int]);
            }
        }
        let ghost em0 = em;
        let (em_next, back_next) = copy_out_edges(graph, &mut copy, &remap, x, Ghost(em), Ghost(back));
        proof {
            em = em_next@;
            back = back_next@;
            assert forall|e: usize|
                em.dom().contains(e) <==> graph@.edges.dom().contains(e) && exists|a: int|
                    0 <= a < k + 1 && #[trigger] nodes@[a] == graph@.edges[e].source by {
                if graph@.edges.dom().contains(e) && graph@.edges[e].source == x {
                    assert(nodes@[k as int] == graph@.edges[e].source);
                }
                if em0.dom().contains(e) {
                    let a = choose|a: int|
                        0 <= a < k && #[trigger] nodes@[a] == graph@.edges[e].source;
                    assert(nodes@[a] == graph@.edges[e].source);
                }
                if graph@.edges.dom().contains(e) && (exists|a: int|
                    0 <= a < k + 1 && #[trigger] nodes@[a] == graph@.edges[e].source) {
                    let a = choose|a: int|
                        0 <= a < k + 1 && #[trigger] nodes@[a] == graph@.edges[e].source;
                    if a < k {
                        assert(nodes@[a] == graph@.edges[e].source);
                    }
                }
            }
        }
        k += 1;
    }
    proof {
        assert forall|e: usize| em.dom().contains(e) <==> graph@.edges.dom().contains(e) by {
            if graph@.edges.dom().contains(e) {
                let src = graph@.edges[e].source;
                assert(graph@.nodes.dom().contains(src));
                assert(nodes@.contains(src));
                let a = choose|a: int| 0 <= a < nodes@.len() && nodes@[a] == src;
                assert(nodes@[a] == graph@.edges[e].source);
            }
        }
        assert forall|e1: usize, e2: usize|
            em.dom().contains(e1) && em.dom().contains(e2) && e1 != e2 implies #[trigger] em[e1]
            != #[trigger] em[e2] by {
            assert(back[em[e1]] == e1);
            assert(back[em[e2]] == e2);
        }
        assert forall|f: usize| #[trigger] copy@.edges.dom().contains(f) implies exists|e: usize|
            em.dom().contains(e) && #[trigger] em[e] == f by {
            assert(em.dom().contains(back[f]) && em[back[f]] == f);
        }
        assert(copied(graph@, copy@, remap@, em));
    }
    (copy, remap)
}

/// The keys of a map, in no stated order.
fn keys_of(m: &HashMap<usize, Vec<usize>>) -> (r: Vec<usize>)
    ensures
        forall|k: usize| r@.contains(k) <==> m@.dom().contains(k),
{
    let mut r: Vec<usize> = Vec::new();
    for pair in it: m.iter()
        invariant
            r@.len() == it.index(),
            forall|i: int| 0 <= i < it.index() ==> r@[i] == *(#[trigger] it.seq()[i]).0,
            it.seq() == vstd::std_specs::hash::spec_hash_map_iter(m).remaining(),
    {
        r.push(*pair.0);
    }
    proof {
        broadcast use vstd::std_specs::hash::axiom_spec_hash_map_iter;

        let v = vstd::std_specs::hash::spec_hash_map_iter(m).remaining();
        assert(r@.len() == v.len());
        assert forall|k: usize| r@.contains(k) <==> m@.dom().contains(k) by {
            if r@.contains(k) {
                let i = choose|i: int| 0 <= i < r@.len() && r@[i] == k;
                assert(m@.contains_key(*v[i].0));
            }
            if m@.dom().contains(k) {
                assert(v.contains((&k, &m@[k])));
                let i = choose|i: int| 0 <= i < v.len() && v[i] == (&k, &m@[k]);
                assert(r@[i] == k);
            }
        }
    }
    r
}

/// The name that `m` gives to node `n`; a node that `m` does not know keeps its name.
pub open spec fn renamed(m: Map<usize, usize>, n: usize) -> usize {
    if m.dom().contains(n) {
        m[n]
    } else {
        n
    }
}

/// Every node of the list renamed by `m`.
pub open spec fn renamed_all(s: Seq<usize>, m: Map<usize, usize>) -> Seq<usize> {
    Seq::new(s.len(), |j: int| renamed(m, s[j]))
}

/// Tracker `t2` is tracker `t` with every scalar node renamed by `m`: the inputs are
/// listed under the same keys with their little nodes renamed, and the constants that
/// `m` knows are held under their new names.
pub open spec fn tracker_moved(t: InputsView, t2: InputsView, m: Map<usize, usize>) -> bool {
    &&& forall|x: usize| t2.new_inputs.dom().contains(x) <==> t.new_inputs.dom().contains(x)
    &&& forall|x: usize|
        t.new_inputs.dom().contains(x) ==> #[trigger] t2.new_inputs[x] == renamed_all(
            t.new_inputs[x],
            m,
        )
    &&& forall|n: usize| #[trigger]
        m.dom().contains(n) ==> (t2.constants.dom().contains(m[n]) <==> t.constants.dom().contains(
            n,
        )) && (t.constants.dom().contains(n) ==> t2.constants[m[n]] == t.constants[n])
    &&& forall|k: usize| #[trigger]
        t2.constants.dom().contains(k) ==> exists|n: usize| m.dom().contains(n) && #[trigger] m[n] == k
}

/// The list with every node renamed.
fn rename_all(list: &Vec<usize>, remap: &HashMap<usize, usize>) -> (r: Vec<usize>)
    ensures
        r@ == renamed_all(list@, remap@),
{
    let mut r: Vec<usize> = Vec::new();
    let mut j: usize = 0;
    while j < list.len()
        invariant
            j <= list.len(),
            r@ == renamed_all(list@, remap@).take(j as int),
        decreases list.len() - j,
    {
        let n = list[j];
        let to = match remap.get(&n) {
            Some(t) => *t,
            None => n,
        };
        r.push(to);
        assert(renamed_all(list@, remap@).take(j + 1) =~= renamed_all(list@, remap@).take(
            j as int,
        ).push(to));
        j += 1;
    }
    assert(renamed_all(list@, remap@).take(list@.len() as int) =~= renamed_all(list@, remap@));
    r
}

/// The tracker with every scalar node renamed.
fn move_tracker(tracker: &InputsTracker, graph: &Graph, remap: &HashMap<usize, usize>) -> (r:
    InputsTracker)
    requires
        forall|x: usize| remap@.dom().contains(x) <==> graph@.nodes.dom().contains(x),
        one_to_one(remap@),
    ensures
        tracker_moved(tracker@, r@, remap@),
{
    let mut new_inputs: HashMap<usize, Vec<usize>> = HashMap::new();
    let keys = keys_of(&tracker.new_inputs);
    let mut i: usize = 0;
    while i < keys.len()
        invariant
            i <= keys.len(),
            forall|k: usize| keys@.contains(k) <==> tracker.new_inputs@.dom().contains(k),
            forall|x: usize| new_inputs@.dom().contains(x) ==> tracker.new_inputs@.dom().contains(x),
            forall|a: int| 0 <= a < i ==> new_inputs@.dom().contains(#[trigger] keys@[a]),
            forall|x: usize|
                new_inputs@.dom().contains(x) ==> (#[trigger] new_inputs@[x])@ == renamed_all(
                    tracker.new_inputs@[x]@,
                    remap@,
                ),
        decreases keys.len() - i,
    {
        let x = keys[i];
        assert(keys@.contains(x));
        match tracker.new_inputs.get(&x) {
            Some(list) => {
                let moved = rename_all(list, remap);
                new_inputs.insert(x, moved);
            },
            None => unreached(),
        }
        i += 1;
    }
    let mut constants: HashMap<usize, u32> = HashMap::new();
    let nodes = graph.node_indices();
    let mut k: usize = 0;
    while k < nodes.len()
        invariant
            k <= nodes.len(),
            forall|x: usize| graph@.nodes.dom().contains(x) <==> nodes@.contains(x),
            forall|x: usize| remap@.dom().contains(x) <==> graph@.nodes.dom().contains(x),
            one_to_one(remap@),
            forall|a: int|
                0 <= a < k ==> (constants@.dom().contains(remap@[#[trigger] nodes@[a]])
                    <==> tracker.constants@.dom().contains(nodes@[a])) && (
                tracker.constants@.dom().contains(nodes@[a]) ==> constants@[remap@[nodes@[a]]]
                    == tracker.constants@[nodes@[a]]),
            forall|c: usize| #[trigger]
                constants@.dom().contains(c) ==> exists|a: int|
                    0 <= a < k && remap@[#[trigger] nodes@[a]] == c,
        decreases nodes.len() - k,
    {
        let n = nodes[k];
        assert(nodes@.contains(n));
        let ghost before = constants@;
        match tracker.constants.get(&n) {
            Some(v) => {
                match remap.get(&n) {
                    Some(to) => {
                        constants.insert(*to, *v);
                    },
                    None => unreached(),
                }
            },
            None => {},
        }
        proof {
            assert forall|a: int| 0 <= a < k + 1 implies (constants@.dom().contains(
                remap@[#[trigger] nodes@[a]],
            ) <==> tracker.constants@.dom().contains(nodes@[a])) && (
            tracker.constants@.dom().contains(nodes@[a]) ==> constants@[remap@[nodes@[a]]]
                == tracker.constants@[nodes@[a]]) by {
                assert(nodes@.contains(nodes@[a]));
                if a < k {
                    if nodes@[a] != n {
                        assert(remap@[nodes@[a]] != remap@[n]);
                    }
                } else {
                    if before.dom().contains(remap@[n]) {
                        let a2 = choose|a2: int|
                            0 <= a2 < k && remap@[#[trigger] nodes@[a2]] == remap@[n];
                        assert(nodes@.contains(nodes@[a2]));
                        if nodes@[a2] != n {
                            assert(remap@[nodes@[a2]] != remap@[n]);
                        }
                    }
                }
            }
            assert forall|c: usize| #[trigger] constants@.dom().contains(c) implies exists|a: int|
                0 <= a < k + 1 && remap@[#[trigger] nodes@[a]] == c by {
                if before.dom().contains(c) {
                    let a = choose|a: int| 0 <= a < k && remap@[#[trigger] nodes@[a]] == c;
                    assert(remap@[nodes@[a]] == c);
                } else {
                    assert(remap@[nodes@[k as int]] == c);
                }
            }
        }
        k += 1;
    }
    let r = InputsTracker { new_inputs, constants };
    proof {
        assert forall|x: usize|
            r@.new_inputs.dom().contains(x) <==> tracker@.new_inputs.dom().contains(x) by {
            if tracker@.new_inputs.dom().contains(x) {
                assert(keys@.contains(x));
                let a = choose|a: int| 0 <= a < keys@.len() && keys@[a] == x;
                assert(new_inputs@.dom().contains(keys@[a]));
            }
        }
        assert forall|n: usize| #[trigger] remap@.dom().contains(n) implies (
        r@.constants.dom().contains(remap@[n]) <==> tracker@.constants.dom().contains(n)) && (
        tracker@.constants.dom().contains(n) ==> r@.constants[remap@[n]]
            == tracker@.constants[n]) by {
            assert(nodes@.contains(n));
            let a = choose|a: int| 0 <= a < nodes@.len() && nodes@[a] == n;
            assert(remap@[nodes@[a]] == remap@[n]);
        }
        assert forall|c: usize| #[trigger] r@.constants.dom().contains(c) implies exists|n: usize|
            remap@.dom().contains(n) && #[trigger] remap@[n] == c by {
            let a = choose|a: int| 0 <= a < k && remap@[#[trigger] nodes@[a]] == c;
            assert(nodes@.contains(nodes@[a]));
            assert(remap@.dom().contains(nodes@[a]) && remap@[nodes@[a]] == c);
        }
    }
    r
}

impl ScalarGraph {
    /// An independent copy: the graph copied, and in the tracker every scalar node
    /// under the name it has in the copy.
    pub fn copy_graph_roughly(&self) -> (r: ScalarGraph)
        requires
            self.graph.wf(),
        ensures
            r.graph.wf(),
            exists|m: Map<usize, usize>| #[trigger]
                is_copy(self.graph@, r.graph@, m) && tracker_moved(
                    self.inputs_tracker@,
                    r.inputs_tracker@,
                    m,
                ),
    {
        let (graph, remap) = copy_graph_roughly(&self.graph);
        proof {
            let em = choose|em: Map<usize, usize>| #[trigger] copied(self.graph@, graph@, remap@, em);
        }
        let inputs_tracker = move_tracker(&self.inputs_tracker, &self.graph, &remap);
        assert(is_copy(self.graph@, graph@, remap@) && tracker_moved(
            self.inputs_tracker@,
            inputs_tracker@,
            remap@,
        ));
        ScalarGraph { graph, inputs_tracker }
    }
}

} // verus!
