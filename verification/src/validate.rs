//! The check that every node hands all its consumers the same output.

use crate::error::ScalarizeError;
use crate::graph::{lists_edges_of, Direction, EdgeEntry, Graph, GraphView};
use vstd::prelude::*;

verus! {

/// All edges leaving `x` carry the same output slot and the same shape.
pub open spec fn out_edges_agree(g: GraphView, x: usize) -> bool {
    forall|e1: usize, e2: usize|
        #![trigger g.edges[e1], g.edges[e2]]
        g.edges.dom().contains(e1) && g.edges.dom().contains(e2) && g.edges[e1].source == x
            && g.edges[e2].source == x ==> g.edges[e1].output_order == g.edges[e2].output_order
            && g.edges[e1].shape == g.edges[e2].shape
}

/// Every node hands all its consumers the same output.
pub open spec fn uniform_out_shapes(g: GraphView) -> bool {
    forall|x: usize| g.nodes.dom().contains(x) ==> #[trigger] out_edges_agree(g, x)
}

/// The error names a node of `g` whose outgoing edges disagree.
pub open spec fn names_disagreeing_node(err: ScalarizeError, g: GraphView) -> bool {
    match err {
        ScalarizeError::NonUniformOutgoingShapes(x) => g.nodes.dom().contains(x)
            && !out_edges_agree(g, x),
        _ => false,
    }
}

/// Every listed edge agrees with the first one.
pub open spec fn all_like_first(entries: Seq<EdgeEntry>, n: int) -> bool {
    forall|i: int|
        0 <= i < n ==> (#[trigger] entries[i]).output_order == entries[0].output_order
            && entries[i].shape@ == entries[0].shape@
}

/// A listing of the edges leaving `x` whose entries all agree with the first shows that
/// the edges leaving `x` agree.
pub proof fn lemma_listing_agrees(g: GraphView, x: usize, entries: Seq<EdgeEntry>)
    requires
        lists_edges_of(entries, g.edges, x, false),
        all_like_first(entries, entries.len() as int),
    ensures
        out_edges_agree(g, x),
{
    assert forall|e1: usize, e2: usize|
        #![trigger g.edges[e1], g.edges[e2]]
        g.edges.dom().contains(e1) && g.edges.dom().contains(e2) && g.edges[e1].source == x
            && g.edges[e2].source == x implies g.edges[e1].output_order
        == g.edges[e2].output_order && g.edges[e1].shape == g.edges[e2].shape by {
        let i1 = choose|i: int| 0 <= i < entries.len() && #[trigger] entries[i].id == e1;
        let i2 = choose|i: int| 0 <= i < entries.len() && #[trigger] entries[i].id == e2;
        assert(g.edges[entries[i1].id] == entries[i1]@);
        assert(g.edges[entries[i2].id] == entries[i2]@);
    }
}

/// The pass that checks a graph and changes nothing.
#[derive(Debug, Default)]
pub struct UniformOutShapes;

impl UniformOutShapes {
    /// Succeeds exactly when every node hands all its consumers the same output slot
    /// and shape; otherwise names a node that does not.
    pub fn compile(&self, graph: &Graph) -> (r: Result<(), ScalarizeError>)
        ensures
            r is Ok <==> uniform_out_shapes(graph@),
            r is Err ==> names_disagreeing_node(r->Err_0, graph@),
    {
        let nodes = graph.node_indices();
        let mut k: usize = 0;
        while k < nodes.len()
            invariant
                k <= nodes.len(),
                forall|x: usize| graph@.nodes.dom().contains(x) <==> nodes@.contains(x),
                forall|a: int| 0 <= a < k ==> #[trigger] out_edges_agree(graph@, nodes@[a]),
            decreases nodes.len() - k,
        {
            let x = nodes[k];
            assert(nodes@.contains(x));
            let out = graph.edges_directed(x, Direction::Outgoing);
            let mut i: usize = 1;
            while i < out.len()
                invariant
                    1 <= i,
                    graph@.nodes.dom().contains(x),
                    lists_edges_of(out@, graph@.edges, x, false),
                    all_like_first(out@, i as int),
                decreases out.len() - i,
            {
                if out[i].output_order != out[0].output_order || !out[i].shape.same(&out[0].shape) {
                    proof {
                        let e1 = out@[i as int].id;
                        let e2 = out@[0].id;
                        assert(graph@.edges[e1] == out@[i as int]@);
                        assert(graph@.edges[e2] == out@[0]@);
                        assert(!out_edges_agree(graph@, x));
                    }
                    return Err(ScalarizeError::NonUniformOutgoingShapes(x));
                }
                i += 1;
            }
            proof {
                if out.len() == 0 {
                    assert(all_like_first(out@, 0));
                }
                lemma_listing_agrees(graph@, x, out@);
            }
            k += 1;
        }
        proof {
            assert forall|x: usize| graph@.nodes.dom().contains(x) implies #[trigger] out_edges_agree(
                graph@,
                x,
            ) by {
                assert(nodes@.contains(x));
                let a = choose|a: int| 0 <= a < nodes@.len() && nodes@[a] == x;
                assert(out_edges_agree(graph@, nodes@[a]));
            }
        }
        Ok(())
    }
}

} // verus!
