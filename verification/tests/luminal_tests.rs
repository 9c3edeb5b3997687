use luminal::graph::Graph as TensorGraph;
use luminal::graph_tensor::GraphTensor;
use luminal::prelude::Matmul;
use luminal::op::{
    Add, Constant, ConstantValue, Function, LessThan, MaxReduce, Mul, Operator, Recip, SumReduce,
};
use luminal::shape::{Const, Dyn, Shape, ShapeTracker as TensorTracker, R1, R2};
use petgraph::stable_graph::NodeIndex;
use petgraph::visit::EdgeRef;
use petgraph::Direction::Outgoing;
use scalarize::error::ScalarizeError;
use scalarize::graph::{Direction, EdgeData, Graph};
use scalarize::op::OpKind;
use scalarize::scalar::{scalar, ScalarGraph};
use scalarize::shape::ShapeTracker;
use scalarize::snapshot::copy_graph_roughly;
use std::collections::HashMap;

/// The tracker as plain numbers; a size that is not known yet is written as zero.
fn tracker_of(s: &TensorTracker) -> ShapeTracker {
    ShapeTracker {
        dims: s.dims.iter().map(|d| d.to_usize().unwrap_or(0)).collect(),
        indexes: s.indexes.iter().copied().collect(),
        fake: s.fake.iter().copied().collect(),
        slices: s.slices.iter().map(|p| (p.0.to_usize().unwrap_or(0), p.1.to_usize().unwrap_or(0))).collect(),
        padding: s.padding.iter().map(|p| (p.0.to_usize().unwrap_or(0), p.1.to_usize().unwrap_or(0))).collect(),
    }
}

fn kind_of(op: &dyn Operator) -> OpKind {
    let any = op.as_any();
    if any.is::<Function>() {
        OpKind::Input
    } else if let Some(c) = any.downcast_ref::<Constant>() {
        match &c.0 {
            ConstantValue::Float(f) => OpKind::Constant(f.to_bits()),
            ConstantValue::Expression(_) => OpKind::Unsupported,
        }
    } else if any.is::<Recip>() {
        OpKind::Recip
    } else if any.is::<Add>() {
        OpKind::Add
    } else if any.is::<Mul>() {
        OpKind::Mul
    } else if any.is::<LessThan>() {
        OpKind::LessThan
    } else if let Some(r) = any.downcast_ref::<SumReduce>() {
        OpKind::SumReduce(r.0)
    } else if let Some(r) = any.downcast_ref::<MaxReduce>() {
        OpKind::MaxReduce(r.0)
    } else {
        OpKind::Unsupported
    }
}

/// The tensor graph as a graph of this library, with the place of every node.
fn graph_of<S: Shape>(cx: &TensorGraph, out: &GraphTensor<S>) -> (Graph, HashMap<NodeIndex, usize>) {
    let mut g = Graph::new();
    let mut at = HashMap::new();
    for n in cx.graph.node_indices() {
        at.insert(n, g.add_op(kind_of(cx.graph.node_weight(n).unwrap().as_ref())));
    }
    for n in cx.graph.node_indices() {
        for e in cx.graph.edges_directed(n, Outgoing) {
            if let Some((input_order, output_order, shape)) = e.weight().as_data() {
                let data = EdgeData { input_order, output_order, shape: tracker_of(&shape) };
                g.add_edge(at[&e.source()], at[&e.target()], data).unwrap();
            }
        }
    }
    for n in cx.to_retrieve.iter() {
        assert_eq!(*n, out.id);
        assert!(g.retrieve(at[n], tracker_of(&out.shape)));
    }
    (g, at)
}

fn eval(g: &Graph, n: usize, bound: &HashMap<usize, f32>) -> f32 {
    let mut ins = g.edges_directed(n, Direction::Incoming);
    ins.sort_by_key(|e| e.input_order);
    let arg = |k: usize| eval(g, ins[k].source, bound);
    match g.node_weight(n).unwrap() {
        OpKind::InputOp => bound[&n],
        OpKind::ConstantOp(bits) => f32::from_bits(bits),
        OpKind::Recip => 1.0 / arg(0),
        OpKind::Add => arg(0) + arg(1),
        OpKind::Mul => arg(0) * arg(1),
        OpKind::Max => arg(0).max(arg(1)),
        other => panic!("not a scalar node: {:?}", other),
    }
}

fn bind(sg: &ScalarGraph, bound: &mut HashMap<usize, f32>, x: usize, data: &[f32]) {
    let little = &sg.inputs_tracker.new_inputs[&x];
    assert_eq!(little.len(), data.len());
    for (n, v) in little.iter().zip(data) {
        bound.insert(*n, *v);
    }
}

fn outputs(g: &Graph) -> Vec<usize> {
    g.node_indices().into_iter().filter(|n| g.retrieval_shape(*n).is_some()).collect()
}

#[test]
fn test_run() {
    let mut cx = TensorGraph::new();
    let a = cx.tensor::<R1<2>>().set(vec![1.0, 1.0]);
    let b = cx.tensor::<R1<2>>().set(vec![2.0, 2.0]);
    let d = cx.tensor::<R1<2>>().set(vec![3.0, 3.0]);
    let c = ((a + b) + d).retrieve();
    let (g, at) = graph_of(&cx, &c);
    let sg = scalar(g).unwrap();
    println!("compiled : {:?}", sg);
    // twice the tensor graph: five nodes of two elements each
    assert_eq!(sg.graph.node_indices().len(), 10);
    let mut bound = HashMap::new();
    bind(&sg, &mut bound, at[&a.id], &[1.0, 1.0]);
    bind(&sg, &mut bound, at[&b.id], &[2.0, 2.0]);
    bind(&sg, &mut bound, at[&d.id], &[3.0, 3.0]);
    let outs = outputs(&sg.graph);
    assert_eq!(outs.len(), 2);
    for o in outs {
        assert_eq!(eval(&sg.graph, o, &bound), 6.0);
    }
}

#[test]
fn test_run_2() {
    let mut cx = TensorGraph::new();
    let a = cx.tensor::<R1<2>>().set(vec![4.0, 4.0]);
    let b = cx.tensor::<R1<2>>().set(vec![8.0, 8.0]);
    let d = cx.tensor::<R2<2, 3>>().set(vec![1.0, 2.0, 3.0, 1.0, 2.0, 3.0]);
    let c = ((a + b).expand::<(_, Const<3>), _>() + d).retrieve();
    let (g, at) = graph_of(&cx, &c);
    let sg = scalar(g).unwrap();
    println!("compiled : {:?}", sg);
    // a, b and their sum have two elements each, d and the result six
    assert_eq!(sg.graph.node_indices().len(), 18);
    let dv = [1.0, 2.0, 3.0, 1.0, 2.0, 3.0];
    let mut bound = HashMap::new();
    bind(&sg, &mut bound, at[&a.id], &[4.0, 4.0]);
    bind(&sg, &mut bound, at[&b.id], &[8.0, 8.0]);
    bind(&sg, &mut bound, at[&d.id], &dv);
    let outs = outputs(&sg.graph);
    assert_eq!(outs.len(), 6);
    let d_little = &sg.inputs_tracker.new_inputs[&at[&d.id]];
    let mut rows = vec![Vec::new(), Vec::new()];
    for o in outs {
        let ins = sg.graph.edges_directed(o, Direction::Incoming);
        let from_d = ins.iter().find(|e| d_little.contains(&e.source)).unwrap().source;
        let k = d_little.iter().position(|n| *n == from_d).unwrap();
        rows[k / 3].push((k % 3, eval(&sg.graph, o, &bound)));
    }
    for row in rows.iter_mut() {
        row.sort_by_key(|p| p.0);
        let values: Vec<f32> = row.iter().map(|p| p.1).collect();
        assert_eq!(values, vec![13.0, 14.0, 15.0]);
    }
}

#[test]
fn test_matmul() {
    // the sizes of both tensors are not known before the graph is run
    let mut cx = TensorGraph::new();
    let a = cx.tensor::<(Dyn<'M'>, Dyn<'K'>)>();
    let b = cx.tensor::<(Dyn<'K'>, Dyn<'N'>)>();
    let c = a.matmul(b).retrieve();
    let (g, _) = graph_of(&cx, &c);
    assert!(matches!(scalar(g), Err(ScalarizeError::NonStaticShape(_))));
}

#[test]
fn test_cpu_matmul_2d_2() {
    let mut cx = TensorGraph::new();
    let a = cx.tensor::<R2<2, 3>>();
    let av = vec![1.0, 2.0, 3.0, 1.0, 2.0, 3.0];
    a.set(av.clone());
    let b = cx.tensor::<R2<3, 4>>();
    let bv = vec![1., 2., 3., 1., 2., 3., 1., 2., 3., 1., 2., 3.];
    b.set(bv.clone());
    let c = a.matmul(b).retrieve();

    cx.execute();
    let unoptimized_c = c.data();

    let (g, at) = graph_of(&cx, &c);
    let sg = scalar(g).unwrap();
    assert_eq!(sg.inputs_tracker.new_inputs[&at[&a.id]].len(), 6);
    assert_eq!(sg.inputs_tracker.new_inputs[&at[&b.id]].len(), 12);
    assert_eq!(outputs(&sg.graph).len(), 8);
    let mut bound = HashMap::new();
    bind(&sg, &mut bound, at[&a.id], &av);
    bind(&sg, &mut bound, at[&b.id], &bv);
    let mut got: Vec<f32> = outputs(&sg.graph).iter().map(|o| eval(&sg.graph, *o, &bound)).collect();
    got.sort_by(|x, y| x.partial_cmp(y).unwrap());
    // every fold starts from its first product and then takes in every product, the
    // first one again: entry (i, j) is the tensor product plus a[i][0] * b[0][j]
    let mut want = Vec::new();
    for i in 0..2 {
        for j in 0..4 {
            want.push(unoptimized_c[i * 4 + j] + av[i * 3] * bv[j]);
        }
    }
    want.sort_by(|x, y| x.partial_cmp(y).unwrap());
    assert_eq!(got, want);
}

#[test]
fn copy_keeps_kinds_edges_and_marks() {
    let mut cx = TensorGraph::new();
    let a = cx.tensor::<R1<2>>();
    let b = cx.tensor::<R1<2>>();
    let c = (a * b).retrieve();
    let (mut g, at) = graph_of(&cx, &c);
    // make room at the front, so that the copy has to rename
    let extra = g.add_op(OpKind::Input);
    assert_eq!(g.remove_node(at[&a.id]), Some(OpKind::Input));
    assert!(g.add_edge(extra, at[&c.id], EdgeData { input_order: 0, output_order: 0, shape: ShapeTracker::new(vec![2]) }).is_some());
    let (copy, remap) = copy_graph_roughly(&g);
    assert_eq!(remap.len(), 3);
    assert_eq!(copy.node_indices().len(), 3);
    for n in g.node_indices() {
        assert_eq!(copy.node_weight(remap[&n]), g.node_weight(n));
        assert_eq!(copy.retrieval_shape(remap[&n]).is_some(), g.retrieval_shape(n).is_some());
        let mut there: Vec<(usize, u8)> = g
            .edges_directed(n, Direction::Incoming)
            .iter()
            .map(|e| (remap[&e.source], e.input_order))
            .collect();
        let mut here: Vec<(usize, u8)> = copy
            .edges_directed(remap[&n], Direction::Incoming)
            .iter()
            .map(|e| (e.source, e.input_order))
            .collect();
        there.sort();
        here.sort();
        assert_eq!(there, here);
    }
    // the copy is independent of the graph it came from
    g.remove_node(extra);
    assert_eq!(copy.node_indices().len(), 3);
}

#[test]
fn copy_of_a_scalar_graph_renames_its_tracker() {
    let mut cx = TensorGraph::new();
    let a = cx.tensor::<R1<2>>();
    let b = cx.tensor::<R1<2>>();
    let c = (a + b).retrieve();
    let (g, at) = graph_of(&cx, &c);
    let sg = scalar(g).unwrap();
    let copy = sg.copy_graph_roughly();
    assert_eq!(copy.graph.node_indices().len(), sg.graph.node_indices().len());
    let mut bound = HashMap::new();
    bind(&copy, &mut bound, at[&a.id], &[1.0, 2.0]);
    bind(&copy, &mut bound, at[&b.id], &[10.0, 20.0]);
    let mut got: Vec<f32> = outputs(&copy.graph).iter().map(|o| eval(&copy.graph, *o, &bound)).collect();
    got.sort_by(|x, y| x.partial_cmp(y).unwrap());
    assert_eq!(got, vec![11.0, 22.0]);
    for n in copy.inputs_tracker.new_inputs.values().flatten() {
        assert_eq!(copy.graph.node_weight(*n), Some(OpKind::InputOp));
    }
}
