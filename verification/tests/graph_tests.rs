use scalarize::error::ScalarizeError;
use scalarize::graph::{Direction, EdgeData, Graph};
use scalarize::op::OpKind;
use scalarize::scalar::{scalar, ScalarGraph, Scalarize};
use scalarize::shape::ShapeTracker;
use scalarize::validate::UniformOutShapes;
use std::collections::HashMap;

const OPEN: (usize, usize) = (0, 0x7fff_ffff);

fn link(g: &mut Graph, from: usize, to: usize, slot: u8, shape: ShapeTracker) -> usize {
    g.add_edge(from, to, EdgeData { input_order: slot, output_order: 0, shape }).unwrap()
}

fn flat(dims: &[usize]) -> ShapeTracker {
    ShapeTracker::new(dims.to_vec())
}

/// Storage `(rows,)` seen as `(rows, cols)`, every stored element repeated `cols` times.
fn broadcast_rows(rows: usize, cols: usize) -> ShapeTracker {
    ShapeTracker {
        dims: vec![rows, cols],
        indexes: vec![0, 1],
        fake: vec![false, true],
        slices: vec![OPEN, OPEN],
        padding: vec![(0, 0), (0, 0)],
    }
}

/// The value of a scalar node, with every input marker bound in `bound`.
fn eval(g: &Graph, n: usize, bound: &HashMap<usize, f32>) -> f32 {
    let mut ins = g.edges_directed(n, Direction::Incoming);
    ins.sort_by_key(|e| e.input_order);
    let arg = |k: usize| eval(g, ins[k].source, bound);
    match g.node_weight(n).unwrap() {
        OpKind::InputOp => bound[&n],
        OpKind::ConstantOp(bits) => f32::from_bits(bits),
        OpKind::Recip => 1.0 / arg(0),
        OpKind::Add => arg(0) + arg(1),
        OpKind::Mul => arg(0) * arg(1),
        OpKind::LessThan => {
            if arg(0) < arg(1) {
                1.0
            } else {
                0.0
            }
        }
        OpKind::Max => arg(0).max(arg(1)),
        other => panic!("not a scalar node: {:?}", other),
    }
}

/// Binds the little nodes of input `x` to `data`, element by element.
fn bind(sg: &ScalarGraph, bound: &mut HashMap<usize, f32>, x: usize, data: &[f32]) {
    let little = &sg.inputs_tracker.new_inputs[&x];
    assert_eq!(little.len(), data.len());
    for (n, v) in little.iter().zip(data) {
        bound.insert(*n, *v);
    }
}

/// The nodes marked for retrieval.
fn outputs(g: &Graph) -> Vec<usize> {
    g.node_indices().into_iter().filter(|n| g.retrieval_shape(*n).is_some()).collect()
}

fn all_edges(g: &Graph) -> Vec<scalarize::graph::EdgeEntry> {
    let mut all = Vec::new();
    for n in g.node_indices() {
        all.extend(g.edges_directed(n, Direction::Outgoing));
    }
    all
}

/// `(a + b) + d` over tensors of two elements; returns the graph and `a`, `b`, `d`.
fn sum_of_three() -> (Graph, usize, usize, usize) {
    let mut g = Graph::new();
    let a = g.add_op(OpKind::Input);
    let b = g.add_op(OpKind::Input);
    let d = g.add_op(OpKind::Input);
    let ab = g.add_op(OpKind::Add);
    let c = g.add_op(OpKind::Add);
    link(&mut g, a, ab, 0, flat(&[2]));
    link(&mut g, b, ab, 1, flat(&[2]));
    link(&mut g, ab, c, 0, flat(&[2]));
    link(&mut g, d, c, 1, flat(&[2]));
    assert!(g.retrieve(c, flat(&[2])));
    (g, a, b, d)
}

#[test]
fn pointwise_sum_of_three_tensors() {
    let (g, a, b, d) = sum_of_three();
    let sg = scalar(g).unwrap();
    let mut bound = HashMap::new();
    bind(&sg, &mut bound, a, &[1.0, 1.0]);
    bind(&sg, &mut bound, b, &[2.0, 2.0]);
    bind(&sg, &mut bound, d, &[3.0, 3.0]);
    let outs = outputs(&sg.graph);
    assert_eq!(outs.len(), 2);
    for o in outs {
        assert_eq!(eval(&sg.graph, o, &bound), 6.0);
    }
}

#[test]
fn pointwise_sum_keeps_elements_apart() {
    let (g, a, b, d) = sum_of_three();
    let sg = scalar(g).unwrap();
    let mut bound = HashMap::new();
    bind(&sg, &mut bound, a, &[1.0, 10.0]);
    bind(&sg, &mut bound, b, &[2.0, 20.0]);
    bind(&sg, &mut bound, d, &[4.0, 40.0]);
    let mut got: Vec<f32> = outputs(&sg.graph).iter().map(|o| eval(&sg.graph, *o, &bound)).collect();
    got.sort_by(|x, y| x.partial_cmp(y).unwrap());
    assert_eq!(got, vec![7.0, 70.0]);
}

#[test]
fn every_node_gets_one_little_node_per_element() {
    let (g, a, b, d) = sum_of_three();
    let sg = scalar(g).unwrap();
    // 3 inputs and 2 sums, of 2 elements each
    assert_eq!(sg.graph.node_indices().len(), 10);
    for x in [a, b, d] {
        assert_eq!(sg.inputs_tracker.new_inputs[&x].len(), 2);
    }
    let kinds: Vec<OpKind> =
        sg.graph.node_indices().iter().map(|n| sg.graph.node_weight(*n).unwrap()).collect();
    assert_eq!(kinds.iter().filter(|k| **k == OpKind::InputOp).count(), 6);
    assert_eq!(kinds.iter().filter(|k| **k == OpKind::Add).count(), 4);
}

#[test]
fn every_edge_is_scalar_after_the_pass() {
    let (g, _, _, _) = sum_of_three();
    let sg = scalar(g).unwrap();
    let edges = all_edges(&sg.graph);
    assert_eq!(edges.len(), 8);
    for e in edges {
        assert!(e.shape.is_trivial());
        assert_eq!(e.output_order, 0);
    }
    for o in outputs(&sg.graph) {
        assert!(sg.graph.retrieval_shape(o).unwrap().is_trivial());
    }
}

#[test]
fn tracker_lists_inputs_and_constants() {
    let mut g = Graph::new();
    let a = g.add_op(OpKind::Input);
    let k = g.add_op(OpKind::Constant(2.5f32.to_bits()));
    let m = g.add_op(OpKind::Mul);
    link(&mut g, a, m, 0, flat(&[3]));
    // the constant is one stored element, seen three times
    let seen_thrice = ShapeTracker {
        dims: vec![3],
        indexes: vec![0],
        fake: vec![true],
        slices: vec![OPEN],
        padding: vec![(0, 0)],
    };
    link(&mut g, k, m, 1, seen_thrice);
    assert!(g.retrieve(m, flat(&[3])));
    let sg = scalar(g).unwrap();
    assert_eq!(sg.inputs_tracker.new_inputs.len(), 1);
    assert_eq!(sg.inputs_tracker.new_inputs[&a].len(), 3);
    assert_eq!(sg.inputs_tracker.constants.len(), 1);
    let (node, bits) = sg.inputs_tracker.constants.iter().next().unwrap();
    assert_eq!(f32::from_bits(*bits), 2.5);
    assert_eq!(sg.graph.node_weight(*node), Some(OpKind::ConstantOp(2.5f32.to_bits())));
    let mut bound = HashMap::new();
    bind(&sg, &mut bound, a, &[1.0, 2.0, 4.0]);
    let mut got: Vec<f32> = outputs(&sg.graph).iter().map(|o| eval(&sg.graph, *o, &bound)).collect();
    got.sort_by(|x, y| x.partial_cmp(y).unwrap());
    assert_eq!(got, vec![2.5, 5.0, 10.0]);
}

#[test]
fn broadcast_sum_reads_each_row_three_times() {
    let mut g = Graph::new();
    let a = g.add_op(OpKind::Input);
    let b = g.add_op(OpKind::Input);
    let d = g.add_op(OpKind::Input);
    let ab = g.add_op(OpKind::Add);
    let c = g.add_op(OpKind::Add);
    link(&mut g, a, ab, 0, flat(&[2]));
    link(&mut g, b, ab, 1, flat(&[2]));
    link(&mut g, ab, c, 0, broadcast_rows(2, 3));
    link(&mut g, d, c, 1, flat(&[2, 3]));
    assert!(g.retrieve(c, flat(&[2, 3])));
    let sg = scalar(g).unwrap();
    let av = [4.0, 4.0];
    let bv = [8.0, 8.0];
    let dv = [1.0, 2.0, 3.0, 1.0, 2.0, 3.0];
    let mut bound = HashMap::new();
    bind(&sg, &mut bound, a, &av);
    bind(&sg, &mut bound, b, &bv);
    bind(&sg, &mut bound, d, &dv);
    let outs = outputs(&sg.graph);
    assert_eq!(outs.len(), 6);
    assert_eq!(sg.inputs_tracker.new_inputs[&d].len(), 6);
    assert_eq!(sg.inputs_tracker.new_inputs[&a].len(), 2);
    let mut seen = vec![false; 6];
    for o in outs {
        // the element of `d` that this output reads says which output it is
        let ins = sg.graph.edges_directed(o, Direction::Incoming);
        let from_d = ins.iter().find(|e| e.input_order == 1).unwrap().source;
        let k = sg.inputs_tracker.new_inputs[&d].iter().position(|n| *n == from_d).unwrap();
        let (i, j) = (k / 3, k % 3);
        assert_eq!(eval(&sg.graph, o, &bound), dv[i * 3 + j] + av[i] + bv[i]);
        assert_eq!(eval(&sg.graph, o, &bound), [13.0, 14.0, 15.0][j]);
        seen[k] = true;
    }
    assert!(seen.iter().all(|s| *s));
}

/// A reduction of a `(2, 3)` input along `axis`; returns the graph and the input.
fn reduction(op: OpKind, out_len: usize) -> (Graph, usize) {
    let mut g = Graph::new();
    let y = g.add_op(OpKind::Input);
    let r = g.add_op(op);
    link(&mut g, y, r, 0, flat(&[2, 3]));
    assert!(g.retrieve(r, flat(&[out_len])));
    (g, y)
}

/// The values of the outputs, each with the first element of `y` that its fold reads.
fn folded(sg: &ScalarGraph, y: usize, data: &[f32]) -> Vec<(usize, f32)> {
    let mut bound = HashMap::new();
    bind(sg, &mut bound, y, data);
    let mut got = Vec::new();
    for o in outputs(&sg.graph) {
        let mut n = o;
        loop {
            let ins = sg.graph.edges_directed(n, Direction::Incoming);
            let left = ins.iter().find(|e| e.input_order == 0).unwrap().source;
            if sg.graph.node_weight(left) == Some(OpKind::InputOp) {
                let first = sg.inputs_tracker.new_inputs[&y].iter().position(|m| *m == left).unwrap();
                got.push((first, eval(&sg.graph, o, &bound)));
                break;
            }
            n = left;
        }
    }
    got.sort_by(|a, b| a.0.cmp(&b.0));
    got
}

#[test]
fn sum_along_the_last_axis_folds_each_row() {
    let (g, y) = reduction(OpKind::SumReduce(1), 2);
    let sg = scalar(g).unwrap();
    // one fold of three steps per row
    assert_eq!(outputs(&sg.graph).len(), 2);
    assert_eq!(sg.graph.node_indices().len(), 6 + 2 * 3);
    let data = [1.0, 2.0, 4.0, 10.0, 20.0, 40.0];
    // the fold starts from the first entry of the row and then takes in every entry,
    // the first one again
    assert_eq!(folded(&sg, y, &data), vec![(0, 1.0 + 7.0), (3, 10.0 + 70.0)]);
}

#[test]
fn sum_along_the_first_axis_folds_each_column() {
    let (g, y) = reduction(OpKind::SumReduce(0), 3);
    let sg = scalar(g).unwrap();
    assert_eq!(outputs(&sg.graph).len(), 3);
    assert_eq!(sg.graph.node_indices().len(), 6 + 3 * 2);
    let data = [1.0, 2.0, 4.0, 10.0, 20.0, 40.0];
    assert_eq!(
        folded(&sg, y, &data),
        vec![(0, 1.0 + 11.0), (1, 2.0 + 22.0), (2, 4.0 + 44.0)]
    );
}

#[test]
fn max_along_an_axis_matches_the_tensor_maximum() {
    let (g, y) = reduction(OpKind::MaxReduce(1), 2);
    let sg = scalar(g).unwrap();
    let data = [3.0, 9.0, 4.0, 8.0, 2.0, 7.0];
    let got: Vec<f32> = folded(&sg, y, &data).iter().map(|p| p.1).collect();
    let oracle: Vec<f32> =
        data.chunks(3).map(|row| row.iter().cloned().fold(f32::MIN, f32::max)).collect();
    assert_eq!(got, oracle);
    for n in sg.graph.node_indices() {
        let k = sg.graph.node_weight(n).unwrap();
        assert!(k == OpKind::Max || k == OpKind::InputOp);
    }
}

#[test]
fn reducing_an_axis_of_one_entry_fails() {
    let mut g = Graph::new();
    let y = g.add_op(OpKind::Input);
    let r = g.add_op(OpKind::SumReduce(1));
    link(&mut g, y, r, 0, flat(&[2, 1]));
    assert!(g.retrieve(r, flat(&[2])));
    assert_eq!(scalar(g).unwrap_err(), ScalarizeError::DegenerateReduceAxis(r));
}

#[test]
fn reducing_a_missing_axis_fails() {
    let (g, _) = reduction(OpKind::MaxReduce(2), 2);
    assert!(matches!(scalar(g), Err(ScalarizeError::DegenerateReduceAxis(_))));
}

#[test]
fn reduction_of_the_wrong_size_fails() {
    let (g, y) = reduction(OpKind::SumReduce(1), 3);
    assert_eq!(scalar(g).unwrap_err(), ScalarizeError::NonUniformOutgoingShapes(y));
}

#[test]
fn unknown_binary_operation_is_rejected() {
    let mut g = Graph::new();
    let a = g.add_op(OpKind::Input);
    let b = g.add_op(OpKind::Input);
    let q = g.add_op(OpKind::Unsupported);
    link(&mut g, a, q, 0, flat(&[2]));
    link(&mut g, b, q, 1, flat(&[2]));
    assert!(g.retrieve(q, flat(&[2])));
    assert_eq!(scalar(g).unwrap_err(), ScalarizeError::UnsupportedBinaryOp(q));
}

#[test]
fn unknown_unary_operation_is_rejected() {
    let mut g = Graph::new();
    let a = g.add_op(OpKind::Input);
    let q = g.add_op(OpKind::Add);
    link(&mut g, a, q, 0, flat(&[2]));
    assert!(g.retrieve(q, flat(&[2])));
    assert_eq!(scalar(g).unwrap_err(), ScalarizeError::UnsupportedUnaryOp(q));
}

#[test]
fn three_operands_are_rejected() {
    let mut g = Graph::new();
    let a = g.add_op(OpKind::Input);
    let q = g.add_op(OpKind::Add);
    for slot in 0..3 {
        link(&mut g, a, q, slot, flat(&[2]));
    }
    assert!(g.retrieve(q, flat(&[2])));
    assert_eq!(scalar(g).unwrap_err(), ScalarizeError::UnsupportedNodeArity(q));
}

#[test]
fn operation_without_operands_is_rejected() {
    let mut g = Graph::new();
    let q = g.add_op(OpKind::Mul);
    assert!(g.retrieve(q, flat(&[2])));
    assert_eq!(scalar(g).unwrap_err(), ScalarizeError::UnsupportedSourceNodeKind(q));
}

#[test]
fn constant_of_two_elements_is_rejected() {
    let mut g = Graph::new();
    let k = g.add_op(OpKind::Constant(1.0f32.to_bits()));
    assert!(g.retrieve(k, flat(&[2])));
    assert_eq!(scalar(g).unwrap_err(), ScalarizeError::NonScalarConstant(k));
}

#[test]
fn node_without_a_shape_is_rejected() {
    let mut g = Graph::new();
    let a = g.add_op(OpKind::Input);
    assert_eq!(scalar(g).unwrap_err(), ScalarizeError::NonStaticShape(a));
}

#[test]
fn node_with_an_unsupported_shape_is_rejected() {
    let mut g = Graph::new();
    let a = g.add_op(OpKind::Input);
    assert!(g.retrieve(a, flat(&[0])));
    assert_eq!(scalar(g).unwrap_err(), ScalarizeError::NonStaticShape(a));
}

#[test]
fn differing_outgoing_shapes_are_rejected() {
    let mut g = Graph::new();
    let a = g.add_op(OpKind::Input);
    let p = g.add_op(OpKind::Recip);
    let q = g.add_op(OpKind::Recip);
    link(&mut g, a, p, 0, flat(&[2]));
    link(&mut g, a, q, 0, flat(&[1, 2]));
    assert!(g.retrieve(p, flat(&[2])));
    assert!(g.retrieve(q, flat(&[1, 2])));
    assert_eq!(UniformOutShapes.compile(&g), Err(ScalarizeError::NonUniformOutgoingShapes(a)));
    assert_eq!(scalar(g).unwrap_err(), ScalarizeError::NonUniformOutgoingShapes(a));
}

#[test]
fn differing_output_slots_are_rejected() {
    let mut g = Graph::new();
    let a = g.add_op(OpKind::Input);
    let p = g.add_op(OpKind::Recip);
    let q = g.add_op(OpKind::Recip);
    link(&mut g, a, p, 0, flat(&[2]));
    g.add_edge(a, q, EdgeData { input_order: 0, output_order: 1, shape: flat(&[2]) }).unwrap();
    assert_eq!(UniformOutShapes.compile(&g), Err(ScalarizeError::NonUniformOutgoingShapes(a)));
}

#[test]
fn uniform_graph_passes_the_check() {
    let (g, _, _, _) = sum_of_three();
    assert_eq!(UniformOutShapes.compile(&g), Ok(()));
    assert_eq!(UniformOutShapes.compile(&Graph::new()), Ok(()));
}

#[test]
fn operand_of_the_wrong_size_is_rejected() {
    let mut g = Graph::new();
    let a = g.add_op(OpKind::Input);
    let p = g.add_op(OpKind::Recip);
    link(&mut g, a, p, 0, flat(&[2]));
    assert!(g.retrieve(p, flat(&[3])));
    assert_eq!(scalar(g).unwrap_err(), ScalarizeError::NonUniformOutgoingShapes(a));
}

#[test]
fn padded_operand_asks_for_elements_that_are_not_stored() {
    let mut g = Graph::new();
    let a = g.add_op(OpKind::Input);
    let p = g.add_op(OpKind::Recip);
    let padded = ShapeTracker {
        dims: vec![3],
        indexes: vec![0],
        fake: vec![false],
        slices: vec![OPEN],
        padding: vec![(1, 1)],
    };
    link(&mut g, a, p, 0, padded);
    assert!(g.retrieve(a, flat(&[3])));
    assert!(g.retrieve(p, flat(&[5])));
    assert_eq!(scalar(g).unwrap_err(), ScalarizeError::IndexOutOfPhysicalRange(a));
}

#[test]
fn cyclic_graph_is_rejected() {
    let mut g = Graph::new();
    let p = g.add_op(OpKind::Recip);
    let q = g.add_op(OpKind::Recip);
    link(&mut g, p, q, 0, flat(&[2]));
    link(&mut g, q, p, 0, flat(&[2]));
    assert_eq!(g.toposort(), None);
    assert_eq!(scalar(g).unwrap_err(), ScalarizeError::CyclicGraph);
}

#[test]
fn compiling_twice_gives_the_same_shape_of_graph() {
    let run = || {
        let (g, a, b, d) = sum_of_three();
        let sg = scalar(g).unwrap();
        let mut kinds: Vec<String> = sg
            .graph
            .node_indices()
            .iter()
            .map(|n| format!("{:?}", sg.graph.node_weight(*n).unwrap()))
            .collect();
        kinds.sort();
        let mut edges: Vec<(usize, usize, u8)> =
            all_edges(&sg.graph).iter().map(|e| (e.source, e.target, e.input_order)).collect();
        edges.sort();
        let inputs: Vec<Vec<usize>> =
            [a, b, d].iter().map(|x| sg.inputs_tracker.new_inputs[x].clone()).collect();
        (kinds, edges, inputs)
    };
    assert_eq!(run(), run());
}

#[test]
fn the_pass_alone_needs_a_checked_graph() {
    let (mut g, a, _, _) = sum_of_three();
    assert_eq!(UniformOutShapes.compile(&g), Ok(()));
    let tracker = Scalarize.compile(&mut g).unwrap();
    assert_eq!(tracker.new_inputs[&a].len(), 2);
    assert!(tracker.constants.is_empty());
}

#[test]
fn reciprocal_and_comparison_are_elementwise() {
    let mut g = Graph::new();
    let a = g.add_op(OpKind::Input);
    let b = g.add_op(OpKind::Input);
    let r = g.add_op(OpKind::Recip);
    let lt = g.add_op(OpKind::LessThan);
    link(&mut g, a, r, 0, flat(&[2]));
    link(&mut g, r, lt, 0, flat(&[2]));
    link(&mut g, b, lt, 1, flat(&[2]));
    assert!(g.retrieve(lt, flat(&[2])));
    let sg = scalar(g).unwrap();
    let mut bound = HashMap::new();
    bind(&sg, &mut bound, a, &[2.0, 0.5]);
    bind(&sg, &mut bound, b, &[1.0, 1.0]);
    let mut got: Vec<f32> = outputs(&sg.graph).iter().map(|o| eval(&sg.graph, *o, &bound)).collect();
    got.sort_by(|x, y| x.partial_cmp(y).unwrap());
    // 1/2 < 1 holds, 1/0.5 < 1 does not
    assert_eq!(got, vec![0.0, 1.0]);
}

#[test]
fn graph_keeps_what_is_put_into_it() {
    let mut g = Graph::new();
    let a = g.add_op(OpKind::Input);
    let b = g.add_op(OpKind::Recip);
    let e = link(&mut g, a, b, 0, flat(&[2]));
    assert_eq!(g.node_indices(), vec![a, b]);
    assert_eq!(g.node_weight(a), Some(OpKind::Input));
    assert_eq!(g.node_weight(b + 7), None);
    assert_eq!(g.toposort(), Some(vec![a, b]));
    let ins = g.edges_directed(b, Direction::Incoming);
    assert_eq!(ins.len(), 1);
    assert_eq!((ins[0].id, ins[0].source, ins[0].target), (e, a, b));
    assert!(g.edges_directed(a, Direction::Incoming).is_empty());
    assert_eq!(g.edges_directed(a, Direction::Outgoing).len(), 1);
    // an edge to a node that is not there is not added
    assert!(g.add_edge(a, b + 7, EdgeData { input_order: 0, output_order: 0, shape: flat(&[2]) }).is_none());
    assert!(!g.retrieve(b + 7, flat(&[2])));
    assert!(g.retrieval_shape(b).is_none());
    assert!(g.retrieve(b, flat(&[2])));
    assert!(g.retrieval_shape(b).unwrap().same(&flat(&[2])));
    // removing a node takes its edges and its mark along
    assert_eq!(g.remove_node(b), Some(OpKind::Recip));
    assert_eq!(g.remove_node(b), None);
    assert!(g.edges_directed(a, Direction::Outgoing).is_empty());
    assert!(g.retrieval_shape(b).is_none());
    assert_eq!(g.node_indices(), vec![a]);
}

#[test]
fn operands_come_in_the_order_of_their_slots() {
    let mut g = Graph::new();
    let a = g.add_op(OpKind::Input);
    let b = g.add_op(OpKind::Input);
    let c = g.add_op(OpKind::Input);
    let q = g.add_op(OpKind::Add);
    let second = link(&mut g, b, q, 1, flat(&[2]));
    let third = link(&mut g, c, q, 2, flat(&[2]));
    let first = link(&mut g, a, q, 0, flat(&[2]));
    let also_second = link(&mut g, c, q, 1, flat(&[2]));
    let listed: Vec<usize> = g.edges_directed(q, Direction::Incoming).iter().map(|e| e.id).collect();
    let sorted: Vec<(u8, usize)> = g.operands(q).iter().map(|e| (e.input_order, e.id)).collect();
    assert_eq!(sorted.len(), 4);
    assert_eq!(sorted[0], (0, first));
    assert_eq!(sorted[3], (2, third));
    // entries with the same slot keep the order in which the graph lists them
    let pos = |e: usize| listed.iter().position(|x| *x == e).unwrap();
    let (early, late) = if pos(second) < pos(also_second) {
        (second, also_second)
    } else {
        (also_second, second)
    };
    assert_eq!(sorted[1], (1, early));
    assert_eq!(sorted[2], (1, late));
    // the listing by direction is not in slot order here
    assert_ne!(listed, sorted.iter().map(|p| p.1).collect::<Vec<usize>>());
}

#[test]
fn offset_outside_the_storage_is_refused() {
    // sliced padding: the one element seen resolves to an offset before the storage
    let odd = ShapeTracker {
        dims: vec![1],
        indexes: vec![0],
        fake: vec![false],
        slices: vec![(1, 0x7fff_ffff)],
        padding: vec![(1, 0)],
    };
    assert_eq!(odd.n_elements(), Some(1));
    assert!(scalarize::shape::logical_to_physical(&odd, 0).unwrap() >= 1);
    let mut g = Graph::new();
    let a = g.add_op(OpKind::Input);
    let p = g.add_op(OpKind::Recip);
    link(&mut g, a, p, 0, odd);
    assert!(g.retrieve(a, flat(&[1])));
    assert!(g.retrieve(p, flat(&[1])));
    assert_eq!(scalar(g).unwrap_err(), ScalarizeError::IndexOutOfPhysicalRange(a));
}
