//! Why a graph could not be scalarized.

use vstd::prelude::*;

verus! {

/// The ways scalarization fails. Each failure ends the whole pass; where one node is
/// at fault the error names it.
#[derive(Clone, Copy, Debug, PartialEq, Eq, Structural)]
pub enum ScalarizeError {
    /// The outgoing edges of the node disagree on shape or output slot, or the node
    /// feeds a consumer an operand of the wrong size.
    NonUniformOutgoingShapes(usize),
    /// The element count of the node's output cannot be determined.
    NonStaticShape(usize),
    /// The node has no operands and is neither an input nor a constant.
    UnsupportedSourceNodeKind(usize),
    /// The constant node has more than one element.
    NonScalarConstant(usize),
    /// The node has one operand and is neither a reciprocal nor a reduction.
    UnsupportedUnaryOp(usize),
    /// The node has two operands and is none of sum, product, comparison.
    UnsupportedBinaryOp(usize),
    /// The node has more than two operands.
    UnsupportedNodeArity(usize),
    /// The node reduces an axis that is missing or has at most one element.
    DegenerateReduceAxis(usize),
    /// An edge leaving the node asks for an element that no storage backs.
    IndexOutOfPhysicalRange(usize),
    /// The graph has a cycle.
    CyclicGraph,
}

} // verus!
