//! The closed vocabulary of operations a node can carry.

use vstd::prelude::*;

verus! {

/// What a node computes.
///
/// A tensor graph is built from the first nine kinds; scalarizing it leaves only
/// `Recip`, `Add`, `Mul`, `LessThan` and the three markers `InputOp`, `ConstantOp` and
/// `Max`, which stand for values and are never evaluated here. Literals are held as the
/// bit pattern of a 32-bit float.
#[derive(Clone, Copy, Debug, PartialEq, Eq, Structural)]
pub enum OpKind {
    /// A source tensor supplied from outside.
    Input,
    /// A literal.
    Constant(u32),
    /// Elementwise reciprocal.
    Recip,
    /// Elementwise sum of two operands.
    Add,
    /// Elementwise product of two operands.
    Mul,
    /// Elementwise comparison of two operands.
    LessThan,
    /// Sum along one axis.
    SumReduce(usize),
    /// Maximum along one axis.
    MaxReduce(usize),
    /// Anything else.
    Unsupported,
    /// Marker: one scalar of a source tensor.
    InputOp,
    /// Marker: one scalar literal.
    ConstantOp(u32),
    /// Marker: the larger of two scalars.
    Max,
}

impl OpKind {
    /// The kinds that combine two operands elementwise.
    pub open spec fn is_binary_pointwise(self) -> bool {
        self == OpKind::Add || self == OpKind::Mul || self == OpKind::LessThan
    }

    /// The kinds that fold one axis away.
    pub open spec fn is_reduce(self) -> bool {
        self is SumReduce || self is MaxReduce
    }

    /// The axis a reduction folds.
    pub open spec fn reduce_axis(self) -> usize {
        match self {
            OpKind::SumReduce(a) => a,
            OpKind::MaxReduce(a) => a,
            _ => 0,
        }
    }
}

} // verus!
