//! The parsed form of Rust MIR.

use vstd::prelude::*;

verus! {

/// A type.
#[derive(Debug, PartialEq, Eq)]
pub enum MType {
    Int { width: u32, signed: bool },
    Bool,
    Unit,
    /// A reference; `true` where it is mutable.
    Ref(Box<MType>, bool),
    /// A raw pointer; `true` where it is mutable.
    Ptr(Box<MType>, bool),
    Array(Box<MType>, u64),
    Slice(Box<MType>),
    /// A type that is not modelled.
    Other,
}

impl MType {
    /// A copy of the type.
    pub fn copy(&self) -> (t: MType)
        ensures
            t == *self,
        decreases self,
    {
        match self {
            MType::Int { width, signed } => MType::Int { width: *width, signed: *signed },
            MType::Bool => MType::Bool,
            MType::Unit => MType::Unit,
            MType::Ref(t, m) => MType::Ref(Box::new(t.copy()), *m),
            MType::Ptr(t, m) => MType::Ptr(Box::new(t.copy()), *m),
            MType::Array(t, n) => MType::Array(Box::new(t.copy()), *n),
            MType::Slice(t) => MType::Slice(Box::new(t.copy())),
            MType::Other => MType::Other,
        }
    }
}

/// A constant.
#[derive(Debug, Clone, Copy, PartialEq, Eq, Structural)]
pub enum MConst {
    Int(i128),
    Bool(bool),
}

/// A local with projections.
#[derive(Debug, PartialEq, Eq)]
pub enum Place {
    Local(u32),
    Deref(Box<Place>),
    /// The element at the index that a local holds.
    Index(Box<Place>, u32),
    /// The element at a constant index.
    ConstIndex(Box<Place>, u64),
    /// A field, with its type where that is ascribed.
    Field(Box<Place>, u32, Option<MType>),
}

/// An operand.
#[derive(Debug, PartialEq, Eq)]
pub enum MOperand {
    Copy(Place),
    Move(Place),
    Const(MConst),
}

/// A binary operator.
#[derive(Debug, Clone, Copy, PartialEq, Eq, Structural)]
pub enum BinKind {
    Add,
    Sub,
    Mul,
    Lt,
    Le,
    Gt,
    Ge,
    Eq,
    Ne,
    BitAnd,
    BitOr,
    BitXor,
    /// An operator that is not modelled.
    Other,
}

/// The right side of an assignment.
#[derive(Debug, PartialEq, Eq)]
pub enum MRvalue {
    Use(MOperand),
    Bin(BinKind, MOperand, MOperand),
    /// Arithmetic that also tells whether it overflowed.
    CheckedBin(BinKind, MOperand, MOperand),
    Len(Place),
    Ref(Place),
    Cast(MOperand),
    Discriminant(Place),
    /// A right side that is not modelled.
    Other,
}

/// Who a call invokes.
#[derive(Debug, PartialEq, Eq)]
pub enum CalleeSpec {
    Named(String),
    /// The function that a local points to.
    Indirect(u32),
}

/// A statement.
#[derive(Debug, PartialEq, Eq)]
pub enum MStmt {
    Assign(Place, MRvalue),
    /// A statement without an effect.
    Nop,
}

/// How a block ends.
#[derive(Debug, PartialEq, Eq)]
pub enum MTerm {
    Goto(usize),
    Return,
    SwitchInt(MOperand, Vec<(i128, usize)>, usize),
    /// Continue at the target where the condition has the expected value.
    Assert { cond: MOperand, expected: bool, target: usize },
    Call {
        dst: Place,
        callee: CalleeSpec,
        args: Vec<MOperand>,
        target: Option<usize>,
        unwind: Option<usize>,
    },
    Drop { target: Option<usize>, unwind: Option<usize> },
    Unreachable,
    /// A terminator that is not modelled.
    Unsupported,
}

/// A basic block.
#[derive(Debug, PartialEq, Eq)]
pub struct MBlock {
    pub id: usize,
    pub stmts: Vec<MStmt>,
    /// The source location of each statement, where it is known.
    pub stmt_spans: Vec<Option<String>>,
    pub term: MTerm,
    pub term_span: Option<String>,
}

/// A function body.
#[derive(Debug, PartialEq, Eq)]
pub struct MirBody {
    pub name: String,
    pub params: Vec<(u32, MType)>,
    /// The declared types of other locals.
    pub locals: Vec<(u32, MType)>,
    pub ret: MType,
    pub blocks: Vec<MBlock>,
}

} // verus!
