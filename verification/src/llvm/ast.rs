//! The parsed form of an LLVM-IR module.

use crate::llvm::debuginfo::DebugInfo;
use vstd::prelude::*;

verus! {

/// A type.
#[derive(Debug, PartialEq, Eq)]
pub enum LType {
    Void,
    Metadata,
    Int(u32),
    Ptr,
    Array(Box<LType>, u64),
    Vector(Box<LType>, u64),
    Struct(LFields),
    PackedStruct(LFields),
    Named(String),
}

/// The fields of a struct type, in order.
#[derive(Debug, PartialEq, Eq)]
pub enum LFields {
    End,
    Field { ty: Box<LType>, rest: Box<LFields> },
}

/// A value.
#[derive(Debug, PartialEq, Eq)]
pub enum LValue {
    Local(String),
    Int(i128),
    Null,
    Undef,
    Global(String),
    /// A constant number of elements past a global.
    GlobalOff { name: String, elem: LType, index: i128 },
}

/// A binary operation.
#[derive(Debug, Clone, Copy, PartialEq, Eq, Structural)]
pub enum LBin {
    Add,
    Sub,
    Mul,
    UDiv,
    SDiv,
    URem,
    SRem,
    And,
    Or,
    Xor,
    Shl,
    LShr,
    AShr,
}

/// A predicate of an integer comparison.
#[derive(Debug, Clone, Copy, PartialEq, Eq, Structural)]
pub enum LPred {
    Eq,
    Ne,
    Ult,
    Ule,
    Ugt,
    Uge,
    Slt,
    Sle,
    Sgt,
    Sge,
}

/// A conversion.
#[derive(Debug, Clone, Copy, PartialEq, Eq, Structural)]
pub enum LCast {
    Trunc,
    ZExt,
    SExt,
    PtrToInt,
    IntToPtr,
    Bitcast,
}

/// An instruction.
#[allow(inconsistent_fields)]
#[derive(Debug, PartialEq, Eq)]
pub enum LInst {
    Alloca { dst: String, ty: LType, align: u32 },
    Load { dst: String, ty: LType, ptr: LValue, align: u32, align_meta: Option<u32> },
    Store { ty: LType, val: LValue, ptr: LValue, align: u32 },
    Gep { dst: String, elem: LType, base: LValue, index: LValue },
    /// An element stride followed by one struct field.
    GepField { dst: String, struct_ty: LType, base: LValue, index: LValue, field: u32 },
    /// A walk through an aggregate type.
    GepChain {
        dst: String,
        agg_ty: LType,
        base: LValue,
        indices: Vec<LValue>,
        struct_name: Option<String>,
    },
    Bin { dst: String, op: LBin, ty: LType, a: LValue, b: LValue },
    Icmp { dst: String, pred: LPred, ty: LType, a: LValue, b: LValue },
    Cast { dst: String, op: LCast, val: LValue, to: LType },
    /// One of two values, by a condition.
    Select { dst: String, ty: LType, cond: LValue, a: LValue, b: LValue },
    ExtractValue { dst: String, agg: LValue, index: u32 },
    /// A value that is not tracked.
    Opaque { dst: String },
    /// An atomic read-modify-write; `tuple` where it returns the old value in a tuple.
    AtomicRmw { dst: String, ty: LType, ptr: LValue, tuple: bool },
    Call { dst: Option<String>, ret: LType, callee: String, args: Vec<LValue> },
}

/// How a block ends.
#[allow(inconsistent_fields)]
#[derive(Debug, PartialEq, Eq)]
pub enum LTerm {
    Ret(Option<LValue>),
    Br(String),
    CondBr(LValue, String, String),
    Switch { value: LValue, width: u32, default: String, cases: Vec<(i128, String)> },
    Unreachable,
    Invoke {
        dst: Option<String>,
        ret: LType,
        callee: String,
        args: Vec<LValue>,
        ok: String,
        cleanup: String,
    },
    /// Inline assembly that may continue at any of the targets.
    CallBr { dst: Option<String>, targets: Vec<String> },
}

/// A value that depends on the block control came from.
#[derive(Debug, PartialEq, Eq)]
pub struct LPhi {
    pub dst: String,
    pub ty: LType,
    /// Values with the block that each comes from.
    pub incomings: Vec<(LValue, String)>,
}

/// A basic block.
#[derive(Debug, PartialEq, Eq)]
pub struct LBlock {
    pub label: String,
    pub phis: Vec<LPhi>,
    pub insts: Vec<LInst>,
    pub term: LTerm,
}

/// A parameter with its attributes.
#[derive(Debug, PartialEq, Eq)]
pub struct LParam {
    pub name: String,
    pub ty: LType,
    pub align: Option<u32>,
    /// The number of bytes that may be dereferenced.
    pub deref: Option<u64>,
    /// The type of a buffer that the caller provides.
    pub abi_buf: Option<LType>,
    pub readonly: bool,
    pub writeonly: bool,
}

/// A function definition.
#[derive(Debug, PartialEq, Eq)]
pub struct LFunc {
    pub name: String,
    pub params: Vec<LParam>,
    pub ret: LType,
    pub blocks: Vec<LBlock>,
    pub internal: bool,
    /// The metadata id of the subprogram.
    pub dbg: Option<u32>,
}

/// A global definition.
#[derive(Debug, PartialEq, Eq)]
pub struct LGlobal {
    pub name: String,
    pub ty: LType,
    pub packed: bool,
    pub align: u64,
    pub writable: bool,
    /// For each field of a struct, the symbol that it is initialised with, where it is one.
    pub symbols: Vec<Option<String>>,
}

/// The definitions of a module, as a parser reads them.
#[derive(Debug, PartialEq, Eq)]
pub struct Definitions {
    pub funcs: Vec<LFunc>,
    /// Functions that could not be read, with the reasons.
    pub unanalyzed: Vec<(String, String)>,
    pub globals: Vec<LGlobal>,
    /// The bytes of a global that a use of it may dereference.
    pub deref_hints: Vec<(String, u64)>,
}

/// A module.
pub struct LModule {
    pub funcs: Vec<LFunc>,
    pub unanalyzed: Vec<(String, String)>,
    pub globals: Vec<LGlobal>,
    pub debuginfo: DebugInfo,
    /// The bytes of a global that a use of it may dereference.
    pub deref_hints: Vec<(String, u64)>,
}

} // verus!
