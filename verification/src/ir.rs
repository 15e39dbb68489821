//! The intermediate representation that the frontends produce and the analyses read.

use vstd::prelude::*;

verus! {

/// A virtual register.
#[derive(Debug, Clone, Copy, PartialEq, Eq, Hash, Structural)]
pub struct RegId(pub u32);

/// A basic block.
#[derive(Debug, Clone, Copy, PartialEq, Eq, Hash, Structural)]
pub struct BlockId(pub u32);

/// A function.
#[derive(Debug, Clone, Copy, PartialEq, Eq, Hash, Structural)]
pub struct FuncId(pub u32);

/// A fixed-width bit pattern, kept below two to the width.
#[derive(Debug, Clone, Copy, PartialEq, Eq, Hash, Structural)]
pub struct BitVector {
    pub width: u32,
    pub bits: u128,
}

/// The low `width` bits of `v`.
pub open spec fn low_bits(width: u32, v: u128) -> u128 {
    if width >= 128 {
        v
    } else {
        v & (((1u128 << width) - 1) as u128)
    }
}

impl BitVector {
    /// The low `width` bits of `v`.
    pub fn new(width: u32, v: u128) -> (b: BitVector)
        ensures
            b == (BitVector { width, bits: low_bits(width, v) }),
    {
        if width >= 128 {
            BitVector { width, bits: v }
        } else {
            assert(1u128 << width >= 1u128) by (bit_vector)
                requires
                    width < 128,
            ;
            BitVector { width, bits: v & ((1u128 << width) - 1) }
        }
    }

    /// The value as an unsigned number.
    pub fn unsigned(&self) -> (v: u128)
        ensures
            v == self.bits,
    {
        self.bits
    }

    /// Whether every bit is zero.
    pub fn is_zero(&self) -> (z: bool)
        ensures
            z == (self.bits == 0),
    {
        self.bits == 0
    }
}

/// The type of a value.
#[derive(Debug, PartialEq, Eq)]
pub enum Type {
    Unit,
    Bool,
    Int { bits: u32 },
    Ptr { pointee: Box<Type> },
    Array { elem: Box<Type>, len: u64 },
    Struct { fields: Fields, packed: bool },
    /// A type known by its size and alignment alone.
    Opaque { bytes: u64, align: u64 },
}

/// The fields of a struct, in order.
#[derive(Debug, PartialEq, Eq)]
pub enum Fields {
    End,
    Field { ty: Box<Type>, rest: Box<Fields> },
}

impl Type {
    /// An integer of `bits` bits.
    pub fn integer(bits: u32) -> (t: Type)
        ensures
            t == (Type::Int { bits }),
    {
        Type::Int { bits }
    }

    /// A pointer to `pointee`.
    pub fn ptr(pointee: Type) -> (t: Type)
        ensures
            t == (Type::Ptr { pointee: Box::new(pointee) }),
    {
        Type::Ptr { pointee: Box::new(pointee) }
    }

    /// Whether the type is a pointer.
    pub fn is_ptr(&self) -> (p: bool)
        ensures
            p == (self is Ptr),
    {
        match self {
            Type::Ptr { .. } => true,
            _ => false,
        }
    }

    /// A copy of the type.
    pub fn copy(&self) -> (t: Type)
        ensures
            t == *self,
        decreases self,
    {
        match self {
            Type::Unit => Type::Unit,
            Type::Bool => Type::Bool,
            Type::Int { bits } => Type::Int { bits: *bits },
            Type::Ptr { pointee } => Type::Ptr { pointee: Box::new(pointee.copy()) },
            Type::Array { elem, len } => Type::Array { elem: Box::new(elem.copy()), len: *len },
            Type::Struct { fields, packed } => Type::Struct {
                fields: fields.copy(),
                packed: *packed,
            },
            Type::Opaque { bytes, align } => Type::Opaque { bytes: *bytes, align: *align },
        }
    }
}

impl Fields {
    /// A copy of the fields.
    pub fn copy(&self) -> (f: Fields)
        ensures
            f == *self,
        decreases self,
    {
        match self {
            Fields::End => Fields::End,
            Fields::Field { ty, rest } => Fields::Field {
                ty: Box::new(ty.copy()),
                rest: Box::new(rest.copy()),
            },
        }
    }
}

// ---- layout on a 64-bit target ----

/// `x` rounded up to a multiple of `align`.
pub open spec fn round_up(x: int, align: int) -> int {
    if align <= 1 {
        x
    } else {
        ((x + align - 1) / align) * align
    }
}

/// The alignment of an integer of `bits` bits: its size up to the next power of two,
/// at most 16.
pub open spec fn int_align(bits: u32) -> int {
    if bits <= 8 {
        1
    } else if bits <= 16 {
        2
    } else if bits <= 32 {
        4
    } else if bits <= 64 {
        8
    } else {
        16
    }
}

/// The alignment of a type.
pub open spec fn align_of(t: Type) -> int
    decreases t,
{
    match t {
        Type::Unit => 1,
        Type::Bool => 1,
        Type::Int { bits } => int_align(bits),
        Type::Ptr { pointee } => 8,
        Type::Array { elem, len } => align_of(*elem),
        Type::Struct { fields, packed } => if packed {
            1
        } else {
            fields_align(fields)
        },
        Type::Opaque { bytes, align } => if align == 0 {
            1
        } else {
            align as int
        },
    }
}

/// The largest alignment among the fields.
pub open spec fn fields_align(f: Fields) -> int
    decreases f,
{
    match f {
        Fields::End => 1,
        Fields::Field { ty, rest } => {
            let a = align_of(*ty);
            let b = fields_align(*rest);
            if a > b {
                a
            } else {
                b
            }
        },
    }
}

/// The size of a type in bytes.
pub open spec fn size_of_type(t: Type) -> int
    decreases t,
{
    match t {
        Type::Unit => 0,
        Type::Bool => 1,
        Type::Int { bits } => (bits + 7) / 8,
        Type::Ptr { pointee } => 8,
        Type::Array { elem, len } => len * round_up(size_of_type(*elem), align_of(*elem)),
        Type::Struct { fields, packed } => if packed {
            fields_end(fields, true, 0)
        } else {
            round_up(fields_end(fields, false, 0), fields_align(fields))
        },
        Type::Opaque { bytes, align } => bytes as int,
    }
}

/// Where the fields end when the first is laid out at or after `at`.
pub open spec fn fields_end(f: Fields, packed: bool, at: int) -> int
    decreases f,
{
    match f {
        Fields::End => at,
        Fields::Field { ty, rest } => {
            let start = if packed {
                at
            } else {
                round_up(at, align_of(*ty))
            };
            fields_end(*rest, packed, start + size_of_type(*ty))
        },
    }
}

/// The distance between consecutive elements of a type.
pub open spec fn stride_of(t: Type) -> int {
    round_up(size_of_type(t), align_of(t))
}

proof fn lemma_round_up(x: int, align: int)
    requires
        0 <= x,
        1 <= align,
    ensures
        x <= round_up(x, align) < x + align,
{
    if align > 1 {
        vstd::arithmetic::div_mod::lemma_fundamental_div_mod(x + align - 1, align);
        let q = (x + align - 1) / align;
        let r = (x + align - 1) % align;
        vstd::arithmetic::div_mod::lemma_mod_bound(x + align - 1, align);
        assert(align * q == q * align) by (nonlinear_arith);
    }
}

pub(crate) proof fn lemma_layout_bounds(t: Type)
    ensures
        1 <= align_of(t) <= u64::MAX,
        0 <= size_of_type(t),
        0 <= size_of_type(t) <= stride_of(t),
    decreases t,
{
    match t {
        Type::Array { elem, len } => {
            lemma_layout_bounds(*elem);
            assert(0 <= len * stride_of(*elem)) by (nonlinear_arith)
                requires
                    0 <= len,
                    0 <= stride_of(*elem),
            ;
        },
        Type::Struct { fields, packed } => {
            lemma_fields_bounds(fields, packed, 0);
            lemma_round_up(fields_end(fields, packed, 0), fields_align(fields));
        },
        _ => {},
    }
    lemma_round_up(size_of_type(t), align_of(t));
}

proof fn lemma_fields_bounds(f: Fields, packed: bool, at: int)
    requires
        0 <= at,
    ensures
        1 <= fields_align(f) <= u64::MAX,
        at <= fields_end(f, packed, at),
    decreases f,
{
    if let Fields::Field { ty, rest } = f {
        lemma_layout_bounds(*ty);
        lemma_round_up(at, align_of(*ty));
        let start = if packed {
            at
        } else {
            round_up(at, align_of(*ty))
        };
        lemma_fields_bounds(*rest, packed, start + size_of_type(*ty));
    }
}

/// `x` rounded up to a multiple of `align`, if it fits.
fn checked_round_up(x: u64, align: u64) -> (r: Option<u64>)
    requires
        1 <= align,
    ensures
        match r {
            Some(v) => v == round_up(x as int, align as int),
            None => round_up(x as int, align as int) > u64::MAX,
        },
{
    proof {
        lemma_round_up(x as int, align as int);
    }
    if align <= 1 {
        return Some(x);
    }
    let sum: u128 = x as u128 + (align - 1) as u128;
    let q: u128 = sum / (align as u128);
    proof {
        let e = round_up(x as int, align as int);
        assert(e == q * align);
        assert(q * align <= u128::MAX);
    }
    let v: u128 = q * (align as u128);
    if v <= u64::MAX as u128 {
        Some(v as u64)
    } else {
        None
    }
}

impl Type {
    /// The alignment in bytes.
    pub fn align_bytes(&self) -> (a: u64)
        ensures
            a == align_of(*self),
            a >= 1,
        decreases self,
    {
        proof {
            lemma_layout_bounds(*self);
        }
        match self {
            Type::Unit | Type::Bool => 1,
            Type::Int { bits } => {
                let bits: u32 = *bits;
                if bits <= 8 {
                    1
                } else if bits <= 16 {
                    2
                } else if bits <= 32 {
                    4
                } else if bits <= 64 {
                    8
                } else {
                    16
                }
            },
            Type::Ptr { .. } => 8,
            Type::Array { elem, .. } => elem.align_bytes(),
            Type::Struct { fields, packed } => if *packed {
                1
            } else {
                fields.align_bytes()
            },
            Type::Opaque { align, .. } => if *align == 0 {
                1
            } else {
                *align
            },
        }
    }

    /// The size in bytes, if it fits.
    pub fn size_bytes(&self) -> (r: Option<u64>)
        ensures
            match r {
                Some(v) => v == size_of_type(*self),
                None => size_of_type(*self) > u64::MAX,
            },
        decreases self,
    {
        proof {
            lemma_layout_bounds(*self);
        }
        match self {
            Type::Unit => Some(0),
            Type::Bool => Some(1),
            Type::Int { bits } => Some((*bits as u64 + 7) / 8),
            Type::Ptr { .. } => Some(8),
            Type::Array { elem, len } => {
                proof {
                    lemma_layout_bounds(**elem);
                    let st = stride_of(**elem);
                    if *len > 0 && st > u64::MAX {
                        assert(len * st > u64::MAX) by (nonlinear_arith)
                            requires
                                *len > 0,
                                st > u64::MAX,
                        ;
                    }
                    if *len == 0 {
                        assert(0 * st == 0);
                    }
                }
                if *len == 0 {
                    return Some(0);
                }
                match elem.size_bytes() {
                    Some(size) => match checked_round_up(size, elem.align_bytes()) {
                        Some(st) => st.checked_mul(*len),
                        None => None,
                    },
                    None => None,
                }
            },
            Type::Struct { fields, packed } => match fields.end_bytes(*packed, 0) {
                Some(end) => {
                    proof {
                        lemma_fields_bounds(*fields, *packed, 0);
                    }
                    if *packed {
                        Some(end)
                    } else {
                        checked_round_up(end, fields.align_bytes())
                    }
                },
                None => {
                    proof {
                        lemma_fields_bounds(*fields, *packed, 0);
                        lemma_round_up(fields_end(*fields, *packed, 0), fields_align(*fields));
                    }
                    None
                },
            },
            Type::Opaque { bytes, .. } => Some(*bytes),
        }
    }

    /// The distance between consecutive elements, if it fits.
    pub fn stride_bytes(&self) -> (r: Option<u64>)
        ensures
            match r {
                Some(v) => v == stride_of(*self),
                None => stride_of(*self) > u64::MAX,
            },
    {
        proof {
            lemma_layout_bounds(*self);
        }
        match self.size_bytes() {
            Some(size) => checked_round_up(size, self.align_bytes()),
            None => None,
        }
    }
}

impl Fields {
    /// The largest alignment among the fields.
    pub fn align_bytes(&self) -> (a: u64)
        ensures
            a == fields_align(*self),
            a >= 1,
        decreases self,
    {
        match self {
            Fields::End => 1,
            Fields::Field { ty, rest } => {
                let a: u64 = ty.align_bytes();
                let b: u64 = rest.align_bytes();
                if a > b {
                    a
                } else {
                    b
                }
            },
        }
    }

    /// Where the fields end when the first is laid out at or after `at`, if that fits.
    pub fn end_bytes(&self, packed: bool, at: u64) -> (r: Option<u64>)
        ensures
            match r {
                Some(v) => v == fields_end(*self, packed, at as int),
                None => fields_end(*self, packed, at as int) > u64::MAX,
            },
        decreases self,
    {
        match self {
            Fields::End => Some(at),
            Fields::Field { ty, rest } => {
                proof {
                    lemma_layout_bounds(**ty);
                    lemma_round_up(at as int, align_of(**ty));
                    let start = if packed {
                        at as int
                    } else {
                        round_up(at as int, align_of(**ty))
                    };
                    lemma_fields_bounds(**rest, packed, start + size_of_type(**ty));
                }
                let start: Option<u64> = if packed {
                    Some(at)
                } else {
                    checked_round_up(at, ty.align_bytes())
                };
                match start {
                    None => None,
                    Some(start) => match ty.size_bytes() {
                        None => None,
                        Some(size) => match start.checked_add(size) {
                            None => None,
                            Some(next) => rest.end_bytes(packed, next),
                        },
                    },
                }
            },
        }
    }
}

// ---- operands and instructions ----

/// A constant operand.
#[derive(Debug, PartialEq, Eq)]
pub enum Const {
    Int(BitVector),
    Null,
    Undef,
    /// The address of a named global.
    Symbol(String),
    /// A constant offset from the address of a named global.
    SymbolOffset(String, i64),
}

impl Const {
    /// A copy of the constant.
    pub fn copy(&self) -> (c: Const)
        ensures
            c == *self,
    {
        match self {
            Const::Int(b) => Const::Int(*b),
            Const::Null => Const::Null,
            Const::Undef => Const::Undef,
            Const::Symbol(s) => Const::Symbol(s.clone()),
            Const::SymbolOffset(s, k) => Const::SymbolOffset(s.clone(), *k),
        }
    }
}

/// An operand: a register or a constant.
#[derive(Debug, PartialEq, Eq)]
pub enum Operand {
    Reg(RegId),
    Const(Const),
}

/// The constant operand of `width` bits with the low bits of `v`.
pub open spec fn int_operand(width: u32, v: u128) -> Operand {
    Operand::Const(Const::Int(BitVector { width, bits: low_bits(width, v) }))
}

impl Operand {
    /// The constant of `width` bits with the low bits of `v`.
    pub fn integer(width: u32, v: u128) -> (o: Operand)
        ensures
            o == int_operand(width, v),
    {
        Operand::Const(Const::Int(BitVector::new(width, v)))
    }

    /// A copy of the operand.
    pub fn copy(&self) -> (o: Operand)
        ensures
            o == *self,
    {
        match self {
            Operand::Reg(r) => Operand::Reg(*r),
            Operand::Const(c) => Operand::Const(c.copy()),
        }
    }
}

/// A copy of a list of operands.
pub fn copy_operands(ops: &Vec<Operand>) -> (r: Vec<Operand>)
    ensures
        r@ == ops@,
{
    let mut r: Vec<Operand> = Vec::new();
    let mut i: usize = 0;
    while i < ops.len()
        invariant
            i <= ops@.len(),
            r@ == ops@.take(i as int),
        decreases ops@.len() - i,
    {
        r.push(ops[i].copy());
        i += 1;
        assert(r@ =~= ops@.take(i as int));
    }
    assert(ops@.take(ops@.len() as int) =~= ops@);
    r
}

/// A binary operation.
#[derive(Debug, Clone, Copy, PartialEq, Eq, Hash, Structural)]
pub enum BinOp {
    Add,
    Sub,
    Mul,
    UDiv,
    SDiv,
    URem,
    SRem,
    And,
    Or,
    Xor,
    Shl,
    LShr,
    AShr,
}

/// A comparison.
#[derive(Debug, Clone, Copy, PartialEq, Eq, Hash, Structural)]
pub enum CmpOp {
    Eq,
    Ne,
    Ult,
    Ule,
    Ugt,
    Uge,
    Slt,
    Sle,
    Sgt,
    Sge,
}

/// A conversion.
#[derive(Debug, Clone, Copy, PartialEq, Eq, Hash, Structural)]
pub enum CastOp {
    Trunc,
    ZExt,
    SExt,
    PtrToInt,
    IntToPtr,
    Bitcast,
}

/// A computed value.
#[derive(Debug, PartialEq, Eq)]
pub enum RValue {
    Use(Operand),
    Bin { op: BinOp, lhs: Operand, rhs: Operand },
    Cmp { op: CmpOp, lhs: Operand, rhs: Operand },
    Cast { op: CastOp, operand: Operand, to: Type },
    Select { cond: Operand, on_true: Operand, on_false: Operand },
}

/// Where a region of memory lives.
#[derive(Debug, Clone, Copy, PartialEq, Eq, Hash, Structural)]
pub enum RegionKind {
    Stack,
    Heap,
    Global,
}

/// A property that a memory-safe program keeps.
#[derive(Debug, Clone, Copy, PartialEq, Eq, Hash, Structural)]
pub enum SafetyProperty {
    InBounds,
    NoNullDeref,
    NoUseAfterFree,
    NoDoubleFree,
    ValidRead,
    ValidWrite,
    Alignment,
    ValidPointerArith,
    DataRace,
}

/// A checked condition over operands.
#[derive(Debug, PartialEq, Eq)]
pub enum Condition {
    True,
    Cmp { op: CmpOp, lhs: Operand, rhs: Operand },
    Not(Box<Condition>),
    And(Box<Condition>, Box<Condition>),
    Or(Box<Condition>, Box<Condition>),
}

/// Whom a call invokes.
#[derive(Debug, PartialEq, Eq)]
pub enum Callee {
    Direct(FuncId),
    Symbol(String),
    Indirect(Operand),
}

/// What is known of a reference that a call returns.
#[derive(Debug, Clone, Copy, PartialEq, Eq, Structural)]
pub struct RefResult {
    /// The size of what it refers to, where that is known.
    pub size: Option<u64>,
    /// Whether it may be written through.
    pub writable: bool,
}

/// A bulk memory operation.
#[derive(Debug, Clone, Copy, PartialEq, Eq, Hash, Structural)]
pub enum MemKind {
    Copy,
    Move,
    Fill,
    UserFill,
}

/// An instruction.
#[allow(inconsistent_fields)]
#[derive(Debug, PartialEq, Eq)]
pub enum Inst {
    Assign { dst: RegId, ty: Type, value: RValue },
    Load { dst: RegId, ty: Type, ptr: Operand, align: u32 },
    Store { ty: Type, ptr: Operand, value: Operand, align: u32 },
    Alloc { dst: RegId, region: RegionKind, elem: Type, count: Operand, align: u32 },
    Dealloc { region: RegionKind, ptr: Operand },
    PtrOffset { dst: RegId, base: Operand, index: Operand, elem: Type },
    FieldPtr { dst: RegId, base: Operand, field: u32, size: u64, align: u64 },
    Call {
        dst: Option<RegId>,
        callee: Callee,
        args: Vec<Operand>,
        ret_ty: Type,
        ret_ref: Option<RefResult>,
    },
    MemIntrinsic { kind: MemKind, dst: Operand, src: Option<Operand>, len: Operand },
    /// A valid reference taken out of an aggregate that is not tracked.
    RefWitness { dst: RegId, size: Option<u64>, align: u32, writable: bool },
    SafetyCheck { property: SafetyProperty, condition: Condition, note: String },
    /// A memory barrier: 1 orders writes, 2 orders reads, 0 orders both.
    Barrier { kind: u8 },
    /// Opaque inline assembly.
    Asm { dst: Option<RegId> },
    ProvLabel { ptr: Operand, label: u32 },
    ProvPropagate { dst: Operand, src: Operand },
    Refcount { val: Operand, protocol: u32, dec: bool },
    /// An intrinsic without effect on memory.
    Intrinsic { dst: Option<RegId>, name: String },
    SecretCheck { val: Operand, taint: u32 },
    TypestateLeakCheck { protocol: u32, state: u32, escaping: Option<Operand> },
}

/// The register that an instruction defines.
pub open spec fn defined(inst: Inst) -> Option<RegId> {
    match inst {
        Inst::Assign { dst, .. } => Some(dst),
        Inst::Load { dst, .. } => Some(dst),
        Inst::Alloc { dst, .. } => Some(dst),
        Inst::PtrOffset { dst, .. } => Some(dst),
        Inst::FieldPtr { dst, .. } => Some(dst),
        Inst::Call { dst, .. } => dst,
        Inst::RefWitness { dst, .. } => Some(dst),
        Inst::Asm { dst } => dst,
        Inst::Intrinsic { dst, .. } => dst,
        _ => None,
    }
}

/// Whom a call invokes, as a mathematical value.
pub enum CalleeView {
    Direct(FuncId),
    Symbol(Seq<char>),
    Indirect(Operand),
}

/// An instruction as a mathematical value: a call or a name by contents, the rest as
/// it is.
pub enum InstView {
    Plain(Inst),
    Call {
        dst: Option<RegId>,
        callee: CalleeView,
        args: Seq<Operand>,
        ret_ty: Type,
        ret_ref: Option<RefResult>,
    },
}

impl View for Callee {
    type V = CalleeView;

    open spec fn view(&self) -> CalleeView {
        match self {
            Callee::Direct(f) => CalleeView::Direct(*f),
            Callee::Symbol(s) => CalleeView::Symbol(s@),
            Callee::Indirect(o) => CalleeView::Indirect(*o),
        }
    }
}

impl View for Inst {
    type V = InstView;

    open spec fn view(&self) -> InstView {
        match *self {
            Inst::Call { dst, callee, args, ret_ty, ret_ref } => InstView::Call {
                dst,
                callee: callee@,
                args: args@,
                ret_ty,
                ret_ref,
            },
            i => InstView::Plain(i),
        }
    }
}

/// Instructions as mathematical values.
pub open spec fn inst_views(s: Seq<Inst>) -> Seq<InstView> {
    Seq::new(s.len(), |i: int| s[i]@)
}

impl Inst {
    /// The register that the instruction defines.
    pub fn defined_reg(&self) -> (r: Option<RegId>)
        ensures
            r == defined(*self),
    {
        match self {
            Inst::Assign { dst, .. } => Some(*dst),
            Inst::Load { dst, .. } => Some(*dst),
            Inst::Alloc { dst, .. } => Some(*dst),
            Inst::PtrOffset { dst, .. } => Some(*dst),
            Inst::FieldPtr { dst, .. } => Some(*dst),
            Inst::Call { dst, .. } => *dst,
            Inst::RefWitness { dst, .. } => Some(*dst),
            Inst::Asm { dst } => *dst,
            Inst::Intrinsic { dst, .. } => *dst,
            _ => None,
        }
    }
}

/// How a block ends.
#[derive(Debug, PartialEq, Eq)]
pub enum Terminator {
    Return(Option<Operand>),
    Br { target: BlockId, args: Vec<Operand> },
    CondBr {
        cond: Operand,
        then_blk: BlockId,
        then_args: Vec<Operand>,
        else_blk: BlockId,
        else_args: Vec<Operand>,
    },
    Switch { value: Operand, cases: Vec<(BitVector, BlockId)>, default: BlockId },
    Unreachable,
}

/// How a block ends, as a mathematical value.
pub enum TermView {
    Return(Option<Operand>),
    Br { target: BlockId, args: Seq<Operand> },
    CondBr {
        cond: Operand,
        then_blk: BlockId,
        then_args: Seq<Operand>,
        else_blk: BlockId,
        else_args: Seq<Operand>,
    },
    Switch { value: Operand, cases: Seq<(BitVector, BlockId)>, default: BlockId },
    Unreachable,
}

impl View for Terminator {
    type V = TermView;

    open spec fn view(&self) -> TermView {
        match *self {
            Terminator::Return(v) => TermView::Return(v),
            Terminator::Br { target, args } => TermView::Br { target, args: args@ },
            Terminator::CondBr { cond, then_blk, then_args, else_blk, else_args } =>
                TermView::CondBr {
                cond,
                then_blk,
                then_args: then_args@,
                else_blk,
                else_args: else_args@,
            },
            Terminator::Switch { value, cases, default } => TermView::Switch {
                value,
                cases: cases@,
                default,
            },
            Terminator::Unreachable => TermView::Unreachable,
        }
    }
}

/// A basic block as a mathematical value.
pub struct BlockView {
    pub id: BlockId,
    pub params: Seq<(RegId, Type)>,
    pub insts: Seq<InstView>,
    pub term: TermView,
    /// For each instruction, where in the source it came from; empty when unknown.
    pub spans: Seq<Option<Seq<char>>>,
}

/// The text of an optional source location.
pub open spec fn span_text(s: Option<String>) -> Option<Seq<char>> {
    match s {
        Some(t) => Some(t@),
        None => None,
    }
}

/// The texts of source locations.
pub open spec fn span_texts(s: Seq<Option<String>>) -> Seq<Option<Seq<char>>> {
    Seq::new(s.len(), |i: int| span_text(s[i]))
}

impl View for BasicBlock {
    type V = BlockView;

    open spec fn view(&self) -> BlockView {
        BlockView {
            id: self.id,
            params: self.params@,
            insts: inst_views(self.insts@),
            term: self.term@,
            spans: span_texts(self.inst_spans@),
        }
    }
}

/// A basic block.
#[derive(Debug, PartialEq, Eq)]
pub struct BasicBlock {
    pub id: BlockId,
    pub params: Vec<(RegId, Type)>,
    pub insts: Vec<Inst>,
    /// For each instruction, where in the source it came from; empty when unknown.
    pub inst_spans: Vec<Option<String>>,
    pub term: Terminator,
}

impl BasicBlock {
    /// An empty block.
    pub fn new(id: BlockId, term: Terminator) -> (b: BasicBlock)
        ensures
            b.id == id,
            b.params@.len() == 0,
            b.insts@.len() == 0,
            b.inst_spans@.len() == 0,
            b.term == term,
    {
        BasicBlock { id, params: Vec::new(), insts: Vec::new(), inst_spans: Vec::new(), term }
    }
}

/// A function.
#[derive(Debug, PartialEq, Eq)]
pub struct Function {
    pub id: FuncId,
    pub name: String,
    pub params: Vec<(RegId, Type)>,
    pub ret_ty: Type,
    pub blocks: Vec<BasicBlock>,
    pub entry: BlockId,
}

/// Blocks as mathematical values.
pub open spec fn block_views(s: Seq<BasicBlock>) -> Seq<BlockView> {
    Seq::new(s.len(), |i: int| s[i]@)
}

/// A function as a mathematical value.
pub struct FunctionView {
    pub id: FuncId,
    pub name: Seq<char>,
    pub params: Seq<(RegId, Type)>,
    pub ret_ty: Type,
    pub blocks: Seq<BlockView>,
    pub entry: BlockId,
}

impl View for Function {
    type V = FunctionView;

    open spec fn view(&self) -> FunctionView {
        FunctionView {
            id: self.id,
            name: self.name@,
            params: self.params@,
            ret_ty: self.ret_ty,
            blocks: block_views(self.blocks@),
            entry: self.entry,
        }
    }
}

/// The size of what a pointer parameter refers to.
#[derive(Debug, Clone, Copy, PartialEq, Eq, Structural)]
pub enum SizeSpec {
    Bytes(u64),
    /// As many elements as another parameter says.
    ParamElements { len_param: u32, elem_size: u64 },
    Opaque,
}

/// What a proof may rest on.
#[derive(Debug, Clone, Copy, PartialEq, Eq, Structural)]
pub enum Assumption {
    AllocSucceeds,
    DebugInfo,
    GlobalMemory,
    LinearNoOverflow,
    ParamContracts,
    SliceAbi,
    StructAbi,
    ValidReference,
}

/// What a pointer parameter may be assumed to refer to.
#[derive(Debug, Clone, Copy, PartialEq, Eq, Structural)]
pub struct PtrContract {
    /// What the contract rests on, where it is not what its size implies.
    pub assumption: Option<Assumption>,
    pub refutable: bool,
    pub size: SizeSpec,
    pub align: u32,
    pub readable: bool,
    pub writable: bool,
    pub sentinel: Option<u32>,
}

/// A global variable.
#[derive(Debug, Clone, Copy, PartialEq, Eq, Structural)]
pub struct GlobalDef {
    pub size: u64,
    pub align: u64,
    pub writable: bool,
}

/// A module: functions, the contracts of their parameters, and globals.
#[derive(Debug, PartialEq, Eq)]
pub struct Module {
    pub name: String,
    pub functions: Vec<Function>,
    /// Functions that were not analysed, with the reason.
    pub unanalyzed: Vec<(String, String)>,
    /// Contracts by function and parameter position.
    pub param_contracts: Vec<((FuncId, u32), PtrContract)>,
    /// Functions without external linkage.
    pub internal: Vec<FuncId>,
    pub globals: Vec<(String, GlobalDef)>,
    /// For each constant global, the functions at its byte offsets.
    pub global_fn_ptrs: Vec<(String, Vec<(u64, FuncId)>)>,
    /// The size and alignment inferred for what raw pointer parameters refer to, by
    /// function and position.
    pub raw_ptr_hints: Vec<((FuncId, u32), (u64, u32))>,
}

impl Module {
    /// An empty module.
    pub fn new(name: &str) -> (m: Module)
        ensures
            m.name@ == name@,
            m.functions@.len() == 0,
            m.unanalyzed@.len() == 0,
            m.param_contracts@.len() == 0,
            m.internal@.len() == 0,
            m.globals@.len() == 0,
            m.global_fn_ptrs@.len() == 0,
            m.raw_ptr_hints@.len() == 0,
    {
        Module {
            name: name.to_owned(),
            functions: Vec::new(),
            unanalyzed: Vec::new(),
            param_contracts: Vec::new(),
            internal: Vec::new(),
            globals: Vec::new(),
            global_fn_ptrs: Vec::new(),
            raw_ptr_hints: Vec::new(),
        }
    }

    /// No two functions share an id.
    pub open spec fn ids_distinct(&self) -> bool {
        forall|i: int, j: int|
            0 <= i < j < self.functions@.len() ==> self.functions@[i].id != self.functions@[j].id
    }

    /// The first function with this id.
    pub fn function(&self, id: FuncId) -> (r: Option<&Function>)
        ensures
            match r {
                Some(f) => f.id == id && exists|i: int|
                    0 <= i < self.functions@.len() && #[trigger] self.functions@[i] == *f
                        && forall|j: int| 0 <= j < i ==> (#[trigger] self.functions@[j]).id != id,
                None => forall|i: int|
                    0 <= i < self.functions@.len() ==> (#[trigger] self.functions@[i]).id != id,
            },
    {
        let mut i: usize = 0;
        while i < self.functions.len()
            invariant
                i <= self.functions@.len(),
                forall|j: int| 0 <= j < i ==> (#[trigger] self.functions@[j]).id != id,
            decreases self.functions@.len() - i,
        {
            if self.functions[i].id == id {
                return Some(&self.functions[i]);
            }
            i += 1;
        }
        None
    }
}

// ---- parts of types ----

/// Field `k` of a struct.
pub open spec fn field_type(f: Fields, k: nat) -> Option<Type>
    decreases f,
{
    match f {
        Fields::End => None,
        Fields::Field { ty, rest } => if k == 0 {
            Some(*ty)
        } else {
            field_type(*rest, (k - 1) as nat)
        },
    }
}

/// Where field `k` starts when the first is laid out at or after `at`; nothing where there
/// is no such field or its offset does not fit.
pub open spec fn field_start(f: Fields, packed: bool, at: int, k: nat) -> Option<int>
    decreases f,
{
    match f {
        Fields::End => None,
        Fields::Field { ty, rest } => {
            let start = if packed {
                at
            } else {
                round_up(at, align_of(*ty))
            };
            if k == 0 {
                Some(start)
            } else {
                field_start(*rest, packed, start + size_of_type(*ty), (k - 1) as nat)
            }
        },
    }
}

/// The offset of field `k` of a struct type, where it fits.
pub open spec fn field_offset(t: Type, k: u32) -> Option<u64> {
    match t {
        Type::Struct { fields, packed } => match field_start(fields, packed, 0, k as nat) {
            Some(o) => if o <= u64::MAX {
                Some(o as u64)
            } else {
                None
            },
            None => None,
        },
        _ => None,
    }
}

impl Fields {
    /// A copy of field `k`.
    pub fn get(&self, k: u64) -> (r: Option<Type>)
        ensures
            r == field_type(*self, k as nat),
        decreases self,
    {
        match self {
            Fields::End => None,
            Fields::Field { ty, rest } => if k == 0 {
                Some(ty.copy())
            } else {
                rest.get(k - 1)
            },
        }
    }

    fn start(&self, packed: bool, at: u64, k: u32) -> (r: Option<u64>)
        ensures
            match r {
                Some(v) => field_start(*self, packed, at as int, k as nat) == Some(v as int),
                None => match field_start(*self, packed, at as int, k as nat) {
                    Some(v) => v > u64::MAX,
                    None => true,
                },
            },
        decreases self,
    {
        match self {
            Fields::End => None,
            Fields::Field { ty, rest } => {
                proof {
                    lemma_layout_bounds(**ty);
                    lemma_round_up(at as int, align_of(**ty));
                    let start = if packed {
                        at as int
                    } else {
                        round_up(at as int, align_of(**ty))
                    };
                    if k > 0 {
                        lemma_field_start(
                            **rest,
                            packed,
                            start + size_of_type(**ty),
                            (k - 1) as nat,
                        );
                    }
                }
                let start: Option<u64> = if packed {
                    Some(at)
                } else {
                    checked_round_up(at, ty.align_bytes())
                };
                match start {
                    None => None,
                    Some(start) => if k == 0 {
                        Some(start)
                    } else {
                        match ty.size_bytes() {
                            None => None,
                            Some(size) => match start.checked_add(size) {
                                None => None,
                                Some(next) => rest.start(packed, next, k - 1),
                            },
                        }
                    },
                }
            },
        }
    }
}

proof fn lemma_field_start(f: Fields, packed: bool, at: int, k: nat)
    requires
        0 <= at,
    ensures
        match field_start(f, packed, at, k) {
            Some(v) => v >= at,
            None => true,
        },
    decreases f,
{
    if let Fields::Field { ty, rest } = f {
        lemma_layout_bounds(*ty);
        lemma_round_up(at, align_of(*ty));
        let start = if packed {
            at
        } else {
            round_up(at, align_of(*ty))
        };
        if k > 0 {
            lemma_field_start(*rest, packed, start + size_of_type(*ty), (k - 1) as nat);
        }
    }
}

impl Type {
    /// The offset of field `k` of a struct type, where it fits.
    pub fn struct_field_offset(&self, k: u32) -> (r: Option<u64>)
        ensures
            r == field_offset(*self, k),
    {
        match self {
            Type::Struct { fields, packed } => fields.start(*packed, 0, k),
            _ => None,
        }
    }
}

/// The distance between consecutive elements, at least 1; 1 where it does not fit.
pub open spec fn stride_or_one(t: Type) -> u64 {
    let n = stride_of(t);
    if 0 < n <= u64::MAX {
        n as u64
    } else {
        1
    }
}

/// The size in bytes; 1 where it does not fit.
pub open spec fn size_or_one(t: Type) -> u64 {
    let n = size_of_type(t);
    if 0 <= n <= u64::MAX {
        n as u64
    } else {
        1
    }
}

impl Type {
    /// The distance between consecutive elements, at least 1; 1 where it does not fit.
    pub fn stride_or_one(&self) -> (n: u64)
        ensures
            n == stride_or_one(*self),
            n >= 1,
    {
        match self.stride_bytes() {
            Some(n) => if n > 0 {
                n
            } else {
                1
            },
            None => 1,
        }
    }

    /// The size in bytes; 1 where it does not fit.
    pub fn size_or_one(&self) -> (n: u64)
        ensures
            n == size_or_one(*self),
    {
        match self.size_bytes() {
            Some(n) => n,
            None => 1,
        }
    }
}

/// The first block with an id.
pub open spec fn block_with(blocks: Seq<BasicBlock>, id: BlockId) -> Option<BasicBlock>
    decreases blocks.len(),
{
    if blocks.len() == 0 {
        None
    } else {
        match block_with(blocks.drop_last(), id) {
            Some(b) => Some(b),
            None => if blocks.last().id == id {
                Some(blocks.last())
            } else {
                None
            },
        }
    }
}

proof fn lemma_block_with(blocks: Seq<BasicBlock>, id: BlockId, k: int)
    requires
        0 <= k <= blocks.len(),
        block_with(blocks.take(k), id) is Some,
    ensures
        block_with(blocks, id) == block_with(blocks.take(k), id),
    decreases blocks.len(),
{
    if k == blocks.len() {
        assert(blocks.take(k) =~= blocks);
    } else {
        assert(blocks.drop_last().take(k) =~= blocks.take(k));
        lemma_block_with(blocks.drop_last(), id, k);
    }
}

impl Function {
    /// The first block with an id.
    pub fn block(&self, id: BlockId) -> (r: Option<&BasicBlock>)
        ensures
            match r {
                Some(b) => block_with(self.blocks@, id) == Some(*b),
                None => block_with(self.blocks@, id) is None,
            },
    {
        let mut i: usize = 0;
        assert(self.blocks@.take(0) =~= Seq::<BasicBlock>::empty());
        while i < self.blocks.len()
            invariant
                i <= self.blocks@.len(),
                block_with(self.blocks@.take(i as int), id) is None,
            decreases self.blocks@.len() - i,
        {
            assert(self.blocks@.take(i + 1).drop_last() =~= self.blocks@.take(i as int));
            assert(self.blocks@.take(i + 1).last() == self.blocks@[i as int]);
            if self.blocks[i].id == id {
                proof {
                    lemma_block_with(self.blocks@, id, i + 1);
                }
                return Some(&self.blocks[i]);
            }
            i += 1;
        }
        assert(self.blocks@.take(self.blocks@.len() as int) =~= self.blocks@);
        None
    }
}

} // verus!
