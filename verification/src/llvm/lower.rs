//! Lowering parsed LLVM IR.
//!
//! A block's leading phi nodes become its parameters, and every branch into the block
//! passes the matching incoming values as arguments.

use crate::error::{Error, ErrorView};
use crate::ir::{
    align_of, int_operand, size_of_type, BinOp, BlockId, Callee, CalleeView, CastOp, CmpOp, Const,
    Fields, FuncId, Operand, RegId, Type,
};
use crate::llvm::ast::{LBin, LCast, LFields, LFunc, LPred, LType, LValue};
use crate::names::{entry, lookup, lookup_chars, table};
use crate::text::{after_prefix, before_suffix, chars_of, joined, strip_prefix, strip_suffix};
use vstd::prelude::*;

verus! {

// ---- types and operators ----

/// The type that a parsed type means.
pub open spec fn type_of(ty: LType) -> Type
    decreases ty,
{
    match ty {
        LType::Void => Type::Unit,
        LType::Metadata => Type::Unit,
        LType::Int(bits) => Type::Int { bits },
        LType::Ptr => Type::Ptr { pointee: Box::new(Type::Unit) },
        LType::Array(elem, n) => Type::Array { elem: Box::new(type_of(*elem)), len: n },
        LType::Vector(elem, n) => Type::Array { elem: Box::new(type_of(*elem)), len: n },
        LType::Struct(fields) => Type::Struct { fields: fields_of(fields), packed: false },
        LType::PackedStruct(fields) => Type::Struct { fields: fields_of(fields), packed: true },
        LType::Named(_) => Type::Opaque { bytes: 0, align: 1 },
    }
}

/// The fields that parsed fields mean.
pub open spec fn fields_of(f: LFields) -> Fields
    decreases f,
{
    match f {
        LFields::End => Fields::End,
        LFields::Field { ty, rest } => Fields::Field {
            ty: Box::new(type_of(*ty)),
            rest: Box::new(fields_of(*rest)),
        },
    }
}

/// Lower a type.
pub fn lower_type(ty: &LType) -> (t: Type)
    ensures
        t == type_of(*ty),
    decreases ty,
{
    match ty {
        LType::Void => Type::Unit,
        LType::Metadata => Type::Unit,
        LType::Int(bits) => Type::Int { bits: *bits },
        LType::Ptr => Type::Ptr { pointee: Box::new(Type::Unit) },
        LType::Array(elem, n) => Type::Array { elem: Box::new(lower_type(elem)), len: *n },
        LType::Vector(elem, n) => Type::Array { elem: Box::new(lower_type(elem)), len: *n },
        LType::Struct(fields) => Type::Struct { fields: lower_fields(fields), packed: false },
        LType::PackedStruct(fields) => Type::Struct { fields: lower_fields(fields), packed: true },
        LType::Named(_) => Type::Opaque { bytes: 0, align: 1 },
    }
}

fn lower_fields(f: &LFields) -> (r: Fields)
    ensures
        r == fields_of(*f),
    decreases f,
{
    match f {
        LFields::End => Fields::End,
        LFields::Field { ty, rest } => Fields::Field {
            ty: Box::new(lower_type(ty)),
            rest: Box::new(lower_fields(rest)),
        },
    }
}

/// The width of an integer type; 64 for any other.
pub open spec fn width_of(ty: LType) -> u32 {
    match ty {
        LType::Int(bits) => bits,
        _ => 64,
    }
}

/// The width of an integer type; 64 for any other.
pub fn type_width(ty: &LType) -> (w: u32)
    ensures
        w == width_of(*ty),
{
    match ty {
        LType::Int(bits) => *bits,
        _ => 64,
    }
}

/// A number of 64 bits as one of 32, by its low bits.
pub open spec fn low_half(x: u64) -> u32 {
    (x % 0x1_0000_0000) as u32
}

/// The given alignment, or where it is 0 the type's own.
pub open spec fn align_given(given: u32, ty: LType) -> u32 {
    if given > 0 {
        given
    } else {
        low_half(align_of(type_of(ty)) as u64)
    }
}

/// The given alignment, or where it is 0 the type's own.
pub fn align_or(given: u32, ty: &LType) -> (a: u32)
    ensures
        a == align_given(given, *ty),
{
    if given > 0 {
        given
    } else {
        (lower_type(ty).align_bytes() % 0x1_0000_0000) as u32
    }
}

/// The operation that a parsed one means.
pub open spec fn bin_of(op: LBin) -> BinOp {
    match op {
        LBin::Add => BinOp::Add,
        LBin::Sub => BinOp::Sub,
        LBin::Mul => BinOp::Mul,
        LBin::UDiv => BinOp::UDiv,
        LBin::SDiv => BinOp::SDiv,
        LBin::URem => BinOp::URem,
        LBin::SRem => BinOp::SRem,
        LBin::And => BinOp::And,
        LBin::Or => BinOp::Or,
        LBin::Xor => BinOp::Xor,
        LBin::Shl => BinOp::Shl,
        LBin::LShr => BinOp::LShr,
        LBin::AShr => BinOp::AShr,
    }
}

/// Lower an operation.
pub fn lower_bin(op: LBin) -> (r: BinOp)
    ensures
        r == bin_of(op),
{
    match op {
        LBin::Add => BinOp::Add,
        LBin::Sub => BinOp::Sub,
        LBin::Mul => BinOp::Mul,
        LBin::UDiv => BinOp::UDiv,
        LBin::SDiv => BinOp::SDiv,
        LBin::URem => BinOp::URem,
        LBin::SRem => BinOp::SRem,
        LBin::And => BinOp::And,
        LBin::Or => BinOp::Or,
        LBin::Xor => BinOp::Xor,
        LBin::Shl => BinOp::Shl,
        LBin::LShr => BinOp::LShr,
        LBin::AShr => BinOp::AShr,
    }
}

/// The comparison that a predicate means.
pub open spec fn pred_of(p: LPred) -> CmpOp {
    match p {
        LPred::Eq => CmpOp::Eq,
        LPred::Ne => CmpOp::Ne,
        LPred::Ult => CmpOp::Ult,
        LPred::Ule => CmpOp::Ule,
        LPred::Ugt => CmpOp::Ugt,
        LPred::Uge => CmpOp::Uge,
        LPred::Slt => CmpOp::Slt,
        LPred::Sle => CmpOp::Sle,
        LPred::Sgt => CmpOp::Sgt,
        LPred::Sge => CmpOp::Sge,
    }
}

/// Lower a predicate.
pub fn lower_pred(p: LPred) -> (r: CmpOp)
    ensures
        r == pred_of(p),
{
    match p {
        LPred::Eq => CmpOp::Eq,
        LPred::Ne => CmpOp::Ne,
        LPred::Ult => CmpOp::Ult,
        LPred::Ule => CmpOp::Ule,
        LPred::Ugt => CmpOp::Ugt,
        LPred::Uge => CmpOp::Uge,
        LPred::Slt => CmpOp::Slt,
        LPred::Sle => CmpOp::Sle,
        LPred::Sgt => CmpOp::Sgt,
        LPred::Sge => CmpOp::Sge,
    }
}

/// The conversion that a parsed one means.
pub open spec fn cast_of(c: LCast) -> CastOp {
    match c {
        LCast::Trunc => CastOp::Trunc,
        LCast::ZExt => CastOp::ZExt,
        LCast::SExt => CastOp::SExt,
        LCast::PtrToInt => CastOp::PtrToInt,
        LCast::IntToPtr => CastOp::IntToPtr,
        LCast::Bitcast => CastOp::Bitcast,
    }
}

/// Lower a conversion.
pub fn lower_cast(c: LCast) -> (r: CastOp)
    ensures
        r == cast_of(c),
{
    match c {
        LCast::Trunc => CastOp::Trunc,
        LCast::ZExt => CastOp::ZExt,
        LCast::SExt => CastOp::SExt,
        LCast::PtrToInt => CastOp::PtrToInt,
        LCast::IntToPtr => CastOp::IntToPtr,
        LCast::Bitcast => CastOp::Bitcast,
    }
}

/// The 128 bits of a number in two's complement.
pub open spec fn to_bits(n: i128) -> u128 {
    if n >= 0 {
        n as u128
    } else {
        (n + 0x1_0000_0000_0000_0000_0000_0000_0000_0000) as u128
    }
}

/// The 128 bits of a number in two's complement.
pub fn bits_of(n: i128) -> (b: u128)
    ensures
        b == to_bits(n),
{
    if n >= 0 {
        n as u128
    } else {
        u128::MAX - ((-(n + 1)) as u128)
    }
}

impl LType {
    /// A copy of the type.
    pub fn copy(&self) -> (t: LType)
        ensures
            t == *self,
        decreases self,
    {
        match self {
            LType::Void => LType::Void,
            LType::Metadata => LType::Metadata,
            LType::Int(b) => LType::Int(*b),
            LType::Ptr => LType::Ptr,
            LType::Array(e, n) => LType::Array(Box::new(e.copy()), *n),
            LType::Vector(e, n) => LType::Vector(Box::new(e.copy()), *n),
            LType::Struct(f) => LType::Struct(f.copy()),
            LType::PackedStruct(f) => LType::PackedStruct(f.copy()),
            LType::Named(s) => LType::Named(s.clone()),
        }
    }
}

impl LFields {
    fn copy(&self) -> (f: LFields)
        ensures
            f == *self,
        decreases self,
    {
        match self {
            LFields::End => LFields::End,
            LFields::Field { ty, rest } => LFields::Field {
                ty: Box::new(ty.copy()),
                rest: Box::new(rest.copy()),
            },
        }
    }
}

impl LValue {
    /// A copy of the value.
    pub fn copy(&self) -> (v: LValue)
        ensures
            v == *self,
    {
        match self {
            LValue::Local(s) => LValue::Local(s.clone()),
            LValue::Int(n) => LValue::Int(*n),
            LValue::Null => LValue::Null,
            LValue::Undef => LValue::Undef,
            LValue::Global(s) => LValue::Global(s.clone()),
            LValue::GlobalOff { name, elem, index } => LValue::GlobalOff {
                name: name.clone(),
                elem: elem.copy(),
                index: *index,
            },
        }
    }
}

// ---- context ----

/// What lowering a function knows of it.
pub struct CtxView {
    /// The register of each named value.
    pub regs: Map<Seq<char>, u32>,
    /// The next register to use.
    pub next: int,
    /// The block of each label.
    pub blocks: Map<Seq<char>, u32>,
    pub func: LFunc,
    /// The function of each name.
    pub func_ids: Map<Seq<char>, u32>,
    /// The operation whose checked result a value holds.
    pub checked: Map<Seq<char>, (BinOp, LValue, LValue)>,
    /// The loads of a valid reference, with what it refers to.
    pub field_loads: Map<Seq<char>, (u64, u32, bool)>,
}

/// What lowering a function knows of it.
pub struct Ctx<'a> {
    pub regs: Vec<(String, u32)>,
    pub next_reg: u32,
    pub blocks: Vec<(String, u32)>,
    pub func: &'a LFunc,
    pub func_ids: &'a Vec<(String, u32)>,
    pub checked: Vec<(String, (BinOp, LValue, LValue))>,
    pub field_loads: Vec<(String, (u64, u32, bool))>,
}

impl<'a> View for Ctx<'a> {
    type V = CtxView;

    open spec fn view(&self) -> CtxView {
        CtxView {
            regs: table(self.regs@),
            next: self.next_reg as int,
            blocks: table(self.blocks@),
            func: *self.func,
            func_ids: table(self.func_ids@),
            checked: table(self.checked@),
            field_loads: table(self.field_loads@),
        }
    }
}

/// Both results, or the first error.
pub open spec fn both<A, B>(a: Result<A, ErrorView>, b: Result<B, ErrorView>) -> Result<
    (A, B),
    ErrorView,
> {
    match a {
        Err(e) => Err(e),
        Ok(x) => match b {
            Err(e) => Err(e),
            Ok(y) => Ok((x, y)),
        },
    }
}

/// The register of a named value.
pub open spec fn reg_of(c: CtxView, name: Seq<char>) -> Result<RegId, ErrorView> {
    match entry(c.regs, name) {
        Some(r) => Ok(RegId(r)),
        None => Err(ErrorView::Parse("use of undefined value %"@ + name)),
    }
}

/// The block of a label.
pub open spec fn block_of(c: CtxView, label: Seq<char>) -> Result<BlockId, ErrorView> {
    match entry(c.blocks, label) {
        Some(b) => Ok(BlockId(b)),
        None => Err(ErrorView::Parse("branch to unknown block %"@ + label)),
    }
}

/// The constant that a number of elements past a global means: its byte offset where that
/// fits in 64 bits, else the bare global.
pub open spec fn global_offset(name: String, elem: LType, index: i128) -> Const {
    let size = size_of_type(type_of(elem));
    let off = size * index;
    if size <= u64::MAX && i64::MIN <= off <= i64::MAX {
        Const::SymbolOffset(name, off as i64)
    } else {
        Const::Symbol(name)
    }
}

/// The operand that a value means, at the given width for a number. A number wider than 128
/// bits is unknown.
pub open spec fn operand_of(c: CtxView, v: LValue, width: u32) -> Result<Operand, ErrorView> {
    match v {
        LValue::Local(name) => match reg_of(c, name@) {
            Ok(r) => Ok(Operand::Reg(r)),
            Err(e) => Err(e),
        },
        LValue::Int(n) => if width > 128 {
            Ok(Operand::Const(Const::Undef))
        } else {
            Ok(
                int_operand(
                    if width < 1 {
                        1
                    } else {
                        width
                    },
                    to_bits(n),
                ),
            )
        },
        LValue::Null => Ok(Operand::Const(Const::Null)),
        LValue::Undef => Ok(Operand::Const(Const::Undef)),
        LValue::Global(name) => Ok(Operand::Const(Const::Symbol(name))),
        LValue::GlobalOff { name, elem, index } => Ok(
            Operand::Const(global_offset(name, elem, index)),
        ),
    }
}

/// The operands that values mean, or the first error.
pub open spec fn operands_of(c: CtxView, vs: Seq<LValue>, width: u32) -> Result<
    Seq<Operand>,
    ErrorView,
>
    decreases vs.len(),
{
    if vs.len() == 0 {
        Ok(Seq::empty())
    } else {
        match both(operands_of(c, vs.drop_last(), width), operand_of(c, vs.last(), width)) {
            Ok((s, o)) => Ok(s.push(o)),
            Err(e) => Err(e),
        }
    }
}

/// The value that an indirect call goes through, as in `<indirect via %fp>`.
pub open spec fn called_through(name: Seq<char>) -> Option<Seq<char>> {
    match after_prefix(name, "<indirect via %"@) {
        Some(rest) => before_suffix(rest, '>'),
        None => None,
    }
}

/// The register that an indirect call goes through.
pub open spec fn called_register(c: CtxView, name: Seq<char>) -> Option<u32> {
    match called_through(name) {
        Some(local) => entry(c.regs, local),
        None => None,
    }
}

/// The function, the register or the symbol that a callee name means.
pub open spec fn callee_of(c: CtxView, name: Seq<char>) -> CalleeView {
    match entry(c.func_ids, name) {
        Some(id) => CalleeView::Direct(FuncId(id)),
        None => match called_register(c, name) {
            Some(r) => CalleeView::Indirect(Operand::Reg(RegId(r))),
            None => CalleeView::Symbol(name),
        },
    }
}

impl<'a> Ctx<'a> {
    /// The register of a named value, made on first use; a fresh one for no name.
    pub fn define(&mut self, name: &String) -> (r: RegId)
        requires
            old(self).next_reg < u32::MAX,
        ensures
            final(self)@ == defined_view(old(self)@, name@).0,
            r == defined_view(old(self)@, name@).1,
            final(self).next_reg <= old(self).next_reg + 1,
    {
        if !has_chars(name) {
            return self.fresh();
        }
        if let Some(r) = lookup(&self.regs, name) {
            return RegId(*r);
        }
        let r: u32 = self.next_reg;
        self.next_reg = self.next_reg + 1;
        proof {
            crate::names::lemma_table_push(self.regs@, (*name, r));
        }
        self.regs.push((name.clone(), r));
        RegId(r)
    }

    /// A register that no value has.
    pub fn fresh(&mut self) -> (r: RegId)
        requires
            old(self).next_reg < u32::MAX,
        ensures
            final(self)@ == (CtxView { next: old(self)@.next + 1, ..old(self)@ }),
            r == RegId(old(self).next_reg),
            final(self).next_reg == old(self).next_reg + 1,
    {
        let r: u32 = self.next_reg;
        self.next_reg = self.next_reg + 1;
        RegId(r)
    }

    /// The register of a named value.
    pub fn reg(&self, name: &String) -> (r: Result<RegId, Error>)
        ensures
            result_is(r, reg_of(self@, name@)),
    {
        match lookup(&self.regs, name) {
            Some(r) => Ok(RegId(*r)),
            None => Err(Error::Parse(joined("use of undefined value %", name.as_str()))),
        }
    }

    /// The block of a label.
    pub fn block(&self, label: &String) -> (r: Result<BlockId, Error>)
        ensures
            result_is(r, block_of(self@, label@)),
    {
        match lookup(&self.blocks, label) {
            Some(b) => Ok(BlockId(*b)),
            None => Err(Error::Parse(joined("branch to unknown block %", label.as_str()))),
        }
    }

    /// The operand that a value means, at the given width for a number. A number wider than
    /// 128 bits is unknown.
    pub fn operand(&self, v: &LValue, width: u32) -> (r: Result<Operand, Error>)
        ensures
            result_is(r, operand_of(self@, *v, width)),
    {
        match v {
            LValue::Local(name) => match self.reg(name) {
                Ok(r) => Ok(Operand::Reg(r)),
                Err(e) => Err(e),
            },
            LValue::Int(n) => if width > 128 {
                Ok(Operand::Const(Const::Undef))
            } else {
                Ok(
                    Operand::integer(
                        if width < 1 {
                            1
                        } else {
                            width
                        },
                        bits_of(*n),
                    ),
                )
            },
            LValue::Null => Ok(Operand::Const(Const::Null)),
            LValue::Undef => Ok(Operand::Const(Const::Undef)),
            LValue::Global(name) => Ok(Operand::Const(Const::Symbol(name.clone()))),
            LValue::GlobalOff { name, elem, index } => Ok(
                Operand::Const(lower_global_offset(name, elem, *index)),
            ),
        }
    }

    /// The operands that values mean, or the first error.
    pub fn operands(&self, vs: &Vec<LValue>, width: u32) -> (r: Result<Vec<Operand>, Error>)
        ensures
            match r {
                Ok(ops) => operands_of(self@, vs@, width) == Ok::<Seq<Operand>, ErrorView>(ops@),
                Err(e) => operands_of(self@, vs@, width) == Err::<Seq<Operand>, ErrorView>(e@),
            },
    {
        let mut out: Vec<Operand> = Vec::new();
        let mut k: usize = 0;
        assert(vs@.take(0) =~= Seq::<LValue>::empty());
        assert(out@ =~= Seq::<Operand>::empty());
        while k < vs.len()
            invariant
                k <= vs@.len(),
                operands_of(self@, vs@.take(k as int), width) == Ok::<Seq<Operand>, ErrorView>(
                    out@,
                ),
            decreases vs@.len() - k,
        {
            assert(vs@.take(k + 1).drop_last() =~= vs@.take(k as int));
            match self.operand(&vs[k], width) {
                Ok(o) => {
                    out.push(o);
                },
                Err(e) => {
                    proof {
                        lemma_operands_stop(self@, vs@, width, k + 1);
                    }
                    return Err(e);
                },
            }
            k += 1;
        }
        assert(vs@.take(vs@.len() as int) =~= vs@);
        Ok(out)
    }

    fn called_register(&self, name: &String) -> (r: Option<u32>)
        ensures
            r == called_register(self@, name@),
    {
        let text = chars_of(name.as_str());
        let prefix = chars_of("<indirect via %");
        match strip_prefix(text.as_slice(), prefix.as_slice()) {
            None => None,
            Some(rest) => match strip_suffix(rest, '>') {
                None => None,
                Some(local) => match lookup_chars(&self.regs, local) {
                    Some(r) => Some(*r),
                    None => None,
                },
            },
        }
    }

    /// The function, the register or the symbol that a callee name means.
    pub fn callee(&self, name: &String) -> (r: Callee)
        ensures
            r@ == callee_of(self@, name@),
    {
        match lookup(self.func_ids, name) {
            Some(id) => Callee::Direct(FuncId(*id)),
            None => match self.called_register(name) {
                Some(r) => Callee::Indirect(Operand::Reg(RegId(r))),
                None => Callee::Symbol(name.clone()),
            },
        }
    }
}

/// An executable result as the specified one.
pub open spec fn result_is<T>(r: Result<T, Error>, s: Result<T, ErrorView>) -> bool {
    match r {
        Ok(x) => s == Ok::<T, ErrorView>(x),
        Err(e) => s == Err::<T, ErrorView>(e@),
    }
}

/// The context and the register after a definition.
pub open spec fn defined_view(c: CtxView, name: Seq<char>) -> (CtxView, RegId) {
    if name.len() == 0 {
        (CtxView { next: c.next + 1, ..c }, RegId(c.next as u32))
    } else {
        match entry(c.regs, name) {
            Some(r) => (c, RegId(r)),
            None => (
                CtxView { regs: c.regs.insert(name, c.next as u32), next: c.next + 1, ..c },
                RegId(c.next as u32),
            ),
        }
    }
}

/// Whether a string has any characters.
pub fn has_chars(s: &String) -> (r: bool)
    ensures
        r == (s@.len() > 0),
{
    let none = String::new();
    proof {
        if s@.len() == 0 {
            assert(s@ =~= none@);
        }
    }
    *s != none
}

fn lower_global_offset(name: &String, elem: &LType, index: i128) -> (r: Const)
    ensures
        r == global_offset(*name, *elem, index),
{
    match lower_type(elem).size_bytes() {
        Some(stride) => match (stride as i128).checked_mul(index) {
            Some(off) => if -0x8000_0000_0000_0000 <= off && off <= 0x7fff_ffff_ffff_ffff {
                Const::SymbolOffset(name.clone(), off as i64)
            } else {
                Const::Symbol(name.clone())
            },
            None => Const::Symbol(name.clone()),
        },
        None => Const::Symbol(name.clone()),
    }
}

proof fn lemma_operands_stop(c: CtxView, vs: Seq<LValue>, width: u32, k: int)
    requires
        0 <= k <= vs.len(),
        operands_of(c, vs.take(k), width) is Err,
    ensures
        operands_of(c, vs, width) == operands_of(c, vs.take(k), width),
    decreases vs.len(),
{
    if k == vs.len() {
        assert(vs.take(k) =~= vs);
    } else {
        assert(vs.drop_last().take(k) =~= vs.take(k));
        lemma_operands_stop(c, vs.drop_last(), width, k);
    }
}

} // verus!
