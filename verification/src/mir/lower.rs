//! Lowering MIR statements and terminators.

use crate::error::ErrorView;
use crate::ir::{
    align_of, int_operand, size_of_type, BinOp, BitVector, BlockId, CalleeView, CmpOp, Const, Inst,
    InstView, Operand as IrOp, RValue, RefResult, RegId, TermView, Type,
};
use crate::llvm::lower::{low_half, to_bits};
use crate::mir::ast::{
    BinKind, CalleeSpec, MConst, MOperand, MRvalue, MStmt, MTerm, MType, Place,
};
use crate::names::entry;
use vstd::prelude::*;

verus! {

broadcast use vstd::std_specs::hash::group_hash_axioms;

/// Field numbers from here on stand for paths of several fields.
pub const NESTED_FIELD_BASE: u32 = 1_000_000;

// ---- types ----

/// The type that a MIR type means.
pub open spec fn ir_type(t: MType) -> Type
    decreases t,
{
    match t {
        MType::Int { width, .. } => Type::Int { bits: width },
        MType::Bool => Type::Bool,
        MType::Unit => Type::Unit,
        MType::Other => Type::Unit,
        MType::Ref(inner, _) => Type::Ptr { pointee: Box::new(ir_type(*inner)) },
        MType::Ptr(inner, _) => Type::Ptr { pointee: Box::new(ir_type(*inner)) },
        MType::Array(elem, n) => Type::Array { elem: Box::new(ir_type(*elem)), len: n },
        MType::Slice(elem) => ir_type(*elem),
    }
}

/// The type that a MIR type means.
pub fn mtype_to_ir(t: &MType) -> (r: Type)
    ensures
        r == ir_type(*t),
    decreases t,
{
    match t {
        MType::Int { width, .. } => Type::integer(*width),
        MType::Bool => Type::Bool,
        MType::Unit => Type::Unit,
        MType::Other => Type::Unit,
        MType::Ref(inner, _) => Type::ptr(mtype_to_ir(inner)),
        MType::Ptr(inner, _) => Type::ptr(mtype_to_ir(inner)),
        MType::Array(elem, n) => Type::Array { elem: Box::new(mtype_to_ir(elem)), len: *n },
        MType::Slice(elem) => mtype_to_ir(elem),
    }
}

/// The size of what a reference refers to, where it is known and not 0.
pub open spec fn pointee_bytes(t: MType) -> Option<u64> {
    let n = size_of_type(ir_type(t));
    if 0 < n <= u64::MAX {
        Some(n as u64)
    } else {
        None
    }
}

/// The size of what a reference refers to, where it is known and not 0.
pub fn pointee_size(t: &MType) -> (r: Option<u64>)
    ensures
        r == pointee_bytes(*t),
{
    match mtype_to_ir(t).size_bytes() {
        Some(n) => if n > 0 {
            Some(n)
        } else {
            None
        },
        None => None,
    }
}

/// The alignment of a type, in 32 bits.
pub open spec fn align32(t: Type) -> u32 {
    low_half(align_of(t) as u64)
}

fn align_in(t: &Type) -> (a: u32)
    ensures
        a == align32(*t),
{
    (t.align_bytes() % 0x1_0000_0000) as u32
}

/// The alignment of what a reference refers to.
pub fn pointee_align(t: &MType) -> (a: u32)
    ensures
        a == align32(ir_type(*t)),
{
    align_in(&mtype_to_ir(t))
}

// ---- places ----

/// The place is reached through a pointer.
pub open spec fn in_memory(p: Place) -> bool
    decreases p,
{
    match p {
        Place::Local(_) => false,
        Place::Deref(_) => true,
        Place::Index(base, _) => in_memory(*base),
        Place::ConstIndex(base, _) => in_memory(*base),
        Place::Field(base, _, _) => in_memory(*base),
    }
}

/// Whether the place is reached through a pointer.
pub fn is_memory_place(p: &Place) -> (r: bool)
    ensures
        r == in_memory(*p),
    decreases p,
{
    match p {
        Place::Local(_) => false,
        Place::Deref(_) => true,
        Place::Index(base, _) => is_memory_place(base),
        Place::ConstIndex(base, _) => is_memory_place(base),
        Place::Field(base, _, _) => is_memory_place(base),
    }
}

/// The local that a place starts from.
pub open spec fn root(p: Place) -> u32
    decreases p,
{
    match p {
        Place::Local(n) => n,
        Place::Deref(inner) => root(*inner),
        Place::Index(inner, _) => root(*inner),
        Place::ConstIndex(inner, _) => root(*inner),
        Place::Field(inner, _, _) => root(*inner),
    }
}

/// The local that a place starts from.
pub fn place_base_local(p: &Place) -> (n: u32)
    ensures
        n == root(*p),
    decreases p,
{
    match p {
        Place::Local(n) => *n,
        Place::Deref(inner) => place_base_local(inner),
        Place::Index(inner, _) => place_base_local(inner),
        Place::ConstIndex(inner, _) => place_base_local(inner),
        Place::Field(inner, _, _) => place_base_local(inner),
    }
}

/// The pointer and the path of fields, from the outside in, of a field behind a pointer.
pub open spec fn field_path(p: Place) -> Option<(u32, Seq<u32>)>
    decreases p,
{
    match p {
        Place::Field(base, f, _) => match field_path(*base) {
            Some((l, path)) => Some((l, path.push(f))),
            None => None,
        },
        Place::Deref(inner) => match *inner {
            Place::Local(l) => Some((l, Seq::empty())),
            _ => None,
        },
        _ => None,
    }
}

/// The pointer and the path of fields of a field behind a pointer.
pub fn deref_field_path(p: &Place) -> (r: Option<(u32, Vec<u32>)>)
    ensures
        match r {
            Some((l, path)) => field_path(*p) == Some((l, path@)),
            None => field_path(*p) is None,
        },
    decreases p,
{
    match p {
        Place::Field(base, f, _) => match deref_field_path(base) {
            Some((l, path)) => {
                let mut path = path;
                path.push(*f);
                Some((l, path))
            },
            None => None,
        },
        Place::Deref(inner) => match **inner {
            Place::Local(l) => {
                let none: Vec<u32> = Vec::new();
                assert(none@ =~= Seq::<u32>::empty());
                Some((l, none))
            },
            _ => None,
        },
        _ => None,
    }
}

// ---- state ----

/// What does not change while a function is lowered.
pub struct Env {
    /// The declared type of each local.
    pub types: Map<u32, MType>,
    /// The function of each name.
    pub func_ids: Map<Seq<char>, u32>,
    /// The block that failed assertions go to.
    pub panic_id: u32,
}

/// What lowering has produced so far.
pub struct State {
    /// The next register to use.
    pub next: int,
    /// Whether an assertion was lowered.
    pub panics: bool,
    /// Whether an access could not be lowered.
    pub failed: bool,
    /// The register that holds the length of each slice.
    pub lengths: Map<u32, u32>,
    /// The result of each checked operation.
    pub checked: Map<u32, IrOp>,
    /// The paths of several fields, in the order of their numbers.
    pub paths: Seq<Seq<u32>>,
    /// The instructions.
    pub out: Seq<InstView>,
}

/// What a table of locals says of one.
pub open spec fn of_local<V>(m: Map<u32, V>, l: u32) -> Option<V> {
    if m.contains_key(l) {
        Some(m[l])
    } else {
        None
    }
}

/// The state with an instruction added.
pub open spec fn emitted(s: State, i: Inst) -> State {
    State { out: s.out.push(InstView::Plain(i)), ..s }
}

/// The state with a register used.
pub open spec fn advanced(s: State) -> State {
    State { next: s.next + 1, ..s }
}

/// The next register.
pub open spec fn next_reg(s: State) -> RegId {
    RegId(s.next as u32)
}

/// The state after an access that could not be lowered.
pub open spec fn spoiled(s: State) -> State {
    State { failed: true, ..s }
}

/// The position of a path among others, or their number.
pub open spec fn path_index(paths: Seq<Seq<u32>>, path: Seq<u32>) -> int
    decreases paths.len(),
{
    if paths.len() == 0 {
        0
    } else {
        let i = path_index(paths.drop_last(), path);
        if i < paths.len() - 1 || paths.last() == path {
            i
        } else {
            paths.len() as int
        }
    }
}

/// The number of a path of fields: that of a single field, or one from
/// `NESTED_FIELD_BASE` on.
pub open spec fn path_id(s: State, path: Seq<u32>) -> (State, u32) {
    if path.len() == 1 {
        (s, path[0])
    } else {
        let i = path_index(s.paths, path);
        let id = (NESTED_FIELD_BASE + i) as u32;
        if i < s.paths.len() {
            (s, id)
        } else {
            (State { paths: s.paths.push(path), ..s }, id)
        }
    }
}

/// What a pointer type points to.
pub open spec fn pointed(t: Option<MType>) -> Option<MType> {
    match t {
        Some(MType::Ref(inner, _)) => Some(*inner),
        Some(MType::Ptr(inner, _)) => Some(*inner),
        _ => None,
    }
}

/// The element type for an index through a local.
pub open spec fn index_elem(env: Env, l: u32) -> Option<Type> {
    match pointed(of_local(env.types, l)) {
        Some(MType::Array(e, _)) => Some(ir_type(*e)),
        Some(MType::Slice(e)) => Some(ir_type(*e)),
        _ => None,
    }
}

/// The type behind a pointer in a local.
pub open spec fn deref_elem(env: Env, l: u32) -> Option<Type> {
    match pointed(of_local(env.types, l)) {
        Some(t) => Some(ir_type(t)),
        None => None,
    }
}

/// The local is a pointer to a slice.
pub open spec fn fat_ref(env: Env, l: u32) -> bool {
    pointed(of_local(env.types, l)) matches Some(MType::Slice(_))
}

/// The constant length of the array that a place refers to.
pub open spec fn array_len(env: Env, p: Place) -> Option<u64> {
    let l = match p {
        Place::Local(l) => Some(l),
        Place::Deref(inner) => match *inner {
            Place::Local(l) => Some(l),
            _ => None,
        },
        _ => None,
    };
    match l {
        None => None,
        Some(l) => match of_local(env.types, l) {
            Some(MType::Array(_, n)) => Some(n),
            t => match pointed(t) {
                Some(MType::Array(_, n)) => Some(n),
                _ => None,
            },
        },
    }
}

/// One byte, for a type that is not known.
pub open spec fn or_byte(t: Option<Type>) -> Type {
    match t {
        Some(t) => t,
        None => Type::Int { bits: 8 },
    }
}

// ---- accesses ----

/// What an access produces: the state, and the pointer and type where it could be lowered.
pub type Access = (State, Option<(RegId, Type)>);

/// An element at an offset from a base.
pub open spec fn element(s: State, base: IrOp, index: IrOp, elem: Type) -> Access {
    (
        emitted(advanced(s), Inst::PtrOffset { dst: next_reg(s), base, index, elem }),
        Some((next_reg(s), elem)),
    )
}

/// The size of a field, at least 1.
pub open spec fn field_bytes(t: Type) -> u64 {
    let n = size_of_type(t);
    if 0 < n <= u64::MAX {
        n as u64
    } else {
        1
    }
}

/// The access to a field behind a pointer.
pub open spec fn field_access(s: State, l: u32, path: Seq<u32>, elem: Type) -> Access {
    let (s1, id) = path_id(s, path);
    (
        emitted(
            advanced(s1),
            Inst::FieldPtr {
                dst: next_reg(s1),
                base: IrOp::Reg(RegId(l)),
                field: id,
                size: field_bytes(elem),
                align: align_of(elem) as u64,
            },
        ),
        Some((next_reg(s1), elem)),
    )
}

/// The base pointer and element type of an indexed place.
pub open spec fn index_base(env: Env, s: State, base: Place) -> (State, Option<(IrOp, Type)>)
    decreases base, 1int,
{
    match base {
        Place::Deref(inner) => match *inner {
            Place::Local(l) => (s, Some((IrOp::Reg(RegId(l)), or_byte(index_elem(env, l))))),
            _ => (spoiled(s), None),
        },
        Place::Local(_) => (spoiled(s), None),
        _ => match access(env, s, base) {
            (s1, None) => (s1, None),
            (s1, Some((ptr, Type::Array { elem, .. }))) => (s1, Some((IrOp::Reg(ptr), *elem))),
            (s1, Some(_)) => (spoiled(s1), None),
        },
    }
}

/// The access to a place in memory.
pub open spec fn access(env: Env, s: State, place: Place) -> Access
    decreases place, 0int,
{
    match place {
        Place::Index(base, idx) => match index_base(env, s, *base) {
            (s1, None) => (s1, None),
            (s1, Some((b, elem))) => element(s1, b, IrOp::Reg(RegId(idx)), elem),
        },
        Place::ConstIndex(base, n) => match index_base(env, s, *base) {
            (s1, None) => (s1, None),
            (s1, Some((b, elem))) => element(s1, b, int_operand(64, n as u128), elem),
        },
        Place::Deref(inner) => match *inner {
            Place::Local(l) => (s, Some((RegId(l), or_byte(deref_elem(env, l))))),
            _ => (spoiled(s), None),
        },
        Place::Field(_, _, fty) => match field_path(place) {
            Some((l, path)) => field_access(
                s,
                l,
                path,
                match fty {
                    Some(t) => ir_type(t),
                    None => Type::Int { bits: 8 },
                },
            ),
            None => (spoiled(s), None),
        },
        Place::Local(_) => (spoiled(s), None),
    }
}

// ---- operands ----

/// An unknown value.
pub open spec fn undef() -> IrOp {
    IrOp::Const(Const::Undef)
}

/// A field of a value that is a reference is a valid one.
pub open spec fn witnessed(s: State, p: Place) -> (State, IrOp) {
    match p {
        Place::Field(_, _, Some(MType::Ref(inner, writable))) => if in_memory(p) {
            (s, undef())
        } else {
            (
                emitted(
                    advanced(s),
                    Inst::RefWitness {
                        dst: next_reg(s),
                        size: pointee_bytes(*inner),
                        align: match pointee_bytes(*inner) {
                            Some(_) => align32(ir_type(*inner)),
                            None => 1,
                        },
                        writable,
                    },
                ),
                IrOp::Reg(next_reg(s)),
            )
        },
        _ => (s, undef()),
    }
}

/// A load of a place in memory.
pub open spec fn loaded(env: Env, s: State, p: Place) -> (State, IrOp) {
    match access(env, s, p) {
        (s1, None) => (s1, undef()),
        (s1, Some((ptr, elem))) => (
            emitted(
                advanced(s1),
                Inst::Load {
                    dst: next_reg(s1),
                    ty: elem,
                    ptr: IrOp::Reg(ptr),
                    align: align32(elem),
                },
            ),
            IrOp::Reg(next_reg(s1)),
        ),
    }
}

/// The value of a place.
pub open spec fn place_value(env: Env, s: State, p: Place) -> (State, IrOp) {
    match p {
        Place::Local(n) => (s, IrOp::Reg(RegId(n))),
        _ => match first_field(p) {
            Some(k) => match of_local(s.checked, k) {
                Some(o) => (s, o),
                None => if fat_ref(env, k) {
                    (s, IrOp::Reg(RegId(k)))
                } else {
                    witnessed(s, p)
                },
            },
            None => if in_memory(p) {
                loaded(env, s, p)
            } else {
                witnessed(s, p)
            },
        },
    }
}

/// The local of which a place is the first field.
pub open spec fn first_field(p: Place) -> Option<u32> {
    match p {
        Place::Field(inner, 0, _) => match *inner {
            Place::Local(k) => Some(k),
            _ => None,
        },
        _ => None,
    }
}

/// The value of an operand.
pub open spec fn operand_value(env: Env, s: State, op: MOperand) -> (State, IrOp) {
    match op {
        MOperand::Const(MConst::Int(n)) => (s, int_operand(64, to_bits(n))),
        MOperand::Const(MConst::Bool(b)) => (
            s,
            int_operand(
                1,
                if b {
                    1
                } else {
                    0
                },
            ),
        ),
        MOperand::Copy(p) => place_value(env, s, p),
        MOperand::Move(p) => place_value(env, s, p),
    }
}

/// The values of operands, in order.
pub open spec fn operand_values(env: Env, s: State, ops: Seq<MOperand>) -> (State, Seq<IrOp>)
    decreases ops.len(),
{
    if ops.len() == 0 {
        (s, Seq::empty())
    } else {
        let (s1, vs) = operand_values(env, s, ops.drop_last());
        let (s2, v) = operand_value(env, s1, ops.last());
        (s2, vs.push(v))
    }
}

// ---- right sides ----

/// The operation that a binary operator means.
pub open spec fn operation(kind: BinKind, lhs: IrOp, rhs: IrOp) -> Option<RValue> {
    match kind {
        BinKind::Lt => Some(RValue::Cmp { op: CmpOp::Ult, lhs, rhs }),
        BinKind::Le => Some(RValue::Cmp { op: CmpOp::Ule, lhs, rhs }),
        BinKind::Gt => Some(RValue::Cmp { op: CmpOp::Ugt, lhs, rhs }),
        BinKind::Ge => Some(RValue::Cmp { op: CmpOp::Uge, lhs, rhs }),
        BinKind::Eq => Some(RValue::Cmp { op: CmpOp::Eq, lhs, rhs }),
        BinKind::Ne => Some(RValue::Cmp { op: CmpOp::Ne, lhs, rhs }),
        BinKind::Add => Some(RValue::Bin { op: BinOp::Add, lhs, rhs }),
        BinKind::Sub => Some(RValue::Bin { op: BinOp::Sub, lhs, rhs }),
        BinKind::Mul => Some(RValue::Bin { op: BinOp::Mul, lhs, rhs }),
        BinKind::BitAnd => Some(RValue::Bin { op: BinOp::And, lhs, rhs }),
        BinKind::BitOr => Some(RValue::Bin { op: BinOp::Or, lhs, rhs }),
        BinKind::BitXor => Some(RValue::Bin { op: BinOp::Xor, lhs, rhs }),
        BinKind::Other => None,
    }
}

/// The operation that a binary operator means; comparisons are unsigned.
pub fn bin_rvalue(kind: BinKind, lhs: IrOp, rhs: IrOp) -> (r: Option<RValue>)
    ensures
        r == operation(kind, lhs, rhs),
{
    match kind {
        BinKind::Lt => Some(RValue::Cmp { op: CmpOp::Ult, lhs, rhs }),
        BinKind::Le => Some(RValue::Cmp { op: CmpOp::Ule, lhs, rhs }),
        BinKind::Gt => Some(RValue::Cmp { op: CmpOp::Ugt, lhs, rhs }),
        BinKind::Ge => Some(RValue::Cmp { op: CmpOp::Uge, lhs, rhs }),
        BinKind::Eq => Some(RValue::Cmp { op: CmpOp::Eq, lhs, rhs }),
        BinKind::Ne => Some(RValue::Cmp { op: CmpOp::Ne, lhs, rhs }),
        BinKind::Add => Some(RValue::Bin { op: BinOp::Add, lhs, rhs }),
        BinKind::Sub => Some(RValue::Bin { op: BinOp::Sub, lhs, rhs }),
        BinKind::Mul => Some(RValue::Bin { op: BinOp::Mul, lhs, rhs }),
        BinKind::BitAnd => Some(RValue::Bin { op: BinOp::And, lhs, rhs }),
        BinKind::BitOr => Some(RValue::Bin { op: BinOp::Or, lhs, rhs }),
        BinKind::BitXor => Some(RValue::Bin { op: BinOp::Xor, lhs, rhs }),
        BinKind::Other => None,
    }
}

/// The state with a value assigned to a register.
pub open spec fn assigned(s: State, dst: RegId, value: RValue) -> State {
    emitted(s, Inst::Assign { dst, ty: Type::Int { bits: 64 }, value })
}

/// The state after a plain use: a load of a place in memory, a copy otherwise.
pub open spec fn used_into(env: Env, s: State, dst: RegId, op: MOperand) -> State {
    let place = match op {
        MOperand::Copy(p) => Some(p),
        MOperand::Move(p) => Some(p),
        MOperand::Const(_) => None,
    };
    if place is Some && in_memory(place->0) {
        match access(env, s, place->0) {
            (s1, Some((ptr, elem))) => emitted(
                s1,
                Inst::Load { dst, ty: elem, ptr: IrOp::Reg(ptr), align: align32(elem) },
            ),
            (s1, None) => assigned(s1, dst, RValue::Use(undef())),
        }
    } else {
        let (s1, v) = operand_value(env, s, op);
        assigned(s1, dst, RValue::Use(v))
    }
}

/// The state after taking an address.
pub open spec fn address_into(env: Env, s: State, dst: RegId, place: Place) -> State {
    match place {
        Place::Deref(inner) => match *inner {
            Place::Local(l) => assigned(s, dst, RValue::Use(IrOp::Reg(RegId(l)))),
            _ => assigned(s, dst, RValue::Use(undef())),
        },
        Place::Local(_) => assigned(s, dst, RValue::Use(undef())),
        _ => if place is Field && !in_memory(place) {
            assigned(s, dst, RValue::Use(undef()))
        } else {
            match access(env, s, place) {
                (s1, Some((ptr, _))) => assigned(s1, dst, RValue::Use(IrOp::Reg(ptr))),
                (s1, None) => assigned(s1, dst, RValue::Use(undef())),
            }
        },
    }
}

/// The length of a place: a constant, or the register of a slice's length.
pub open spec fn length_of(env: Env, s: State, place: Place) -> IrOp {
    match array_len(env, place) {
        Some(n) => int_operand(64, n as u128),
        None => match of_local(s.lengths, root(place)) {
            Some(r) => IrOp::Reg(RegId(r)),
            None => undef(),
        },
    }
}

/// The state after the read of a discriminant: a byte is read through a pointer, and the
/// value is unknown.
pub open spec fn discriminant_into(s: State, dst: RegId, place: Place) -> State {
    let s1 = if in_memory(place) {
        let ptr = next_reg(s);
        let a = emitted(
            advanced(s),
            Inst::FieldPtr {
                dst: ptr,
                base: IrOp::Reg(RegId(root(place))),
                field: 0,
                size: 1,
                align: 1,
            },
        );
        emitted(
            advanced(a),
            Inst::Load {
                dst: next_reg(a),
                ty: Type::Int { bits: 8 },
                ptr: IrOp::Reg(ptr),
                align: 1,
            },
        )
    } else {
        s
    };
    assigned(s1, dst, RValue::Use(undef()))
}

/// The state after an assignment to a register.
pub open spec fn rvalue_into(env: Env, s: State, dst: RegId, rv: MRvalue) -> State {
    match rv {
        MRvalue::Use(op) => used_into(env, s, dst, op),
        MRvalue::Bin(kind, a, b) => {
            let (s1, x) = operand_value(env, s, a);
            let (s2, y) = operand_value(env, s1, b);
            assigned(
                s2,
                dst,
                match operation(kind, x, y) {
                    Some(v) => v,
                    None => RValue::Use(undef()),
                },
            )
        },
        MRvalue::CheckedBin(kind, a, b) => {
            let (s1, x) = operand_value(env, s, a);
            let (s2, y) = operand_value(env, s1, b);
            match operation(kind, x, y) {
                Some(v) => {
                    let tmp = next_reg(s2);
                    let s3 = assigned(advanced(s2), tmp, v);
                    State { checked: s3.checked.insert(dst.0, IrOp::Reg(tmp)), ..s3 }
                },
                None => s2,
            }
        },
        MRvalue::Len(place) => assigned(s, dst, RValue::Use(length_of(env, s, place))),
        MRvalue::Ref(place) => address_into(env, s, dst, place),
        MRvalue::Cast(op) => {
            let (s1, v) = operand_value(env, s, op);
            assigned(s1, dst, RValue::Use(v))
        },
        MRvalue::Discriminant(place) => discriminant_into(s, dst, place),
        MRvalue::Other => assigned(s, dst, RValue::Use(undef())),
    }
}

/// The local whose pointer a right side copies, casts or borrows again.
pub open spec fn copied_pointer(rv: MRvalue) -> Option<u32> {
    match rv {
        MRvalue::Use(MOperand::Copy(Place::Local(p))) => Some(p),
        MRvalue::Use(MOperand::Move(Place::Local(p))) => Some(p),
        MRvalue::Cast(MOperand::Copy(Place::Local(p))) => Some(p),
        MRvalue::Cast(MOperand::Move(Place::Local(p))) => Some(p),
        MRvalue::Ref(Place::Deref(inner)) => match *inner {
            Place::Local(p) => Some(p),
            _ => None,
        },
        _ => None,
    }
}

/// The state after the length of a slice is carried along.
pub open spec fn length_carried(s: State, dst: u32, rv: MRvalue) -> State {
    match copied_pointer(rv) {
        Some(p) => match of_local(s.lengths, p) {
            Some(r) => State { lengths: s.lengths.insert(dst, r), ..s },
            None => s,
        },
        None => s,
    }
}

/// The state after a store.
pub open spec fn stored(env: Env, s: State, place: Place, op: MOperand) -> State {
    match access(env, s, place) {
        (s1, None) => s1,
        (s1, Some((ptr, elem))) => {
            let (s2, value) = operand_value(env, s1, op);
            emitted(
                s2,
                Inst::Store { ty: elem, ptr: IrOp::Reg(ptr), value, align: align32(elem) },
            )
        },
    }
}

/// The state after a statement.
pub open spec fn statement(env: Env, s: State, st: MStmt) -> State {
    match st {
        MStmt::Nop => s,
        MStmt::Assign(Place::Local(d), rv) => length_carried(
            rvalue_into(env, s, RegId(d), rv),
            d,
            rv,
        ),
        MStmt::Assign(place, MRvalue::Use(op)) => if in_memory(place) {
            stored(env, s, place, op)
        } else {
            s
        },
        MStmt::Assign(_, _) => s,
    }
}

// ---- terminators ----

/// The block of a MIR block number.
pub open spec fn block_at(n: usize) -> BlockId {
    BlockId(low_half(n as u64))
}

/// The edges after a call: to its return block, to its cleanup block, or to either on an
/// unknown condition.
pub open spec fn call_edges(s: State, target: Option<usize>, unwind: Option<usize>) -> (
    State,
    TermView,
) {
    match (target, unwind) {
        (Some(t), Some(u)) => (
            advanced(s),
            TermView::CondBr {
                cond: IrOp::Reg(next_reg(s)),
                then_blk: block_at(t),
                then_args: Seq::empty(),
                else_blk: block_at(u),
                else_args: Seq::empty(),
            },
        ),
        (Some(t), None) => (s, TermView::Br { target: block_at(t), args: Seq::empty() }),
        (None, Some(u)) => (s, TermView::Br { target: block_at(u), args: Seq::empty() }),
        (None, None) => (s, TermView::Unreachable),
    }
}

/// The callee of a call.
pub open spec fn callee_of(env: Env, c: CalleeSpec) -> CalleeView {
    match c {
        CalleeSpec::Named(n) => match entry(env.func_ids, n@) {
            Some(id) => if n@.len() > 0 {
                CalleeView::Direct(crate::ir::FuncId(id))
            } else {
                CalleeView::Symbol(n@)
            },
            None => CalleeView::Symbol(n@),
        },
        CalleeSpec::Indirect(l) => CalleeView::Indirect(IrOp::Reg(RegId(l))),
    }
}

/// The type of a call's result: that of the destination.
pub open spec fn result_type(env: Env, dst: Place) -> Type {
    match dst {
        Place::Local(d) => match of_local(env.types, d) {
            Some(t) => ir_type(t),
            None => Type::Int { bits: 64 },
        },
        _ => Type::Int { bits: 64 },
    }
}

/// What a call's result refers to, where it is a reference.
pub open spec fn result_ref(env: Env, dst: Place) -> Option<RefResult> {
    match dst {
        Place::Local(d) => match of_local(env.types, d) {
            Some(MType::Ref(inner, writable)) => Some(
                RefResult { size: pointee_bytes(*inner), writable },
            ),
            _ => None,
        },
        _ => None,
    }
}

/// The cases of a switch.
pub open spec fn case_list(cases: Seq<(i128, usize)>) -> Seq<(BitVector, BlockId)> {
    Seq::new(
        cases.len(),
        |i: int|
            (
                BitVector { width: 64, bits: crate::ir::low_bits(64, to_bits(cases[i].0)) },
                block_at(cases[i].1),
            ),
    )
}

/// A branch on a value; one on 0 alone is a two-way branch.
pub open spec fn switched(value: IrOp, cases: Seq<(i128, usize)>, otherwise: usize) -> TermView {
    if cases.len() == 1 && cases[0].0 == 0 {
        TermView::CondBr {
            cond: value,
            then_blk: block_at(otherwise),
            then_args: Seq::empty(),
            else_blk: block_at(cases[0].1),
            else_args: Seq::empty(),
        }
    } else {
        TermView::Switch { value, cases: case_list(cases), default: block_at(otherwise) }
    }
}

/// The state with a call added.
pub open spec fn called(
    s: State,
    dst: Option<RegId>,
    callee: CalleeView,
    args: Seq<IrOp>,
    ret_ty: Type,
    ret_ref: Option<RefResult>,
) -> State {
    State { out: s.out.push(InstView::Call { dst, callee, args, ret_ty, ret_ref }), ..s }
}

/// The state after a terminator, and what it becomes.
pub open spec fn terminator(env: Env, s: State, t: MTerm) -> (State, Result<TermView, ErrorView>) {
    match t {
        MTerm::Return => (s, Ok(TermView::Return(None))),
        MTerm::Goto(n) => (s, Ok(TermView::Br { target: block_at(n), args: Seq::empty() })),
        MTerm::Unreachable => (s, Ok(TermView::Unreachable)),
        MTerm::Assert { cond, expected, target } => {
            let (s1, c) = operand_value(env, State { panics: true, ..s }, cond);
            let cont = block_at(target);
            let panic = BlockId(env.panic_id);
            (
                s1,
                Ok(
                    TermView::CondBr {
                        cond: c,
                        then_blk: if expected {
                            cont
                        } else {
                            panic
                        },
                        then_args: Seq::empty(),
                        else_blk: if expected {
                            panic
                        } else {
                            cont
                        },
                        else_args: Seq::empty(),
                    },
                ),
            )
        },
        MTerm::Call { dst, callee, args, target, unwind } => {
            let (s1, ops) = operand_values(env, s, args@);
            let s2 = called(
                s1,
                match dst {
                    Place::Local(d) => Some(RegId(d)),
                    _ => None,
                },
                callee_of(env, callee),
                ops,
                result_type(env, dst),
                result_ref(env, dst),
            );
            let (s3, e) = call_edges(s2, target, unwind);
            (s3, Ok(e))
        },
        MTerm::SwitchInt(op, cases, otherwise) => {
            let (s1, value) = operand_value(env, s, op);
            (s1, Ok(switched(value, cases@, otherwise)))
        },
        MTerm::Drop { target, unwind } => {
            let s1 = called(
                s,
                None,
                CalleeView::Symbol("drop"@),
                Seq::empty(),
                Type::Unit,
                None,
            );
            let (s2, e) = call_edges(s1, target, unwind);
            (s2, Ok(e))
        },
        MTerm::Unsupported => (
            s,
            Err(ErrorView::Unsupported("MIR terminator outside the modelled subset"@)),
        ),
    }
}

// ---- costs ----

/// A bound on the registers that an access uses.
pub open spec fn place_cost(p: Place) -> nat
    decreases p,
{
    match p {
        Place::Local(_) => 0,
        Place::Deref(_) => 0,
        Place::Index(base, _) => 1 + place_cost(*base),
        Place::ConstIndex(base, _) => 1 + place_cost(*base),
        Place::Field(_, _, _) => 1,
    }
}

/// A bound on the registers that an operand uses.
pub open spec fn operand_cost(op: MOperand) -> nat {
    match op {
        MOperand::Copy(p) => 1 + place_cost(p),
        MOperand::Move(p) => 1 + place_cost(p),
        MOperand::Const(_) => 0,
    }
}

/// A bound on the registers that operands use.
pub open spec fn operands_cost(ops: Seq<MOperand>) -> nat
    decreases ops.len(),
{
    if ops.len() == 0 {
        0
    } else {
        operands_cost(ops.drop_last()) + operand_cost(ops.last())
    }
}

/// A bound on the registers that a right side uses.
pub open spec fn rvalue_cost(rv: MRvalue) -> nat {
    match rv {
        MRvalue::Use(op) => operand_cost(op),
        MRvalue::Bin(_, a, b) => operand_cost(a) + operand_cost(b),
        MRvalue::CheckedBin(_, a, b) => operand_cost(a) + operand_cost(b) + 1,
        MRvalue::Ref(p) => place_cost(p),
        MRvalue::Cast(op) => operand_cost(op),
        MRvalue::Discriminant(_) => 2,
        _ => 0,
    }
}

/// A bound on the registers that a statement uses.
pub open spec fn stmt_cost(s: MStmt) -> nat {
    match s {
        MStmt::Assign(p, rv) => place_cost(p) + rvalue_cost(rv),
        MStmt::Nop => 0,
    }
}

/// A bound on the registers that a terminator uses.
pub open spec fn term_cost(t: MTerm) -> nat {
    match t {
        MTerm::Assert { cond, .. } => operand_cost(cond),
        MTerm::Call { args, .. } => operands_cost(args@) + 1,
        MTerm::SwitchInt(op, _, _) => operand_cost(op),
        MTerm::Drop { .. } => 1,
        _ => 0,
    }
}

// ---- laws ----

proof fn lemma_path_index(paths: Seq<Seq<u32>>, path: Seq<u32>)
    ensures
        0 <= path_index(paths, path) <= paths.len(),
        path_index(paths, path) < paths.len() ==> paths[path_index(paths, path)] == path,
        paths.contains(path) ==> path_index(paths, path) < paths.len(),
    decreases paths.len(),
{
    if paths.len() > 0 {
        let head = paths.drop_last();
        lemma_path_index(head, path);
        if paths.contains(path) && paths.last() != path {
            let k = choose|k: int| 0 <= k < paths.len() && paths[k] == path;
            assert(head[k] == path);
        }
    }
}

/// Paths of several fields have numbers of their own: another path gets another one, the
/// same path the same one again, and no number is that of a single field below
/// `NESTED_FIELD_BASE`.
pub proof fn nested_fields_are_told_apart(s: State, p: Seq<u32>, q: Seq<u32>)
    requires
        p.len() != 1,
        q.len() != 1,
        NESTED_FIELD_BASE + s.paths.len() + 1 <= u32::MAX,
    ensures
        (path_id(path_id(s, p).0, q).1 == path_id(s, p).1) <==> p == q,
        path_id(s, p).1 >= NESTED_FIELD_BASE,
{
    let s1 = path_id(s, p).0;
    lemma_path_index(s.paths, p);
    lemma_path_index(s1.paths, q);
    lemma_path_index(s1.paths, p);
    let i = path_index(s.paths, p);
    assert(s1.paths[i] == p);
    if p == q {
        if i < s.paths.len() {
            assert(s1.paths == s.paths);
        } else {
            assert(s1.paths.drop_last() =~= s.paths);
        }
    }
}

} // verus!
