//! The lowering of MIR statements and terminators, as it runs.

use crate::error::{Error, ErrorView};
use crate::ir::{
    inst_views, BitVector, BlockId, Callee, Const, FuncId, Inst, Operand as IrOp, RValue, RefResult,
    RegId, TermView, Terminator, Type,
};
use crate::llvm::lower::{bits_of, has_chars};
use crate::mir::ast::{CalleeSpec, MConst, MOperand, MRvalue, MStmt, MTerm, MType, Place};
use crate::mir::lower::{
    access, address_into, advanced, array_len, assigned, bin_rvalue, block_at, call_edges, called,
    callee_of, case_list, deref_elem, deref_field_path, discriminant_into, element, emitted,
    fat_ref, field_access, index_base, index_elem, is_memory_place, length_carried, length_of,
    loaded, mtype_to_ir, next_reg, of_local, operand_cost, operand_value, operand_values,
    operands_cost, or_byte, path_id, path_index, place_base_local, place_cost, place_value, pointed,
    pointee_align, pointee_size, result_ref, result_type, rvalue_cost, rvalue_into, statement,
    stmt_cost, switched, term_cost, terminator, used_into, witnessed, Env, NESTED_FIELD_BASE, State,
};
use crate::names::{lookup, table};
use std::collections::HashMap;
use vstd::prelude::*;

verus! {

broadcast use vstd::std_specs::hash::group_hash_axioms;

/// The context in which a function is lowered.
pub struct Ctx<'a> {
    pub local_types: HashMap<u32, MType>,
    pub func_ids: &'a Vec<(String, u32)>,
    pub panic_id: u32,
    pub next_temp: u32,
    pub panic_used: bool,
    pub lowering_failed: bool,
    pub slice_len: HashMap<u32, u32>,
    pub checked_arith: HashMap<u32, IrOp>,
    pub field_paths: Vec<Vec<u32>>,
    pub out: Vec<Inst>,
}

/// The contents of paths.
pub open spec fn path_views(s: Seq<Vec<u32>>) -> Seq<Seq<u32>> {
    Seq::new(s.len(), |i: int| s[i]@)
}

impl<'a> Ctx<'a> {
    /// What does not change.
    pub open spec fn env(&self) -> Env {
        Env {
            types: self.local_types@,
            func_ids: table(self.func_ids@),
            panic_id: self.panic_id,
        }
    }

    /// What was produced so far.
    pub open spec fn state(&self) -> State {
        State {
            next: self.next_temp as int,
            panics: self.panic_used,
            failed: self.lowering_failed,
            lengths: self.slice_len@,
            checked: self.checked_arith@,
            paths: path_views(self.field_paths@),
            out: inst_views(self.out@),
        }
    }

    /// There is room for `n` more registers and paths.
    pub open spec fn room(&self, n: nat) -> bool {
        &&& self.next_temp + n <= u32::MAX
        &&& NESTED_FIELD_BASE + self.field_paths@.len() + n <= u32::MAX
    }

    /// At most `n` registers and paths were added since `before`.
    pub open spec fn spent(&self, before: Ctx, n: nat) -> bool {
        &&& self.next_temp <= before.next_temp + n
        &&& self.field_paths@.len() <= before.field_paths@.len() + n
        &&& self.env() == before.env()
    }

    fn emit(&mut self, i: Inst)
        requires
            !(i is Call),
        ensures
            final(self).state() == emitted(old(self).state(), i),
            final(self).spent(*old(self), 0),
    {
        let ghost before = self.out@;
        let ghost iv = i@;
        self.out.push(i);
        assert(inst_views(self.out@) =~= inst_views(before).push(iv));
    }

    fn fresh(&mut self) -> (r: RegId)
        requires
            old(self).room(1),
        ensures
            final(self).state() == advanced(old(self).state()),
            r == next_reg(old(self).state()),
            final(self).spent(*old(self), 1),
            final(self).field_paths == old(self).field_paths,
    {
        let r: u32 = self.next_temp;
        self.next_temp = self.next_temp + 1;
        RegId(r)
    }

    fn find_path(&self, path: &Vec<u32>) -> (i: usize)
        ensures
            i == path_index(path_views(self.field_paths@), path@),
            i <= self.field_paths@.len(),
    {
        let ghost all = path_views(self.field_paths@);
        let mut i: usize = 0;
        let mut found: usize = 0;
        assert(all.take(0) =~= Seq::<Seq<u32>>::empty());
        while i < self.field_paths.len()
            invariant
                i <= self.field_paths@.len(),
                all == path_views(self.field_paths@),
                found == path_index(all.take(i as int), path@),
                found <= i,
            decreases self.field_paths@.len() - i,
        {
            assert(all.take(i + 1).drop_last() =~= all.take(i as int));
            assert(all.take(i + 1).last() == self.field_paths@[i as int]@);
            if found == i && !same_path(&self.field_paths[i], path) {
                found = i + 1;
            }
            i += 1;
        }
        assert(all.take(all.len() as int) =~= all);
        found
    }

    /// The number of a path of fields.
    pub fn field_path_id(&mut self, path: Vec<u32>) -> (id: u32)
        requires
            old(self).room(1),
        ensures
            (final(self).state(), id) == path_id(old(self).state(), path@),
            final(self).spent(*old(self), 1),
            final(self).next_temp == old(self).next_temp,
    {
        if path.len() == 1 {
            return path[0];
        }
        let i: usize = self.find_path(&path);
        let id: u32 = NESTED_FIELD_BASE + i as u32;
        if i == self.field_paths.len() {
            let ghost before = self.field_paths@;
            let ghost pv = path@;
            self.field_paths.push(path);
            assert(path_views(self.field_paths@) =~= path_views(before).push(pv));
        }
        id
    }

    fn type_of(&self, l: u32) -> (r: Option<&MType>)
        ensures
            match r {
                Some(t) => of_local(self.env().types, l) == Some(*t),
                None => of_local(self.env().types, l) is None,
            },
    {
        self.local_types.get(&l)
    }

    fn pointed_by(&self, l: u32) -> (r: Option<&MType>)
        ensures
            match r {
                Some(t) => pointed(of_local(self.env().types, l)) == Some(*t),
                None => pointed(of_local(self.env().types, l)) is None,
            },
    {
        match self.type_of(l) {
            Some(MType::Ref(inner, _)) => Some(&**inner),
            Some(MType::Ptr(inner, _)) => Some(&**inner),
            _ => None,
        }
    }

    /// The element type for an index through a local.
    pub fn index_elem(&self, l: u32) -> (r: Option<Type>)
        ensures
            r == index_elem(self.env(), l),
    {
        match self.pointed_by(l) {
            Some(MType::Array(e, _)) => Some(mtype_to_ir(e)),
            Some(MType::Slice(e)) => Some(mtype_to_ir(e)),
            _ => None,
        }
    }

    /// Whether a local is a pointer to a slice.
    pub fn is_fat_ref(&self, l: u32) -> (r: bool)
        ensures
            r == fat_ref(self.env(), l),
    {
        match self.pointed_by(l) {
            Some(MType::Slice(_)) => true,
            _ => false,
        }
    }

    /// The type behind a pointer in a local.
    pub fn deref_elem(&self, l: u32) -> (r: Option<Type>)
        ensures
            r == deref_elem(self.env(), l),
    {
        match self.pointed_by(l) {
            Some(t) => Some(mtype_to_ir(t)),
            None => None,
        }
    }

    /// The constant length of the array that a place refers to.
    pub fn array_len(&self, p: &Place) -> (r: Option<u64>)
        ensures
            r == array_len(self.env(), *p),
    {
        let l: u32 = match p {
            Place::Local(l) => *l,
            Place::Deref(inner) => match **inner {
                Place::Local(l) => l,
                _ => {
                    return None;
                },
            },
            _ => {
                return None;
            },
        };
        if let Some(MType::Array(_, n)) = self.type_of(l) {
            return Some(*n);
        }
        match self.pointed_by(l) {
            Some(MType::Array(_, n)) => Some(*n),
            _ => None,
        }
    }

    fn byte_or(t: Option<Type>) -> (r: Type)
        ensures
            r == or_byte(t),
    {
        match t {
            Some(t) => t,
            None => Type::Int { bits: 8 },
        }
    }

    /// The base pointer and element type of an indexed place.
    fn index_base(&mut self, base: &Place) -> (r: Option<(IrOp, Type)>)
        requires
            old(self).room(place_cost(*base)),
        ensures
            (final(self).state(), r) == index_base(old(self).env(), old(self).state(), *base),
            final(self).spent(*old(self), place_cost(*base)),
        decreases base, 1int,
    {
        match base {
            Place::Deref(inner) => match **inner {
                Place::Local(l) => Some((IrOp::Reg(RegId(l)), Self::byte_or(self.index_elem(l)))),
                _ => {
                    self.lowering_failed = true;
                    None
                },
            },
            Place::Local(_) => {
                self.lowering_failed = true;
                None
            },
            _ => match self.place_access(base) {
                None => None,
                Some((ptr, ty)) => match ty {
                    Type::Array { elem, .. } => Some((IrOp::Reg(ptr), *elem)),
                    _ => {
                        self.lowering_failed = true;
                        None
                    },
                },
            },
        }
    }

    fn offset(&mut self, base: IrOp, index: IrOp, elem: Type) -> (r: Option<(RegId, Type)>)
        requires
            old(self).room(1),
        ensures
            (final(self).state(), r) == element(old(self).state(), base, index, elem),
            final(self).spent(*old(self), 1),
    {
        let dst = self.fresh();
        self.emit(Inst::PtrOffset { dst, base, index, elem: elem.copy() });
        Some((dst, elem))
    }

    fn field(&mut self, l: u32, path: Vec<u32>, elem: Type) -> (r: Option<(RegId, Type)>)
        requires
            old(self).room(1),
        ensures
            (final(self).state(), r) == field_access(old(self).state(), l, path@, elem),
            final(self).spent(*old(self), 1),
    {
        let size: u64 = match elem.size_bytes() {
            Some(n) => if n > 0 {
                n
            } else {
                1
            },
            None => 1,
        };
        let align: u64 = elem.align_bytes();
        let id: u32 = self.field_path_id(path);
        let dst = RegId(self.next_temp);
        self.next_temp = self.next_temp + 1;
        self.emit(Inst::FieldPtr { dst, base: IrOp::Reg(RegId(l)), field: id, size, align });
        Some((dst, elem))
    }

    /// The pointer to a place in memory and the type there.
    pub fn place_access(&mut self, place: &Place) -> (r: Option<(RegId, Type)>)
        requires
            old(self).room(place_cost(*place)),
        ensures
            (final(self).state(), r) == access(old(self).env(), old(self).state(), *place),
            final(self).spent(*old(self), place_cost(*place)),
        decreases place, 0int,
    {
        match place {
            Place::Index(base, idx) => match self.index_base(base) {
                None => None,
                Some((b, elem)) => self.offset(b, IrOp::Reg(RegId(*idx)), elem),
            },
            Place::ConstIndex(base, n) => match self.index_base(base) {
                None => None,
                Some((b, elem)) => self.offset(b, IrOp::integer(64, *n as u128), elem),
            },
            Place::Deref(inner) => match **inner {
                Place::Local(l) => Some((RegId(l), Self::byte_or(self.deref_elem(l)))),
                _ => {
                    self.lowering_failed = true;
                    None
                },
            },
            Place::Field(_, _, fty) => match deref_field_path(place) {
                Some((l, path)) => {
                    let elem = match fty {
                        Some(t) => mtype_to_ir(t),
                        None => Type::Int { bits: 8 },
                    };
                    self.field(l, path, elem)
                },
                None => {
                    self.lowering_failed = true;
                    None
                },
            },
            Place::Local(_) => {
                self.lowering_failed = true;
                None
            },
        }
    }

    /// A valid reference for a field of a value that is one.
    fn ref_witness_for(&mut self, p: &Place) -> (r: IrOp)
        requires
            old(self).room(1),
        ensures
            (final(self).state(), r) == witnessed(old(self).state(), *p),
            final(self).spent(*old(self), 1),
    {
        if is_memory_place(p) {
            return IrOp::Const(Const::Undef);
        }
        match p {
            Place::Field(_, _, Some(MType::Ref(inner, writable))) => {
                let size = pointee_size(inner);
                let align: u32 = match size {
                    Some(_) => pointee_align(inner),
                    None => 1,
                };
                let dst = self.fresh();
                self.emit(Inst::RefWitness { dst, size, align, writable: *writable });
                IrOp::Reg(dst)
            },
            _ => IrOp::Const(Const::Undef),
        }
    }

    fn load(&mut self, p: &Place) -> (r: IrOp)
        requires
            old(self).room(place_cost(*p) + 1),
        ensures
            (final(self).state(), r) == loaded(old(self).env(), old(self).state(), *p),
            final(self).spent(*old(self), place_cost(*p) + 1),
    {
        match self.place_access(p) {
            None => IrOp::Const(Const::Undef),
            Some((ptr, elem)) => {
                let dst = self.fresh();
                let align: u32 = (elem.align_bytes() % 0x1_0000_0000) as u32;
                self.emit(Inst::Load { dst, ty: elem, ptr: IrOp::Reg(ptr), align });
                IrOp::Reg(dst)
            },
        }
    }

    fn value_of(&mut self, p: &Place) -> (r: IrOp)
        requires
            old(self).room(place_cost(*p) + 1),
        ensures
            (final(self).state(), r) == place_value(old(self).env(), old(self).state(), *p),
            final(self).spent(*old(self), place_cost(*p) + 1),
    {
        if let Place::Local(n) = p {
            return IrOp::Reg(RegId(*n));
        }
        if let Place::Field(inner, 0, _) = p {
            if let Place::Local(k) = **inner {
                if let Some(o) = self.checked_arith.get(&k) {
                    return o.copy();
                }
                if self.is_fat_ref(k) {
                    return IrOp::Reg(RegId(k));
                }
                return self.ref_witness_for(p);
            }
        }
        if is_memory_place(p) {
            self.load(p)
        } else {
            self.ref_witness_for(p)
        }
    }

    /// The value of an operand.
    pub fn operand_value(&mut self, op: &MOperand) -> (r: IrOp)
        requires
            old(self).room(operand_cost(*op)),
        ensures
            (final(self).state(), r) == operand_value(old(self).env(), old(self).state(), *op),
            final(self).spent(*old(self), operand_cost(*op)),
    {
        match op {
            MOperand::Const(MConst::Int(n)) => IrOp::integer(64, bits_of(*n)),
            MOperand::Const(MConst::Bool(b)) => {
                let v: u128 = if *b {
                    1
                } else {
                    0
                };
                IrOp::integer(1, v)
            },
            MOperand::Copy(p) => self.value_of(p),
            MOperand::Move(p) => self.value_of(p),
        }
    }

    fn operand_values(&mut self, ops: &Vec<MOperand>) -> (r: Vec<IrOp>)
        requires
            old(self).room(operands_cost(ops@)),
        ensures
            (final(self).state(), r@) == operand_values(old(self).env(), old(self).state(), ops@),
            final(self).spent(*old(self), operands_cost(ops@)),
    {
        let mut out: Vec<IrOp> = Vec::new();
        let mut i: usize = 0;
        assert(ops@.take(0) =~= Seq::<MOperand>::empty());
        assert(out@ =~= Seq::<IrOp>::empty());
        while i < ops.len()
            invariant
                i <= ops@.len(),
                old(self).room(operands_cost(ops@)),
                (self.state(), out@) == operand_values(
                    old(self).env(),
                    old(self).state(),
                    ops@.take(i as int),
                ),
                self.spent(*old(self), operands_cost(ops@.take(i as int))),
            decreases ops@.len() - i,
        {
            assert(ops@.take(i + 1).drop_last() =~= ops@.take(i as int));
            assert(ops@.take(i + 1).last() == ops@[i as int]);
            proof {
                lemma_operands_cost(ops@, i + 1);
            }
            let v = self.operand_value(&ops[i]);
            out.push(v);
            i += 1;
        }
        assert(ops@.take(ops@.len() as int) =~= ops@);
        out
    }

    fn assign(&mut self, dst: RegId, value: RValue)
        ensures
            final(self).state() == assigned(old(self).state(), dst, value),
            final(self).spent(*old(self), 0),
    {
        self.emit(Inst::Assign { dst, ty: Type::Int { bits: 64 }, value });
    }

    fn lower_use(&mut self, dst: RegId, op: &MOperand)
        requires
            old(self).room(operand_cost(*op)),
        ensures
            final(self).state() == used_into(old(self).env(), old(self).state(), dst, *op),
            final(self).spent(*old(self), operand_cost(*op)),
    {
        let place: Option<&Place> = match op {
            MOperand::Copy(p) => Some(p),
            MOperand::Move(p) => Some(p),
            MOperand::Const(_) => None,
        };
        if let Some(p) = place {
            if is_memory_place(p) {
                match self.place_access(p) {
                    Some((ptr, elem)) => {
                        let align: u32 = (elem.align_bytes() % 0x1_0000_0000) as u32;
                        self.emit(Inst::Load { dst, ty: elem, ptr: IrOp::Reg(ptr), align });
                    },
                    None => {
                        self.assign(dst, RValue::Use(IrOp::Const(Const::Undef)));
                    },
                }
                return;
            }
        }
        let v = self.operand_value(op);
        self.assign(dst, RValue::Use(v));
    }

    fn lower_ref(&mut self, dst: RegId, place: &Place)
        requires
            old(self).room(place_cost(*place)),
        ensures
            final(self).state() == address_into(old(self).env(), old(self).state(), dst, *place),
            final(self).spent(*old(self), place_cost(*place)),
    {
        let value: IrOp = match place {
            Place::Deref(inner) => match **inner {
                Place::Local(l) => IrOp::Reg(RegId(l)),
                _ => IrOp::Const(Const::Undef),
            },
            Place::Local(_) => IrOp::Const(Const::Undef),
            _ => {
                let by_value = match place {
                    Place::Field(_, _, _) => !is_memory_place(place),
                    _ => false,
                };
                if by_value {
                    IrOp::Const(Const::Undef)
                } else {
                    match self.place_access(place) {
                        Some((ptr, _)) => IrOp::Reg(ptr),
                        None => IrOp::Const(Const::Undef),
                    }
                }
            },
        };
        self.assign(dst, RValue::Use(value));
    }

    fn lower_discriminant(&mut self, dst: RegId, place: &Place)
        requires
            old(self).room(2),
        ensures
            final(self).state() == discriminant_into(old(self).state(), dst, *place),
            final(self).spent(*old(self), 2),
    {
        if is_memory_place(place) {
            let p: u32 = place_base_local(place);
            let ptr = self.fresh();
            self.emit(
                Inst::FieldPtr { dst: ptr, base: IrOp::Reg(RegId(p)), field: 0, size: 1, align: 1 },
            );
            let val = self.fresh();
            self.emit(
                Inst::Load { dst: val, ty: Type::Int { bits: 8 }, ptr: IrOp::Reg(ptr), align: 1 },
            );
        }
        self.assign(dst, RValue::Use(IrOp::Const(Const::Undef)));
    }

    fn length(&self, place: &Place) -> (r: IrOp)
        ensures
            r == length_of(self.env(), self.state(), *place),
    {
        match self.array_len(place) {
            Some(n) => IrOp::integer(64, n as u128),
            None => match self.slice_len.get(&place_base_local(place)) {
                Some(r) => IrOp::Reg(RegId(*r)),
                None => IrOp::Const(Const::Undef),
            },
        }
    }

    /// Lower a right side into a register.
    pub fn lower_rvalue_into(&mut self, dst: RegId, rv: &MRvalue)
        requires
            old(self).room(rvalue_cost(*rv)),
        ensures
            final(self).state() == rvalue_into(old(self).env(), old(self).state(), dst, *rv),
            final(self).spent(*old(self), rvalue_cost(*rv)),
    {
        match rv {
            MRvalue::Use(op) => {
                self.lower_use(dst, op);
            },
            MRvalue::Bin(kind, a, b) => {
                let x = self.operand_value(a);
                let y = self.operand_value(b);
                let value = match bin_rvalue(*kind, x, y) {
                    Some(v) => v,
                    None => RValue::Use(IrOp::Const(Const::Undef)),
                };
                self.assign(dst, value);
            },
            MRvalue::CheckedBin(kind, a, b) => {
                let x = self.operand_value(a);
                let y = self.operand_value(b);
                if let Some(v) = bin_rvalue(*kind, x, y) {
                    let tmp = self.fresh();
                    self.assign(tmp, v);
                    self.checked_arith.insert(dst.0, IrOp::Reg(tmp));
                }
            },
            MRvalue::Len(place) => {
                let v = self.length(place);
                self.assign(dst, RValue::Use(v));
            },
            MRvalue::Ref(place) => {
                self.lower_ref(dst, place);
            },
            MRvalue::Cast(op) => {
                let v = self.operand_value(op);
                self.assign(dst, RValue::Use(v));
            },
            MRvalue::Discriminant(place) => {
                self.lower_discriminant(dst, place);
            },
            MRvalue::Other => {
                self.assign(dst, RValue::Use(IrOp::Const(Const::Undef)));
            },
        }
    }

    /// Carry the length of a slice to a copy of its pointer.
    pub fn propagate_slice_len(&mut self, dst: u32, rv: &MRvalue)
        ensures
            final(self).state() == length_carried(old(self).state(), dst, *rv),
            final(self).spent(*old(self), 0),
    {
        let src: Option<u32> = match rv {
            MRvalue::Use(MOperand::Copy(Place::Local(p))) => Some(*p),
            MRvalue::Use(MOperand::Move(Place::Local(p))) => Some(*p),
            MRvalue::Cast(MOperand::Copy(Place::Local(p))) => Some(*p),
            MRvalue::Cast(MOperand::Move(Place::Local(p))) => Some(*p),
            MRvalue::Ref(Place::Deref(inner)) => match **inner {
                Place::Local(p) => Some(p),
                _ => None,
            },
            _ => None,
        };
        if let Some(p) = src {
            let len: Option<u32> = match self.slice_len.get(&p) {
                Some(r) => Some(*r),
                None => None,
            };
            if let Some(r) = len {
                self.slice_len.insert(dst, r);
            }
        }
    }

    /// Lower a statement.
    pub fn lower_stmt(&mut self, s: &MStmt)
        requires
            old(self).room(stmt_cost(*s)),
        ensures
            final(self).state() == statement(old(self).env(), old(self).state(), *s),
            final(self).spent(*old(self), stmt_cost(*s)),
    {
        match s {
            MStmt::Nop => {},
            MStmt::Assign(place, rv) => match place {
                Place::Local(d) => {
                    self.lower_rvalue_into(RegId(*d), rv);
                    self.propagate_slice_len(*d, rv);
                },
                _ => {
                    if let MRvalue::Use(op) = rv {
                        if is_memory_place(place) {
                            if let Some((ptr, elem)) = self.place_access(place) {
                                let value = self.operand_value(op);
                                let align: u32 = (elem.align_bytes() % 0x1_0000_0000) as u32;
                                self.emit(
                                    Inst::Store { ty: elem, ptr: IrOp::Reg(ptr), value, align },
                                );
                            }
                        }
                    }
                },
            },
        }
    }

    /// The edges after a call.
    pub fn call_edges(&mut self, target: Option<usize>, unwind: Option<usize>) -> (t: Terminator)
        requires
            old(self).room(1),
        ensures
            (final(self).state(), t@) == call_edges(old(self).state(), target, unwind),
            final(self).spent(*old(self), 1),
    {
        match (target, unwind) {
            (Some(t), Some(u)) => {
                let cond = IrOp::Reg(self.fresh());
                two_way(cond, block_id(t), block_id(u))
            },
            (Some(t), None) => one_way(block_id(t)),
            (None, Some(u)) => one_way(block_id(u)),
            (None, None) => Terminator::Unreachable,
        }
    }

    fn callee(&self, c: &CalleeSpec) -> (r: Callee)
        ensures
            r@ == callee_of(self.env(), *c),
    {
        match c {
            CalleeSpec::Named(n) => {
                if has_chars(n) {
                    if let Some(id) = lookup(self.func_ids, n) {
                        return Callee::Direct(FuncId(*id));
                    }
                }
                Callee::Symbol(n.clone())
            },
            CalleeSpec::Indirect(l) => Callee::Indirect(IrOp::Reg(RegId(*l))),
        }
    }

    fn result_of(&self, dst: &Place) -> (r: (Type, Option<RefResult>))
        ensures
            r.0 == result_type(self.env(), *dst),
            r.1 == result_ref(self.env(), *dst),
    {
        match dst {
            Place::Local(d) => match self.type_of(*d) {
                Some(t) => {
                    let rr: Option<RefResult> = match t {
                        MType::Ref(inner, writable) => Some(
                            RefResult { size: pointee_size(inner), writable: *writable },
                        ),
                        _ => None,
                    };
                    (mtype_to_ir(t), rr)
                },
                None => (Type::Int { bits: 64 }, None),
            },
            _ => (Type::Int { bits: 64 }, None),
        }
    }

    fn emit_call(
        &mut self,
        dst: Option<RegId>,
        callee: Callee,
        args: Vec<IrOp>,
        ret_ty: Type,
        ret_ref: Option<RefResult>,
    )
        ensures
            final(self).state() == called(
                old(self).state(),
                dst,
                callee@,
                args@,
                ret_ty,
                ret_ref,
            ),
            final(self).spent(*old(self), 0),
    {
        let i = Inst::Call { dst, callee, args, ret_ty, ret_ref };
        let ghost before = self.out@;
        let ghost iv = i@;
        self.out.push(i);
        assert(inst_views(self.out@) =~= inst_views(before).push(iv));
    }

    /// Lower a terminator.
    pub fn lower_term(&mut self, t: &MTerm) -> (r: Result<Terminator, Error>)
        requires
            old(self).room(term_cost(*t)),
        ensures
            final(self).state() == terminator(old(self).env(), old(self).state(), *t).0,
            match r {
                Ok(x) => terminator(old(self).env(), old(self).state(), *t).1 == Ok::<
                    TermView,
                    ErrorView,
                >(x@),
                Err(e) => terminator(old(self).env(), old(self).state(), *t).1 == Err::<
                    TermView,
                    ErrorView,
                >(e@),
            },
            final(self).spent(*old(self), term_cost(*t)),
    {
        match t {
            MTerm::Return => Ok(Terminator::Return(None)),
            MTerm::Goto(n) => Ok(one_way(block_id(*n))),
            MTerm::Unreachable => Ok(Terminator::Unreachable),
            MTerm::Assert { cond, expected, target } => {
                self.panic_used = true;
                let c = self.operand_value(cond);
                let cont = block_id(*target);
                let panic = BlockId(self.panic_id);
                if *expected {
                    Ok(two_way(c, cont, panic))
                } else {
                    Ok(two_way(c, panic, cont))
                }
            },
            MTerm::Call { dst, callee, args, target, unwind } => {
                let ops = self.operand_values(args);
                let d: Option<RegId> = match dst {
                    Place::Local(d) => Some(RegId(*d)),
                    _ => None,
                };
                let c = self.callee(callee);
                let (ret_ty, ret_ref) = self.result_of(dst);
                self.emit_call(d, c, ops, ret_ty, ret_ref);
                Ok(self.call_edges(*target, *unwind))
            },
            MTerm::SwitchInt(op, cases, otherwise) => {
                let value = self.operand_value(op);
                Ok(switch_on(value, cases, *otherwise))
            },
            MTerm::Drop { target, unwind } => {
                let none: Vec<IrOp> = Vec::new();
                assert(none@ =~= Seq::<IrOp>::empty());
                self.emit_call(
                    None,
                    Callee::Symbol("drop".to_owned()),
                    none,
                    Type::Unit,
                    None,
                );
                Ok(self.call_edges(*target, *unwind))
            },
            MTerm::Unsupported => Err(
                Error::unsupported("MIR terminator outside the modelled subset"),
            ),
        }
    }
}

fn same_path(a: &Vec<u32>, b: &Vec<u32>) -> (r: bool)
    ensures
        r == (a@ == b@),
{
    if a.len() != b.len() {
        return false;
    }
    let mut i: usize = 0;
    while i < a.len()
        invariant
            i <= a@.len(),
            a@.len() == b@.len(),
            forall|k: int| 0 <= k < i ==> a@[k] == b@[k],
        decreases a@.len() - i,
    {
        if a[i] != b[i] {
            return false;
        }
        i += 1;
    }
    assert(a@ =~= b@);
    true
}

proof fn lemma_operands_cost(ops: Seq<MOperand>, k: int)
    requires
        0 <= k <= ops.len(),
    ensures
        operands_cost(ops.take(k)) <= operands_cost(ops),
    decreases ops.len(),
{
    if k == ops.len() {
        assert(ops.take(k) =~= ops);
    } else {
        assert(ops.drop_last().take(k) =~= ops.take(k));
        lemma_operands_cost(ops.drop_last(), k);
    }
}

/// The block of a MIR block number.
pub fn block_id(n: usize) -> (b: BlockId)
    ensures
        b == block_at(n),
{
    BlockId((n as u64 % 0x1_0000_0000) as u32)
}

fn one_way(target: BlockId) -> (t: Terminator)
    ensures
        t@ == (TermView::Br { target, args: Seq::empty() }),
{
    let none: Vec<IrOp> = Vec::new();
    assert(none@ =~= Seq::<IrOp>::empty());
    Terminator::Br { target, args: none }
}

fn two_way(cond: IrOp, then_blk: BlockId, else_blk: BlockId) -> (t: Terminator)
    ensures
        t@ == (TermView::CondBr {
            cond,
            then_blk,
            then_args: Seq::empty(),
            else_blk,
            else_args: Seq::empty(),
        }),
{
    let then_args: Vec<IrOp> = Vec::new();
    let else_args: Vec<IrOp> = Vec::new();
    assert(then_args@ =~= Seq::<IrOp>::empty());
    assert(else_args@ =~= Seq::<IrOp>::empty());
    Terminator::CondBr { cond, then_blk, then_args, else_blk, else_args }
}

fn switch_on(value: IrOp, cases: &Vec<(i128, usize)>, otherwise: usize) -> (t: Terminator)
    ensures
        t@ == switched(value, cases@, otherwise),
{
    if cases.len() == 1 && cases[0].0 == 0 {
        return two_way(value, block_id(otherwise), block_id(cases[0].1));
    }
    let mut out: Vec<(BitVector, BlockId)> = Vec::new();
    let mut i: usize = 0;
    while i < cases.len()
        invariant
            i <= cases@.len(),
            out@ == case_list(cases@.take(i as int)),
        decreases cases@.len() - i,
    {
        out.push((BitVector::new(64, bits_of(cases[i].0)), block_id(cases[i].1)));
        assert(out@ =~= case_list(cases@.take(i + 1)));
        i += 1;
    }
    assert(cases@.take(cases@.len() as int) =~= cases@);
    Terminator::Switch { value, cases: out, default: block_id(otherwise) }
}

} // verus!
