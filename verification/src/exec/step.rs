//! The effect of instructions.

use crate::exec::check::{
    access_checked, arith_checked, bulk_checked, dealloc_checked, loading, nowrap_fact,
    region_at, site, size_no_wrap_fact, LoadOrigin,
};
use crate::exec::eval::{
    affine_of, condition_of, const_expr, fresh_number, fresh_value, offset_argument, pointer_of,
    rvalue_of, scalar_of, value_of, values_of, zero, Scene, SceneView,
};
use crate::exec::machine::{
    deciding, field_offset, fresh_scalar, grounds, reaching, recorded_scalar, recorded_uninit,
    violation, Check, Machine, MachineView, RefuteMode,
};
use crate::exec::value::{
    bound, common, gcd, with_fact, with_region, POrigin, PathState, PathView, Prov, StoreRecord,
    SymPointer, SymRegion, SymValue, PTR_WIDTH,
};
use crate::expr::{
    bin, lit, mk_bin, mk_bool, mk_lit, mk_sle, sle, truth, BvOp, Ex, Expr,
};
use crate::ir::{
    low_bits, size_or_one, stride_or_one, Assumption, BitVector, Callee, Const, Inst, MemKind,
    Operand, RefResult, RegId, RegionKind, SafetyProperty, Type,
};
use crate::summary::{RetSummary, RetView, Summary, SummaryView};
use std::collections::HashMap;
use vstd::prelude::*;

verus! {

broadcast use vstd::std_specs::hash::group_hash_axioms;

// ---- offsets ----

/// The negative of a number modulo two to the 128.
pub open spec fn negated_bits(x: u128) -> u128 {
    if x == 0 {
        0
    } else {
        (u128::MAX - x + 1) as u128
    }
}

/// The top bit of a constant is set.
pub open spec fn is_negative(b: BitVector) -> bool {
    0 < b.width <= 128 && (b.bits >> ((b.width - 1) as u128)) & 1 == 1
}

/// The absolute value of a constant that is read as a signed number.
pub open spec fn magnitude(b: BitVector) -> u128 {
    if is_negative(b) {
        low_bits(b.width, negated_bits(b.bits))
    } else {
        b.bits
    }
}

/// The alignment of a pointer after an offset: a constant index shows it exactly, for
/// another one it is that of the stride.
pub open spec fn offset_align(align: u64, index: Ex, stride: u64) -> u64 {
    match *index {
        Expr::Const(b) => common(
            align as int,
            (magnitude(b) as int % 0x1_0000_0000_0000_0000 * stride as int)
                % 0x1_0000_0000_0000_0000,
        ) as u64,
        _ => common(align as int, stride as int) as u64,
    }
}

fn magnitude_of(b: &BitVector) -> (v: u128)
    ensures
        v == magnitude(*b),
{
    if 0 < b.width && b.width <= 128 {
        let k: u128 = (b.width - 1) as u128;
        if (b.bits >> k) & 1 == 1 {
            let n: u128 = if b.bits == 0 {
                0
            } else {
                u128::MAX - b.bits + 1
            };
            return BitVector::new(b.width, n).bits;
        }
    }
    b.bits
}

fn align_after(align: u64, index: &Ex, stride: u64) -> (a: u64)
    ensures
        a == offset_align(align, *index, stride),
{
    match &**index {
        Expr::Const(b) => {
            let k: u128 = magnitude_of(b) % 0x1_0000_0000_0000_0000;
            assert(k * stride < 0x1_0000_0000_0000_0000 * 0x1_0000_0000_0000_0000)
                by (nonlinear_arith)
                requires
                    0 <= k < 0x1_0000_0000_0000_0000,
                    0 <= stride < 0x1_0000_0000_0000_0000,
            ;
            assert(0 <= k * stride) by (nonlinear_arith)
                requires
                    0 <= k,
                    0 <= stride,
            ;
            let d: u128 = (k * stride as u128) % 0x1_0000_0000_0000_0000;
            gcd(align, d as u64)
        },
        _ => gcd(align, stride),
    }
}

// ---- regions ----

/// A valid reference to a region of its own: of a known size, or of an unknown one.
pub open spec fn ref_region(size: Ex, writable: bool, nowrap: Option<Ex>) -> SymRegion {
    SymRegion {
        kind: RegionKind::Global,
        size,
        live: true,
        readable: true,
        writable,
        contract: Some(Assumption::ValidReference),
        size_nowrap: nowrap,
        sentinel: None,
        user_controlled: false,
    }
}

/// After a valid reference is made.
pub open spec fn referenced(m: MachineView, s: PathView, size: Option<u64>, writable: bool) -> (
    MachineView,
    PathView,
) {
    let (m1, e, nowrap) = match size {
        Some(n) => (m, lit(PTR_WIDTH, n as u128), Some(truth(true))),
        None => {
            let (m1, e) = fresh_scalar(m, PTR_WIDTH);
            (m1, e, None)
        },
    };
    (m1, with_region(with_fact(s, sle(zero(), e)), ref_region(e, writable, nowrap)))
}

/// A pointer to the start of a region.
pub open spec fn start_of(region: int, align: u64) -> SymValue {
    SymValue::Ptr(
        SymPointer { prov: Prov::Region(region as usize), offset: zero(), align },
    )
}

/// After an allocation.
pub open spec fn allocated(
    m: MachineView,
    s: PathView,
    dst: RegId,
    kind: RegionKind,
    count: Ex,
    stride: u64,
    align: u32,
) -> (MachineView, PathView) {
    let size = bin(BvOp::Mul, count, lit(PTR_WIDTH, stride as u128));
    let r = SymRegion {
        kind,
        size,
        live: true,
        readable: true,
        writable: kind != RegionKind::Global,
        contract: None,
        size_nowrap: Some(nowrap_fact(count, stride)),
        sentinel: None,
        user_controlled: false,
    };
    let s1 = with_fact(with_region(s, r), sle(zero(), size));
    (m, bound(s1, dst.0, start_of(s.regions.len() as int, align as u64)))
}

/// At least 1.
pub open spec fn at_least_one(x: u64) -> u64 {
    if x > 1 {
        x
    } else {
        1
    }
}

/// After a pointer to a field is made: one of a known region lies in it, at an offset of
/// its own.
pub open spec fn field_pointed(
    m: MachineView,
    s: PathView,
    dst: RegId,
    base: SymPointer,
    field: u32,
    size: u64,
    align: u64,
) -> (MachineView, PathView) {
    match region_at(s, base.prov) {
        Some(r) => {
            let (m1, off) = field_offset(m, base.prov->Region_0, field, size);
            let end = lit(PTR_WIDTH, (off as u128 + size as u128) as u128);
            (
                m1,
                bound(
                    with_fact(s, sle(end, r.size)),
                    dst.0,
                    SymValue::Ptr(
                        SymPointer {
                            prov: base.prov,
                            offset: lit(PTR_WIDTH, off as u128),
                            align: at_least_one(align),
                        },
                    ),
                ),
            )
        },
        None => (
            m,
            bound(s, dst.0, SymValue::Ptr(SymPointer { align: at_least_one(align), ..base })),
        ),
    }
}

// ---- loads and stores ----

/// The region was allocated on the path.
pub open spec fn is_fresh_alloc(s: PathView, p: Prov) -> bool {
    region_at(s, p) is Some && (region_at(s, p)->0).contract is None
}

/// The state after an approximation.
pub open spec fn inexact(s: PathView) -> PathView {
    PathView { exact: false, ..s }
}

/// After a load: one that no store determines is unknown, and one from memory that was
/// allocated and never written is a violation.
pub open spec fn loaded(
    m: MachineView,
    s: PathView,
    at: Check,
    dst: RegId,
    ty: Type,
    p: SymPointer,
    align: u32,
) -> (MachineView, PathView) {
    let asize = size_or_one(ty);
    let m1 = access_checked(m, s, at, p, asize, align as u64, SafetyProperty::ValidRead);
    let (m2, v, origin) = loading(m1, s, p, asize, ty, s.heap.len() as int);
    match origin {
        LoadOrigin::Stored => (m2, bound(s, dst.0, v)),
        LoadOrigin::Uncertain => (m2, bound(inexact(s), dst.0, v)),
        LoadOrigin::Unwritten => {
            let m3 = if s.exact && is_fresh_alloc(s, p.prov) {
                match reaching(m2, s) {
                    (m3, Some(w)) => recorded_uninit(
                        m3,
                        violation(s),
                        site(at, SafetyProperty::ValidRead),
                        w,
                    ),
                    (m3, None) => m3,
                }
            } else {
                m2
            };
            (m3, bound(inexact(s), dst.0, v))
        },
    }
}

/// The state with a store added.
pub open spec fn with_store(s: PathView, r: StoreRecord) -> PathView {
    PathView { heap: s.heap.push(r), ..s }
}

/// The state without stores.
pub open spec fn without_stores(s: PathView) -> PathView {
    PathView { heap: Seq::empty(), ..s }
}

// ---- bulk operations ----

/// The length of a bulk operation, where it is constant.
pub open spec fn constant_length(len: Operand) -> Option<u64> {
    match len {
        Operand::Const(Const::Int(b)) => if b.bits <= u64::MAX {
            Some(b.bits as u64)
        } else {
            None
        },
        _ => None,
    }
}

/// The type of the bytes of a bulk operation, as a number of up to 128 bits.
pub open spec fn bulk_type(n: Option<u64>) -> Type {
    Type::Int {
        bits: match n {
            None => 64,
            Some(n) => if n >= 16 {
                128
            } else if n >= 1 {
                (n * 8) as u32
            } else {
                8
            },
        },
    }
}

/// The state with the region of a pointer marked as holding untrusted data.
pub open spec fn user_filled(s: PathView, p: Prov) -> PathView {
    match region_at(s, p) {
        Some(r) => {
            let i = p->Region_0 as int;
            PathView {
                regions: s.regions.update(i, SymRegion { user_controlled: true, ..r }),
                ..s
            }
        },
        None => s,
    }
}

/// The value that a copy of constant length carries over, and whether a store determines
/// it.
pub open spec fn carried(
    sc: SceneView,
    m: MachineView,
    s: PathView,
    kind: MemKind,
    src: Option<Operand>,
    n: u64,
) -> (MachineView, Option<(SymValue, bool)>) {
    match src {
        Some(op) => if kind == MemKind::Copy || kind == MemKind::Move {
            let (m1, p) = pointer_of(sc, m, s, op);
            let (m2, v, origin) = loading(
                m1,
                s,
                p,
                n,
                bulk_type(Some(n)),
                s.heap.len() as int,
            );
            (m2, Some((v, origin == LoadOrigin::Stored)))
        } else {
            (m, None)
        },
        None => (m, None),
    }
}

/// After the write of a bulk operation.
pub open spec fn bulk_written(
    sc: SceneView,
    m: MachineView,
    s: PathView,
    kind: MemKind,
    dst: Operand,
    src: Option<Operand>,
    len: Operand,
) -> (MachineView, PathView) {
    if kind == MemKind::UserFill {
        let (m1, p) = pointer_of(sc, m, s, dst);
        (m1, without_stores(user_filled(s, p.prov)))
    } else {
        match constant_length(len) {
            None => (m, inexact(without_stores(s))),
            Some(n) => {
                let (m1, c) = carried(sc, m, s, kind, src, n);
                let s1 = without_stores(s);
                let (m2, target) = pointer_of(sc, m1, s1, dst);
                match c {
                    Some((value, exact)) => {
                        let s2 = if exact {
                            s1
                        } else {
                            inexact(s1)
                        };
                        (m2, with_store(s2, StoreRecord { target, value, size: n }))
                    },
                    None => {
                        let (m3, value) = fresh_value(m2, bulk_type(Some(n)), POrigin::Load);
                        (m3, with_store(inexact(s1), StoreRecord { target, value, size: n }))
                    },
                }
            },
        }
    }
}

// ---- calls ----

/// A callee may free the region: live heap memory that was allocated on the path.
pub open spec fn freeable(r: SymRegion) -> bool {
    r.live && r.contract is None && r.kind == RegionKind::Heap
}

/// The regions after something unknown was freed.
pub open spec fn all_freed(regions: Seq<SymRegion>) -> Seq<SymRegion> {
    Seq::new(
        regions.len(),
        |i: int|
            if freeable(regions[i]) {
                SymRegion { live: false, ..regions[i] }
            } else {
                regions[i]
            },
    )
}

/// The summary of a callee, where there is one.
pub open spec fn summary_of(sums: Map<u32, SummaryView>, callee: Callee) -> Option<SummaryView> {
    match callee {
        Callee::Direct(f) => if sums.contains_key(f.0) {
            Some(sums[f.0])
        } else {
            None
        },
        _ => None,
    }
}

/// The state after the effects of a call.
pub open spec fn after_effects(s: PathView, sum: Option<SummaryView>) -> PathView {
    let writes = sum is None || (sum->0).writes;
    let frees = sum is None || (sum->0).frees;
    let s1 = inexact(s);
    let s2 = if writes || frees {
        without_stores(s1)
    } else {
        s1
    };
    if frees {
        PathView { regions: all_freed(s2.regions), ..s2 }
    } else {
        s2
    }
}

/// After the result of a call is bound.
pub open spec fn returned(
    m: MachineView,
    s: PathView,
    dst: RegId,
    sum: Option<SummaryView>,
    args: Seq<SymValue>,
    ret_ty: Type,
    ret_ref: Option<RefResult>,
) -> (MachineView, PathView) {
    match sum {
        Some(x) => match x.ret {
            RetView::PtrFromArg(arg, offset) => {
                let (m1, v) = offset_argument(m, arg, offset, args, ret_ty);
                (m1, bound(s, dst.0, v))
            },
            RetView::Scalar(a) => {
                let (m1, e) = affine_of(m, a, args);
                (m1, bound(s, dst.0, SymValue::Scalar(e)))
            },
            RetView::Unknown => {
                let (m1, v) = fresh_value(m, ret_ty, POrigin::Call);
                (m1, bound(s, dst.0, v))
            },
        },
        None => match ret_ref {
            Some(r) => {
                let (m1, s1) = referenced(m, s, r.size, r.writable);
                (m1, bound(s1, dst.0, start_of(s.regions.len() as int, 1)))
            },
            None => {
                let (m1, v) = fresh_value(m, ret_ty, POrigin::Call);
                (m1, bound(s, dst.0, v))
            },
        },
    }
}

/// After a call.
pub open spec fn called(
    sc: SceneView,
    sums: Map<u32, SummaryView>,
    m: MachineView,
    s: PathView,
    dst: Option<RegId>,
    callee: Callee,
    args: Seq<Operand>,
    ret_ty: Type,
    ret_ref: Option<RefResult>,
) -> (MachineView, PathView) {
    let (m1, vals) = values_of(sc, m, inexact(s), args);
    let sum = summary_of(sums, callee);
    let s1 = after_effects(s, sum);
    match dst {
        Some(d) => returned(m1, s1, d, sum, vals, ret_ty, ret_ref),
        None => (m1, s1),
    }
}

// ---- instructions ----

/// After an instruction.
pub open spec fn stepped(
    sc: SceneView,
    sums: Map<u32, SummaryView>,
    m: MachineView,
    s: PathView,
    at: Check,
    inst: Inst,
) -> (MachineView, PathView) {
    match inst {
        Inst::Assign { dst, value, .. } => {
            let (m1, v) = rvalue_of(sc, m, s, value);
            (m1, bound(s, dst.0, v))
        },
        Inst::Alloc { dst, region, elem, count, align } => {
            let (m1, n) = scalar_of(sc, m, s, count);
            allocated(m1, s, dst, region, n, stride_or_one(elem), align)
        },
        Inst::PtrOffset { dst, base, index, elem } => {
            let stride = stride_or_one(elem);
            let (m1, b) = pointer_of(sc, m, s, base);
            let (m2, i) = scalar_of(sc, m1, s, index);
            let p = SymPointer {
                prov: b.prov,
                offset: bin(
                    BvOp::Add,
                    b.offset,
                    bin(BvOp::Mul, i, lit(PTR_WIDTH, stride as u128)),
                ),
                align: offset_align(b.align, i, stride),
            };
            (arith_checked(m2, s, at, p), bound(s, dst.0, SymValue::Ptr(p)))
        },
        Inst::FieldPtr { dst, base, field, size, align } => {
            let (m1, b) = pointer_of(sc, m, s, base);
            field_pointed(m1, s, dst, b, field, size, align)
        },
        Inst::Load { dst, ty, ptr, align } => {
            let (m1, p) = pointer_of(sc, m, s, ptr);
            loaded(m1, s, at, dst, ty, p, align)
        },
        Inst::Store { ty, ptr, value, align } => {
            let (m1, p) = pointer_of(sc, m, s, ptr);
            let asize = size_or_one(ty);
            let m2 = access_checked(
                m1,
                s,
                at,
                p,
                asize,
                align as u64,
                SafetyProperty::ValidWrite,
            );
            let (m3, v) = value_of(sc, m2, s, value);
            (m3, with_store(s, StoreRecord { target: p, value: v, size: asize }))
        },
        Inst::Dealloc { ptr, .. } => {
            let (m1, p) = pointer_of(sc, m, s, ptr);
            dealloc_checked(m1, s, at, p)
        },
        Inst::Call { dst, callee, args, ret_ty, ret_ref } => called(
            sc,
            sums,
            m,
            s,
            dst,
            callee,
            args@,
            ret_ty,
            ret_ref,
        ),
        Inst::Intrinsic { dst: Some(d), .. } => {
            let (m1, v) = fresh_number(m);
            (m1, bound(s, d.0, v))
        },
        Inst::SafetyCheck { condition, .. } => {
            let (m1, goal) = condition_of(sc, m, s, condition);
            let (m2, d) = deciding(m1, s, seq![goal], RefuteMode::Definite, Seq::empty());
            (recorded_scalar(m2, grounds(s, seq![goal]), at, d), s)
        },
        Inst::RefWitness { dst, size, align, writable } => {
            let (m1, s1) = referenced(m, s, size, writable);
            (
                m1,
                bound(s1, dst.0, start_of(s.regions.len() as int, at_least_one(align as u64))),
            )
        },
        Inst::MemIntrinsic { kind, dst, src, len } => {
            let m1 = bulk_checked(sc, m, s, at, kind, dst, src, len);
            bulk_written(sc, m1, s, kind, dst, src, len)
        },
        _ => (m, s),
    }
}

// ---- the effects at work ----

/// The views of summaries.
pub open spec fn sum_views(m: Map<u32, Summary>) -> Map<u32, SummaryView> {
    m.map_values(|s: Summary| s@)
}

fn start_ptr(region: usize, align: u64) -> (v: SymValue)
    ensures
        v == start_of(region as int, align),
{
    SymValue::Ptr(SymPointer { prov: Prov::Region(region), offset: const_expr(0), align })
}

fn one_or(x: u64) -> (r: u64)
    ensures
        r == at_least_one(x),
{
    if x > 1 {
        x
    } else {
        1
    }
}

/// Forget that memory that was allocated on the path is live.
pub fn free_all(s: &mut PathState)
    ensures
        final(s)@ == (PathView { regions: all_freed(old(s)@.regions), ..old(s)@ }),
{
    let mut i: usize = 0;
    while i < s.regions.len()
        invariant
            i <= s.regions@.len(),
            s.regions@.len() == old(s).regions@.len(),
            s.env == old(s).env,
            s.pathcond == old(s).pathcond,
            s.facts == old(s).facts,
            s.heap == old(s).heap,
            s.exact == old(s).exact,
            forall|k: int|
                0 <= k < i ==> #[trigger] s.regions@[k] == all_freed(old(s).regions@)[k],
            forall|k: int|
                i <= k < s.regions@.len() ==> #[trigger] s.regions@[k] == old(s).regions@[k],
        decreases s.regions@.len() - i,
    {
        if s.regions[i].live && s.regions[i].contract.is_none() && s.regions[i].kind
            == RegionKind::Heap {
            let mut r = s.regions[i].copy();
            r.live = false;
            s.regions[i] = r;
        }
        i += 1;
    }
    assert(s.regions@ =~= all_freed(old(s).regions@));
}

fn clear_heap(s: &mut PathState)
    ensures
        final(s)@ == without_stores(old(s)@),
{
    s.heap = Vec::new();
    assert(s.heap@ =~= Seq::<StoreRecord>::empty());
}

impl<'a> Machine<'a> {
    /// Make a valid reference to a region of its own.
    pub fn materialize_ref_region(
        &mut self,
        size: Option<u64>,
        writable: bool,
        s: &mut PathState,
    ) -> (i: usize)
        ensures
            (final(self)@, final(s)@) == referenced(old(self)@, old(s)@, size, writable),
            i == old(s)@.regions.len(),
    {
        let mut nowrap: Option<Ex> = None;
        let e: Ex = match size {
            Some(n) => {
                nowrap = Some(mk_bool(true));
                mk_lit(PTR_WIDTH, n as u128)
            },
            None => self.fresh_scalar(PTR_WIDTH),
        };
        s.add_fact(mk_sle(&const_expr(0), &e));
        s.add_region(
            SymRegion {
                kind: RegionKind::Global,
                size: e,
                live: true,
                readable: true,
                writable,
                contract: Some(Assumption::ValidReference),
                size_nowrap: nowrap,
                sentinel: None,
                user_controlled: false,
            },
        )
    }

    fn step_alloc(
        &mut self,
        dst: RegId,
        kind: RegionKind,
        count: &Ex,
        stride: u64,
        align: u32,
        s: &mut PathState,
    )
        ensures
            (final(self)@, final(s)@) == allocated(
                old(self)@,
                old(s)@,
                dst,
                kind,
                *count,
                stride,
                align,
            ),
    {
        let size = mk_bin(BvOp::Mul, count, &mk_lit(PTR_WIDTH, stride as u128));
        let nonneg = mk_sle(&const_expr(0), &size);
        let i = s.add_region(
            SymRegion {
                kind,
                size,
                live: true,
                readable: true,
                writable: kind != RegionKind::Global,
                contract: None,
                size_nowrap: Some(size_no_wrap_fact(count, stride)),
                sentinel: None,
                user_controlled: false,
            },
        );
        s.add_fact(nonneg);
        s.bind(dst.0, start_ptr(i, align as u64));
    }

    fn step_field(
        &mut self,
        dst: RegId,
        base: SymPointer,
        field: u32,
        size: u64,
        align: u64,
        s: &mut PathState,
    )
        ensures
            (final(self)@, final(s)@) == field_pointed(
                old(self)@,
                old(s)@,
                dst,
                base,
                field,
                size,
                align,
            ),
    {
        if let Prov::Region(i) = base.prov {
            if i < s.regions.len() {
                let rsize = s.regions[i].size.clone();
                let off: u64 = self.field_offset(i, field, size);
                let end = mk_lit(PTR_WIDTH, off as u128 + size as u128);
                s.add_fact(mk_sle(&end, &rsize));
                s.bind(
                    dst.0,
                    SymValue::Ptr(
                        SymPointer {
                            prov: Prov::Region(i),
                            offset: mk_lit(PTR_WIDTH, off as u128),
                            align: one_or(align),
                        },
                    ),
                );
                return;
            }
        }
        s.bind(
            dst.0,
            SymValue::Ptr(
                SymPointer { prov: base.prov, offset: base.offset, align: one_or(align) },
            ),
        );
    }

    fn step_load(
        &mut self,
        at: Check,
        dst: RegId,
        ty: &Type,
        p: &SymPointer,
        align: u32,
        s: &mut PathState,
    )
        ensures
            (final(self)@, final(s)@) == loaded(
                old(self)@,
                old(s)@,
                at,
                dst,
                *ty,
                *p,
                align,
            ),
    {
        let asize: u64 = ty.size_or_one();
        self.check_access(at, p, asize, align as u64, SafetyProperty::ValidRead, s);
        let (v, origin) = self.load_value(p, asize, ty, s);
        match origin {
            LoadOrigin::Stored => {},
            LoadOrigin::Uncertain => {
                s.exact = false;
            },
            LoadOrigin::Unwritten => {
                let fresh = match &p.prov {
                    Prov::Region(i) => *i < s.regions.len() && s.regions[*i].contract.is_none(),
                    _ => false,
                };
                if s.exact && fresh {
                    if let Some(w) = self.feasibility_witness(s) {
                        self.record_uninit_read(
                            Ghost(violation(s@)),
                            crate::exec::machine::Site {
                                block: at.block,
                                index: at.index,
                                prop: SafetyProperty::ValidRead,
                            },
                            w,
                        );
                    }
                }
                s.exact = false;
            },
        }
        s.bind(dst.0, v);
    }

    fn carry(
        &mut self,
        sc: &Scene,
        kind: MemKind,
        src: &Option<Operand>,
        n: u64,
        s: &PathState,
    ) -> (r: Option<(SymValue, bool)>)
        ensures
            (final(self)@, r) == carried(sc@, old(self)@, s@, kind, *src, n),
    {
        match src {
            Some(op) => if kind == MemKind::Copy || kind == MemKind::Move {
                let p = self.eval_pointer(sc, op, s);
                let (v, origin) = self.load_value(&p, n, &type_of_bytes(n), s);
                Some((v, origin == LoadOrigin::Stored))
            } else {
                None
            },
            None => None,
        }
    }

    fn step_bulk(
        &mut self,
        sc: &Scene,
        kind: MemKind,
        dst: &Operand,
        src: &Option<Operand>,
        len: &Operand,
        s: &mut PathState,
    )
        ensures
            (final(self)@, final(s)@) == bulk_written(
                sc@,
                old(self)@,
                old(s)@,
                kind,
                *dst,
                *src,
                *len,
            ),
    {
        if kind == MemKind::UserFill {
            let p = self.eval_pointer(sc, dst, s);
            if let Prov::Region(i) = p.prov {
                if i < s.regions.len() {
                    let mut r = s.regions[i].copy();
                    r.user_controlled = true;
                    s.regions[i] = r;
                }
            }
            clear_heap(s);
            return;
        }
        let n: Option<u64> = match len {
            Operand::Const(Const::Int(b)) => if b.bits <= 0xffff_ffff_ffff_ffff {
                Some(b.bits as u64)
            } else {
                None
            },
            _ => None,
        };
        match n {
            None => {
                clear_heap(s);
                s.exact = false;
            },
            Some(n) => {
                let c = self.carry(sc, kind, src, n, s);
                clear_heap(s);
                let target = self.eval_pointer(sc, dst, s);
                let value = match c {
                    Some((v, exact)) => {
                        if !exact {
                            s.exact = false;
                        }
                        v
                    },
                    None => {
                        s.exact = false;
                        self.fresh_value(&type_of_bytes(n), POrigin::Load)
                    },
                };
                s.heap.push(StoreRecord { target, value, size: n });
            },
        }
    }

    fn bind_result(
        &mut self,
        dst: RegId,
        sum: Option<&Summary>,
        args: &Vec<SymValue>,
        ret_ty: &Type,
        ret_ref: Option<RefResult>,
        s: &mut PathState,
    )
        ensures
            (final(self)@, final(s)@) == returned(
                old(self)@,
                old(s)@,
                dst,
                match sum {
                    Some(x) => Some(x@),
                    None => None,
                },
                args@,
                *ret_ty,
                ret_ref,
            ),
    {
        let v: SymValue = match sum {
            Some(x) => match &x.ret {
                RetSummary::PtrFromArg { arg, offset } => self.instantiate_ptr(
                    *arg,
                    offset,
                    args,
                    ret_ty,
                ),
                RetSummary::Scalar(a) => SymValue::Scalar(self.instantiate_affine(a, args)),
                RetSummary::Unknown => self.fresh_value(ret_ty, POrigin::Call),
            },
            None => match ret_ref {
                Some(r) => {
                    let i = self.materialize_ref_region(r.size, r.writable, s);
                    start_ptr(i, 1)
                },
                None => self.fresh_value(ret_ty, POrigin::Call),
            },
        };
        s.bind(dst.0, v);
    }

    /// The effect of a call.
    pub fn step_call(
        &mut self,
        sc: &Scene,
        sums: &HashMap<u32, Summary>,
        dst: Option<RegId>,
        callee: &Callee,
        args: &Vec<Operand>,
        ret_ty: &Type,
        ret_ref: Option<RefResult>,
        s: &mut PathState,
    )
        ensures
            (final(self)@, final(s)@) == called(
                sc@,
                sum_views(sums@),
                old(self)@,
                old(s)@,
                dst,
                *callee,
                args@,
                *ret_ty,
                ret_ref,
            ),
    {
        s.exact = false;
        let vals = self.eval_values(sc, args, s);
        let sum: Option<&Summary> = match callee {
            Callee::Direct(f) => sums.get(&f.0),
            _ => None,
        };
        let (writes, frees) = match sum {
            Some(x) => (x.writes, x.frees),
            None => (true, true),
        };
        if writes || frees {
            clear_heap(s);
        }
        if frees {
            free_all(s);
        }
        if let Some(d) = dst {
            self.bind_result(d, sum, &vals, ret_ty, ret_ref, s);
        }
    }

    /// The effect of an instruction.
    pub fn step(
        &mut self,
        sc: &Scene,
        sums: &HashMap<u32, Summary>,
        at: Check,
        inst: &Inst,
        s: &mut PathState,
    )
        ensures
            (final(self)@, final(s)@) == stepped(
                sc@,
                sum_views(sums@),
                old(self)@,
                old(s)@,
                at,
                *inst,
            ),
    {
        match inst {
            Inst::Assign { dst, value, .. } => {
                let v = self.eval_rvalue(sc, value, s);
                s.bind(dst.0, v);
            },
            Inst::Alloc { dst, region, elem, count, align } => {
                let n = self.eval_scalar(sc, count, s);
                self.step_alloc(*dst, *region, &n, elem.stride_or_one(), *align, s);
            },
            Inst::PtrOffset { dst, base, index, elem } => {
                let stride: u64 = elem.stride_or_one();
                let b = self.eval_pointer(sc, base, s);
                let i = self.eval_scalar(sc, index, s);
                let delta = mk_bin(BvOp::Mul, &i, &mk_lit(PTR_WIDTH, stride as u128));
                let offset = mk_bin(BvOp::Add, &b.offset, &delta);
                let align: u64 = align_after(b.align, &i, stride);
                let p = SymPointer { prov: b.prov, offset, align };
                self.check_ptr_arith(at, &p, s);
                s.bind(dst.0, SymValue::Ptr(p));
            },
            Inst::FieldPtr { dst, base, field, size, align } => {
                let b = self.eval_pointer(sc, base, s);
                self.step_field(*dst, b, *field, *size, *align, s);
            },
            Inst::Load { dst, ty, ptr, align } => {
                let p = self.eval_pointer(sc, ptr, s);
                self.step_load(at, *dst, ty, &p, *align, s);
            },
            Inst::Store { ty, ptr, value, align } => {
                let p = self.eval_pointer(sc, ptr, s);
                let asize: u64 = ty.size_or_one();
                self.check_access(at, &p, asize, *align as u64, SafetyProperty::ValidWrite, s);
                let v = self.eval_value(sc, value, s);
                s.heap.push(StoreRecord { target: p, value: v, size: asize });
            },
            Inst::Dealloc { ptr, .. } => {
                let p = self.eval_pointer(sc, ptr, s);
                self.check_dealloc(at, &p, s);
            },
            Inst::Call { dst, callee, args, ret_ty, ret_ref } => {
                self.step_call(sc, sums, *dst, callee, args, ret_ty, *ret_ref, s);
            },
            Inst::Intrinsic { dst: Some(d), .. } => {
                let e = self.fresh_scalar(PTR_WIDTH);
                s.bind(d.0, SymValue::Scalar(e));
            },
            Inst::SafetyCheck { condition, .. } => {
                let goal = self.eval_condition(sc, condition, s);
                let goals = vec![goal];
                let none: Vec<Ex> = Vec::new();
                assert(none@ =~= Seq::<Ex>::empty());
                assert(goals@ =~= seq![goal]);
                let d = self.decide(&goals, s, RefuteMode::Definite, &none);
                self.record_scalar(Ghost(grounds(s@, seq![goal])), at, d);
            },
            Inst::RefWitness { dst, size, align, writable } => {
                let i = self.materialize_ref_region(*size, *writable, s);
                s.bind(dst.0, start_ptr(i, one_or(*align as u64)));
            },
            Inst::MemIntrinsic { kind, dst, src, len } => {
                self.check_mem_intrinsic(sc, at, *kind, dst, src, len, s);
                self.step_bulk(sc, *kind, dst, src, len, s);
            },
            _ => {},
        }
    }
}

fn type_of_bytes(n: u64) -> (t: Type)
    ensures
        t == bulk_type(Some(n)),
{
    let bits: u32 = if n >= 16 {
        128
    } else if n >= 1 {
        (n * 8) as u32
    } else {
        8
    };
    Type::Int { bits }
}

} // verus!
