//! Deciding the obligations of memory operations.

use crate::exec::eval::{
    const_expr, fresh_value, pointer_of, scalar_of, zero, Scene, SceneView,
};
use crate::exec::machine::{
    assuming, deciding, fresh_genuine, grounds, proving, proving_all, recorded, recorded_mem, recorded_temporal, Check, Decision, Machine, MachineView, RefuteMode, Site,
};
use crate::exec::value::{
    prov_text, type_width, value_width, with_cond, POrigin, PathState, PathView, Prov, SymPointer,
    SymRegion, SymValue, PTR_WIDTH,
};
use crate::expr::{
    bin, equal, lit, mk_bin, mk_equal, mk_lit, mk_not, mk_sle, mk_ule, mk_zext, negation, sle, ule,
    zext, BvOp, Ex,
};
use crate::ir::{Assumption, MemKind, Operand, RegionKind, SafetyProperty, Type};
use vstd::prelude::*;

verus! {

/// The region that a pointer points into.
pub open spec fn region_at(s: PathView, p: Prov) -> Option<SymRegion> {
    match p {
        Prov::Region(r) => if r < s.regions.len() {
            Some(s.regions[r as int])
        } else {
            None
        },
        _ => None,
    }
}

/// An obligation of an instruction.
pub open spec fn site(at: Check, prop: SafetyProperty) -> Site {
    Site { block: at.block, index: at.index, prop }
}

/// What the validity of a region rests on.
pub open spec fn basis(r: SymRegion) -> Assumption {
    match r.contract {
        Some(a) => a,
        None => Assumption::AllocSucceeds,
    }
}

/// The goals that `len` bytes at an offset lie within a size.
pub open spec fn within(offset: Ex, len: Ex, size: Ex) -> Seq<Ex> {
    seq![sle(zero(), offset), sle(bin(BvOp::Add, offset, len), size)]
}

/// The goals that an offset lies within a size, or at its end.
pub open spec fn in_range(offset: Ex, size: Ex) -> Seq<Ex> {
    seq![sle(zero(), offset), sle(offset, size)]
}

/// That a number of elements of a size does not wrap.
pub open spec fn nowrap_fact(count: Ex, stride: u64) -> Ex {
    let s = if stride > 1 {
        stride as u128
    } else {
        1
    };
    ule(count, lit(PTR_WIDTH, (0x7fff_ffff_ffff_ffffu128 as int / s as int) as u128))
}

/// One side of a choice of pointers, at an offset from the choice.
pub open spec fn side(p: SymPointer, outer: Ex) -> SymPointer {
    SymPointer { prov: p.prov, offset: bin(BvOp::Add, p.offset, outer), align: p.align }
}

/// When a bound may be refuted, by why the size of the region does not wrap.
pub open spec fn bound_mode(nowrap: Option<Ex>) -> (RefuteMode, Seq<Ex>) {
    match nowrap {
        Some(f) => (RefuteMode::Possible, seq![f]),
        None => (RefuteMode::Off, Seq::empty()),
    }
}

/// The permission that a property asks for.
pub open spec fn granted(r: SymRegion, prop: SafetyProperty) -> bool {
    match prop {
        SafetyProperty::ValidRead => r.readable,
        SafetyProperty::ValidWrite => r.writable,
        _ => true,
    }
}

/// After the obligations of an access to a known region.
pub open spec fn region_checked(
    m: MachineView,
    s: PathView,
    at: Check,
    p: SymPointer,
    r: SymRegion,
    asize: u64,
    aalign: u64,
    perm: SafetyProperty,
) -> MachineView {
    let m1 = recorded_temporal(
        m,
        s,
        site(at, SafetyProperty::NoUseAfterFree),
        !r.live,
        "region is live",
        "region may be freed (use-after-free)",
    );
    let (mode, extra) = bound_mode(r.size_nowrap);
    let goals = within(p.offset, lit(PTR_WIDTH, asize as u128), r.size);
    let (m2, d) = deciding(m1, s, goals, mode, extra);
    let m3 = recorded_mem(
        m2,
        grounds(s, goals),
        site(at, SafetyProperty::InBounds),
        d,
        "access stays within the allocation",
        "could not prove the access stays in bounds",
    );
    let m4 = recorded(
        m3,
        site(at, SafetyProperty::Alignment),
        aalign <= 1 || p.align as int % aalign as int == 0,
        "address meets the required alignment",
        "could not prove the required alignment",
    );
    let m5 = recorded(
        m4,
        site(at, perm),
        granted(r, perm),
        "region grants the access permission",
        "region does not grant the access permission",
    );
    if r.live {
        assuming(m5, basis(r))
    } else {
        m5
    }
}

/// After the obligations of an access through a pointer that is not tracked.
pub open spec fn untracked_checked(
    m: MachineView,
    at: Check,
    p: Prov,
    perm: SafetyProperty,
) -> MachineView {
    let why = prov_text(p);
    let m1 = recorded(
        m,
        site(at, SafetyProperty::NoUseAfterFree),
        false,
        "requires known provenance",
        why,
    );
    let m2 = recorded(
        m1,
        site(at, SafetyProperty::InBounds),
        false,
        "requires known provenance",
        why,
    );
    let m3 = recorded(
        m2,
        site(at, SafetyProperty::Alignment),
        false,
        "requires known provenance",
        why,
    );
    recorded(m3, site(at, perm), false, "requires known provenance", why)
}

/// After the obligations of an access of `asize` bytes. An access through one of two
/// pointers is checked for each, under its condition.
pub open spec fn access_checked(
    m: MachineView,
    s: PathView,
    at: Check,
    p: SymPointer,
    asize: u64,
    aalign: u64,
    perm: SafetyProperty,
) -> MachineView
    decreases p.prov,
{
    match p.prov {
        Prov::Select { cond, then_ptr, else_ptr } => {
            let m1 = access_checked(
                m,
                with_cond(s, cond),
                at,
                side(*then_ptr, p.offset),
                asize,
                aalign,
                perm,
            );
            access_checked(
                m1,
                with_cond(s, negation(cond)),
                at,
                side(*else_ptr, p.offset),
                asize,
                aalign,
                perm,
            )
        },
        _ => {
            let m1 = recorded(
                m,
                site(at, SafetyProperty::NoNullDeref),
                region_at(s, p.prov) is Some,
                "pointer is non-null",
                "pointer may be null or have opaque provenance",
            );
            match region_at(s, p.prov) {
                Some(r) => region_checked(m1, s, at, p, r, asize, aalign, perm),
                None => untracked_checked(m1, at, p.prov, perm),
            }
        },
    }
}

/// After the obligation of pointer arithmetic.
pub open spec fn arith_checked(m: MachineView, s: PathView, at: Check, p: SymPointer) -> MachineView
    decreases p.prov,
{
    match p.prov {
        Prov::Select { cond, then_ptr, else_ptr } => {
            let m1 = arith_checked(m, with_cond(s, cond), at, side(*then_ptr, p.offset));
            arith_checked(m1, with_cond(s, negation(cond)), at, side(*else_ptr, p.offset))
        },
        _ => match region_at(s, p.prov) {
            None => recorded(
                m,
                site(at, SafetyProperty::ValidPointerArith),
                false,
                "requires known provenance",
                prov_text(p.prov),
            ),
            Some(r) => {
                let goals = in_range(p.offset, r.size);
                let (m1, d) = deciding(m, s, goals, RefuteMode::Off, Seq::empty());
                let m2 = recorded_mem(
                    m1,
                    grounds(s, goals),
                    site(at, SafetyProperty::ValidPointerArith),
                    d,
                    "result stays within the object (or one-past-end)",
                    "could not prove the offset stays in-object",
                );
                if d == Decision::Proven {
                    assuming(m2, basis(r))
                } else {
                    m2
                }
            },
        },
    }
}

/// The state with a region freed.
pub open spec fn freed(s: PathView, r: int) -> PathView {
    PathView { regions: s.regions.update(r, SymRegion { live: false, ..s.regions[r] }), ..s }
}

/// After the obligation of a deallocation: only the base of live heap memory that was
/// allocated on the path may be freed.
pub open spec fn dealloc_checked(m: MachineView, s: PathView, at: Check, p: SymPointer) -> (
    MachineView,
    PathView,
) {
    let o = site(at, SafetyProperty::NoDoubleFree);
    match region_at(s, p.prov) {
        None => (
            recorded(
                m,
                o,
                false,
                "requires known provenance",
                "freed pointer provenance is not tracked",
            ),
            s,
        ),
        Some(r) => if r.contract is Some {
            (
                recorded(
                    m,
                    o,
                    false,
                    "caller-owned region",
                    "freeing a borrowed (caller-owned) region is not provably valid",
                ),
                s,
            )
        } else if r.kind != RegionKind::Heap {
            (
                recorded_temporal(
                    m,
                    s,
                    o,
                    true,
                    "frees allocator memory",
                    "freeing non-heap (stack/global) memory is undefined behaviour",
                ),
                s,
            )
        } else if !r.live {
            (
                recorded_temporal(
                    m,
                    s,
                    o,
                    true,
                    "region must be live to free",
                    "region may already be freed (double free)",
                ),
                s,
            )
        } else {
            let goal = equal(p.offset, zero());
            let (m1, at_base) = proving(m, s, goal);
            let m2 = recorded_mem(
                m1,
                grounds(s, seq![goal]),
                o,
                if at_base {
                    Decision::Proven
                } else {
                    Decision::Unknown
                },
                "frees the base of a live allocation exactly once",
                "could not prove the freed pointer is the live base",
            );
            if at_base {
                (
                    assuming(m2, Assumption::AllocSucceeds),
                    freed(s, p.prov->Region_0 as int),
                )
            } else {
                (m2, s)
            }
        },
    }
}

// ---- bulk operations ----

/// The operation reads a source.
pub open spec fn reads_source(kind: MemKind) -> bool {
    kind == MemKind::Copy || kind == MemKind::Move
}

/// The source pointer of a bulk operation.
pub open spec fn source_of(
    sc: SceneView,
    m: MachineView,
    s: PathView,
    kind: MemKind,
    src: Option<Operand>,
) -> (MachineView, Option<SymPointer>) {
    match src {
        Some(op) => if reads_source(kind) {
            let (m1, p) = pointer_of(sc, m, s, op);
            (m1, Some(p))
        } else {
            (m, None)
        },
        None => (m, None),
    }
}

/// The region of an optional pointer.
pub open spec fn opt_region(s: PathView, p: Option<SymPointer>) -> Option<SymRegion> {
    match p {
        Some(q) => region_at(s, q.prov),
        None => None,
    }
}

/// Whether `len` bytes of the source are proved to lie within its region.
pub open spec fn source_bounded(
    m: MachineView,
    s: PathView,
    src: Option<SymPointer>,
    len: Ex,
) -> (MachineView, bool) {
    match (src, opt_region(s, src)) {
        (Some(p), Some(r)) => proving_all(m, s, within(p.offset, len, r.size), 0),
        _ => (m, false),
    }
}

/// Whether `len` bytes of the destination lie within its region.
pub open spec fn target_bounded(
    m: MachineView,
    s: PathView,
    dst: SymPointer,
    len: Ex,
    src_ok: bool,
) -> (MachineView, Decision) {
    match region_at(s, dst.prov) {
        None => (m, Decision::Unknown),
        Some(r) => if r.size_nowrap is Some && src_ok {
            deciding(
                m,
                s,
                within(dst.offset, len, r.size),
                RefuteMode::Possible,
                seq![r.size_nowrap->0],
            )
        } else {
            let (m1, ok) = proving_all(m, s, within(dst.offset, len, r.size), 0);
            (
                m1,
                if ok && src_ok {
                    Decision::Proven
                } else {
                    Decision::Unknown
                },
            )
        },
    }
}

/// The goals of a bulk operation: `len` bytes lie within the region of the destination, and
/// within that of the source where it is read.
pub open spec fn bulk_goals(
    s: PathView,
    dst: SymPointer,
    src: Option<SymPointer>,
    len: Ex,
    need: bool,
) -> Seq<Ex> {
    let target = match region_at(s, dst.prov) {
        Some(r) => within(dst.offset, len, r.size),
        None => Seq::empty(),
    };
    match (src, opt_region(s, src)) {
        (Some(p), Some(r)) => if need {
            target + within(p.offset, len, r.size)
        } else {
            target
        },
        _ => target,
    }
}

/// Whether `len` bytes lie within the region of the destination, and within that of the source
/// where it is read.
pub open spec fn bulk_bounded(
    m: MachineView,
    s: PathView,
    dst: SymPointer,
    src: Option<SymPointer>,
    len: Ex,
    need: bool,
) -> (MachineView, Decision) {
    let (m1, src_ok) = if need {
        source_bounded(m, s, src, len)
    } else {
        (m, true)
    };
    target_bounded(m1, s, dst, len, src_ok)
}

/// After the obligations of a bulk operation that the regions decide: that they are known, and
/// that they are live.
pub open spec fn bulk_noted(
    m: MachineView,
    s: PathView,
    at: Check,
    dst: SymPointer,
    src: Option<SymPointer>,
    need: bool,
) -> MachineView {
    let dr = region_at(s, dst.prov);
    let sr = opt_region(s, src);
    let m1 = recorded(
        m,
        site(at, SafetyProperty::NoNullDeref),
        dr is Some && (!need || sr is Some),
        "memcpy pointers are non-null",
        "a memcpy pointer may be null or have opaque provenance",
    );
    recorded(
        m1,
        site(at, SafetyProperty::NoUseAfterFree),
        dr is Some && (dr->0).live && (!need || (sr is Some && (sr->0).live)),
        "memcpy regions are live",
        "a memcpy region may be freed",
    )
}

/// After the obligations of a bulk operation.
pub open spec fn bulk_checked(
    sc: SceneView,
    m: MachineView,
    s: PathView,
    at: Check,
    kind: MemKind,
    dst: Operand,
    src: Option<Operand>,
    len: Operand,
) -> MachineView {
    let (m1, d) = pointer_of(sc, m, s, dst);
    let (m2, n) = scalar_of(sc, m1, s, len);
    let (m3, p) = source_of(sc, m2, s, kind, src);
    let dr = region_at(s, d.prov);
    let sr = opt_region(s, p);
    let need = reads_source(kind);
    let known = dr is Some && (!need || sr is Some);
    let dst_live = dr is Some && (dr->0).live;
    let src_live = !need || (sr is Some && (sr->0).live);
    let m5 = bulk_noted(m3, s, at, d, p, need);
    let wide = zext(n, PTR_WIDTH);
    let (m7, dd) = bulk_bounded(m5, s, d, p, wide, need);
    let m8 = recorded_mem(
        m7,
        grounds(s, bulk_goals(s, d, p, wide, need)),
        site(at, SafetyProperty::InBounds),
        dd,
        "the copy stays within both regions",
        "could not prove the copy stays in bounds",
    );
    let m9 = recorded(
        m8,
        site(at, SafetyProperty::ValidWrite),
        dr is Some && (dr->0).writable,
        "destination is writable",
        "destination is not writable",
    );
    let m10 = if need {
        recorded(
            m9,
            site(at, SafetyProperty::ValidRead),
            sr is Some && (sr->0).readable,
            "source is readable",
            "source is not readable",
        )
    } else {
        m9
    };
    if known && dst_live && src_live {
        let m11 = assuming(m10, basis(dr->0));
        if sr is Some {
            assuming(m11, basis(sr->0))
        } else {
            m11
        }
    } else {
        m10
    }
}

// ---- loads ----

/// How two accesses overlap.
#[derive(Debug, Clone, Copy, PartialEq, Eq, Structural)]
pub enum AliasResult {
    /// The first covers the second.
    Must,
    May,
    No,
}

/// Where a loaded value comes from.
#[derive(Debug, Clone, Copy, PartialEq, Eq, Structural)]
pub enum LoadOrigin {
    /// A store determines it.
    Stored,
    /// A store may determine it.
    Uncertain,
    /// No store reaches it.
    Unwritten,
}

/// How two accesses of the given sizes overlap.
pub open spec fn aliasing(
    m: MachineView,
    s: PathView,
    a: SymPointer,
    b: SymPointer,
    sizea: u64,
    sizeb: u64,
) -> (MachineView, AliasResult) {
    match (a.prov, b.prov) {
        (Prov::Region(x), Prov::Region(y)) => if x != y {
            (m, AliasResult::No)
        } else {
            let (m1, same) = if sizea >= sizeb {
                proving(m, s, equal(a.offset, b.offset))
            } else {
                (m, false)
            };
            if same {
                (m1, AliasResult::Must)
            } else {
                let a_end = bin(BvOp::Add, a.offset, lit(PTR_WIDTH, sizea as u128));
                let b_end = bin(BvOp::Add, b.offset, lit(PTR_WIDTH, sizeb as u128));
                let (m2, before) = proving(m1, s, sle(a_end, b.offset));
                if before {
                    (m2, AliasResult::No)
                } else {
                    let (m3, after) = proving(m2, s, sle(b_end, a.offset));
                    (
                        m3,
                        if after {
                            AliasResult::No
                        } else {
                            AliasResult::May
                        },
                    )
                }
            }
        },
        _ => (m, AliasResult::May),
    }
}

/// The value where no store determines it: untrusted data of a region that holds it, or an
/// unknown value.
pub open spec fn initial_value(m: MachineView, s: PathView, p: SymPointer, ty: Type) -> (
    MachineView,
    SymValue,
    LoadOrigin,
) {
    let user = region_at(s, p.prov) is Some && (region_at(s, p.prov)->0).user_controlled;
    if user && !(ty is Ptr) {
        let (m1, e) = fresh_genuine(m, value_width(ty));
        (m1, SymValue::Scalar(e), LoadOrigin::Stored)
    } else {
        let (m1, v) = fresh_value(m, ty, POrigin::Load);
        (m1, v, LoadOrigin::Unwritten)
    }
}

/// The value of a load against the first `k` stores, from the last back.
pub open spec fn loading(
    m: MachineView,
    s: PathView,
    p: SymPointer,
    asize: u64,
    ty: Type,
    k: int,
) -> (MachineView, SymValue, LoadOrigin)
    decreases k,
{
    if k <= 0 {
        initial_value(m, s, p, ty)
    } else {
        let rec = s.heap[k - 1];
        match aliasing(m, s, rec.target, p, rec.size, asize) {
            (m1, AliasResult::No) => loading(m1, s, p, asize, ty, k - 1),
            (m1, AliasResult::Must) => (m1, rec.value, LoadOrigin::Stored),
            (m1, AliasResult::May) => {
                let (m2, v) = fresh_value(m1, ty, POrigin::Load);
                (m2, v, LoadOrigin::Uncertain)
            },
        }
    }
}

// ---- the checks at work ----

fn find_region<'s>(s: &'s PathState, p: &Prov) -> (r: Option<&'s SymRegion>)
    ensures
        match r {
            Some(x) => region_at(s@, *p) == Some(*x),
            None => region_at(s@, *p) is None,
        },
{
    match p {
        Prov::Region(i) => if *i < s.regions.len() {
            Some(&s.regions[*i])
        } else {
            None
        },
        _ => None,
    }
}

fn mk_site(at: Check, prop: SafetyProperty) -> (r: Site)
    ensures
        r == site(at, prop),
{
    Site { block: at.block, index: at.index, prop }
}

fn basis_of(r: &SymRegion) -> (a: Assumption)
    ensures
        a == basis(*r),
{
    match r.contract {
        Some(a) => a,
        None => Assumption::AllocSucceeds,
    }
}

/// The goals that `len` bytes at an offset lie within a size.
pub fn in_bounds_len_conjuncts(offset: &Ex, len: &Ex, size: &Ex) -> (g: Vec<Ex>)
    ensures
        g@ == within(*offset, *len, *size),
{
    let z = const_expr(0);
    let end = mk_bin(BvOp::Add, offset, len);
    let g = vec![mk_sle(&z, offset), mk_sle(&end, size)];
    assert(g@ =~= within(*offset, *len, *size));
    g
}

/// The goals that an offset lies within a size, or at its end.
pub fn in_range_conjuncts(offset: &Ex, size: &Ex) -> (g: Vec<Ex>)
    ensures
        g@ == in_range(*offset, *size),
{
    let z = const_expr(0);
    let g = vec![mk_sle(&z, offset), mk_sle(offset, size)];
    assert(g@ =~= in_range(*offset, *size));
    g
}

/// That a number of elements of a size does not wrap.
pub fn size_no_wrap_fact(count: &Ex, stride: u64) -> (e: Ex)
    ensures
        e == nowrap_fact(*count, stride),
{
    let s: u128 = if stride > 1 {
        stride as u128
    } else {
        1
    };
    let max: u128 = 0x7fff_ffff_ffff_ffff / s;
    mk_ule(count, &mk_lit(PTR_WIDTH, max))
}

fn mk_side(p: &SymPointer, outer: &Ex) -> (r: SymPointer)
    ensures
        r == side(*p, *outer),
{
    SymPointer {
        prov: p.prov.copy(),
        offset: mk_bin(BvOp::Add, &p.offset, outer),
        align: p.align,
    }
}

impl<'a> Machine<'a> {
    fn check_region(
        &mut self,
        at: Check,
        p: &SymPointer,
        r: &SymRegion,
        asize: u64,
        aalign: u64,
        perm: SafetyProperty,
        s: &PathState,
    )
        ensures
            final(self)@ == region_checked(old(self)@, s@, at, *p, *r, asize, aalign, perm),
    {
        self.record_temporal(
            mk_site(at, SafetyProperty::NoUseAfterFree),
            !r.live,
            s,
            "region is live",
            "region may be freed (use-after-free)",
        );
        let goals = in_bounds_len_conjuncts(
            &p.offset,
            &mk_lit(PTR_WIDTH, asize as u128),
            &r.size,
        );
        let mut extra: Vec<Ex> = Vec::new();
        let mut mode = RefuteMode::Off;
        if let Some(f) = &r.size_nowrap {
            extra.push(f.clone());
            mode = RefuteMode::Possible;
        }
        assert(extra@ =~= bound_mode(r.size_nowrap).1);
        let d = self.decide(&goals, s, mode, &extra);
        self.record_mem(
            Ghost(grounds(s@, goals@)),
            mk_site(at, SafetyProperty::InBounds),
            d,
            "access stays within the allocation",
            "could not prove the access stays in bounds",
        );
        let aligned = aalign <= 1 || p.align % aalign == 0;
        self.record(
            mk_site(at, SafetyProperty::Alignment),
            aligned,
            "address meets the required alignment",
            "could not prove the required alignment",
        );
        let ok = match perm {
            SafetyProperty::ValidRead => r.readable,
            SafetyProperty::ValidWrite => r.writable,
            _ => true,
        };
        self.record(
            mk_site(at, perm),
            ok,
            "region grants the access permission",
            "region does not grant the access permission",
        );
        if r.live {
            self.assume_that(basis_of(r));
        }
    }

    fn check_untracked(&mut self, at: Check, p: &Prov, perm: SafetyProperty)
        ensures
            final(self)@ == untracked_checked(old(self)@, at, *p, perm),
    {
        let why = p.provenance_residual();
        self.record(
            mk_site(at, SafetyProperty::NoUseAfterFree),
            false,
            "requires known provenance",
            why,
        );
        self.record(
            mk_site(at, SafetyProperty::InBounds),
            false,
            "requires known provenance",
            why,
        );
        self.record(
            mk_site(at, SafetyProperty::Alignment),
            false,
            "requires known provenance",
            why,
        );
        self.record(mk_site(at, perm), false, "requires known provenance", why);
    }

    /// Check the obligations of an access.
    pub fn check_access(
        &mut self,
        at: Check,
        p: &SymPointer,
        asize: u64,
        aalign: u64,
        perm: SafetyProperty,
        s: &PathState,
    )
        ensures
            final(self)@ == access_checked(old(self)@, s@, at, *p, asize, aalign, perm),
        decreases p.prov,
    {
        if let Prov::Select { cond, then_ptr, else_ptr } = &p.prov {
            let mut sa = s.copy();
            sa.add_cond(cond.clone());
            let mut sb = s.copy();
            sb.add_cond(mk_not(cond));
            let pa = mk_side(then_ptr, &p.offset);
            let pb = mk_side(else_ptr, &p.offset);
            self.check_access(at, &pa, asize, aalign, perm, &sa);
            self.check_access(at, &pb, asize, aalign, perm, &sb);
            return;
        }
        let found = find_region(s, &p.prov);
        self.record(
            mk_site(at, SafetyProperty::NoNullDeref),
            found.is_some(),
            "pointer is non-null",
            "pointer may be null or have opaque provenance",
        );
        match found {
            Some(r) => {
                self.check_region(at, p, r, asize, aalign, perm, s);
            },
            None => {
                self.check_untracked(at, &p.prov, perm);
            },
        }
    }

    /// Check the obligation of pointer arithmetic.
    pub fn check_ptr_arith(&mut self, at: Check, p: &SymPointer, s: &PathState)
        ensures
            final(self)@ == arith_checked(old(self)@, s@, at, *p),
        decreases p.prov,
    {
        if let Prov::Select { cond, then_ptr, else_ptr } = &p.prov {
            let mut sa = s.copy();
            sa.add_cond(cond.clone());
            let mut sb = s.copy();
            sb.add_cond(mk_not(cond));
            let pa = mk_side(then_ptr, &p.offset);
            let pb = mk_side(else_ptr, &p.offset);
            self.check_ptr_arith(at, &pa, &sa);
            self.check_ptr_arith(at, &pb, &sb);
            return;
        }
        match find_region(s, &p.prov) {
            None => {
                self.record(
                    mk_site(at, SafetyProperty::ValidPointerArith),
                    false,
                    "requires known provenance",
                    p.prov.provenance_residual(),
                );
            },
            Some(r) => {
                let goals = in_range_conjuncts(&p.offset, &r.size);
                let none: Vec<Ex> = Vec::new();
                assert(none@ =~= Seq::<Ex>::empty());
                let d = self.decide(&goals, s, RefuteMode::Off, &none);
                self.record_mem(
                    Ghost(grounds(s@, goals@)),
                    mk_site(at, SafetyProperty::ValidPointerArith),
                    d,
                    "result stays within the object (or one-past-end)",
                    "could not prove the offset stays in-object",
                );
                if d == Decision::Proven {
                    self.assume_that(basis_of(r));
                }
            },
        }
    }

    /// Check the obligation of a deallocation.
    pub fn check_dealloc(&mut self, at: Check, p: &SymPointer, s: &mut PathState)
        ensures
            (final(self)@, final(s)@) == dealloc_checked(old(self)@, old(s)@, at, *p),
    {
        let o = mk_site(at, SafetyProperty::NoDoubleFree);
        let i: usize = match &p.prov {
            Prov::Region(i) => *i,
            _ => s.regions.len(),
        };
        if i >= s.regions.len() {
            assert(region_at(s@, p.prov) is None);
            self.record(
                o,
                false,
                "requires known provenance",
                "freed pointer provenance is not tracked",
            );
            return;
        }
        assert(region_at(s@, p.prov) == Some(s.regions@[i as int]));
        if s.regions[i].contract.is_some() {
            self.record(
                o,
                false,
                "caller-owned region",
                "freeing a borrowed (caller-owned) region is not provably valid",
            );
            return;
        }
        if s.regions[i].kind != RegionKind::Heap {
            self.record_temporal(
                o,
                true,
                s,
                "frees allocator memory",
                "freeing non-heap (stack/global) memory is undefined behaviour",
            );
            return;
        }
        if !s.regions[i].live {
            self.record_temporal(
                o,
                true,
                s,
                "region must be live to free",
                "region may already be freed (double free)",
            );
            return;
        }
        let goal = mk_equal(&p.offset, &const_expr(0));
        let at_base = self.prove(&goal, s);
        let d = if at_base {
            Decision::Proven
        } else {
            Decision::Unknown
        };
        self.record_mem(
            Ghost(grounds(s@, seq![goal])),
            o,
            d,
            "frees the base of a live allocation exactly once",
            "could not prove the freed pointer is the live base",
        );
        if at_base {
            self.assume_that(Assumption::AllocSucceeds);
            let mut r = s.regions[i].copy();
            r.live = false;
            s.regions[i] = r;
        }
    }

    fn bound_source(&mut self, src: &Option<SymPointer>, len: &Ex, s: &PathState) -> (r: bool)
        ensures
            (final(self)@, r) == source_bounded(old(self)@, s@, *src, *len),
    {
        match src {
            Some(p) => match find_region(s, &p.prov) {
                Some(r) => {
                    let goals = in_bounds_len_conjuncts(&p.offset, len, &r.size);
                    self.prove_all(&goals, s)
                },
                None => false,
            },
            None => false,
        }
    }

    fn bound_target(&mut self, dst: &SymPointer, len: &Ex, src_ok: bool, s: &PathState) -> (d:
        Decision)
        ensures
            (final(self)@, d) == target_bounded(old(self)@, s@, *dst, *len, src_ok),
    {
        match find_region(s, &dst.prov) {
            None => Decision::Unknown,
            Some(r) => {
                let goals = in_bounds_len_conjuncts(&dst.offset, len, &r.size);
                if src_ok {
                    if let Some(f) = &r.size_nowrap {
                        let extra = vec![f.clone()];
                        assert(extra@ =~= seq![r.size_nowrap->0]);
                        return self.decide(&goals, s, RefuteMode::Possible, &extra);
                    }
                }
                let ok = self.prove_all(&goals, s);
                if ok && src_ok {
                    Decision::Proven
                } else {
                    Decision::Unknown
                }
            },
        }
    }

    fn eval_source(
        &mut self,
        sc: &Scene,
        kind: MemKind,
        src: &Option<Operand>,
        s: &PathState,
    ) -> (p: Option<SymPointer>)
        ensures
            (final(self)@, p) == source_of(sc@, old(self)@, s@, kind, *src),
    {
        match src {
            Some(op) => if kind == MemKind::Copy || kind == MemKind::Move {
                Some(self.eval_pointer(sc, op, s))
            } else {
                None
            },
            None => None,
        }
    }

    /// Check the obligations of a bulk operation.
    pub fn check_mem_intrinsic(
        &mut self,
        sc: &Scene,
        at: Check,
        kind: MemKind,
        dst: &Operand,
        src: &Option<Operand>,
        len: &Operand,
        s: &PathState,
    )
        ensures
            final(self)@ == bulk_checked(
                sc@,
                old(self)@,
                s@,
                at,
                kind,
                *dst,
                *src,
                *len,
            ),
    {
        let d = self.eval_pointer(sc, dst, s);
        let n = self.eval_scalar(sc, len, s);
        let p = self.eval_source(sc, kind, src, s);
        let need = kind == MemKind::Copy || kind == MemKind::Move;
        let dr = find_region(s, &d.prov);
        let sr: Option<&SymRegion> = match &p {
            Some(q) => find_region(s, &q.prov),
            None => None,
        };
        let known = dr.is_some() && (!need || sr.is_some());
        self.record(
            mk_site(at, SafetyProperty::NoNullDeref),
            known,
            "memcpy pointers are non-null",
            "a memcpy pointer may be null or have opaque provenance",
        );
        let dst_live = match dr {
            Some(r) => r.live,
            None => false,
        };
        let src_live = !need || match sr {
            Some(r) => r.live,
            None => false,
        };
        self.record(
            mk_site(at, SafetyProperty::NoUseAfterFree),
            dst_live && src_live,
            "memcpy regions are live",
            "a memcpy region may be freed",
        );
        let wide = mk_zext(&n, PTR_WIDTH);
        let src_ok = if need {
            self.bound_source(&p, &wide, s)
        } else {
            true
        };
        let dd = self.bound_target(&d, &wide, src_ok, s);
        self.record_mem(
            Ghost(grounds(s@, bulk_goals(s@, d, p, wide, need))),
            mk_site(at, SafetyProperty::InBounds),
            dd,
            "the copy stays within both regions",
            "could not prove the copy stays in bounds",
        );
        let dst_w = match dr {
            Some(r) => r.writable,
            None => false,
        };
        self.record(
            mk_site(at, SafetyProperty::ValidWrite),
            dst_w,
            "destination is writable",
            "destination is not writable",
        );
        if need {
            let src_r = match sr {
                Some(r) => r.readable,
                None => false,
            };
            self.record(
                mk_site(at, SafetyProperty::ValidRead),
                src_r,
                "source is readable",
                "source is not readable",
            );
        }
        if known && dst_live && src_live {
            if let Some(r) = dr {
                self.assume_that(basis_of(r));
            }
            if let Some(r) = sr {
                self.assume_that(basis_of(r));
            }
        }
    }

    /// How two accesses of the given sizes overlap.
    pub fn alias_check(
        &mut self,
        a: &SymPointer,
        b: &SymPointer,
        sizea: u64,
        sizeb: u64,
        s: &PathState,
    ) -> (r: AliasResult)
        ensures
            (final(self)@, r) == aliasing(old(self)@, s@, *a, *b, sizea, sizeb),
    {
        match (&a.prov, &b.prov) {
            (Prov::Region(x), Prov::Region(y)) => {
                if *x != *y {
                    return AliasResult::No;
                }
                if sizea >= sizeb {
                    let eq = mk_equal(&a.offset, &b.offset);
                    if self.prove(&eq, s) {
                        return AliasResult::Must;
                    }
                }
                let a_end = mk_bin(BvOp::Add, &a.offset, &mk_lit(PTR_WIDTH, sizea as u128));
                let b_end = mk_bin(BvOp::Add, &b.offset, &mk_lit(PTR_WIDTH, sizeb as u128));
                let before = mk_sle(&a_end, &b.offset);
                if self.prove(&before, s) {
                    return AliasResult::No;
                }
                let after = mk_sle(&b_end, &a.offset);
                if self.prove(&after, s) {
                    AliasResult::No
                } else {
                    AliasResult::May
                }
            },
            _ => AliasResult::May,
        }
    }

    fn first_value(&mut self, p: &SymPointer, ty: &Type, s: &PathState) -> (r: (
        SymValue,
        LoadOrigin,
    ))
        ensures
            (final(self)@, r.0, r.1) == initial_value(old(self)@, s@, *p, *ty),
    {
        let user = match find_region(s, &p.prov) {
            Some(r) => r.user_controlled,
            None => false,
        };
        if user && !ty.is_ptr() {
            let e = self.fresh_genuine_scalar(type_width(ty));
            (SymValue::Scalar(e), LoadOrigin::Stored)
        } else {
            (self.fresh_value(ty, POrigin::Load), LoadOrigin::Unwritten)
        }
    }

    /// The value of a load, and where it comes from.
    pub fn load_value(&mut self, p: &SymPointer, asize: u64, ty: &Type, s: &PathState) -> (r: (
        SymValue,
        LoadOrigin,
    ))
        ensures
            (final(self)@, r.0, r.1) == loading(
                old(self)@,
                s@,
                *p,
                asize,
                *ty,
                s@.heap.len() as int,
            ),
    {
        let mut k: usize = s.heap.len();
        while k > 0
            invariant
                k <= s.heap@.len(),
                loading(old(self)@, s@, *p, asize, *ty, s@.heap.len() as int) == loading(
                    self@,
                    s@,
                    *p,
                    asize,
                    *ty,
                    k as int,
                ),
            decreases k,
        {
            let rec = &s.heap[k - 1];
            match self.alias_check(&rec.target, p, rec.size, asize, s) {
                AliasResult::No => {},
                AliasResult::Must => {
                    return (rec.value.copy(), LoadOrigin::Stored);
                },
                AliasResult::May => {
                    return (self.fresh_value(ty, POrigin::Load), LoadOrigin::Uncertain);
                },
            }
            k -= 1;
        }
        self.first_value(p, ty, s)
    }
}

} // verus!
