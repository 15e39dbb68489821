//! What the decisions of an exploration mean for the values that take its paths.

use crate::blast::{as_signed, entails, folding_keeps_values, holds, value, Valuation};
use crate::exec::check::{
    access_checked, aliasing, loading, region_at, region_checked, side, site, untracked_checked,
    within, AliasResult, LoadOrigin,
};
use crate::exec::drive::reported_proven;
use crate::exec::eval::{pointer_of, zero, SceneView};
use crate::exec::laws::{
    affirmed, affirms, l_access, l_untracked, later, later_is_transitive, shown, shown_decided,
    shown_one,
};
use crate::exec::machine::{
    deciding, grounds, proving, recorded, recorded_mem, Answer, Check, MachineView, Owed, Site,
};
use crate::exec::report::report_of;
use crate::exec::step::stepped;
use crate::exec::value::{premises, with_cond, PTR_WIDTH, PathView, Prov, SymPointer, SymRegion};
use crate::expr::{bin, equal, lit, negation, sle, width_of, BvOp, Ex};
use crate::ir::{size_of_type, size_or_one, Inst, Operand, RegId, SafetyProperty, Type};
use crate::meaning::{low_bits_are_a_remainder, signed, wrapped};
use crate::summary::SummaryView;
use vstd::arithmetic::power2::pow2;
use vstd::prelude::*;

verus! {

// ---- values ----

/// Every answer that a goal follows is right.
pub open spec fn truthful(m: MachineView) -> bool {
    forall|j: int|
        0 <= j < m.dialogue.len() && ((#[trigger] m.dialogue[j]).1 matches Answer::Method(Some(_))
            || m.dialogue[j].1 == Answer::Exact(true)) ==> entails(
            m.dialogue[j].0.premises,
            m.dialogue[j].0.goal,
        )
}

/// Values take a path: its conditions and facts hold of them.
pub open spec fn takes(s: PathView, v: Valuation) -> bool {
    forall|i: int| 0 <= i < premises(s).len() ==> holds(#[trigger] premises(s)[i], v)
}

/// The value of an expression of 64 bits, as a number in two's complement.
pub open spec fn number(e: Ex, v: Valuation) -> int {
    signed(value(e, v) as int, 64)
}

pub(crate) proof fn lemma_truthful_before(a: MachineView, b: MachineView)
    requires
        later(a, b),
        truthful(b),
    ensures
        truthful(a),
{
    reveal(later);
    assert forall|j: int|
        0 <= j < a.dialogue.len() && ((#[trigger] a.dialogue[j]).1 matches Answer::Method(Some(_))
            || a.dialogue[j].1 == Answer::Exact(true)) implies entails(
        a.dialogue[j].0.premises,
        a.dialogue[j].0.goal,
    ) by {
        assert(b.dialogue[j] == a.dialogue[j]);
    }
}

/// What was shown holds of the values that take the path.
pub(crate) proof fn lemma_shown_holds(m: MachineView, s: PathView, gs: Seq<Ex>, v: Valuation)
    requires
        shown(m, grounds(s, gs)),
        truthful(m),
        takes(s, v),
    ensures
        forall|k: int| 0 <= k < gs.len() ==> holds(#[trigger] gs[k], v),
{
    reveal(shown);
    let g = grounds(s, gs);
    assert forall|k: int| 0 <= k < gs.len() implies holds(#[trigger] gs[k], v) by {
        assert(affirmed(m, g.premises, g.goals[k]));
        let j = choose|j: int|
            0 <= j < m.dialogue.len() && affirms(#[trigger] m.dialogue[j], g.premises, g.goals[k]);
        assert(entails(m.dialogue[j].0.premises, m.dialogue[j].0.goal));
        assert(holds(g.goals[k], v));
    }
}

pub(crate) proof fn lemma_lit(n: u64, v: Valuation)
    ensures
        value(lit(PTR_WIDTH, n as u128), v) == n,
        width_of(lit(PTR_WIDTH, n as u128)) == 64,
{
    low_bits_are_a_remainder(64, n as u128);
    vstd::arithmetic::power2::lemma2_to64();
    vstd::arithmetic::div_mod::lemma_small_mod(n as nat, pow2(64));
}

pub(crate) proof fn lemma_add(a: Ex, b: Ex, v: Valuation)
    ensures
        value(bin(BvOp::Add, a, b), v) == wrapped(
            (value(a, v) + value(b, v)) as int,
            width_of(a) as nat,
        ),
        width_of(bin(BvOp::Add, a, b)) == width_of(a),
{
    folding_keeps_values(BvOp::Add, a, b, v);
    reveal_with_fuel(value, 2);
    reveal_with_fuel(width_of, 2);
    let w = width_of(a) as nat;
    vstd::arithmetic::power2::lemma_pow2_pos(w);
    vstd::arithmetic::div_mod::lemma_mod_bound((value(a, v) + value(b, v)) as int, pow2(w) as int);
}

pub(crate) proof fn lemma_signed(x: nat)
    ensures
        as_signed(x as int, 64) == signed(x as int, 64),
{
    vstd::arithmetic::power2::lemma_pow2_unfold(64);
}

pub(crate) proof fn lemma_sle(a: Ex, b: Ex, v: Valuation)
    requires
        width_of(a) == 64,
    ensures
        holds(sle(a, b), v) <==> number(a, v) <= number(b, v),
{
    reveal_with_fuel(value, 2);
    lemma_signed(value(a, v));
    lemma_signed(value(b, v));
}

pub(crate) proof fn lemma_equal(a: Ex, b: Ex, v: Valuation)
    ensures
        holds(equal(a, b), v) <==> value(a, v) == value(b, v),
{
    reveal_with_fuel(value, 2);
}

pub(crate) proof fn lemma_takes_cond(s: PathView, c: Ex, v: Valuation)
    requires
        takes(s, v),
        holds(c, v),
    ensures
        takes(with_cond(s, c), v),
{
    let t = with_cond(s, c);
    assert forall|i: int| 0 <= i < premises(t).len() implies holds(#[trigger] premises(t)[i], v) by {
        let n = s.pathcond.len() as int;
        if i < n {
            assert(premises(t)[i] == premises(s)[i]);
        } else if i > n {
            assert(premises(t)[i] == premises(s)[i - 1]);
        }
    }
}

// ---- where pointers point ----

/// Where a pointer points for given values: into a region, at an offset of 64 bits, and how
/// its address is aligned.
pub struct Landing {
    pub region: Option<usize>,
    pub offset: int,
    pub align: u64,
}

/// Where a pointer points. One of two pointers is the first where the condition holds, and
/// its offset is added to that of the choice.
pub open spec fn landing(p: SymPointer, v: Valuation) -> Landing
    decreases p,
{
    match p.prov {
        Prov::Region(r) => Landing {
            region: Some(r),
            offset: value(p.offset, v) as int,
            align: p.align,
        },
        Prov::Select { cond, then_ptr, else_ptr } => {
            let l = if holds(cond, v) {
                landing(*then_ptr, v)
            } else {
                landing(*else_ptr, v)
            };
            Landing { offset: wrapped(l.offset + value(p.offset, v), 64), ..l }
        },
        _ => Landing { region: None, offset: value(p.offset, v) as int, align: p.align },
    }
}

/// The offsets of a pointer have 64 bits.
pub open spec fn sized(p: SymPointer) -> bool
    decreases p,
{
    &&& width_of(p.offset) == PTR_WIDTH
    &&& match p.prov {
        Prov::Select { then_ptr, else_ptr, .. } => sized(*then_ptr) && sized(*else_ptr),
        _ => true,
    }
}

pub(crate) proof fn lemma_wrapped_sum(a: int, b: int, c: int)
    ensures
        wrapped(a + wrapped(b + c, 64), 64) == wrapped(wrapped(a + b, 64) + c, 64),
{
    let p = pow2(64) as int;
    vstd::arithmetic::power2::lemma_pow2_pos(64);
    vstd::arithmetic::div_mod::lemma_add_mod_noop_right(a, b + c, p);
    vstd::arithmetic::div_mod::lemma_add_mod_noop_right(c, a + b, p);
}

/// One side of a choice points where the side does, as much further as the choice.
pub(crate) proof fn lemma_side(q: SymPointer, outer: Ex, v: Valuation)
    requires
        sized(q),
    ensures
        sized(side(q, outer)),
        landing(side(q, outer), v) == (Landing {
            offset: wrapped(landing(q, v).offset + value(outer, v), 64),
            ..landing(q, v)
        }),
{
    lemma_add(q.offset, outer, v);
    if let Prov::Select { cond, then_ptr, else_ptr } = q.prov {
        let l = if holds(cond, v) {
            landing(*then_ptr, v)
        } else {
            landing(*else_ptr, v)
        };
        lemma_wrapped_sum(l.offset, value(q.offset, v) as int, value(outer, v) as int);
    }
}

/// A landing lies in a region of the path.
pub open spec fn in_region(s: PathView, l: Landing) -> bool {
    l.region is Some && l.region->0 < s.regions.len()
}

/// `n` bytes at a landing lie within its region: it does not begin before the region, and the
/// end, as a number of 64 bits, is at most the size. Unless the end wraps, the bytes themselves
/// are then within the size.
pub open spec fn lies_within(s: PathView, l: Landing, n: int, v: Valuation) -> bool {
    let size = number(s.regions[l.region->0 as int].size, v);
    let from = signed(l.offset, 64);
    &&& in_region(s, l)
    &&& 0 <= from
    &&& signed(wrapped(l.offset + n, 64), 64) <= size
    &&& from + n <= i64::MAX ==> from + n <= size
}

/// An obligation holds on every path so far.
pub open spec fn proven_at(m: MachineView, o: Site) -> bool {
    m.mem.contains_key(o) && m.mem[o].all_proven
}

pub(crate) proof fn lemma_proven_before(a: MachineView, b: MachineView, o: Site)
    requires
        later(a, b),
        a.mem.contains_key(o),
        proven_at(b, o),
    ensures
        proven_at(a, o),
{
    reveal(later);
}

/// What an access needs: that it goes to memory, that the memory is not freed, that it is
/// within bounds, that it is aligned, and that it is permitted.
pub open spec fn meets(
    s: PathView,
    l: Landing,
    n: int,
    align: int,
    prop: SafetyProperty,
    v: Valuation,
) -> bool {
    let r = s.regions[l.region->0 as int];
    in_region(s, l) && match prop {
        SafetyProperty::InBounds => lies_within(s, l, n, v),
        SafetyProperty::NoUseAfterFree => r.live,
        SafetyProperty::Alignment => align <= 1 || l.align as int % align == 0,
        SafetyProperty::ValidRead => r.readable,
        SafetyProperty::ValidWrite => r.writable,
        _ => true,
    }
}

/// A property of accesses.
pub open spec fn of_access(prop: SafetyProperty, perm: SafetyProperty) -> bool {
    prop == SafetyProperty::NoNullDeref || prop == SafetyProperty::InBounds || prop
        == SafetyProperty::NoUseAfterFree || prop == SafetyProperty::Alignment || prop == perm
}

pub(crate) proof fn lemma_within(offset: Ex, n: u64, size: Ex, v: Valuation)
    requires
        width_of(offset) == 64,
        forall|k: int|
            0 <= k < 2 ==> holds(
                #[trigger] within(offset, lit(PTR_WIDTH, n as u128), size)[k],
                v,
            ),
    ensures
        0 <= number(offset, v),
        signed(wrapped(value(offset, v) + n, 64), 64) <= number(size, v),
        number(offset, v) + n <= i64::MAX ==> number(offset, v) + n <= number(size, v),
{
    let e = lit(PTR_WIDTH, n as u128);
    let g = within(offset, e, size);
    assert(holds(g[0], v) && holds(g[1], v));
    lemma_lit(n, v);
    lemma_lit(0, v);
    lemma_add(offset, e, v);
    lemma_sle(zero(), offset, v);
    lemma_sle(bin(BvOp::Add, offset, e), size, v);
    vstd::arithmetic::power2::lemma2_to64();
    let x = value(offset, v) as int;
    if number(offset, v) + n <= i64::MAX {
        if x < pow2(64) {
            vstd::arithmetic::div_mod::lemma_small_mod((x + n) as nat, pow2(64));
        } else {
            let p = pow2(64) as int;
            let y = x - p;
            if 2 * x >= p {
                assert(number(offset, v) == y);
                vstd::arithmetic::div_mod::lemma_small_mod((y + n) as nat, pow2(64));
                vstd::arithmetic::div_mod::lemma_mod_add_multiples_vanish(y + n, p);
            }
        }
    }
}

pub(crate) proof fn lemma_region(
    m: MachineView,
    s: PathView,
    at: Check,
    p: SymPointer,
    n: u64,
    align: u64,
    perm: SafetyProperty,
    prop: SafetyProperty,
    v: Valuation,
)
    requires
        p.prov is Region,
        p.prov->Region_0 < s.regions.len(),
        sized(p),
        perm == SafetyProperty::ValidRead || perm == SafetyProperty::ValidWrite,
        of_access(prop, perm),
        ({
            let r = s.regions[p.prov->Region_0 as int];
            let e = region_checked(m, s, at, p, r, n, align, perm);
            proven_at(e, site(at, prop)) && truthful(e)
        }),
        takes(s, v),
    ensures
        meets(s, landing(p, v), n as int, align as int, prop, v),
{
    broadcast use crate::exec::laws::group_values;

    let r = s.regions[p.prov->Region_0 as int];
    let e = region_checked(m, s, at, p, r, n, align, perm);
    let m1 = crate::exec::machine::recorded_temporal(
        m,
        s,
        site(at, SafetyProperty::NoUseAfterFree),
        !r.live,
        "region is live",
        "region may be freed (use-after-free)",
    );
    let (mode, extra) = crate::exec::check::bound_mode(r.size_nowrap);
    let goals = within(p.offset, lit(PTR_WIDTH, n as u128), r.size);
    let (m2, d) = deciding(m1, s, goals, mode, extra);
    let m3 = recorded_mem(
        m2,
        grounds(s, goals),
        site(at, SafetyProperty::InBounds),
        d,
        "access stays within the allocation",
        "could not prove the access stays in bounds",
    );
    let m4 = recorded(
        m3,
        site(at, SafetyProperty::Alignment),
        align <= 1 || p.align as int % align as int == 0,
        "address meets the required alignment",
        "could not prove the required alignment",
    );
    let m5 = recorded(
        m4,
        site(at, perm),
        crate::exec::check::granted(r, perm),
        "region grants the access permission",
        "region does not grant the access permission",
    );
    assert(later(m5, e));
    assert(later(m4, e));
    assert(later(m3, e));
    assert(later(m2, e));
    assert(later(m1, e));
    match prop {
        SafetyProperty::InBounds => {
            lemma_proven_before(m3, e, site(at, prop));
            assert(d is Proven);
            shown_decided(m1, s, goals, mode, extra);
            lemma_truthful_before(m2, e);
            lemma_shown_holds(m2, s, goals, v);
            lemma_within(p.offset, n, r.size, v);
        },
        SafetyProperty::NoUseAfterFree => {
            lemma_proven_before(m1, e, site(at, prop));
        },
        SafetyProperty::Alignment => {
            lemma_proven_before(m4, e, site(at, prop));
        },
        SafetyProperty::ValidRead => {
            lemma_proven_before(m5, e, site(at, prop));
        },
        SafetyProperty::ValidWrite => {
            lemma_proven_before(m5, e, site(at, prop));
        },
        _ => {},
    }
}

pub(crate) proof fn lemma_untracked(
    m: MachineView,
    at: Check,
    p: Prov,
    perm: SafetyProperty,
    prop: SafetyProperty,
)
    requires
        of_access(prop, perm),
        perm == SafetyProperty::ValidRead || perm == SafetyProperty::ValidWrite,
        prop != SafetyProperty::NoNullDeref,
    ensures
        !proven_at(untracked_checked(m, at, p, perm), site(at, prop)),
{
}

/// An access that is proved safe is safe: for every property of it that is proved, and all
/// values that take the path, the property holds where the pointer points.
pub proof fn proven_accesses_are_safe(
    m: MachineView,
    s: PathView,
    at: Check,
    p: SymPointer,
    n: u64,
    align: u64,
    perm: SafetyProperty,
    prop: SafetyProperty,
    v: Valuation,
)
    requires
        sized(p),
        perm == SafetyProperty::ValidRead || perm == SafetyProperty::ValidWrite,
        of_access(prop, perm),
        proven_at(access_checked(m, s, at, p, n, align, perm), site(at, prop)),
        truthful(access_checked(m, s, at, p, n, align, perm)),
        takes(s, v),
    ensures
        meets(s, landing(p, v), n as int, align as int, prop, v),
    decreases p.prov,
{
    let e = access_checked(m, s, at, p, n, align, perm);
    match p.prov {
        Prov::Select { cond, then_ptr, else_ptr } => {
            let a = side(*then_ptr, p.offset);
            let b = side(*else_ptr, p.offset);
            let sa = with_cond(s, cond);
            let sb = with_cond(s, negation(cond));
            let m1 = access_checked(m, sa, at, a, n, align, perm);
            lemma_side(*then_ptr, p.offset, v);
            lemma_side(*else_ptr, p.offset, v);
            l_access(m, sa, at, a, n, align, perm);
            l_access(m1, sb, at, b, n, align, perm);
            if holds(cond, v) {
                lemma_takes_cond(s, cond, v);
                lemma_truthful_before(m1, e);
                lemma_touched(m, sa, at, a, n, align, perm, prop);
                lemma_proven_before(m1, e, site(at, prop));
                proven_accesses_are_safe(m, sa, at, a, n, align, perm, prop, v);
                assert(meets(sa, landing(a, v), n as int, align as int, prop, v));
            } else {
                assert(holds(negation(cond), v)) by {
                    reveal_with_fuel(value, 2);
                }
                lemma_takes_cond(s, negation(cond), v);
                proven_accesses_are_safe(m1, sb, at, b, n, align, perm, prop, v);
                assert(meets(sb, landing(b, v), n as int, align as int, prop, v));
            }
        },
        _ => {
            let m1 = recorded(
                m,
                site(at, SafetyProperty::NoNullDeref),
                region_at(s, p.prov) is Some,
                "pointer is non-null",
                "pointer may be null or have opaque provenance",
            );
            match region_at(s, p.prov) {
                Some(r) => {
                    lemma_region(m1, s, at, p, n, align, perm, prop, v);
                },
                None => {
                    if prop == SafetyProperty::NoNullDeref {
                        l_untracked(m1, at, p.prov, perm);
                        lemma_proven_before(m1, e, site(at, prop));
                    } else {
                        lemma_untracked(m1, at, p.prov, perm, prop);
                    }
                },
            }
        },
    }
}

/// An access decides all of its properties.
pub(crate) proof fn lemma_touched(
    m: MachineView,
    s: PathView,
    at: Check,
    p: SymPointer,
    n: u64,
    align: u64,
    perm: SafetyProperty,
    prop: SafetyProperty,
)
    requires
        of_access(prop, perm),
    ensures
        access_checked(m, s, at, p, n, align, perm).mem.contains_key(site(at, prop)),
    decreases p.prov,
{
    match p.prov {
        Prov::Select { cond, then_ptr, else_ptr } => {
            let m1 = access_checked(
                m,
                with_cond(s, cond),
                at,
                side(*then_ptr, p.offset),
                n,
                align,
                perm,
            );
            lemma_touched(
                m1,
                with_cond(s, negation(cond)),
                at,
                side(*else_ptr, p.offset),
                n,
                align,
                perm,
                prop,
            );
        },
        _ => {
            let m1 = recorded(
                m,
                site(at, SafetyProperty::NoNullDeref),
                region_at(s, p.prov) is Some,
                "pointer is non-null",
                "pointer may be null or have opaque provenance",
            );
            match region_at(s, p.prov) {
                Some(r) => lemma_touched_region(m1, s, at, p, r, n, align, perm, prop),
                None => {},
            }
        },
    }
}

pub(crate) proof fn lemma_touched_region(
    m: MachineView,
    s: PathView,
    at: Check,
    p: SymPointer,
    r: SymRegion,
    n: u64,
    align: u64,
    perm: SafetyProperty,
    prop: SafetyProperty,
)
    requires
        of_access(prop, perm),
        m.mem.contains_key(site(at, SafetyProperty::NoNullDeref)),
    ensures
        region_checked(m, s, at, p, r, n, align, perm).mem.contains_key(site(at, prop)),
{
    broadcast use crate::exec::laws::group_values;

    reveal(later);
    let e = region_checked(m, s, at, p, r, n, align, perm);
    let m1 = crate::exec::machine::recorded_temporal(
        m,
        s,
        site(at, SafetyProperty::NoUseAfterFree),
        !r.live,
        "region is live",
        "region may be freed (use-after-free)",
    );
    let (mode, extra) = crate::exec::check::bound_mode(r.size_nowrap);
    let goals = within(p.offset, lit(PTR_WIDTH, n as u128), r.size);
    let (m2, d) = deciding(m1, s, goals, mode, extra);
    assert(later(m, m2));
    assert(later(m1, m2));
    assert(m1.mem.contains_key(site(at, SafetyProperty::NoUseAfterFree)));
    assert(m2.mem.contains_key(site(at, SafetyProperty::NoUseAfterFree)));
    assert(m2.mem.contains_key(site(at, SafetyProperty::NoNullDeref)));
}

/// The pointer of an access.
pub open spec fn accessed(inst: Inst) -> Operand {
    match inst {
        Inst::Load { ptr, .. } => ptr,
        Inst::Store { ptr, .. } => ptr,
        _ => Operand::Const(crate::ir::Const::Null),
    }
}

/// The type of an access.
pub open spec fn accessed_type(inst: Inst) -> Type {
    match inst {
        Inst::Load { ty, .. } => ty,
        Inst::Store { ty, .. } => ty,
        _ => Type::Unit,
    }
}

/// The alignment that an access asks for.
pub open spec fn accessed_align(inst: Inst) -> int {
    match inst {
        Inst::Load { align, .. } => align as int,
        Inst::Store { align, .. } => align as int,
        _ => 1,
    }
}

/// The permission that an access asks for.
pub open spec fn asked_permission(inst: Inst) -> SafetyProperty {
    if inst is Load {
        SafetyProperty::ValidRead
    } else {
        SafetyProperty::ValidWrite
    }
}

/// A load or a store whose property is reported as proven has the property: for all values that
/// take a path to it, the bytes of its type lie within the region where its pointer points, the
/// region is not freed, the address is aligned, and the region grants the access.
pub proof fn reported_accesses_are_safe(
    sc: SceneView,
    sums: Map<u32, SummaryView>,
    m: MachineView,
    s: PathView,
    at: Check,
    inst: Inst,
    end: MachineView,
    prop: SafetyProperty,
    v: Valuation,
)
    requires
        inst is Load || inst is Store,
        0 <= size_of_type(accessed_type(inst)) <= u64::MAX,
        sized(pointer_of(sc, m, s, accessed(inst)).1),
        of_access(prop, asked_permission(inst)),
        later(stepped(sc, sums, m, s, at, inst).0, end),
        truthful(end),
        reported_proven(report_of(end), Owed::Memory(site(at, prop))),
        takes(s, v),
    ensures
        meets(
            s,
            landing(pointer_of(sc, m, s, accessed(inst)).1, v),
            size_of_type(accessed_type(inst)),
            accessed_align(inst),
            prop,
            v,
        ),
{
    broadcast use crate::exec::laws::group_checks;

    let (m1, p) = pointer_of(sc, m, s, accessed(inst));
    let n = size_or_one(accessed_type(inst));
    let align = accessed_align(inst) as u64;
    let perm = asked_permission(inst);
    let m2 = access_checked(m1, s, at, p, n, align, perm);
    let after = stepped(sc, sums, m, s, at, inst).0;
    assert(later(m2, after)) by {
        if let Inst::Load { dst, ty, ptr, align: a } = inst {
            let (m3, x, origin) = loading(m2, s, p, n, ty, s.heap.len() as int);
            assert(later(m2, m3));
        }
    }
    later_is_transitive(m2, after, end);
    assert(proven_at(end, site(at, prop))) by {
        assert(end.mem.contains_key(site(at, prop)));
    }
    lemma_touched(m1, s, at, p, n, align, perm, prop);
    lemma_proven_before(m2, end, site(at, prop));
    lemma_truthful_before(m2, end);
    proven_accesses_are_safe(m1, s, at, p, n, align, perm, prop, v);
}

// ---- memory ----

/// The bytes of an access that begins at a landing begin and end within 64 bits, as signed
/// numbers.
pub open spec fn spans(l: Landing, n: u64) -> bool {
    signed(l.offset, 64) + n <= i64::MAX
}

/// An access of `m` bytes touches a byte that one of `n` bytes touches.
pub open spec fn overlap(a: Landing, m: u64, b: Landing, n: u64) -> bool {
    &&& a.region == b.region
    &&& exists|k: int| #[trigger]
        touches(a, m, k) && touches(b, n, k)
}

/// An access touches the byte at an offset of its region.
pub open spec fn touches(l: Landing, n: u64, k: int) -> bool {
    signed(l.offset, 64) <= k < signed(l.offset, 64) + n
}

/// Accesses that are told apart do not overlap, and one that is said to cover another begins
/// where it does and is as long: for all values that take the path.
pub proof fn aliases_are_told_right(
    m: MachineView,
    s: PathView,
    a: SymPointer,
    b: SymPointer,
    sizea: u64,
    sizeb: u64,
    v: Valuation,
)
    requires
        sized(a),
        sized(b),
        spans(landing(a, v), sizea),
        spans(landing(b, v), sizeb),
        truthful(aliasing(m, s, a, b, sizea, sizeb).0),
        takes(s, v),
    ensures
        aliasing(m, s, a, b, sizea, sizeb).1 == AliasResult::No ==> landing(a, v).region is Some
            && landing(b, v).region is Some && !overlap(
            landing(a, v),
            sizea,
            landing(b, v),
            sizeb,
        ),
        aliasing(m, s, a, b, sizea, sizeb).1 == AliasResult::Must ==> landing(a, v).region is Some
            && landing(a, v).region == landing(b, v).region && landing(a, v).offset == landing(
            b,
            v,
        ).offset && sizea >= sizeb,
{
    broadcast use crate::exec::laws::group_values;

    if let (Prov::Region(x), Prov::Region(y)) = (a.prov, b.prov) {
        if x == y {
            let e = aliasing(m, s, a, b, sizea, sizeb).0;
            let same = equal(a.offset, b.offset);
            let (m1, is_same) = if sizea >= sizeb {
                proving(m, s, same)
            } else {
                (m, false)
            };
            if is_same {
                shown_one(m, s, same);
                lemma_shown_holds(m1, s, seq![same], v);
                assert(holds(seq![same][0], v));
                lemma_equal(a.offset, b.offset, v);
            } else {
                let la = lit(PTR_WIDTH, sizea as u128);
                let lb = lit(PTR_WIDTH, sizeb as u128);
                let a_end = bin(BvOp::Add, a.offset, la);
                let b_end = bin(BvOp::Add, b.offset, lb);
                let g1 = sle(a_end, b.offset);
                let g2 = sle(b_end, a.offset);
                let (m2, before) = proving(m1, s, g1);
                lemma_lit(sizea, v);
                lemma_lit(sizeb, v);
                lemma_end(a.offset, sizea, v);
                lemma_end(b.offset, sizeb, v);
                if before {
                    shown_one(m1, s, g1);
                    lemma_shown_holds(m2, s, seq![g1], v);
                    assert(holds(seq![g1][0], v));
                    lemma_sle(a_end, b.offset, v);
                } else {
                    let (m3, after) = proving(m2, s, g2);
                    if after {
                        shown_one(m2, s, g2);
                        lemma_shown_holds(m3, s, seq![g2], v);
                        assert(holds(seq![g2][0], v));
                        lemma_sle(b_end, a.offset, v);
                    }
                }
            }
        }
    }
}

pub(crate) proof fn lemma_end(e: Ex, n: u64, v: Valuation)
    requires
        width_of(e) == 64,
        number(e, v) + n <= i64::MAX,
    ensures
        width_of(bin(BvOp::Add, e, lit(PTR_WIDTH, n as u128))) == 64,
        number(bin(BvOp::Add, e, lit(PTR_WIDTH, n as u128)), v) == number(e, v) + n,
{
    lemma_lit(n, v);
    lemma_add(e, lit(PTR_WIDTH, n as u128), v);
    lemma_wrapped_end(value(e, v) as int, n);
}

/// A number in range is read back from its pattern.
pub(crate) proof fn lemma_read_back(z: int)
    requires
        -0x8000_0000_0000_0000 <= z < 0x8000_0000_0000_0000,
    ensures
        signed(wrapped(z, 64), 64) == z,
{
    vstd::arithmetic::power2::lemma2_to64();
    let p = pow2(64) as int;
    if z >= 0 {
        vstd::arithmetic::div_mod::lemma_small_mod(z as nat, p as nat);
    } else {
        vstd::arithmetic::div_mod::lemma_small_mod((z + p) as nat, p as nat);
        vstd::arithmetic::div_mod::lemma_mod_add_multiples_vanish(z, p);
    }
}

/// Adding wraps a pattern but not the number that it stands for, where that stays in range.
pub(crate) proof fn lemma_wrapped_end(x: int, n: u64)
    requires
        x >= 0,
        signed(x, 64) + n <= i64::MAX,
    ensures
        signed(wrapped(x + n, 64), 64) == signed(x, 64) + n,
{
    vstd::arithmetic::power2::lemma2_to64();
    let p = pow2(64) as int;
    let y = signed(x, 64);
    lemma_read_back(y + n);
    if x != y {
        vstd::arithmetic::div_mod::lemma_mod_add_multiples_vanish(y + n, p);
    }
}

/// The first `k` stores of a path are to pointers of 64 bits, and end within 64 bits.
pub open spec fn stores_span(s: PathView, k: int, v: Valuation) -> bool {
    forall|i: int|
        0 <= i < k ==> sized((#[trigger] s.heap[i]).target) && spans(
            landing(s.heap[i].target, v),
            s.heap[i].size,
        )
}

/// The store at `i` writes a byte that an access of `n` bytes touches.
pub open spec fn writes_into(s: PathView, i: int, l: Landing, n: u64, v: Valuation) -> bool {
    overlap(landing(s.heap[i].target, v), s.heap[i].size, l, n)
}

/// Of the first `k` stores, none writes a byte of an access.
pub open spec fn untouched(s: PathView, from: int, k: int, l: Landing, n: u64, v: Valuation) -> bool {
    forall|i: int| from <= i < k ==> !#[trigger] writes_into(s, i, l, n, v)
}

/// Of the first `k` stores, the one at `j` wrote all bytes of an access, from its first on, and
/// no later one wrote any of them.
pub open spec fn last_to_write(
    s: PathView,
    j: int,
    k: int,
    l: Landing,
    n: u64,
    v: Valuation,
) -> bool {
    let t = landing(s.heap[j].target, v);
    &&& 0 <= j < k
    &&& t.region is Some
    &&& t.region == l.region
    &&& t.offset == l.offset
    &&& s.heap[j].size >= n
    &&& untouched(s, j + 1, k, l, n, v)
}

/// The region that a pointer points into holds untrusted user data.
pub open spec fn holds_user_data(s: PathView, p: SymPointer) -> bool {
    p.prov matches Prov::Region(r) && r < s.regions.len() && s.regions[r as int].user_controlled
}

/// A value that a load takes from a store is the one last written to its bytes, and bytes that
/// are said to be unwritten are written by no store: for all values that take the path.
pub proof fn loads_read_what_was_last_written(
    m: MachineView,
    s: PathView,
    p: SymPointer,
    n: u64,
    ty: Type,
    k: int,
    v: Valuation,
)
    requires
        0 <= k <= s.heap.len(),
        sized(p),
        spans(landing(p, v), n),
        stores_span(s, k, v),
        truthful(loading(m, s, p, n, ty, k).0),
        takes(s, v),
    ensures
        ({
            let (e, x, origin) = loading(m, s, p, n, ty, k);
            let l = landing(p, v);
            match origin {
                LoadOrigin::Stored => (exists|j: int| #[trigger]
                    last_to_write(s, j, k, l, n, v) && x == s.heap[j].value) || (untouched(
                    s,
                    0,
                    k,
                    l,
                    n,
                    v,
                ) && holds_user_data(s, p)),
                LoadOrigin::Unwritten => untouched(s, 0, k, l, n, v),
                LoadOrigin::Uncertain => true,
            }
        }),
    decreases k,
{
    broadcast use {crate::exec::laws::group_values, crate::exec::laws::l_aliasing};

    let l = landing(p, v);
    let (e, x, origin) = loading(m, s, p, n, ty, k);
    if k > 0 {
        let rec = s.heap[k - 1];
        let (m1, how) = aliasing(m, s, rec.target, p, rec.size, n);
        assert(sized(rec.target) && spans(landing(rec.target, v), rec.size));
        match how {
            AliasResult::No => {
                crate::exec::laws::l_loading(m1, s, p, n, ty, k - 1);
                lemma_truthful_before(m1, e);
                aliases_are_told_right(m, s, rec.target, p, rec.size, n, v);
                loads_read_what_was_last_written(m1, s, p, n, ty, k - 1, v);
                assert(!writes_into(s, k - 1, l, n, v));
                if origin == LoadOrigin::Stored && exists|j: int| #[trigger]
                    last_to_write(s, j, k - 1, l, n, v) && x == s.heap[j].value {
                    let j = choose|j: int| #[trigger]
                        last_to_write(s, j, k - 1, l, n, v) && x == s.heap[j].value;
                    assert(last_to_write(s, j, k, l, n, v));
                }
            },
            AliasResult::Must => {
                aliases_are_told_right(m, s, rec.target, p, rec.size, n, v);
                assert(last_to_write(s, k - 1, k, l, n, v));
            },
            AliasResult::May => {},
        }
    }
}

/// A load on a path that stays exact takes the value that was last written to its bytes, or
/// untrusted user data.
pub proof fn exact_loads_are_right(
    sc: SceneView,
    sums: Map<u32, SummaryView>,
    m: MachineView,
    s: PathView,
    at: Check,
    dst: RegId,
    ty: Type,
    ptr: Operand,
    align: u32,
    v: Valuation,
)
    requires
        0 <= size_of_type(ty) <= u64::MAX,
        ({
            let (e, s1) = stepped(sc, sums, m, s, at, Inst::Load { dst, ty, ptr, align });
            let p = pointer_of(sc, m, s, ptr).1;
            &&& s1.exact
            &&& truthful(e)
            &&& sized(p)
            &&& spans(landing(p, v), size_of_type(ty) as u64)
        }),
        stores_span(s, s.heap.len() as int, v),
        takes(s, v),
    ensures
        ({
            let (e, s1) = stepped(sc, sums, m, s, at, Inst::Load { dst, ty, ptr, align });
            let p = pointer_of(sc, m, s, ptr).1;
            let l = landing(p, v);
            let n = size_of_type(ty) as u64;
            let k = s.heap.len() as int;
            &&& s1.env.contains_key(dst.0)
            &&& (exists|j: int| #[trigger]
                last_to_write(s, j, k, l, n, v) && s1.env[dst.0] == s.heap[j].value) || (untouched(
                s,
                0,
                k,
                l,
                n,
                v,
            ) && holds_user_data(s, p))
        }),
{
    broadcast use crate::exec::laws::group_checks;

    let (m1, p) = pointer_of(sc, m, s, ptr);
    let n = size_or_one(ty);
    let m2 = access_checked(m1, s, at, p, n, align as u64, SafetyProperty::ValidRead);
    let (m3, x, origin) = loading(m2, s, p, n, ty, s.heap.len() as int);
    let (e, s1) = stepped(sc, sums, m, s, at, Inst::Load { dst, ty, ptr, align });
    assert(origin == LoadOrigin::Stored);
    assert(e == m3);
    loads_read_what_was_last_written(m2, s, p, n, ty, s.heap.len() as int, v);
    let k = s.heap.len() as int;
    let l = landing(p, v);
    assert(s1.env[dst.0] == x);
}

/// A store is remembered as the last one: the value, where the pointer points, for the bytes of
/// the type; earlier ones are remembered as they were.
pub proof fn stores_are_remembered(
    sc: SceneView,
    sums: Map<u32, SummaryView>,
    m: MachineView,
    s: PathView,
    at: Check,
    ty: Type,
    ptr: Operand,
    val: Operand,
    align: u32,
)
    requires
        0 <= size_of_type(ty) <= u64::MAX,
    ensures
        ({
            let (e, s1) = stepped(sc, sums, m, s, at, Inst::Store { ty, ptr, value: val, align });
            let (m1, p) = pointer_of(sc, m, s, ptr);
            let m2 = access_checked(
                m1,
                s,
                at,
                p,
                size_of_type(ty) as u64,
                align as u64,
                SafetyProperty::ValidWrite,
            );
            &&& s1.heap.len() == s.heap.len() + 1
            &&& s1.heap.drop_last() == s.heap
            &&& s1.heap.last().target == p
            &&& s1.heap.last().size == size_of_type(ty)
            &&& s1.heap.last().value == crate::exec::eval::value_of(sc, m2, s, val).1
            &&& s1.env == s.env
            &&& s1.regions == s.regions
            &&& premises(s1) == premises(s)
        }),
{
    let (e, s1) = stepped(sc, sums, m, s, at, Inst::Store { ty, ptr, value: val, align });
    assert(s1.heap.drop_last() =~= s.heap);
}

} // verus!
