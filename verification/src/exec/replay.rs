//! Explorations with fewer answers: they agree with those that have more, up to the question
//! that is not answered.

use crate::affine::AffineView;
use crate::exec::check::{
    access_checked, aliasing, arith_checked, bulk_bounded, bulk_checked, dealloc_checked, loading,
    region_checked, side, source_bounded, source_of, target_bounded, untracked_checked,
};
use crate::exec::classify::classified;
use crate::exec::eval::{
    affine_sum, compared, condition_of, fresh_value, offset_argument, pointer_of, rvalue_of,
    scalar_of, scalarized, value_of, values_of, SceneView,
};
use crate::exec::flow::{EqExit, Flow, PtrWalk};
use crate::exec::havoc::{
    exits_bounded, exits_captured, havocked, havocked_regs, walks_bounded, walks_captured,
    ExitCapture, WalkCapture,
};
use crate::exec::laws::{
    aligned, l_access, l_arith, l_condition, l_loading, l_merged_stores, l_proving_all, later,
    explorations_only_add, l_entry, later_is_transitive,
};
use crate::exec::machine::{
    after_fresh, asked, assuming, deciding, field_offset, infeasible, proving, proving_all,
    reaching, recorded, recorded_mem, recorded_scalar, recorded_temporal, recorded_uninit, refuting,
    started, time_up, Answer, Check, Decision, Grounds, MachineView, ModelId, QueryView, RefuteMode,
    Site,
};
use crate::exec::merge::{
    args_values, entered, joined, joined_from, merged_store, merged_stores, param_values,
    params_joined, selected, EdgeView,
};
use crate::exec::report::{discharged, ExecLimits};
use crate::exec::run::{
    advanced, cut_short, entering, entry_at, explored, leaving, leaving_cases, leaving_if, stepping,
    visited, Progressing, Subject,
};
use crate::exec::start::{
    blank, block_symbols, contracted_params, entry_state, plain_params, FieldContract,
};
use crate::exec::step::{bulk_written, called, carried, loaded, referenced, returned, stepped};
use crate::exec::value::{with_cond, PathView, Prov, StoreRecord, SymPointer, SymRegion, SymValue};
use crate::expr::{negation, Ex};
use crate::ir::{
    Assumption, BitVector, BlockId, Callee, CmpOp, Condition, Function, GlobalDef, Inst, MemKind,
    Operand, PtrContract, RValue, RefResult, RegId, SafetyProperty, Terminator, Type,
};
use crate::summary::SummaryView;
use vstd::prelude::*;

verus! {

// ---- fewer answers ----

/// The state with the first `z` answers alone.
pub open spec fn cut(m: MachineView, z: int) -> MachineView {
    MachineView { answers: m.answers.take(z), ..m }
}

/// The state has used none of the answers from `z` on.
#[verifier::opaque]
pub open spec fn apt(m: MachineView, z: int) -> bool {
    aligned(m) && m.used <= z <= m.answers.len()
}

/// The state with fewer answers waits for the answer to the question that the other state had
/// answered at `z`.
#[verifier::opaque]
pub open spec fn parted(a: MachineView, b: MachineView, z: int) -> bool {
    0 <= z < a.dialogue.len() && b.pending == Some(a.dialogue[z].0)
}

/// As long as no answer from `z` on is used, the states agree; after that they are parted.
pub open spec fn kept_state(x: MachineView, y: MachineView, z: int) -> bool {
    &&& x.used <= z ==> y == cut(x, z)
    &&& x.used > z ==> parted(x, y, z)
}

/// As long as no answer from `z` on is used, the states and results agree; after that the
/// states are parted.
pub open spec fn kept<T>(x: (MachineView, T), y: (MachineView, T), z: int) -> bool {
    &&& x.0.used <= z ==> y.0 == cut(x.0, z) && y.1 == x.1
    &&& x.0.used > z ==> parted(x.0, y.0, z)
}

/// As `kept`, of two results.
pub open spec fn kept_both<T, U>(
    x: (MachineView, T, U),
    y: (MachineView, T, U),
    z: int,
) -> bool {
    &&& x.0.used <= z ==> y.0 == cut(x.0, z) && y.1 == x.1 && y.2 == x.2
    &&& x.0.used > z ==> parted(x.0, y.0, z)
}

broadcast proof fn later_used(a: MachineView, b: MachineView)
    requires
        #[trigger] later(a, b),
    ensures
        a.used <= b.used,
{
    reveal(later);
}

broadcast proof fn apt_used(m: MachineView, z: int)
    requires
        #[trigger] apt(m, z),
    ensures
        m.used <= z,
{
    reveal(apt);
}

broadcast proof fn apt_stays(a: MachineView, b: MachineView, z: int)
    requires
        #[trigger] apt(a, z),
        #[trigger] later(a, b),
        b.used <= z,
    ensures
        apt(b, z),
{
    reveal(apt);
    reveal(later);
}

broadcast proof fn parted_stays(
    a: MachineView,
    b: MachineView,
    z: int,
    c: MachineView,
    d: MachineView,
)
    requires
        #[trigger] parted(a, b, z),
        #[trigger] later(a, c),
        #[trigger] later(b, d),
    ensures
        #[trigger] parted(c, d, z),
{
    reveal(parted);
    reveal(later);
}

broadcast proof fn parted_after(a: MachineView, b: MachineView, z: int, c: MachineView)
    requires
        #[trigger] parted(a, b, z),
        #[trigger] later(a, c),
    ensures
        #[trigger] parted(c, b, z),
{
    reveal(parted);
    reveal(later);
}

broadcast proof fn parted_before(a: MachineView, b: MachineView, z: int, d: MachineView)
    requires
        #[trigger] parted(a, b, z),
        #[trigger] later(b, d),
    ensures
        #[trigger] parted(a, d, z),
{
    reveal(parted);
    reveal(later);
}

pub(crate) broadcast proof fn t_fresh(
    m: MachineView,
    z: int,
)
    requires
        apt(m, z),
    ensures
        kept_state(after_fresh(m), #[trigger] after_fresh(cut(m, z)), z),
{
    reveal(apt);
    reveal(parted);
}

pub(crate) broadcast proof fn t_asked(
    m: MachineView,
    q: QueryView,
    z: int,
)
    requires
        apt(m, z),
    ensures
        kept(asked(m, q), #[trigger] asked(cut(m, z), q), z),
{
    reveal(apt);
    reveal(parted);
}

pub(crate) broadcast proof fn t_assuming(
    m: MachineView,
    a: Assumption,
    z: int,
)
    requires
        apt(m, z),
    ensures
        kept_state(assuming(m, a), #[trigger] assuming(cut(m, z), a), z),
{
    reveal(apt);
    reveal(parted);
}

pub(crate) broadcast proof fn t_recorded(
    m: MachineView,
    s: Site,
    p: bool,
    x: &'static str,
    y: &'static str,
    z: int,
)
    requires
        apt(m, z),
    ensures
        kept_state(recorded(m, s, p, x, y), #[trigger] recorded(cut(m, z), s, p, x, y), z),
{
    reveal(apt);
    reveal(parted);
}

pub(crate) broadcast proof fn t_recorded_mem(
    m: MachineView,
    g: Grounds,
    s: Site,
    d: Decision,
    x: &'static str,
    y: &'static str,
    z: int,
)
    requires
        apt(m, z),
    ensures
        kept_state(recorded_mem(m, g, s, d, x, y), #[trigger] recorded_mem(cut(m, z), g, s, d, x, y), z),
{
    reveal(apt);
    reveal(parted);
}

pub(crate) broadcast proof fn t_recorded_uninit(
    m: MachineView,
    g: Grounds,
    s: Site,
    w: ModelId,
    z: int,
)
    requires
        apt(m, z),
    ensures
        kept_state(recorded_uninit(m, g, s, w), #[trigger] recorded_uninit(cut(m, z), g, s, w), z),
{
    reveal(apt);
    reveal(parted);
}

pub(crate) broadcast proof fn t_recorded_scalar(
    m: MachineView,
    g: Grounds,
    c: Check,
    d: Decision,
    z: int,
)
    requires
        apt(m, z),
    ensures
        kept_state(recorded_scalar(m, g, c, d), #[trigger] recorded_scalar(cut(m, z), g, c, d), z),
{
    reveal(apt);
    reveal(parted);
}

pub(crate) broadcast proof fn t_field(
    m: MachineView,
    r: usize,
    f: u32,
    n: u64,
    z: int,
)
    requires
        apt(m, z),
    ensures
        kept(field_offset(m, r, f, n), #[trigger] field_offset(cut(m, z), r, f, n), z),
{
    reveal(apt);
    reveal(parted);
}

pub(crate) broadcast group t_group_machine {
    t_fresh,
    t_asked,
    t_assuming,
    t_recorded,
    t_recorded_mem,
    t_recorded_uninit,
    t_recorded_scalar,
    t_field,
    later_used,
    apt_stays,
    parted_stays,
    parted_after,
    parted_before,
    apt_used,
}

pub(crate) broadcast proof fn t_proving(
    m: MachineView,
    s: PathView,
    g: Ex,
    z: int,
)
    requires
        apt(m, z),
    ensures
        kept(proving(m, s, g), #[trigger] proving(cut(m, z), s, g), z),
{
    broadcast use
        crate::exec::laws::group_machine,
        crate::exec::laws::l_proving,
        t_group_machine,
    ;

}

pub(crate) broadcast proof fn t_proving_all(
    m: MachineView,
    s: PathView,
    gs: Seq<Ex>,
    i: int,
    z: int,
)
    requires
        apt(m, z),
    ensures
        kept(proving_all(m, s, gs, i), #[trigger] proving_all(cut(m, z), s, gs, i), z),
    decreases gs.len() - i,
{
    broadcast use
        crate::exec::laws::group_machine,
        crate::exec::laws::l_proving,
        crate::exec::laws::l_proving_all,
        t_group_machine,
        t_proving,
    ;

    if 0 <= i < gs.len() {
        let (m1, ok) = proving(m, s, gs[i]);
        l_proving_all(m1, s, gs, i + 1);
        l_proving_all(proving(cut(m, z), s, gs[i]).0, s, gs, i + 1);
        if m1.used <= z {
            t_proving_all(m1, s, gs, i + 1, z);
        }
    }
}

pub(crate) broadcast proof fn t_refuting(
    m: MachineView,
    s: PathView,
    gs: Seq<Ex>,
    mode: RefuteMode,
    x: Seq<Ex>,
    z: int,
)
    requires
        apt(m, z),
    ensures
        kept(refuting(m, s, gs, mode, x), #[trigger] refuting(cut(m, z), s, gs, mode, x), z),
{
    broadcast use
        crate::exec::laws::group_machine,
        crate::exec::laws::l_refuting,
        t_group_machine,
    ;

}

pub(crate) broadcast proof fn t_deciding(
    m: MachineView,
    s: PathView,
    gs: Seq<Ex>,
    mode: RefuteMode,
    x: Seq<Ex>,
    z: int,
)
    requires
        apt(m, z),
    ensures
        kept(deciding(m, s, gs, mode, x), #[trigger] deciding(cut(m, z), s, gs, mode, x), z),
{
    broadcast use
        crate::exec::laws::group_machine,
        crate::exec::laws::l_proving_all,
        crate::exec::laws::l_refuting,
        crate::exec::laws::l_deciding,
        t_group_machine,
        t_proving_all,
        t_refuting,
    ;

}

pub(crate) broadcast proof fn t_reaching(
    m: MachineView,
    s: PathView,
    z: int,
)
    requires
        apt(m, z),
    ensures
        kept(reaching(m, s), #[trigger] reaching(cut(m, z), s), z),
{
    broadcast use
        crate::exec::laws::group_machine,
        crate::exec::laws::l_reaching,
        t_group_machine,
    ;

}

pub(crate) broadcast proof fn t_temporal(
    m: MachineView,
    s: PathView,
    o: Site,
    v: bool,
    x: &'static str,
    y: &'static str,
    z: int,
)
    requires
        apt(m, z),
    ensures
        kept_state(recorded_temporal(m, s, o, v, x, y), #[trigger] recorded_temporal(cut(m, z), s, o, v, x, y), z),
{
    broadcast use
        crate::exec::laws::group_machine,
        crate::exec::laws::l_reaching,
        crate::exec::laws::l_temporal,
        crate::exec::laws::countered_reached,
        t_group_machine,
        t_reaching,
    ;

}

pub(crate) broadcast proof fn t_infeasible(
    m: MachineView,
    s: PathView,
    c: Ex,
    z: int,
)
    requires
        apt(m, z),
    ensures
        kept(infeasible(m, s, c), #[trigger] infeasible(cut(m, z), s, c), z),
{
    broadcast use
        crate::exec::laws::group_machine,
        crate::exec::laws::l_infeasible,
        t_group_machine,
    ;

}

pub(crate) broadcast proof fn t_time(
    m: MachineView,
    z: int,
)
    requires
        apt(m, z),
    ensures
        kept(time_up(m), #[trigger] time_up(cut(m, z)), z),
{
    broadcast use
        crate::exec::laws::group_machine,
        crate::exec::laws::l_time,
        t_group_machine,
    ;

}

pub(crate) broadcast proof fn t_fresh_value(
    m: MachineView,
    t: Type,
    o: crate::exec::value::POrigin,
    z: int,
)
    requires
        apt(m, z),
    ensures
        kept(fresh_value(m, t, o), #[trigger] fresh_value(cut(m, z), t, o), z),
{
    broadcast use
        crate::exec::laws::group_machine,
        crate::exec::laws::l_fresh_value,
        t_group_machine,
    ;

}

pub(crate) broadcast proof fn t_value(
    sc: SceneView,
    m: MachineView,
    s: PathView,
    o: Operand,
    z: int,
)
    requires
        apt(m, z),
    ensures
        kept(value_of(sc, m, s, o), #[trigger] value_of(sc, cut(m, z), s, o), z),
{
    broadcast use
        crate::exec::laws::group_machine,
        crate::exec::laws::l_value,
        t_group_machine,
    ;

}

pub(crate) broadcast proof fn t_scalarized(
    m: MachineView,
    v: SymValue,
    z: int,
)
    requires
        apt(m, z),
    ensures
        kept(scalarized(m, v), #[trigger] scalarized(cut(m, z), v), z),
{
    broadcast use
        crate::exec::laws::group_machine,
        crate::exec::laws::l_scalarized,
        t_group_machine,
    ;

}

pub(crate) broadcast proof fn t_scalar(
    sc: SceneView,
    m: MachineView,
    s: PathView,
    o: Operand,
    z: int,
)
    requires
        apt(m, z),
    ensures
        kept(scalar_of(sc, m, s, o), #[trigger] scalar_of(sc, cut(m, z), s, o), z),
{
    broadcast use
        crate::exec::laws::group_machine,
        crate::exec::laws::l_value,
        crate::exec::laws::l_scalarized,
        crate::exec::laws::l_scalar,
        t_group_machine,
        t_value,
        t_scalarized,
    ;

}

pub(crate) broadcast proof fn t_pointer(
    sc: SceneView,
    m: MachineView,
    s: PathView,
    o: Operand,
    z: int,
)
    requires
        apt(m, z),
    ensures
        kept(pointer_of(sc, m, s, o), #[trigger] pointer_of(sc, cut(m, z), s, o), z),
{
    broadcast use
        crate::exec::laws::group_machine,
        crate::exec::laws::l_value,
        crate::exec::laws::l_pointer,
        t_group_machine,
        t_value,
    ;

}

pub(crate) broadcast proof fn t_values(
    sc: SceneView,
    m: MachineView,
    s: PathView,
    ops: Seq<Operand>,
    z: int,
)
    requires
        apt(m, z),
    ensures
        kept(values_of(sc, m, s, ops), #[trigger] values_of(sc, cut(m, z), s, ops), z),
    decreases ops.len(),
{
    broadcast use
        crate::exec::laws::group_machine,
        crate::exec::laws::l_value,
        crate::exec::laws::l_values,
        t_group_machine,
        t_value,
    ;

    if ops.len() > 0 {
        t_values(sc, m, s, ops.drop_last(), z);
    }
}

pub(crate) broadcast proof fn t_compared(
    sc: SceneView,
    m: MachineView,
    s: PathView,
    op: CmpOp,
    a: Operand,
    b: Operand,
    z: int,
)
    requires
        apt(m, z),
    ensures
        kept(compared(sc, m, s, op, a, b), #[trigger] compared(sc, cut(m, z), s, op, a, b), z),
{
    broadcast use
        crate::exec::laws::group_machine,
        crate::exec::laws::l_value,
        crate::exec::laws::l_scalarized,
        crate::exec::laws::l_compared,
        t_group_machine,
        t_value,
        t_scalarized,
    ;

}

pub(crate) broadcast proof fn t_rvalue(
    sc: SceneView,
    m: MachineView,
    s: PathView,
    v: RValue,
    z: int,
)
    requires
        apt(m, z),
    ensures
        kept(rvalue_of(sc, m, s, v), #[trigger] rvalue_of(sc, cut(m, z), s, v), z),
{
    broadcast use
        crate::exec::laws::group_machine,
        crate::exec::laws::l_value,
        crate::exec::laws::l_scalar,
        crate::exec::laws::l_compared,
        crate::exec::laws::l_rvalue,
        t_group_machine,
        t_value,
        t_scalar,
        t_compared,
    ;

}

pub(crate) broadcast proof fn t_condition(
    sc: SceneView,
    m: MachineView,
    s: PathView,
    c: Condition,
    z: int,
)
    requires
        apt(m, z),
    ensures
        kept(condition_of(sc, m, s, c), #[trigger] condition_of(sc, cut(m, z), s, c), z),
    decreases c,
{
    broadcast use
        crate::exec::laws::group_machine,
        crate::exec::laws::l_compared,
        crate::exec::laws::l_condition,
        t_group_machine,
        t_compared,
    ;

    match c {
        Condition::And(a, b) => {
            t_condition(sc, m, s, *a, z);
            l_condition(sc, condition_of(sc, m, s, *a).0, s, *b);
            l_condition(sc, condition_of(sc, cut(m, z), s, *a).0, s, *b);
            if condition_of(sc, m, s, *a).0.used <= z {
                t_condition(sc, condition_of(sc, m, s, *a).0, s, *b, z);
            }
        },
        Condition::Or(a, b) => {
            t_condition(sc, m, s, *a, z);
            l_condition(sc, condition_of(sc, m, s, *a).0, s, *b);
            l_condition(sc, condition_of(sc, cut(m, z), s, *a).0, s, *b);
            if condition_of(sc, m, s, *a).0.used <= z {
                t_condition(sc, condition_of(sc, m, s, *a).0, s, *b, z);
            }
        },
        Condition::Not(a) => {
            t_condition(sc, m, s, *a, z);
        },
        _ => {},
    }
}

pub(crate) broadcast proof fn t_affine(
    m: MachineView,
    a: AffineView,
    args: Seq<SymValue>,
    n: int,
    z: int,
)
    requires
        apt(m, z),
    ensures
        kept(affine_sum(m, a, args, n), #[trigger] affine_sum(cut(m, z), a, args, n), z),
    decreases n,
{
    broadcast use
        crate::exec::laws::group_machine,
        crate::exec::laws::l_affine,
        t_group_machine,
    ;

    if n > 0 {
        t_affine(m, a, args, n - 1, z);
    }
}

pub(crate) broadcast proof fn t_offset_argument(
    m: MachineView,
    k: usize,
    a: AffineView,
    args: Seq<SymValue>,
    t: Type,
    z: int,
)
    requires
        apt(m, z),
    ensures
        kept(offset_argument(m, k, a, args, t), #[trigger] offset_argument(cut(m, z), k, a, args, t), z),
{
    broadcast use
        crate::exec::laws::group_machine,
        crate::exec::laws::l_affine,
        crate::exec::laws::l_fresh_value,
        crate::exec::laws::l_offset_argument,
        t_group_machine,
        t_affine,
        t_fresh_value,
    ;

}

pub(crate) broadcast group t_group_values {
    t_group_machine,
    t_proving,
    t_proving_all,
    t_deciding,
    t_reaching,
    t_temporal,
    t_infeasible,
    t_time,
    t_fresh_value,
    t_value,
    t_scalar,
    t_pointer,
    t_values,
    t_rvalue,
    t_condition,
    t_affine,
    t_offset_argument,
}

pub(crate) broadcast proof fn t_region_checked(
    m: MachineView,
    s: PathView,
    at: Check,
    p: SymPointer,
    r: SymRegion,
    n: u64,
    a: u64,
    perm: SafetyProperty,
    z: int,
)
    requires
        apt(m, z),
    ensures
        kept_state(region_checked(m, s, at, p, r, n, a, perm), #[trigger] region_checked(cut(m, z), s, at, p, r, n, a, perm), z),
{
    broadcast use
        crate::exec::laws::group_values,
        crate::exec::laws::l_region_checked,
        t_group_values,
    ;

}

pub(crate) broadcast proof fn t_untracked(
    m: MachineView,
    at: Check,
    p: Prov,
    perm: SafetyProperty,
    z: int,
)
    requires
        apt(m, z),
    ensures
        kept_state(untracked_checked(m, at, p, perm), #[trigger] untracked_checked(cut(m, z), at, p, perm), z),
{
    broadcast use
        crate::exec::laws::group_values,
        crate::exec::laws::l_untracked,
        t_group_values,
    ;

}

pub(crate) broadcast proof fn t_access(
    m: MachineView,
    s: PathView,
    at: Check,
    p: SymPointer,
    n: u64,
    a: u64,
    perm: SafetyProperty,
    z: int,
)
    requires
        apt(m, z),
    ensures
        kept_state(access_checked(m, s, at, p, n, a, perm), #[trigger] access_checked(cut(m, z), s, at, p, n, a, perm), z),
    decreases p.prov,
{
    broadcast use
        crate::exec::laws::group_values,
        crate::exec::laws::l_region_checked,
        crate::exec::laws::l_untracked,
        crate::exec::laws::l_access,
        t_group_values,
        t_region_checked,
        t_untracked,
    ;

    if let Prov::Select { cond, then_ptr, else_ptr } = p.prov {
        let x = side(*then_ptr, p.offset);
        let y = side(*else_ptr, p.offset);
        t_access(m, with_cond(s, cond), at, x, n, a, perm, z);
        let m1 = access_checked(m, with_cond(s, cond), at, x, n, a, perm);
        let m2 = access_checked(cut(m, z), with_cond(s, cond), at, x, n, a, perm);
        l_access(m1, with_cond(s, negation(cond)), at, y, n, a, perm);
        l_access(m2, with_cond(s, negation(cond)), at, y, n, a, perm);
        if m1.used <= z {
            t_access(m1, with_cond(s, negation(cond)), at, y, n, a, perm, z);
        }
    }
}

pub(crate) broadcast proof fn t_arith(
    m: MachineView,
    s: PathView,
    at: Check,
    p: SymPointer,
    z: int,
)
    requires
        apt(m, z),
    ensures
        kept_state(arith_checked(m, s, at, p), #[trigger] arith_checked(cut(m, z), s, at, p), z),
    decreases p.prov,
{
    broadcast use
        crate::exec::laws::group_values,
        crate::exec::laws::l_arith,
        t_group_values,
    ;

    if let Prov::Select { cond, then_ptr, else_ptr } = p.prov {
        let x = side(*then_ptr, p.offset);
        let y = side(*else_ptr, p.offset);
        t_arith(m, with_cond(s, cond), at, x, z);
        let m1 = arith_checked(m, with_cond(s, cond), at, x);
        let m2 = arith_checked(cut(m, z), with_cond(s, cond), at, x);
        l_arith(m1, with_cond(s, negation(cond)), at, y);
        l_arith(m2, with_cond(s, negation(cond)), at, y);
        if m1.used <= z {
            t_arith(m1, with_cond(s, negation(cond)), at, y, z);
        }
    }
}

pub(crate) broadcast proof fn t_dealloc(
    m: MachineView,
    s: PathView,
    at: Check,
    p: SymPointer,
    z: int,
)
    requires
        apt(m, z),
    ensures
        kept(dealloc_checked(m, s, at, p), #[trigger] dealloc_checked(cut(m, z), s, at, p), z),
{
    broadcast use
        crate::exec::laws::group_values,
        crate::exec::laws::l_dealloc,
        t_group_values,
    ;

}

pub(crate) broadcast proof fn t_source(
    sc: SceneView,
    m: MachineView,
    s: PathView,
    k: MemKind,
    o: Option<Operand>,
    z: int,
)
    requires
        apt(m, z),
    ensures
        kept(source_of(sc, m, s, k, o), #[trigger] source_of(sc, cut(m, z), s, k, o), z),
{
    broadcast use
        crate::exec::laws::group_values,
        crate::exec::laws::l_source,
        t_group_values,
    ;

}

pub(crate) broadcast proof fn t_source_bounded(
    m: MachineView,
    s: PathView,
    p: Option<SymPointer>,
    n: Ex,
    z: int,
)
    requires
        apt(m, z),
    ensures
        kept(source_bounded(m, s, p, n), #[trigger] source_bounded(cut(m, z), s, p, n), z),
{
    broadcast use
        crate::exec::laws::group_values,
        crate::exec::laws::l_source_bounded,
        t_group_values,
    ;

}

pub(crate) broadcast proof fn t_target_bounded(
    m: MachineView,
    s: PathView,
    p: SymPointer,
    n: Ex,
    ok: bool,
    z: int,
)
    requires
        apt(m, z),
    ensures
        kept(target_bounded(m, s, p, n, ok), #[trigger] target_bounded(cut(m, z), s, p, n, ok), z),
{
    broadcast use
        crate::exec::laws::group_values,
        crate::exec::laws::l_target_bounded,
        t_group_values,
    ;

}

pub(crate) broadcast proof fn t_bulk_bounded(
    m: MachineView,
    s: PathView,
    d: SymPointer,
    p: Option<SymPointer>,
    n: Ex,
    need: bool,
    z: int,
)
    requires
        apt(m, z),
    ensures
        kept(
            bulk_bounded(m, s, d, p, n, need),
            #[trigger] bulk_bounded(cut(m, z), s, d, p, n, need),
            z,
        ),
{
    broadcast use
        crate::exec::laws::group_values,
        crate::exec::laws::l_source_bounded,
        crate::exec::laws::l_target_bounded,
        t_group_values,
        t_source_bounded,
        t_target_bounded,
    ;

}

pub(crate) broadcast proof fn t_bulk_checked(
    sc: SceneView,
    m: MachineView,
    s: PathView,
    at: Check,
    k: MemKind,
    d: Operand,
    o: Option<Operand>,
    n: Operand,
    z: int,
)
    requires
        apt(m, z),
    ensures
        kept_state(
            bulk_checked(sc, m, s, at, k, d, o, n),
            #[trigger] bulk_checked(sc, cut(m, z), s, at, k, d, o, n),
            z,
        ),
{
    broadcast use
        crate::exec::laws::group_values,
        crate::exec::laws::l_source,
        crate::exec::laws::l_bulk_bounded,
        crate::exec::laws::shown_bulk,
        crate::exec::laws::countered_bulk,
        t_group_values,
        t_source,
        t_bulk_bounded,
    ;

}

pub(crate) broadcast proof fn t_aliasing(
    m: MachineView,
    s: PathView,
    a: SymPointer,
    b: SymPointer,
    x: u64,
    y: u64,
    z: int,
)
    requires
        apt(m, z),
    ensures
        kept(aliasing(m, s, a, b, x, y), #[trigger] aliasing(cut(m, z), s, a, b, x, y), z),
{
    broadcast use
        crate::exec::laws::group_values,
        crate::exec::laws::l_aliasing,
        t_group_values,
    ;

}

pub(crate) broadcast proof fn t_loading(
    m: MachineView,
    s: PathView,
    p: SymPointer,
    n: u64,
    t: Type,
    k: int,
    z: int,
)
    requires
        apt(m, z),
    ensures
        kept_both(loading(m, s, p, n, t, k), #[trigger] loading(cut(m, z), s, p, n, t, k), z),
    decreases k,
{
    broadcast use
        crate::exec::laws::group_values,
        crate::exec::laws::l_aliasing,
        crate::exec::laws::l_loading,
        t_group_values,
        t_aliasing,
    ;

    if k > 0 {
        let rec = s.heap[k - 1];
        let m1 = aliasing(m, s, rec.target, p, rec.size, n).0;
        let m2 = aliasing(cut(m, z), s, rec.target, p, rec.size, n).0;
        l_loading(m1, s, p, n, t, k - 1);
        l_loading(m2, s, p, n, t, k - 1);
        if m1.used <= z {
            t_loading(m1, s, p, n, t, k - 1, z);
        }
    }
}

pub(crate) broadcast group t_group_checks {
    t_group_values,
    t_access,
    t_arith,
    t_dealloc,
    t_bulk_checked,
    t_loading,
}

pub(crate) broadcast proof fn t_referenced(
    m: MachineView,
    s: PathView,
    n: Option<u64>,
    w: bool,
    z: int,
)
    requires
        apt(m, z),
    ensures
        kept(referenced(m, s, n, w), #[trigger] referenced(cut(m, z), s, n, w), z),
{
    broadcast use
        crate::exec::laws::group_checks,
        crate::exec::laws::l_referenced,
        t_group_checks,
    ;

}

pub(crate) broadcast proof fn t_loaded(
    m: MachineView,
    s: PathView,
    at: Check,
    d: RegId,
    t: Type,
    p: SymPointer,
    a: u32,
    z: int,
)
    requires
        apt(m, z),
    ensures
        kept(loaded(m, s, at, d, t, p, a), #[trigger] loaded(cut(m, z), s, at, d, t, p, a), z),
{
    broadcast use
        crate::exec::laws::group_checks,
        crate::exec::laws::l_loaded,
        t_group_checks,
    ;

}

pub(crate) broadcast proof fn t_carried(
    sc: SceneView,
    m: MachineView,
    s: PathView,
    k: MemKind,
    o: Option<Operand>,
    n: u64,
    z: int,
)
    requires
        apt(m, z),
    ensures
        kept(carried(sc, m, s, k, o, n), #[trigger] carried(sc, cut(m, z), s, k, o, n), z),
{
    broadcast use
        crate::exec::laws::group_checks,
        crate::exec::laws::l_carried,
        t_group_checks,
    ;

}

pub(crate) broadcast proof fn t_bulk_written(
    sc: SceneView,
    m: MachineView,
    s: PathView,
    k: MemKind,
    d: Operand,
    o: Option<Operand>,
    n: Operand,
    z: int,
)
    requires
        apt(m, z),
    ensures
        kept(bulk_written(sc, m, s, k, d, o, n), #[trigger] bulk_written(sc, cut(m, z), s, k, d, o, n), z),
{
    broadcast use
        crate::exec::laws::group_checks,
        crate::exec::laws::l_carried,
        crate::exec::laws::l_bulk_written,
        t_group_checks,
        t_carried,
    ;

}

pub(crate) broadcast proof fn t_returned(
    m: MachineView,
    s: PathView,
    d: RegId,
    x: Option<SummaryView>,
    args: Seq<SymValue>,
    t: Type,
    r: Option<RefResult>,
    z: int,
)
    requires
        apt(m, z),
    ensures
        kept(returned(m, s, d, x, args, t, r), #[trigger] returned(cut(m, z), s, d, x, args, t, r), z),
{
    broadcast use
        crate::exec::laws::group_checks,
        crate::exec::laws::l_referenced,
        crate::exec::laws::l_returned,
        t_group_checks,
        t_referenced,
    ;

}

pub(crate) broadcast proof fn t_called(
    sc: SceneView,
    sums: Map<u32, SummaryView>,
    m: MachineView,
    s: PathView,
    d: Option<RegId>,
    c: Callee,
    args: Seq<Operand>,
    t: Type,
    r: Option<RefResult>,
    z: int,
)
    requires
        apt(m, z),
    ensures
        kept(called(sc, sums, m, s, d, c, args, t, r), #[trigger] called(sc, sums, cut(m, z), s, d, c, args, t, r), z),
{
    broadcast use
        crate::exec::laws::group_checks,
        crate::exec::laws::l_returned,
        crate::exec::laws::l_called,
        t_group_checks,
        t_returned,
    ;

}

pub(crate) broadcast proof fn t_stepped(
    sc: SceneView,
    sums: Map<u32, SummaryView>,
    m: MachineView,
    s: PathView,
    at: Check,
    inst: Inst,
    z: int,
)
    requires
        apt(m, z),
    ensures
        kept(stepped(sc, sums, m, s, at, inst), #[trigger] stepped(sc, sums, cut(m, z), s, at, inst), z),
{
    broadcast use
        crate::exec::laws::group_checks,
        crate::exec::laws::l_referenced,
        crate::exec::laws::l_loaded,
        crate::exec::laws::l_bulk_written,
        crate::exec::laws::l_called,
        crate::exec::laws::l_stepped,
        t_group_checks,
        t_referenced,
        t_loaded,
        t_bulk_written,
        t_called,
    ;

}

pub(crate) broadcast proof fn t_selected(
    m: MachineView,
    d: Ex,
    a: SymValue,
    b: SymValue,
    t: Type,
    z: int,
)
    requires
        apt(m, z),
    ensures
        kept(selected(m, d, a, b, t), #[trigger] selected(cut(m, z), d, a, b, t), z),
{
    broadcast use
        crate::exec::laws::group_values,
        crate::exec::laws::l_selected,
        t_group_values,
    ;

}

pub(crate) broadcast proof fn t_joined_from(
    m: MachineView,
    vals: Seq<(Ex, SymValue)>,
    t: Type,
    i: int,
    z: int,
)
    requires
        apt(m, z),
    ensures
        kept(joined_from(m, vals, t, i), #[trigger] joined_from(cut(m, z), vals, t, i), z),
    decreases vals.len() - i,
{
    broadcast use
        crate::exec::laws::group_values,
        crate::exec::laws::l_selected,
        crate::exec::laws::l_joined_from,
        t_group_values,
        t_selected,
    ;

    if 0 <= i < vals.len() - 1 {
        t_joined_from(m, vals, t, i + 1, z);
    }
}

pub(crate) broadcast proof fn t_joined(
    m: MachineView,
    vals: Seq<(Ex, SymValue)>,
    t: Type,
    z: int,
)
    requires
        apt(m, z),
    ensures
        kept(joined(m, vals, t), #[trigger] joined(cut(m, z), vals, t), z),
{
    broadcast use
        crate::exec::laws::group_values,
        crate::exec::laws::l_joined_from,
        crate::exec::laws::l_joined,
        t_group_values,
        t_joined_from,
    ;

}

pub(crate) broadcast proof fn t_merged_stores(
    m: MachineView,
    edges: Seq<EdgeView>,
    discs: Seq<Ex>,
    n: int,
    out: Seq<StoreRecord>,
    k: int,
    z: int,
)
    requires
        apt(m, z),
    ensures
        kept(merged_stores(m, edges, discs, n, out, k), #[trigger] merged_stores(cut(m, z), edges, discs, n, out, k), z),
    decreases k,
{
    broadcast use
        crate::exec::laws::group_values,
        crate::exec::laws::l_joined,
        crate::exec::laws::l_merged_stores,
        t_group_values,
        t_joined,
    ;

    if k > 0 {
        let (m1, one) = merged_store(m, edges, discs, n, k - 1);
        let (m2, two) = merged_store(cut(m, z), edges, discs, n, k - 1);
        let next = match one {
            Some(r) => out.push(r),
            None => out,
        };
        let other = match two {
            Some(r) => out.push(r),
            None => out,
        };
        assert(kept((m1, one), (m2, two), z));
        l_merged_stores(m1, edges, discs, n, next, k - 1);
        l_merged_stores(m2, edges, discs, n, other, k - 1);
        if m1.used <= z {
            t_merged_stores(m1, edges, discs, n, next, k - 1, z);
        }
    }
}

pub(crate) broadcast proof fn t_param_values(
    sc: SceneView,
    m: MachineView,
    edges: Seq<EdgeView>,
    discs: Seq<Ex>,
    j: int,
    t: Type,
    n: int,
    z: int,
)
    requires
        apt(m, z),
    ensures
        kept(param_values(sc, m, edges, discs, j, t, n), #[trigger] param_values(sc, cut(m, z), edges, discs, j, t, n), z),
    decreases n,
{
    broadcast use
        crate::exec::laws::group_values,
        crate::exec::laws::l_param_values,
        t_group_values,
    ;

    if n > 0 {
        t_param_values(sc, m, edges, discs, j, t, n - 1, z);
    }
}

pub(crate) broadcast proof fn t_params_joined(
    sc: SceneView,
    m: MachineView,
    s: PathView,
    edges: Seq<EdgeView>,
    discs: Seq<Ex>,
    params: Seq<(RegId, Type)>,
    n: int,
    z: int,
)
    requires
        apt(m, z),
    ensures
        kept(params_joined(sc, m, s, edges, discs, params, n), #[trigger] params_joined(sc, cut(m, z), s, edges, discs, params, n), z),
    decreases n,
{
    broadcast use
        crate::exec::laws::group_values,
        crate::exec::laws::l_param_values,
        crate::exec::laws::l_joined,
        crate::exec::laws::l_params_joined,
        t_group_values,
        t_param_values,
        t_joined,
    ;

    if n > 0 {
        t_params_joined(sc, m, s, edges, discs, params, n - 1, z);
    }
}

pub(crate) broadcast proof fn t_args_values(
    sc: SceneView,
    m: MachineView,
    s: PathView,
    args: Seq<Operand>,
    params: Seq<(RegId, Type)>,
    n: int,
    z: int,
)
    requires
        apt(m, z),
    ensures
        kept(args_values(sc, m, s, args, params, n), #[trigger] args_values(sc, cut(m, z), s, args, params, n), z),
    decreases n,
{
    broadcast use
        crate::exec::laws::group_values,
        crate::exec::laws::l_args_values,
        t_group_values,
    ;

    if n > 0 {
        t_args_values(sc, m, s, args, params, n - 1, z);
    }
}

pub(crate) broadcast proof fn t_entered(
    sc: SceneView,
    m: MachineView,
    edges: Seq<EdgeView>,
    params: Seq<(RegId, Type)>,
    z: int,
)
    requires
        apt(m, z),
    ensures
        kept(entered(sc, m, edges, params), #[trigger] entered(sc, cut(m, z), edges, params), z),
{
    broadcast use
        crate::exec::laws::group_machine,
        crate::exec::laws::l_args_values,
        crate::exec::laws::l_merged_stores,
        crate::exec::laws::l_params_joined,
        crate::exec::laws::l_entered,
        t_group_machine,
        t_args_values,
        t_merged_stores,
        t_params_joined,
    ;

}

pub(crate) broadcast proof fn t_exits_captured(
    sc: SceneView,
    m: MachineView,
    s: PathView,
    xs: Seq<EqExit>,
    n: int,
    z: int,
)
    requires
        apt(m, z),
    ensures
        kept(exits_captured(sc, m, s, xs, n), #[trigger] exits_captured(sc, cut(m, z), s, xs, n), z),
    decreases n,
{
    broadcast use
        crate::exec::laws::group_values,
        crate::exec::laws::l_exits_captured,
        t_group_values,
    ;

    if n > 0 {
        t_exits_captured(sc, m, s, xs, n - 1, z);
    }
}

pub(crate) broadcast proof fn t_walks_captured(
    sc: SceneView,
    m: MachineView,
    s: PathView,
    ws: Seq<PtrWalk>,
    n: int,
    z: int,
)
    requires
        apt(m, z),
    ensures
        kept(walks_captured(sc, m, s, ws, n), #[trigger] walks_captured(sc, cut(m, z), s, ws, n), z),
    decreases n,
{
    broadcast use
        crate::exec::laws::group_values,
        crate::exec::laws::l_walks_captured,
        t_group_values,
    ;

    if n > 0 {
        t_walks_captured(sc, m, s, ws, n - 1, z);
    }
}

pub(crate) broadcast proof fn t_havocked_regs(
    f: Function,
    flow: Flow,
    m: MachineView,
    s: PathView,
    h: u32,
    regs: Seq<int>,
    n: int,
    z: int,
)
    requires
        apt(m, z),
    ensures
        kept(havocked_regs(f, flow, m, s, h, regs, n), #[trigger] havocked_regs(f, flow, cut(m, z), s, h, regs, n), z),
    decreases n,
{
    broadcast use
        crate::exec::laws::group_values,
        crate::exec::laws::l_havocked_regs,
        t_group_values,
    ;

    if n > 0 {
        t_havocked_regs(f, flow, m, s, h, regs, n - 1, z);
    }
}

pub(crate) broadcast proof fn t_exits_bounded(
    m: MachineView,
    s: PathView,
    cs: Seq<ExitCapture>,
    n: int,
    z: int,
)
    requires
        apt(m, z),
    ensures
        kept(exits_bounded(m, s, cs, n), #[trigger] exits_bounded(cut(m, z), s, cs, n), z),
    decreases n,
{
    broadcast use
        crate::exec::laws::group_values,
        crate::exec::laws::l_exits_bounded,
        t_group_values,
    ;

    if n > 0 {
        t_exits_bounded(m, s, cs, n - 1, z);
    }
}

pub(crate) broadcast proof fn t_walks_bounded(
    m: MachineView,
    s: PathView,
    cs: Seq<WalkCapture>,
    n: int,
    z: int,
)
    requires
        apt(m, z),
    ensures
        kept(walks_bounded(m, s, cs, n), #[trigger] walks_bounded(cut(m, z), s, cs, n), z),
    decreases n,
{
    broadcast use
        crate::exec::laws::group_values,
        crate::exec::laws::l_walks_bounded,
        t_group_values,
    ;

    if n > 0 {
        t_walks_bounded(m, s, cs, n - 1, z);
    }
}

pub(crate) broadcast proof fn t_havocked(
    f: Function,
    flow: Flow,
    sc: SceneView,
    m: MachineView,
    s: PathView,
    h: u32,
    z: int,
)
    requires
        apt(m, z),
    ensures
        kept(havocked(f, flow, sc, m, s, h), #[trigger] havocked(f, flow, sc, cut(m, z), s, h), z),
{
    broadcast use
        crate::exec::laws::group_machine,
        crate::exec::laws::l_exits_captured,
        crate::exec::laws::l_walks_captured,
        crate::exec::laws::l_havocked_regs,
        crate::exec::laws::l_exits_bounded,
        crate::exec::laws::l_walks_bounded,
        crate::exec::laws::l_havocked,
        t_group_machine,
        t_exits_captured,
        t_walks_captured,
        t_havocked_regs,
        t_exits_bounded,
        t_walks_bounded,
    ;

}

pub(crate) broadcast proof fn t_leaving_if(
    flow: Flow,
    m: MachineView,
    s: PathView,
    a: u32,
    b: u32,
    g: Ex,
    args: Seq<Operand>,
    z: int,
)
    requires
        apt(m, z),
    ensures
        kept(leaving_if(flow, m, s, a, b, g, args), #[trigger] leaving_if(flow, cut(m, z), s, a, b, g, args), z),
{
    broadcast use
        crate::exec::laws::group_values,
        crate::exec::laws::l_leaving_if,
        t_group_values,
    ;

}

pub(crate) broadcast proof fn t_leaving_cases(
    flow: Flow,
    m: MachineView,
    s: PathView,
    a: u32,
    v: Ex,
    cases: Seq<(BitVector, BlockId)>,
    n: int,
    z: int,
)
    requires
        apt(m, z),
    ensures
        kept(leaving_cases(flow, m, s, a, v, cases, n), #[trigger] leaving_cases(flow, cut(m, z), s, a, v, cases, n), z),
    decreases n,
{
    broadcast use
        crate::exec::laws::group_machine,
        crate::exec::laws::l_leaving_if,
        crate::exec::laws::l_leaving_cases,
        t_group_machine,
        t_leaving_if,
    ;

    if n > 0 {
        t_leaving_cases(flow, m, s, a, v, cases, n - 1, z);
    }
}

pub(crate) broadcast proof fn t_leaving(
    flow: Flow,
    sc: SceneView,
    m: MachineView,
    s: PathView,
    a: u32,
    t: Terminator,
    z: int,
)
    requires
        apt(m, z),
    ensures
        kept(leaving(flow, sc, m, s, a, t), #[trigger] leaving(flow, sc, cut(m, z), s, a, t), z),
{
    broadcast use
        crate::exec::laws::group_machine,
        crate::exec::laws::l_scalar,
        crate::exec::laws::l_leaving_if,
        crate::exec::laws::l_leaving_cases,
        crate::exec::laws::l_leaving,
        t_group_machine,
        t_scalar,
        t_leaving_if,
        t_leaving_cases,
    ;

}

pub(crate) broadcast proof fn t_stepping(
    sc: SceneView,
    sums: Map<u32, SummaryView>,
    m: MachineView,
    s: PathView,
    b: BlockId,
    insts: Seq<Inst>,
    n: int,
    z: int,
)
    requires
        apt(m, z),
    ensures
        kept(stepping(sc, sums, m, s, b, insts, n), #[trigger] stepping(sc, sums, cut(m, z), s, b, insts, n), z),
    decreases n,
{
    broadcast use
        crate::exec::laws::group_machine,
        crate::exec::laws::l_stepped,
        crate::exec::laws::l_stepping,
        t_group_machine,
        t_stepped,
    ;

    if n > 0 {
        t_stepping(sc, sums, m, s, b, insts, n - 1, z);
    }
}

pub(crate) broadcast proof fn t_cut(
    m: MachineView,
    z: int,
)
    requires
        apt(m, z),
    ensures
        kept_state(cut_short(m), #[trigger] cut_short(cut(m, z)), z),
{
    reveal(apt);
    reveal(parted);
}

// ---- explorations ----

/// An exploration with the first `z` answers alone.
pub open spec fn cut_progress(p: Progressing, z: int) -> Progressing {
    Progressing { m: cut(p.m, z), ..p }
}

/// As long as no answer from `z` on is used, the explorations agree; after that their states
/// are parted.
pub open spec fn kept_progress(p: Progressing, q: Progressing, z: int) -> bool {
    &&& p.m.used <= z ==> q == cut_progress(p, z)
    &&& p.m.used > z ==> parted(p.m, q.m, z)
}

proof fn t_visited(
    x: Subject,
    m: MachineView,
    edges: Seq<EdgeView>,
    b: u32,
    z: int,
)
    requires
        apt(m, z),
    ensures
        kept(visited(x, m, edges, b), visited(x, cut(m, z), edges, b), z),
        later(m, visited(x, m, edges, b).0),
{
    broadcast use
        crate::exec::laws::group_machine,
        crate::exec::laws::l_entered,
        crate::exec::laws::l_havocked,
        crate::exec::laws::l_stepping,
        crate::exec::laws::l_leaving,
        t_group_machine,
        t_entered,
        t_havocked,
        t_stepping,
        t_leaving,
    ;

}

proof fn t_advanced(x: Subject, p: Progressing, b: u32, z: int)
    requires
        apt(p.m, z),
    ensures
        kept_progress(advanced(x, p, b), advanced(x, cut_progress(p, z), b), z),
{
    broadcast use
        crate::exec::laws::group_machine,
        crate::exec::laws::l_cut,
        crate::exec::laws::l_time,
        crate::exec::laws::l_entered,
        crate::exec::laws::l_havocked,
        crate::exec::laws::l_stepping,
        crate::exec::laws::l_leaving,
        t_group_machine,
        t_cut,
        t_time,
    ;

    let edges = entering(p.pending, b);
    let m1 = if x.timed {
        time_up(p.m).0
    } else {
        p.m
    };
    if m1.used <= z {
        t_visited(x, m1, edges, b, z);
    }
}

proof fn t_explored(x: Subject, p: Progressing, order: Seq<u32>, n: int, z: int)
    requires
        apt(p.m, z),
    ensures
        kept_progress(
            explored(x, p, order, n),
            explored(x, cut_progress(p, z), order, n),
            z,
        ),
    decreases n,
{
    if n > 0 {
        let a = explored(x, p, order, n - 1);
        let b = explored(x, cut_progress(p, z), order, n - 1);
        t_explored(x, p, order, n - 1, z);
        explorations_only_add(x, p, order, 0, n - 1);
        if a.m.used <= z {
            apt_stays(p.m, a.m, z);
            t_advanced(x, a, order[n - 1], z);
        } else {
            explorations_only_add(x, p, order, n - 1, n);
            explorations_only_add(x, cut_progress(p, z), order, n - 1, n);
            parted_stays(
                a.m,
                b.m,
                z,
                explored(x, p, order, n).m,
                explored(x, cut_progress(p, z), order, n).m,
            );
            later_used(a.m, explored(x, p, order, n).m);
        }
    } else {
        reveal(apt);
    }
}

proof fn t_entry(
    m: MachineView,
    s: PathView,
    params: Seq<(RegId, Type)>,
    cs: Seq<Option<PtrContract>>,
    fields: Seq<Vec<FieldContract>>,
    n: int,
    z: int,
)
    requires
        apt(m, z),
    ensures
        contracted_params(m, s, params, cs, fields, n).0.used == m.used,
        kept(
            contracted_params(m, s, params, cs, fields, n),
            contracted_params(cut(m, z), s, params, cs, fields, n),
            z,
        ),
    decreases n,
{
    broadcast use crate::exec::laws::group_machine, t_group_machine;

    if n > 0 {
        t_entry(m, s, params, cs, fields, n - 1, z);
        l_entry(m, s, params, cs, fields, n - 1);
    }
}

/// Questions come in the order of their answers: an exploration that is given the first `i`
/// answers alone waits for the answer to the question that the answer at `i` is given to.
pub proof fn questions_come_in_order(
    f: Function,
    limits: ExecLimits,
    sums: Map<u32, SummaryView>,
    contracts: Seq<Option<PtrContract>>,
    fields: Seq<Vec<FieldContract>>,
    globals: Map<Seq<char>, GlobalDef>,
    flow: Flow,
    answers: Seq<Answer>,
    i: int,
)
    requires
        0 <= i < discharged(f, limits, sums, contracts, fields, globals, flow, answers).used,
    ensures
        ({
            let m = discharged(f, limits, sums, contracts, fields, globals, flow, answers);
            let n = discharged(f, limits, sums, contracts, fields, globals, flow, answers.take(i));
            &&& aligned(m)
            &&& n.pending == Some(m.dialogue[i].0)
            &&& m.dialogue[i].1 == answers[i]
        }),
{
    let m0 = started(answers, limits.bug_finding, limits.exported);
    let k = f.params@.len() as int;
    let s1 = plain_params(blank(), f.params@, contracts, k);
    let (m1, s, known) = entry_state(m0, f, contracts, fields, globals);
    let x = Subject {
        f,
        flow,
        sc: SceneView { causes: classified(f), globals: known, names: block_symbols(f.blocks@) },
        sums,
        max_visits: limits.max_visits as int,
        timed: limits.time_budget is Some,
    };
    let p = entry_at(x, m1, s);
    let n = flow.order@.len() as int;
    let m = discharged(f, limits, sums, contracts, fields, globals, flow, answers);
    l_entry(m0, s1, f.params@, contracts, fields, k);
    explorations_only_add(x, p, flow.order@, 0, n);
    later_is_transitive(m0, m1, m);
    assert(aligned(m0));
    assert(aligned(m) && m.answers == answers) by {
        reveal(later);
    }
    assert(apt(m0, i)) by {
        reveal(apt);
    }
    assert(started(answers.take(i), limits.bug_finding, limits.exported) == cut(m0, i));
    t_entry(m0, s1, f.params@, contracts, fields, k, i);
    apt_stays(m0, m1, i);
    t_explored(x, p, flow.order@, n, i);
    assert(discharged(f, limits, sums, contracts, fields, globals, flow, answers.take(i))
        == explored(x, cut_progress(p, i), flow.order@, n).m);
    reveal(parted);
}

} // verus!
