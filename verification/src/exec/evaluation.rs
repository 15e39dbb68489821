//! What evaluation, branches and instructions mean for the values that take a path.

use crate::blast::{
    as_signed, bit_of, folding_keeps_values, holds, magnitude, operated, quotient, value, with_bits,
    Valuation,
};
use crate::bitblast::bit_result;
use crate::exec::drive::reported_proven;
use crate::exec::eval::{bv_op, bv_relation, condition_of, scalar_of, value_of, SceneView};
use crate::exec::laws::{later, later_is_transitive, shown_decided};
use crate::exec::machine::{
    deciding, grounds, recorded_scalar, Check, MachineView, Owed, RefuteMode,
};
use crate::exec::merge::selected_ptr;
use crate::exec::report::report_of;
use crate::exec::sound::{
    landing, lemma_lit, lemma_shown_holds, lemma_truthful_before, sized, takes, truthful,
};
use crate::exec::step::stepped;
use crate::exec::value::{same_prov, PathView, Prov, SymPointer, SymValue};
use crate::expr::{bin, ite, rel, width_of, BvOp, Ex, Expr};
use crate::ir::{BinOp, CmpOp, Condition, Const, Inst, Operand, RValue, RegId, SafetyProperty, Type};
use crate::meaning::{bit, computes, pattern, related, remains, signed, truth_bit, wrapped};
use crate::numbers::at;
use crate::summary::SummaryView;
use std::rc::Rc;
use vstd::arithmetic::power2::{lemma_pow2_adds, lemma_pow2_pos, lemma_pow2_unfold, pow2};
use vstd::prelude::*;

verus! {

// ---- operations ----

proof fn lemma_back(z: int, w: nat)
    requires
        w > 0,
        -pow2((w - 1) as nat) <= z < pow2((w - 1) as nat),
    ensures
        signed(wrapped(z, w), w) == z,
        pattern(wrapped(z, w), w),
{
    lemma_pow2_unfold(w);
    lemma_pow2_pos(w);
    let p = pow2(w) as int;
    if z >= 0 {
        vstd::arithmetic::div_mod::lemma_small_mod(z as nat, p as nat);
    } else {
        vstd::arithmetic::div_mod::lemma_small_mod((z + p) as nat, p as nat);
        vstd::arithmetic::div_mod::lemma_mod_add_multiples_vanish(z, p);
    }
}

proof fn lemma_as_signed(x: int, w: nat)
    requires
        w > 0,
        pattern(x, w),
    ensures
        as_signed(x, w) == signed(x, w),
        -pow2((w - 1) as nat) <= signed(x, w) < pow2((w - 1) as nat),
{
    lemma_pow2_unfold(w);
}

proof fn lemma_with_bits(w: nat, f: spec_fn(nat) -> bool, k: nat)
    ensures
        with_bits(w, f) < pow2(w),
        k < w ==> bit(with_bits(w, f) as int, k) == f(k),
    decreases w,
{
    lemma_pow2_pos(w);
    if w == 0 {
        vstd::arithmetic::power2::lemma2_to64();
    } else {
        let n = (w - 1) as nat;
        lemma_pow2_unfold(w);
        lemma_with_bits(n, f, k);
        let a = with_bits(n, f) as int;
        let top = pow2(n) as int;
        lemma_pow2_pos(n);
        if k == n {
            if f(n) {
                vstd::arithmetic::div_mod::lemma_fundamental_div_mod_converse(a + top, top, 1, a);
            } else {
                vstd::arithmetic::div_mod::lemma_basic_div(a, top);
            }
        } else if k < n && f(n) {
            let d = pow2(k) as int;
            let h = pow2((n - k) as nat) as int;
            lemma_pow2_pos(k);
            lemma_pow2_adds(k, (n - k) as nat);
            lemma_pow2_unfold((n - k) as nat);
            let half = pow2((n - k - 1) as nat) as int;
            vstd::arithmetic::div_mod::lemma_fundamental_div_mod(a, d);
            vstd::arithmetic::div_mod::lemma_mod_bound(a, d);
            let q = a / d;
            let m = a % d;
            assert(a + top == (q + h) * d + m) by (nonlinear_arith)
                requires
                    a == d * q + m,
                    top == d * h,
            ;
            vstd::arithmetic::div_mod::lemma_fundamental_div_mod_converse(a + top, d, q + h, m);
            assert((q + 2 * half) % 2 == q % 2);
        }
    }
}

proof fn lemma_quotient(s: int, t: int)
    requires
        t != 0,
    ensures
        remains(s, t, s - t * quotient(s, t)),
        -magnitude(s) <= quotient(s, t) <= magnitude(s),
        s - t * quotient(s, t) <= magnitude(s),
        -magnitude(s) <= s - t * quotient(s, t),
        -magnitude(t) < s - t * quotient(s, t) < magnitude(t),
        magnitude(t) > 1 && s != 0 ==> -magnitude(s) < quotient(s, t) < magnitude(s),
        t == 1 ==> quotient(s, t) == s,
        t == -1 ==> quotient(s, t) == -s,
{
    let x = magnitude(s);
    let y = magnitude(t);
    let q = x / y;
    let m = x % y;
    vstd::arithmetic::div_mod::lemma_fundamental_div_mod(x, y);
    vstd::arithmetic::div_mod::lemma_mod_bound(x, y);
    vstd::arithmetic::div_mod::lemma_div_pos_is_pos(x, y);
    assert(q <= x) by (nonlinear_arith)
        requires
            x == y * q + m,
            m >= 0,
            y >= 1,
            q >= 0,
    ;
    if y > 1 && s != 0 {
        assert(q < x) by (nonlinear_arith)
            requires
                x == y * q + m,
                m >= 0,
                y >= 2,
                q >= 0,
                x > 0,
        ;
    }
    let r = quotient(s, t);
    assert(m <= x) by (nonlinear_arith)
        requires
            x == y * q + m,
            y >= 1,
            q >= 0,
    ;
    assert(s - t * r == if s >= 0 {
        m
    } else {
        -m
    }) by (nonlinear_arith)
        requires
            x == y * q + m,
            s >= 0 ==> x == s,
            s < 0 ==> x == -s,
            t >= 0 ==> y == t,
            t < 0 ==> y == -t,
            t != 0,
            (s < 0) == (t < 0) ==> r == q,
            (s < 0) != (t < 0) ==> r == -q,
    ;
    assert(s == (t * r) + (s - t * r));
    if y == 1 {
        assert(q == x) by (nonlinear_arith)
            requires
                x == y * q + m,
                0 <= m < y,
                y == 1,
        ;
    }
}

/// The value of an operation is the one that the operation means.
pub proof fn operations_are_evaluated(op: BinOp, a: Ex, b: Ex, v: Valuation)
    requires
        width_of(a) > 0,
        value(a, v) < pow2(width_of(a) as nat),
        value(b, v) < pow2(width_of(a) as nat),
    ensures
        computes(
            op,
            value(a, v) as int,
            value(b, v) as int,
            width_of(a) as nat,
            value(bin(bv_op(op), a, b), v) as int,
        ),
{
    let w = width_of(a) as nat;
    let (x, y) = (value(a, v), value(b, v));
    folding_keeps_values(bv_op(op), a, b, v);
    let r = operated(bv_op(op), x, y, w);
    assert(value(bin(bv_op(op), a, b), v) == r) by {
        reveal_with_fuel(value, 2);
    }
    lemma_operated(op, x, y, w);
}

proof fn lemma_operated(op: BinOp, x: nat, y: nat, w: nat)
    requires
        w > 0,
        x < pow2(w),
        y < pow2(w),
    ensures
        computes(op, x as int, y as int, w, operated(bv_op(op), x, y, w) as int),
{
    let p = pow2(w) as int;
    lemma_pow2_pos(w);
    let r = operated(bv_op(op), x, y, w);
    vstd::arithmetic::div_mod::lemma_mod_bound((x + y) as int, p);
    vstd::arithmetic::div_mod::lemma_mod_bound(x - y, p);
    vstd::arithmetic::div_mod::lemma_mod_bound((x * y) as int, p);
    let (s, t) = (signed(x as int, w), signed(y as int, w));
    lemma_as_signed(x as int, w);
    lemma_as_signed(y as int, w);
    match op {
        BinOp::UDiv => {
            if y != 0 {
                vstd::arithmetic::div_mod::lemma_fundamental_div_mod(x as int, y as int);
                vstd::arithmetic::div_mod::lemma_mod_bound(x as int, y as int);
                vstd::arithmetic::div_mod::lemma_div_is_ordered_by_denominator(x as int, 1, y as int);
                assert(r * y == y * r) by (nonlinear_arith);
            } else {
                vstd::arithmetic::div_mod::lemma_mod_bound(-1, p);
            }
        },
        BinOp::URem => {
            if y != 0 {
                vstd::arithmetic::div_mod::lemma_fundamental_div_mod(x as int, y as int);
                vstd::arithmetic::div_mod::lemma_mod_bound(x as int, y as int);
                let q = (x / y) as int;
                assert(x as int == (y as int * q) + r);
            }
        },
        BinOp::SDiv => {
            vstd::arithmetic::div_mod::lemma_mod_bound(1, p);
            vstd::arithmetic::div_mod::lemma_mod_bound(-1, p);
            if t != 0 {
                lemma_quotient(s, t);
                vstd::arithmetic::div_mod::lemma_mod_bound(quotient(s, t), p);
                lemma_pow2_unfold(w);
                if !(2 * s == -p && t == -1) {
                    lemma_back(quotient(s, t), w);
                }
            }
        },
        BinOp::SRem => {
            if t != 0 {
                lemma_quotient(s, t);
                let m = s - t * quotient(s, t);
                lemma_pow2_unfold(w);
                lemma_back(m, w);
            }
        },
        BinOp::And => {
            let f = |k: nat| bit_result(BvOp::And, bit_of(x, k), bit_of(y, k));
            lemma_with_bits(w, f, 0);
            assert forall|k: nat| k < w implies (#[trigger] bit(r as int, k) <==> bit(x as int, k)
                && bit(y as int, k)) by {
                lemma_with_bits(w, f, k);
            }
        },
        BinOp::Or => {
            let f = |k: nat| bit_result(BvOp::Or, bit_of(x, k), bit_of(y, k));
            lemma_with_bits(w, f, 0);
            assert forall|k: nat| k < w implies (#[trigger] bit(r as int, k) <==> bit(x as int, k)
                || bit(y as int, k)) by {
                lemma_with_bits(w, f, k);
            }
        },
        BinOp::Xor => {
            let f = |k: nat| bit_result(BvOp::Xor, bit_of(x, k), bit_of(y, k));
            lemma_with_bits(w, f, 0);
            assert forall|k: nat| k < w implies (#[trigger] bit(r as int, k) <==> bit(x as int, k)
                != bit(y as int, k)) by {
                lemma_with_bits(w, f, k);
            }
        },
        BinOp::Shl => {
            vstd::arithmetic::div_mod::lemma_mod_bound((x * pow2(y)) as int, p);
        },
        BinOp::LShr => {
            lemma_pow2_pos(y);
            vstd::arithmetic::div_mod::lemma_div_is_ordered_by_denominator(
                x as int,
                1,
                pow2(y) as int,
            );
        },
        BinOp::AShr => {
            lemma_pow2_pos(y);
            let d = pow2(y) as int;
            let q = s / d;
            vstd::arithmetic::div_mod::lemma_fundamental_div_mod(s, d);
            vstd::arithmetic::div_mod::lemma_mod_bound(s, d);
            assert(s >= 0 ==> 0 <= q <= s) by (nonlinear_arith)
                requires
                    s == d * q + s % d,
                    0 <= s % d < d,
                    d >= 1,
            ;
            assert(s < 0 ==> s <= q < 0) by (nonlinear_arith)
                requires
                    s == d * q + s % d,
                    0 <= s % d < d,
                    d >= 1,
            ;
            lemma_back(q, w);
        },
        _ => {},
    }
}

/// A comparison holds of values exactly where it is meant to.
pub proof fn comparisons_are_evaluated(op: CmpOp, a: Ex, b: Ex, v: Valuation)
    requires
        width_of(a) > 0,
        value(a, v) < pow2(width_of(a) as nat),
        value(b, v) < pow2(width_of(a) as nat),
    ensures
        value(rel(bv_relation(op), a, b), v) == truth_bit(
            related(op, value(a, v) as int, value(b, v) as int, width_of(a) as nat),
        ),
{
    reveal_with_fuel(value, 2);
    lemma_as_signed(value(a, v) as int, width_of(a) as nat);
    lemma_as_signed(value(b, v) as int, width_of(a) as nat);
}

// ---- conditions ----

/// The number that an operand is known as.
pub open spec fn known_as(s: PathView, op: Operand) -> Option<Ex> {
    match op {
        Operand::Reg(r) => match at(s.env, r.0) {
            Some(SymValue::Scalar(e)) => Some(e),
            _ => None,
        },
        Operand::Const(Const::Int(b)) => Some(Rc::new(Expr::Const(b))),
        _ => None,
    }
}

/// A known operand is evaluated to what it is known as, and asks nothing.
pub proof fn known_operands_are_evaluated(sc: SceneView, m: MachineView, s: PathView, op: Operand)
    requires
        known_as(s, op) is Some,
    ensures
        scalar_of(sc, m, s, op) == (m, known_as(s, op)->0),
        value_of(sc, m, s, op) == (m, SymValue::Scalar(known_as(s, op)->0)),
{
}

/// Two operands are known as patterns of one width.
pub open spec fn comparable(s: PathView, a: Operand, b: Operand, v: Valuation) -> bool {
    match (known_as(s, a), known_as(s, b)) {
        (Some(x), Some(y)) => width_of(x) > 0 && value(x, v) < pow2(width_of(x) as nat) && value(y, v)
            < pow2(width_of(x) as nat),
        _ => false,
    }
}

/// The operands of a condition are known.
pub open spec fn evaluable(s: PathView, c: Condition, v: Valuation) -> bool
    decreases c,
{
    match c {
        Condition::True => true,
        Condition::Cmp { lhs, rhs, .. } => comparable(s, lhs, rhs, v),
        Condition::Not(a) => evaluable(s, *a, v),
        Condition::And(a, b) => evaluable(s, *a, v) && evaluable(s, *b, v),
        Condition::Or(a, b) => evaluable(s, *a, v) && evaluable(s, *b, v),
    }
}

/// A condition is met by values.
pub open spec fn met(s: PathView, c: Condition, v: Valuation) -> bool
    decreases c,
{
    match c {
        Condition::True => true,
        Condition::Cmp { op, lhs, rhs } => {
            let (x, y) = (known_as(s, lhs)->0, known_as(s, rhs)->0);
            related_values(op, x, y, v)
        },
        Condition::Not(a) => !met(s, *a, v),
        Condition::And(a, b) => met(s, *a, v) && met(s, *b, v),
        Condition::Or(a, b) => met(s, *a, v) || met(s, *b, v),
    }
}

/// A comparison holds of the values of two expressions.
pub open spec fn related_values(op: CmpOp, x: Ex, y: Ex, v: Valuation) -> bool {
    related(op, value(x, v) as int, value(y, v) as int, width_of(x) as nat)
}

/// A condition is evaluated to an expression that holds exactly where the condition is met.
pub proof fn conditions_are_evaluated(
    sc: SceneView,
    m: MachineView,
    s: PathView,
    c: Condition,
    v: Valuation,
)
    requires
        evaluable(s, c, v),
    ensures
        condition_of(sc, m, s, c).0 == m,
        holds(condition_of(sc, m, s, c).1, v) <==> met(s, c, v),
    decreases c,
{
    reveal_with_fuel(value, 2);
    match c {
        Condition::Cmp { op, lhs, rhs } => {
            known_operands_are_evaluated(sc, m, s, lhs);
            known_operands_are_evaluated(sc, m, s, rhs);
            comparisons_are_evaluated(op, known_as(s, lhs)->0, known_as(s, rhs)->0, v);
        },
        Condition::Not(a) => {
            conditions_are_evaluated(sc, m, s, *a, v);
        },
        Condition::And(a, b) => {
            conditions_are_evaluated(sc, m, s, *a, v);
            conditions_are_evaluated(sc, m, s, *b, v);
        },
        Condition::Or(a, b) => {
            conditions_are_evaluated(sc, m, s, *a, v);
            conditions_are_evaluated(sc, m, s, *b, v);
        },
        _ => {},
    }
}

/// An explicit check that is reported as proven is met by all values that take a path to it.
pub proof fn reported_checks_are_met(
    sc: SceneView,
    sums: Map<u32, SummaryView>,
    m: MachineView,
    s: PathView,
    at: Check,
    property: SafetyProperty,
    condition: Condition,
    note: String,
    end: MachineView,
    v: Valuation,
)
    requires
        later(
            stepped(sc, sums, m, s, at, Inst::SafetyCheck { property, condition, note }).0,
            end,
        ),
        truthful(end),
        reported_proven(report_of(end), Owed::Explicit(at)),
        takes(s, v),
    ensures
        holds(condition_of(sc, m, s, condition).1, v),
        evaluable(s, condition, v) ==> met(s, condition, v),
{
    broadcast use crate::exec::laws::group_values;

    let (m1, goal) = condition_of(sc, m, s, condition);
    let gs = seq![goal];
    let (m2, d) = deciding(m1, s, gs, RefuteMode::Definite, Seq::empty());
    let m3 = recorded_scalar(m2, grounds(s, gs), at, d);
    assert(stepped(sc, sums, m, s, at, Inst::SafetyCheck { property, condition, note }).0 == m3);
    assert(end.scalar.contains_key(at));
    assert(end.scalar[at].all_proven && end.scalar[at].refutation is None) by {
        assert(report_of(end).decided[at] == crate::exec::report::outcome_of(end.scalar[at]));
    }
    assert(m3.scalar[at].all_proven) by {
        reveal(later);
        assert(m3.scalar.contains_key(at));
    }
    assert(d is Proven);
    shown_decided(m1, s, gs, RefuteMode::Definite, Seq::empty());
    later_is_transitive(m2, m3, end);
    lemma_truthful_before(m2, end);
    lemma_shown_holds(m2, s, gs, v);
    assert(holds(gs[0], v));
    if evaluable(s, condition, v) {
        conditions_are_evaluated(sc, m, s, condition, v);
    }
}

// ---- right sides ----

/// A register is bound to what its right side means: an operation or a comparison to that of
/// its operands, in their order.
pub proof fn assignments_are_evaluated(
    sc: SceneView,
    sums: Map<u32, SummaryView>,
    m: MachineView,
    s: PathView,
    at: Check,
    dst: RegId,
    ty: Type,
    rv: RValue,
    v: Valuation,
)
    requires
        match rv {
            RValue::Use(op) => known_as(s, op) is Some,
            RValue::Bin { lhs, rhs, .. } => comparable(s, lhs, rhs, v),
            RValue::Cmp { lhs, rhs, .. } => comparable(s, lhs, rhs, v),
            RValue::Select { cond, on_true, on_false } => known_as(s, cond) is Some && known_as(
                s,
                on_true,
            ) is Some && known_as(s, on_false) is Some,
            RValue::Cast { .. } => false,
        },
    ensures
        ({
            let (e, s1) = stepped(sc, sums, m, s, at, Inst::Assign { dst, ty, value: rv });
            &&& e == m
            &&& s1 == (PathView { env: s1.env, ..s })
            &&& forall|r: u32| r != dst.0 ==> #[trigger] at_reg(s1, r) == at_reg(s, r)
            &&& known_as(s1, Operand::Reg(dst)) matches Some(x) && evaluates_to(s, rv, x, v)
        }),
{
    let (e, s1) = stepped(sc, sums, m, s, at, Inst::Assign { dst, ty, value: rv });
    match rv {
        RValue::Use(op) => {
            known_operands_are_evaluated(sc, m, s, op);
        },
        RValue::Bin { op, lhs, rhs } => {
            known_operands_are_evaluated(sc, m, s, lhs);
            known_operands_are_evaluated(sc, m, s, rhs);
            operations_are_evaluated(op, known_as(s, lhs)->0, known_as(s, rhs)->0, v);
        },
        RValue::Cmp { op, lhs, rhs } => {
            known_operands_are_evaluated(sc, m, s, lhs);
            known_operands_are_evaluated(sc, m, s, rhs);
            comparisons_are_evaluated(op, known_as(s, lhs)->0, known_as(s, rhs)->0, v);
        },
        RValue::Select { cond, on_true, on_false } => {
            known_operands_are_evaluated(sc, m, s, cond);
            known_operands_are_evaluated(sc, m, s, on_true);
            known_operands_are_evaluated(sc, m, s, on_false);
            reveal_with_fuel(value, 2);
        },
        _ => {},
    }
}

/// What is known of a register.
pub open spec fn at_reg(s: PathView, r: u32) -> Option<SymValue> {
    at(s.env, r)
}

/// An expression has the value of a right side.
pub open spec fn evaluates_to(s: PathView, rv: RValue, x: Ex, v: Valuation) -> bool {
    match rv {
        RValue::Use(op) => value(x, v) == value(known_as(s, op)->0, v),
        RValue::Bin { op, lhs, rhs } => computed_by(
            op,
            known_as(s, lhs)->0,
            known_as(s, rhs)->0,
            x,
            v,
        ),
        RValue::Cmp { op, lhs, rhs } => value(x, v) == truth_bit(
            related_values(op, known_as(s, lhs)->0, known_as(s, rhs)->0, v),
        ),
        RValue::Select { cond, on_true, on_false } => value(x, v) == if holds(
            known_as(s, cond)->0,
            v,
        ) {
            value(known_as(s, on_true)->0, v)
        } else {
            value(known_as(s, on_false)->0, v)
        },
        RValue::Cast { .. } => false,
    }
}

/// An expression has the value of an operation on two others.
pub open spec fn computed_by(op: BinOp, a: Ex, b: Ex, x: Ex, v: Valuation) -> bool {
    computes(op, value(a, v) as int, value(b, v) as int, width_of(a) as nat, value(x, v) as int)
}

// ---- choices ----

proof fn lemma_same_landing(p: SymPointer, q: SymPointer, v: Valuation)
    requires
        same_prov(p.prov, q.prov),
    ensures
        landing(p, v).region == landing(q, v).region,
        landing(SymPointer { offset: q.offset, ..p }, v).offset == landing(q, v).offset,
    decreases p,
{
    let r = SymPointer { offset: q.offset, ..p };
    match (p.prov, q.prov) {
        (
            Prov::Select { cond: c, then_ptr: t, else_ptr: e },
            Prov::Select { cond: d, then_ptr: u, else_ptr: f },
        ) => {
            lemma_same_landing(*t, *u, v);
            lemma_same_landing(*e, *f, v);
            assert(SymPointer { offset: u.offset, ..*t } == *t);
            assert(SymPointer { offset: f.offset, ..*e } == *e);
        },
        _ => {},
    }
}

/// One of two pointers points where the first does if the condition holds, and where the
/// second does otherwise; or it is not followed.
pub proof fn choices_point_where_they_should(d: Ex, p: SymPointer, q: SymPointer, v: Valuation)
    requires
        sized(p),
        sized(q),
        0 <= landing(p, v).offset < pow2(64),
        0 <= landing(q, v).offset < pow2(64),
    ensures
        ({
            let l = landing(selected_ptr(d, p, q), v);
            let chosen = if holds(d, v) {
                landing(p, v)
            } else {
                landing(q, v)
            };
            l.region is None || (l.region == chosen.region && l.offset == chosen.offset)
        }),
{
    reveal_with_fuel(value, 2);
    if same_prov(p.prov, q.prov) {
        let r = SymPointer { offset: ite(d, p.offset, q.offset), ..p };
        assert(value(ite(d, p.offset, q.offset), v) == if holds(d, v) {
            value(p.offset, v)
        } else {
            value(q.offset, v)
        });
        lemma_same_landing(p, q, v);
        lemma_offset_only(selected_ptr(d, p, q), SymPointer { offset: q.offset, ..p }, v);
        lemma_offset_only(selected_ptr(d, p, q), p, v);
    } else {
        lemma_lit(0, v);
        let l = if holds(d, v) {
            landing(p, v)
        } else {
            landing(q, v)
        };
        lemma_pow2_pos(64);
        vstd::arithmetic::div_mod::lemma_small_mod(l.offset as nat, pow2(64));
    }
}

/// Where a pointer points depends on its offset by value alone.
proof fn lemma_offset_only(p: SymPointer, q: SymPointer, v: Valuation)
    requires
        p.prov == q.prov,
    ensures
        landing(p, v).region == landing(q, v).region,
        value(p.offset, v) == value(q.offset, v) ==> landing(p, v).offset == landing(q, v).offset,
{
}

} // verus!
