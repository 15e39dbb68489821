//! What the intermediate representation means, over integers.

use crate::ir::{
    BinOp, BitVector, BlockId, CastOp, CmpOp, Const, Operand, RValue, RegId, TermView, Type,
};
use vstd::arithmetic::power2::pow2;
use vstd::prelude::*;

verus! {

/// A pattern of `w` bits, read in two's complement.
pub open spec fn signed(x: int, w: nat) -> int {
    if 2 * x >= pow2(w) {
        x - pow2(w)
    } else {
        x
    }
}

/// A number is a pattern of `w` bits.
pub open spec fn pattern(x: int, w: nat) -> bool {
    0 <= x < pow2(w)
}

/// The pattern of `w` bits of a number.
pub open spec fn wrapped(x: int, w: nat) -> int {
    x % (pow2(w) as int)
}

/// Bit `k` of a pattern.
pub open spec fn bit(x: int, k: nat) -> bool {
    (x / (pow2(k) as int)) % 2 == 1
}

/// Dividing `s` by `t` leaves the remainder `m`: it is nearer to zero than `t`, has the sign
/// of `s`, and `t` divides the rest.
pub open spec fn remains(s: int, t: int, m: int) -> bool {
    &&& (if t > 0 {
        -t < m < t
    } else {
        t < m < -t
    })
    &&& (s >= 0 ==> m >= 0)
    &&& (s <= 0 ==> m <= 0)
    &&& exists|q: int| s == #[trigger] (t * q) + m
}

/// A comparison holds of two patterns of `w` bits.
pub open spec fn related(op: CmpOp, x: int, y: int, w: nat) -> bool {
    match op {
        CmpOp::Eq => x == y,
        CmpOp::Ne => x != y,
        CmpOp::Ult => x < y,
        CmpOp::Ule => x <= y,
        CmpOp::Ugt => y < x,
        CmpOp::Uge => y <= x,
        CmpOp::Slt => signed(x, w) < signed(y, w),
        CmpOp::Sle => signed(x, w) <= signed(y, w),
        CmpOp::Sgt => signed(y, w) < signed(x, w),
        CmpOp::Sge => signed(y, w) <= signed(x, w),
    }
}

/// An operation on two patterns of `w` bits may have a result. Nothing is said of dividing by
/// zero, of a quotient that does not fit, and of a shift by `w` or more.
pub open spec fn computes(op: BinOp, x: int, y: int, w: nat, r: int) -> bool {
    &&& pattern(r, w)
    &&& match op {
        BinOp::Add => r == wrapped(x + y, w),
        BinOp::Sub => r == wrapped(x - y, w),
        BinOp::Mul => r == wrapped(x * y, w),
        BinOp::UDiv => y != 0 ==> r * y <= x < r * y + y,
        BinOp::URem => y != 0 ==> remains(x, y, r),
        BinOp::SDiv => {
            let (s, t, q) = (signed(x, w), signed(y, w), signed(r, w));
            t != 0 && !(2 * s == -pow2(w) && t == -1) ==> remains(s, t, s - t * q)
        },
        BinOp::SRem => {
            let (s, t, m) = (signed(x, w), signed(y, w), signed(r, w));
            t != 0 ==> remains(s, t, m)
        },
        BinOp::And => forall|k: nat| k < w ==> (#[trigger] bit(r, k) <==> bit(x, k) && bit(y, k)),
        BinOp::Or => forall|k: nat| k < w ==> (#[trigger] bit(r, k) <==> bit(x, k) || bit(y, k)),
        BinOp::Xor => forall|k: nat| k < w ==> (#[trigger] bit(r, k) <==> bit(x, k) != bit(y, k)),
        BinOp::Shl => y < w ==> r == wrapped(x * pow2(y as nat), w),
        BinOp::LShr => y < w ==> r == x / (pow2(y as nat) as int),
        BinOp::AShr => y < w ==> signed(r, w) == signed(x, w) / (pow2(y as nat) as int),
    }
}

/// A pattern of `from` bits is converted to one of `to` bits.
pub open spec fn converts(op: CastOp, x: int, from: nat, to: nat, r: int) -> bool {
    match op {
        CastOp::Trunc => r == wrapped(x, to),
        CastOp::ZExt => r == x,
        CastOp::SExt => r == wrapped(signed(x, from), to),
        CastOp::PtrToInt => r == wrapped(x, to),
        CastOp::IntToPtr => r == x,
        CastOp::Bitcast => r == x,
    }
}

/// The values of registers, the addresses of symbols, and what stands for an unknown value.
pub struct Reading {
    pub regs: spec_fn(RegId) -> int,
    pub symbols: spec_fn(Seq<char>) -> int,
    pub unknown: int,
}

/// The value of an operand.
pub open spec fn read(v: Reading, op: Operand) -> int {
    match op {
        Operand::Reg(r) => (v.regs)(r),
        Operand::Const(Const::Int(b)) => b.bits as int,
        Operand::Const(Const::Null) => 0,
        Operand::Const(Const::Undef) => v.unknown,
        Operand::Const(Const::Symbol(n)) => (v.symbols)(n@),
        Operand::Const(Const::SymbolOffset(n, off)) => (v.symbols)(n@) + off,
    }
}

/// A truth value as a pattern of one bit.
pub open spec fn truth_bit(b: bool) -> int {
    if b {
        1
    } else {
        0
    }
}

/// The width of the patterns of a type.
pub open spec fn type_bits(t: Type) -> nat {
    match t {
        Type::Bool => 1,
        Type::Int { bits } => bits as nat,
        _ => 64,
    }
}

/// A computed value may be a pattern, where its operands have `w` bits.
pub open spec fn gives(rv: RValue, v: Reading, w: nat, r: int) -> bool {
    match rv {
        RValue::Use(op) => r == read(v, op),
        RValue::Bin { op, lhs, rhs } => computes(op, read(v, lhs), read(v, rhs), w, r),
        RValue::Cmp { op, lhs, rhs } => r == truth_bit(related(op, read(v, lhs), read(v, rhs), w)),
        RValue::Cast { op, operand, to } => converts(op, read(v, operand), w, type_bits(to), r),
        RValue::Select { cond, on_true, on_false } => if read(v, cond) != 0 {
            r == read(v, on_true)
        } else {
            r == read(v, on_false)
        },
    }
}

/// The case at `i` is the first one equal to a value.
pub open spec fn first_equal(cases: Seq<(BitVector, BlockId)>, x: int, i: int) -> bool {
    &&& 0 <= i < cases.len()
    &&& cases[i].0.bits == x
    &&& forall|j: int| 0 <= j < i ==> (#[trigger] cases[j]).0.bits != x
}

/// No case is equal to a value.
pub open spec fn none_equal(cases: Seq<(BitVector, BlockId)>, x: int) -> bool {
    forall|j: int| 0 <= j < cases.len() ==> (#[trigger] cases[j]).0.bits != x
}

/// Control goes on at a block, with arguments for its parameters.
pub open spec fn goes_to(t: TermView, v: Reading, to: BlockId, args: Seq<Operand>) -> bool {
    match t {
        TermView::Return(_) => false,
        TermView::Unreachable => false,
        TermView::Br { target, args: given } => to == target && args == given,
        TermView::CondBr { cond, then_blk, then_args, else_blk, else_args } => if read(v, cond)
            != 0 {
            to == then_blk && args == then_args
        } else {
            to == else_blk && args == else_args
        },
        TermView::Switch { value, cases, default } => {
            let x = read(v, value);
            &&& args.len() == 0
            &&& (exists|i: int| #[trigger] first_equal(cases, x, i) && to == cases[i].1) || (
            none_equal(cases, x) && to == default)
        },
    }
}

proof fn lemma_low_bits_step(v: u128, w: u32)
    requires
        0 < w < 128,
    ensures
        v & ((1u128 << w) - 1) as u128 == 2 * ((v / 2) & ((1u128 << ((w - 1) as u32)) - 1) as u128)
            + v % 2,
{
    assert(v & ((1u128 << w) - 1) as u128 == 2 * ((v / 2) & ((1u128 << ((w - 1) as u32)) - 1)
        as u128) + v % 2) by (bit_vector)
        requires
            0 < w < 128,
    ;
}

proof fn lemma_low_bits(w: u32, v: u128)
    requires
        w < 128,
    ensures
        v & ((1u128 << w) - 1) as u128 == wrapped(v as int, w as nat),
    decreases w,
{
    if w == 0 {
        assert(v & ((1u128 << 0u32) - 1) as u128 == 0) by (bit_vector);
        vstd::arithmetic::power2::lemma2_to64();
    } else {
        let n = (w - 1) as u32;
        lemma_low_bits(n, v / 2);
        lemma_low_bits_step(v, w);
        let p = pow2(n as nat) as int;
        vstd::arithmetic::power2::lemma_pow2_unfold(w as nat);
        vstd::arithmetic::power2::lemma_pow2_pos(n as nat);
        let h = (v / 2) as int;
        let q = h / p;
        vstd::arithmetic::div_mod::lemma_fundamental_div_mod(h, p);
        vstd::arithmetic::div_mod::lemma_mod_bound(h, p);
        let r = 2 * (h % p) + v % 2;
        assert(v as int == q * (2 * p) + r) by (nonlinear_arith)
            requires
                v as int == 2 * h + v % 2,
                h == p * q + h % p,
                r == 2 * (h % p) + v % 2,
        ;
        vstd::arithmetic::div_mod::lemma_fundamental_div_mod_converse(v as int, 2 * p, q, r);
    }
}

/// Wrapping to a width may go through a larger one.
pub proof fn wrapping_may_take_two_steps(x: int, big: nat, w: nat)
    requires
        w <= big,
    ensures
        wrapped(wrapped(x, big), w) == wrapped(x, w),
{
    let p = pow2(w) as int;
    let q = pow2((big - w) as nat) as int;
    vstd::arithmetic::power2::lemma_pow2_adds(w, (big - w) as nat);
    vstd::arithmetic::power2::lemma_pow2_pos(w);
    vstd::arithmetic::power2::lemma_pow2_pos((big - w) as nat);
    vstd::arithmetic::div_mod::lemma_mod_mod(x, p, q);
}

/// The low bits of a number are what it leaves modulo a power of two.
pub proof fn low_bits_are_a_remainder(width: u32, v: u128)
    requires
        width <= 128,
    ensures
        crate::ir::low_bits(width, v) == wrapped(v as int, width as nat),
{
    if width < 128 {
        lemma_low_bits(width, v);
    } else {
        assert(pow2(128) == 0x1_0000_0000_0000_0000_0000_0000_0000_0000) by {
            vstd::arithmetic::power2::lemma2_to64();
            vstd::arithmetic::power2::lemma_pow2_adds(64, 64);
        }
    }
}

} // verus!
