//! What lowering LLVM IR keeps.

use crate::ir::{
    align_of, fields_align, fields_end, low_bits, round_up, size_of_type, stride_of, BlockId, Inst,
    InstView, RegId, RegionKind, TermView,
};
use crate::llvm::ast::{LBin, LCast, LFields, LInst, LPhi, LPred, LTerm, LType, LValue};
use crate::llvm::insts::{edge_args, incoming, inst_of, phi_args, switch_cases, term_of};
use crate::llvm::lower::{
    bin_of, cast_of, fields_of, operand_of, pred_of, to_bits, type_of, width_of, CtxView,
};
use crate::meaning::{
    bit, computes, converts, first_equal, gives, goes_to, low_bits_are_a_remainder, none_equal,
    read, related, remains, signed, truth_bit, type_bits, wrapped, wrapping_may_take_two_steps,
    Reading,
};
use vstd::arithmetic::power2::pow2;
use vstd::prelude::*;

verus! {

// ---- comparisons, operations, conversions ----

/// A predicate holds of two patterns of `w` bits: those that begin with `u` compare them as
/// unsigned numbers, those that begin with `s` as numbers in two's complement.
pub open spec fn pred_holds(p: LPred, x: int, y: int, w: nat) -> bool {
    let (s, t) = (signed(x, w), signed(y, w));
    match p {
        LPred::Eq => x == y,
        LPred::Ne => x != y,
        LPred::Ult => x < y,
        LPred::Ule => x <= y,
        LPred::Ugt => x > y,
        LPred::Uge => x >= y,
        LPred::Slt => s < t,
        LPred::Sle => s <= t,
        LPred::Sgt => s > t,
        LPred::Sge => s >= t,
    }
}

/// A lowered comparison holds of two patterns exactly where the predicate does.
pub proof fn predicates_keep_their_meaning(p: LPred, x: int, y: int, w: nat)
    ensures
        related(pred_of(p), x, y, w) <==> pred_holds(p, x, y, w),
{
}

/// An operation on two patterns of `w` bits has a result. Sums, differences, products and left
/// shifts are modulo two to the `w`; nothing is said of dividing by zero, of a quotient that
/// does not fit, and of a shift by `w` or more.
pub open spec fn bin_results(op: LBin, x: int, y: int, w: nat, r: int) -> bool {
    let p = pow2(w) as int;
    &&& 0 <= r < p
    &&& match op {
        LBin::Add => r == (x + y) % p,
        LBin::Sub => r == (x - y) % p,
        LBin::Mul => r == (x * y) % p,
        LBin::UDiv => y != 0 ==> r * y <= x < r * y + y,
        LBin::URem => y != 0 ==> remains(x, y, r),
        LBin::SDiv => {
            let (s, t) = (signed(x, w), signed(y, w));
            t != 0 && !(2 * s == -p && t == -1) ==> remains(s, t, s - t * signed(r, w))
        },
        LBin::SRem => signed(y, w) != 0 ==> remains(signed(x, w), signed(y, w), signed(r, w)),
        LBin::And => forall|k: nat| k < w ==> (#[trigger] bit(r, k) <==> bit(x, k) && bit(y, k)),
        LBin::Or => forall|k: nat| k < w ==> (#[trigger] bit(r, k) <==> bit(x, k) || bit(y, k)),
        LBin::Xor => forall|k: nat| k < w ==> (#[trigger] bit(r, k) <==> bit(x, k) != bit(y, k)),
        LBin::Shl => y < w ==> r == (x * pow2(y as nat)) % p,
        LBin::LShr => y < w ==> r == x / (pow2(y as nat) as int),
        LBin::AShr => y < w ==> signed(r, w) == signed(x, w) / (pow2(y as nat) as int),
    }
}

/// A lowered operation has the results of the operation.
pub proof fn operations_keep_their_meaning(op: LBin, x: int, y: int, w: nat, r: int)
    ensures
        computes(bin_of(op), x, y, w, r) <==> bin_results(op, x, y, w, r),
{
    if op == LBin::Shl {
        assert((x * pow2(y as nat)) % (pow2(w) as int) == wrapped(x * pow2(y as nat), w));
    }
}

/// A conversion of a pattern of `from` bits to one of `to` bits.
pub open spec fn cast_results(op: LCast, x: int, from: nat, to: nat, r: int) -> bool {
    match op {
        LCast::Trunc => 0 <= r < pow2(to) && (x - r) % (pow2(to) as int) == 0,
        LCast::ZExt => r == x,
        LCast::SExt => 0 <= r < pow2(to) && (signed(x, from) - r) % (pow2(to) as int) == 0,
        LCast::PtrToInt => 0 <= r < pow2(to) && (x - r) % (pow2(to) as int) == 0,
        LCast::IntToPtr => r == x,
        LCast::Bitcast => r == x,
    }
}

proof fn lemma_congruent(x: int, r: int, w: nat)
    ensures
        (0 <= r < pow2(w) && (x - r) % (pow2(w) as int) == 0) <==> r == wrapped(x, w),
{
    let p = pow2(w) as int;
    vstd::arithmetic::power2::lemma_pow2_pos(w);
    vstd::arithmetic::div_mod::lemma_mod_bound(x, p);
    if 0 <= r < p {
        vstd::arithmetic::div_mod::lemma_small_mod(r as nat, p as nat);
        vstd::arithmetic::div_mod::lemma_mod_equivalence(x, r, p);
    }
}

/// A lowered conversion has the result of the conversion.
pub proof fn conversions_keep_their_meaning(op: LCast, x: int, from: nat, to: nat, r: int)
    ensures
        converts(cast_of(op), x, from, to, r) <==> cast_results(op, x, from, to, r),
{
    lemma_congruent(x, r, to);
    lemma_congruent(signed(x, from), r, to);
}

// ---- layout ----

/// The least multiple of `a` from `x` on.
pub open spec fn next_multiple(x: int, a: int) -> int {
    if x % a == 0 {
        x
    } else {
        x + a - x % a
    }
}

/// The alignment of a type on a 64-bit target.
pub open spec fn alignment(t: LType) -> int
    decreases t,
{
    match t {
        LType::Int(b) => if b <= 8 {
            1
        } else if b <= 16 {
            2
        } else if b <= 32 {
            4
        } else if b <= 64 {
            8
        } else {
            16
        },
        LType::Ptr => 8,
        LType::Array(e, _) => alignment(*e),
        LType::Vector(e, _) => alignment(*e),
        LType::Struct(f) => fields_alignment(f),
        _ => 1,
    }
}

/// The largest alignment of fields.
pub open spec fn fields_alignment(f: LFields) -> int
    decreases f,
{
    match f {
        LFields::End => 1,
        LFields::Field { ty, rest } => if alignment(*ty) > fields_alignment(*rest) {
            alignment(*ty)
        } else {
            fields_alignment(*rest)
        },
    }
}

/// The bytes of a value of a type: elements follow each other at multiples of their
/// alignment, and so do fields unless they are packed.
pub open spec fn bytes(t: LType) -> int
    decreases t,
{
    match t {
        LType::Int(b) => next_multiple(b as int, 8) / 8,
        LType::Ptr => 8,
        LType::Array(e, n) => n * next_multiple(bytes(*e), alignment(*e)),
        LType::Vector(e, n) => n * next_multiple(bytes(*e), alignment(*e)),
        LType::Struct(f) => next_multiple(end_of_fields(f, 0, false), fields_alignment(f)),
        LType::PackedStruct(f) => end_of_fields(f, 0, true),
        _ => 0,
    }
}

/// Where fields end that begin at an offset.
pub open spec fn end_of_fields(f: LFields, at: int, packed: bool) -> int
    decreases f,
{
    match f {
        LFields::End => at,
        LFields::Field { ty, rest } => end_of_fields(
            *rest,
            (if packed {
                at
            } else {
                next_multiple(at, alignment(*ty))
            }) + bytes(*ty),
            packed,
        ),
    }
}

pub(crate) proof fn lemma_next_multiple(x: int, a: int)
    requires
        a >= 1,
    ensures
        round_up(x, a) == next_multiple(x, a),
        x <= next_multiple(x, a) < x + a,
        next_multiple(x, a) % a == 0,
{
    let q = x / a;
    let m = x % a;
    vstd::arithmetic::div_mod::lemma_fundamental_div_mod(x, a);
    vstd::arithmetic::div_mod::lemma_mod_bound(x, a);
    if a == 1 {
        assert(x % 1 == 0);
    } else {
        let y = x + a - 1;
        if m == 0 {
            assert(y == q * a + (a - 1)) by (nonlinear_arith)
                requires
                    x == a * q + m,
                    m == 0,
                    y == x + a - 1,
            ;
            vstd::arithmetic::div_mod::lemma_fundamental_div_mod_converse(y, a, q, a - 1);
            assert(q * a == a * q) by (nonlinear_arith);
        } else {
            assert(y == (q + 1) * a + (m - 1)) by (nonlinear_arith)
                requires
                    x == a * q + m,
                    y == x + a - 1,
            ;
            vstd::arithmetic::div_mod::lemma_fundamental_div_mod_converse(y, a, q + 1, m - 1);
            assert((q + 1) * a == a * q + a) by (nonlinear_arith);
            let z = next_multiple(x, a);
            assert(z == (q + 1) * a + 0) by (nonlinear_arith)
                requires
                    z == x + a - m,
                    x == a * q + m,
            ;
            vstd::arithmetic::div_mod::lemma_fundamental_div_mod_converse(z, a, q + 1, 0);
        }
    }
}

/// A lowered type has the alignment and the size of the type.
pub proof fn types_keep_their_layout(t: LType)
    ensures
        align_of(type_of(t)) == alignment(t),
        alignment(t) >= 1,
        size_of_type(type_of(t)) == bytes(t),
        stride_of(type_of(t)) == next_multiple(bytes(t), alignment(t)),
    decreases t,
{
    match t {
        LType::Array(e, n) => {
            types_keep_their_layout(*e);
            lemma_next_multiple(bytes(*e), alignment(*e));
        },
        LType::Vector(e, n) => {
            types_keep_their_layout(*e);
            lemma_next_multiple(bytes(*e), alignment(*e));
        },
        LType::Struct(f) => {
            lemma_fields(f, 0, false);
            lemma_next_multiple(end_of_fields(f, 0, false), fields_alignment(f));
        },
        LType::PackedStruct(f) => {
            lemma_fields(f, 0, true);
        },
        _ => {},
    }
    lemma_next_multiple(bytes(t), alignment(t));
}

proof fn lemma_fields(f: LFields, at: int, packed: bool)
    ensures
        fields_align(fields_of(f)) == fields_alignment(f),
        fields_alignment(f) >= 1,
        fields_end(fields_of(f), packed, at) == end_of_fields(f, at, packed),
    decreases f,
{
    if let LFields::Field { ty, rest } = f {
        types_keep_their_layout(*ty);
        lemma_next_multiple(at, alignment(*ty));
        let start = if packed {
            at
        } else {
            next_multiple(at, alignment(*ty))
        };
        lemma_fields(*rest, start + bytes(*ty), packed);
    }
}

// ---- operands ----

/// The values of named values, the addresses of globals, and what stands for an unknown value.
pub struct Locals {
    pub values: spec_fn(Seq<char>) -> int,
    pub symbols: spec_fn(Seq<char>) -> int,
    pub unknown: int,
}

/// A value as a pattern, at a width for a number.
pub open spec fn value_of(l: Locals, v: LValue, w: nat) -> int {
    match v {
        LValue::Local(n) => (l.values)(n@),
        LValue::Int(n) => n as int % (pow2(w) as int),
        LValue::Null => 0,
        LValue::Undef => l.unknown,
        LValue::Global(n) => (l.symbols)(n@),
        LValue::GlobalOff { name, elem, index } => (l.symbols)(name@) + bytes(elem) * index,
    }
}

/// The registers hold the values that they are named after.
pub open spec fn agrees(c: CtxView, l: Locals, v: Reading) -> bool {
    &&& forall|n: Seq<char>| #[trigger]
        c.regs.contains_key(n) ==> (v.regs)(RegId(c.regs[n])) == (l.values)(n)
    &&& forall|n: Seq<char>| #[trigger] (v.symbols)(n) == (l.symbols)(n)
    &&& v.unknown == l.unknown
}

/// A number has up to 128 bits, and the offset of a place in a global has up to 64.
pub open spec fn representable(x: LValue, w: u32) -> bool {
    match x {
        LValue::Int(_) => 0 < w <= 128,
        LValue::GlobalOff { elem, index, .. } => bytes(elem) <= u64::MAX && i64::MIN <= bytes(elem)
            * index <= i64::MAX,
        _ => true,
    }
}

proof fn lemma_number(n: i128, w: u32)
    requires
        w <= 128,
    ensures
        low_bits(w, to_bits(n)) == wrapped(n as int, w as nat),
{
    low_bits_are_a_remainder(w, to_bits(n));
    assert(pow2(128) == 0x1_0000_0000_0000_0000_0000_0000_0000_0000) by {
        vstd::arithmetic::power2::lemma2_to64();
        vstd::arithmetic::power2::lemma_pow2_adds(64, 64);
    }
    assert(to_bits(n) == wrapped(n as int, 128));
    wrapping_may_take_two_steps(n as int, 128, w as nat);
}

/// A lowered operand has the value of the operand.
pub proof fn operands_keep_their_values(c: CtxView, x: LValue, w: u32, l: Locals, v: Reading)
    requires
        agrees(c, l, v),
        representable(x, w),
    ensures
        operand_of(c, x, w) matches Ok(o) ==> read(v, o) == value_of(l, x, w as nat),
{
    match x {
        LValue::Local(n) => {
            assert(c.regs.contains_key(n@) ==> (v.regs)(RegId(c.regs[n@])) == (l.values)(n@));
        },
        LValue::Int(n) => {
            lemma_number(n, w);
        },
        LValue::GlobalOff { name, elem, index } => {
            types_keep_their_layout(elem);
            assert((v.symbols)(name@) == (l.symbols)(name@));
        },
        LValue::Global(n) => {
            assert((v.symbols)(n@) == (l.symbols)(n@));
        },
        _ => {},
    }
}

// ---- instructions ----

/// The width of the patterns of a type.
pub open spec fn bits(t: LType) -> nat {
    width_of(t) as nat
}

/// The name that an instruction computes a value for, and whether the value may be a pattern.
/// A conversion starts from `from` bits.
pub open spec fn evaluates(inst: LInst, l: Locals, from: nat, name: Seq<char>, r: int) -> bool {
    match inst {
        LInst::Bin { dst, op, ty, a, b } => {
            let w = bits(ty);
            name == dst@ && bin_results(op, value_of(l, a, w), value_of(l, b, w), w, r)
        },
        LInst::Icmp { dst, pred, ty, a, b } => {
            let w = bits(ty);
            name == dst@ && r == truth_bit(pred_holds(pred, value_of(l, a, w), value_of(l, b, w), w))
        },
        LInst::Cast { dst, op, val, to } => name == dst@ && cast_results(
            op,
            value_of(l, val, 64),
            from,
            type_bits(type_of(to)),
            r,
        ),
        LInst::Select { dst, ty, cond, a, b } => {
            let w = bits(ty);
            name == dst@ && r == if value_of(l, cond, 1) != 0 {
                value_of(l, a, w)
            } else {
                value_of(l, b, w)
            }
        },
        _ => false,
    }
}

/// The operands of an instruction are representable.
pub open spec fn all_representable(inst: LInst) -> bool {
    match inst {
        LInst::Bin { ty, a, b, .. } => representable(a, width_of(ty)) && representable(
            b,
            width_of(ty),
        ),
        LInst::Icmp { ty, a, b, .. } => representable(a, width_of(ty)) && representable(
            b,
            width_of(ty),
        ),
        LInst::Cast { val, .. } => representable(val, 64),
        LInst::Select { ty, cond, a, b, .. } => representable(cond, 1) && representable(
            a,
            width_of(ty),
        ) && representable(b, width_of(ty)),
        LInst::Load { ptr, .. } => representable(ptr, 64),
        LInst::Store { ty, val, ptr, .. } => representable(val, width_of(ty)) && representable(
            ptr,
            64,
        ),
        LInst::Gep { base, index, .. } => representable(base, 64) && representable(index, 64),
        _ => true,
    }
}

/// The width of the operands of an instruction.
pub open spec fn operand_bits(inst: LInst, from: nat) -> nat {
    match inst {
        LInst::Bin { ty, .. } => bits(ty),
        LInst::Icmp { ty, .. } => bits(ty),
        _ => from,
    }
}

/// An instruction that computes a value is lowered to an assignment of that value to the
/// register of its name.
pub proof fn computations_keep_their_meaning(
    c: CtxView,
    inst: LInst,
    l: Locals,
    v: Reading,
    from: nat,
    name: Seq<char>,
    r: int,
)
    requires
        agrees(c, l, v),
        all_representable(inst),
        inst is Bin || inst is Icmp || inst is Cast || inst is Select,
        inst_of(c, inst) is Ok,
        evaluates(inst, l, from, name, r),
    ensures
        c.regs.contains_key(name),
        inst_of(c, inst)->Ok_0 matches InstView::Plain(Inst::Assign { dst, value, .. }) && dst.0
            == c.regs[name] && gives(value, v, operand_bits(inst, from), r),
{
    match inst {
        LInst::Bin { dst, op, ty, a, b } => {
            let w = width_of(ty);
            let n = bits(ty);
            operands_keep_their_values(c, a, w, l, v);
            operands_keep_their_values(c, b, w, l, v);
            operations_keep_their_meaning(
                op,
                value_of(l, a, n),
                value_of(l, b, n),
                n,
                r,
            );
        },
        LInst::Icmp { dst, pred, ty, a, b } => {
            let w = width_of(ty);
            let n = bits(ty);
            operands_keep_their_values(c, a, w, l, v);
            operands_keep_their_values(c, b, w, l, v);
            predicates_keep_their_meaning(
                pred,
                value_of(l, a, n),
                value_of(l, b, n),
                n,
            );
        },
        LInst::Cast { dst, op, val, to } => {
            operands_keep_their_values(c, val, 64, l, v);
            conversions_keep_their_meaning(
                op,
                value_of(l, val, 64),
                from,
                type_bits(type_of(to)),
                r,
            );
        },
        LInst::Select { dst, ty, cond, a, b } => {
            operands_keep_their_values(c, cond, 1, l, v);
            operands_keep_their_values(c, a, width_of(ty), l, v);
            operands_keep_their_values(c, b, width_of(ty), l, v);
        },
        _ => {},
    }
}

/// The alignment of an access: the one that is given, or that of the type.
pub open spec fn access_alignment(given: u32, t: LType) -> int {
    if given > 0 {
        given as int
    } else {
        alignment(t)
    }
}

/// A load is lowered to a load from the same address, of as many bytes and as aligned, into
/// the register of its name.
pub proof fn loads_keep_their_address(
    c: CtxView,
    dst: String,
    ty: LType,
    ptr: LValue,
    align: u32,
    align_meta: Option<u32>,
    l: Locals,
    v: Reading,
)
    requires
        agrees(c, l, v),
        representable(ptr, 64),
        inst_of(c, LInst::Load { dst, ty, ptr, align, align_meta }) is Ok,
    ensures
        c.regs.contains_key(dst@),
        inst_of(c, LInst::Load { dst, ty, ptr, align, align_meta })->Ok_0 matches InstView::Plain(
            Inst::Load { dst: d, ty: t, ptr: p, align: a },
        ) && d.0 == c.regs[dst@] && read(v, p) == value_of(l, ptr, 64) && size_of_type(t) == bytes(
            ty,
        ) && a == access_alignment(align, ty),
{
    operands_keep_their_values(c, ptr, 64, l, v);
    types_keep_their_layout(ty);
    lemma_alignment(ty);
}

proof fn lemma_alignment(t: LType)
    ensures
        1 <= alignment(t) <= 16,
    decreases t,
{
    match t {
        LType::Array(e, _) => lemma_alignment(*e),
        LType::Vector(e, _) => lemma_alignment(*e),
        LType::Struct(f) => lemma_fields_alignment(f),
        _ => {},
    }
}

proof fn lemma_fields_alignment(f: LFields)
    ensures
        1 <= fields_alignment(f) <= 16,
    decreases f,
{
    if let LFields::Field { ty, rest } = f {
        lemma_alignment(*ty);
        lemma_fields_alignment(*rest);
    }
}

/// A store is lowered to a store to the same address, of as many bytes, as aligned and of the
/// same value.
pub proof fn stores_keep_their_address(
    c: CtxView,
    ty: LType,
    val: LValue,
    ptr: LValue,
    align: u32,
    l: Locals,
    v: Reading,
)
    requires
        agrees(c, l, v),
        representable(ptr, 64),
        representable(val, width_of(ty)),
        inst_of(c, LInst::Store { ty, val, ptr, align }) is Ok,
    ensures
        inst_of(c, LInst::Store { ty, val, ptr, align })->Ok_0 matches InstView::Plain(
            Inst::Store { ty: t, ptr: p, value, align: a },
        ) && read(v, p) == value_of(l, ptr, 64) && read(v, value) == value_of(
            l,
            val,
            width_of(ty) as nat,
        ) && size_of_type(t) == bytes(ty) && a == access_alignment(align, ty),
{
    operands_keep_their_values(c, ptr, 64, l, v);
    operands_keep_their_values(c, val, width_of(ty), l, v);
    types_keep_their_layout(ty);
    lemma_alignment(ty);
}

/// A stack allocation is lowered to one of a single element of the same size, as aligned.
pub proof fn stack_allocations_keep_their_size(
    c: CtxView,
    dst: String,
    ty: LType,
    align: u32,
    v: Reading,
)
    requires
        inst_of(c, LInst::Alloca { dst, ty, align }) is Ok,
    ensures
        c.regs.contains_key(dst@),
        inst_of(c, LInst::Alloca { dst, ty, align })->Ok_0 matches InstView::Plain(
            Inst::Alloc { dst: d, region, elem, count, align: a },
        ) && d.0 == c.regs[dst@] && region == RegionKind::Stack && size_of_type(elem) == bytes(ty)
            && read(v, count) == 1 && a == access_alignment(align, ty),
{
    types_keep_their_layout(ty);
    lemma_alignment(ty);
    low_bits_are_a_remainder(64, 1);
    vstd::arithmetic::power2::lemma2_to64();
}

/// Pointer arithmetic is lowered to an offset from the same address, by as many elements of the
/// same distance.
pub proof fn offsets_keep_their_address(
    c: CtxView,
    dst: String,
    elem: LType,
    base: LValue,
    index: LValue,
    l: Locals,
    v: Reading,
)
    requires
        agrees(c, l, v),
        representable(base, 64),
        representable(index, 64),
        inst_of(c, LInst::Gep { dst, elem, base, index }) is Ok,
    ensures
        c.regs.contains_key(dst@),
        inst_of(c, LInst::Gep { dst, elem, base, index })->Ok_0 matches InstView::Plain(
            Inst::PtrOffset { dst: d, base: b, index: i, elem: t },
        ) && d.0 == c.regs[dst@] && read(v, b) + read(v, i) * stride_of(t) == value_of(l, base, 64)
            + value_of(l, index, 64) * next_multiple(bytes(elem), alignment(elem)),
{
    operands_keep_their_values(c, base, 64, l, v);
    operands_keep_their_values(c, index, 64, l, v);
    types_keep_their_layout(elem);
}

// ---- branches ----

/// A case is equal to a pattern.
pub open spec fn case_equals(case: (i128, String), w: u32, x: int) -> bool {
    case.0 as int % (pow2(w as nat) as int) == x
}

/// The case at `i` is the first one equal to a pattern.
pub open spec fn first_case(cases: Seq<(i128, String)>, w: u32, x: int, i: int) -> bool {
    &&& 0 <= i < cases.len()
    &&& case_equals(cases[i], w, x)
    &&& forall|j: int| 0 <= j < i ==> !case_equals(#[trigger] cases[j], w, x)
}

/// No case is equal to a pattern.
pub open spec fn no_case(cases: Seq<(i128, String)>, w: u32, x: int) -> bool {
    forall|j: int| 0 <= j < cases.len() ==> !case_equals(#[trigger] cases[j], w, x)
}

/// Control goes on at a label.
pub open spec fn continues(t: LTerm, l: Locals, to: Seq<char>) -> bool {
    match t {
        LTerm::Br(b) => to == b@,
        LTerm::CondBr(cond, a, b) => to == if value_of(l, cond, 1) != 0 {
            a@
        } else {
            b@
        },
        LTerm::Switch { value, width, default, cases } => {
            let x = value_of(l, value, width as nat);
            ||| exists|i: int| #[trigger] first_case(cases@, width, x, i) && to == cases@[i].1@
            ||| no_case(cases@, width, x) && to == default@
        },
        _ => false,
    }
}

/// The operands of a terminator are representable.
pub open spec fn term_representable(t: LTerm) -> bool {
    match t {
        LTerm::CondBr(cond, _, _) => representable(cond, 1),
        LTerm::Switch { value, width, .. } => representable(value, width) && 0 < width <= 128,
        _ => true,
    }
}

proof fn lemma_switch(c: CtxView, cases: Seq<(i128, String)>, w: u32)
    requires
        w <= 128,
        switch_cases(c, cases, w) is Ok,
    ensures
        ({
            let s = switch_cases(c, cases, w)->Ok_0;
            &&& s.len() == cases.len()
            &&& forall|i: int|
                0 <= i < s.len() ==> (#[trigger] s[i]).0.bits == cases[i].0 as int % (pow2(
                    w as nat,
                ) as int) && c.blocks.contains_key(cases[i].1@) && s[i].1.0
                    == c.blocks[cases[i].1@]
        }),
    decreases cases.len(),
{
    if cases.len() > 0 {
        lemma_switch(c, cases.drop_last(), w);
        lemma_number(cases.last().0, w);
    }
}

/// A phi node takes a value over an edge: one that comes from the block that the edge leaves.
pub open spec fn taken(phi: LPhi, from: Seq<char>, l: Locals, x: int) -> bool {
    exists|k: int|
        0 <= k < phi.incomings@.len() && (#[trigger] phi.incomings@[k]).1@ == from && x == value_of(
            l,
            phi.incomings@[k].0,
            width_of(phi.ty) as nat,
        )
}

/// Every value that a phi node takes is representable.
pub open spec fn phi_representable(phi: LPhi) -> bool {
    forall|k: int|
        0 <= k < phi.incomings@.len() ==> representable(
            (#[trigger] phi.incomings@[k]).0,
            width_of(phi.ty),
        )
}

proof fn lemma_incoming(ins: Seq<(LValue, String)>, from: Seq<char>)
    ensures
        incoming(ins, from) matches Some(x) ==> exists|k: int|
            0 <= k < ins.len() && (#[trigger] ins[k]).1@ == from && ins[k].0 == x,
    decreases ins.len(),
{
    if ins.len() > 0 {
        if ins[0].1@ == from {
            assert(ins[0].1@ == from);
        } else {
            let rest = ins.subrange(1, ins.len() as int);
            lemma_incoming(rest, from);
            if let Some(x) = incoming(rest, from) {
                let k = choose|k: int|
                    0 <= k < rest.len() && (#[trigger] rest[k]).1@ == from && rest[k].0 == x;
                assert(ins[k + 1] == rest[k]);
            }
        }
    }
}

/// The arguments of an edge are the values that the phi nodes of its target take over it, in
/// their order.
pub proof fn edges_carry_what_phis_take(
    c: CtxView,
    phis: Seq<LPhi>,
    from: Seq<char>,
    l: Locals,
    v: Reading,
    i: int,
)
    requires
        agrees(c, l, v),
        forall|k: int| 0 <= k < phis.len() ==> phi_representable(#[trigger] phis[k]),
        0 <= i < phis.len(),
        phi_args(c, phis, from) is Ok,
    ensures
        phi_args(c, phis, from)->Ok_0.len() == phis.len(),
        taken(phis[i], from, l, read(v, phi_args(c, phis, from)->Ok_0[i])),
    decreases phis.len(),
{
    reveal_with_fuel(phi_args, 2);
    let n = phis.len() - 1;
    let head = phis.drop_last();
    if n > 0 {
        assert forall|k: int| 0 <= k < head.len() implies phi_representable(#[trigger] head[k]) by {
            assert(phi_representable(phis[k]));
        }
        if i < n {
            edges_carry_what_phis_take(c, head, from, l, v, i);
        } else {
            edges_carry_what_phis_take(c, head, from, l, v, 0);
        }
    }
    if i == n {
        let phi = phis[n];
        let ins = phi.incomings@;
        lemma_incoming(ins, from);
        let x = incoming(ins, from)->0;
        let k = choose|k: int| 0 <= k < ins.len() && (#[trigger] ins[k]).1@ == from && ins[k].0 == x;
        assert(phi_representable(phis[n]));
        assert(representable(ins[k].0, width_of(phi.ty)));
        operands_keep_their_values(c, x, width_of(phi.ty), l, v);
    }
}

/// A lowered branch goes to the block of the label where the branch goes on, with the arguments
/// of the edge; a branch on a value passes none.
pub proof fn branches_keep_their_targets(
    c: CtxView,
    from: Seq<char>,
    term: LTerm,
    l: Locals,
    v: Reading,
    to: Seq<char>,
)
    requires
        agrees(c, l, v),
        term_representable(term),
        term_of(c, from, term) is Ok,
        continues(term, l, to),
    ensures
        c.blocks.contains_key(to),
        goes_to(
            term_of(c, from, term)->Ok_0,
            v,
            BlockId(c.blocks[to]),
            if term is Switch {
                Seq::empty()
            } else {
                edge_args(c, from, to)->Ok_0
            },
        ),
        !(term is Switch) ==> edge_args(c, from, to) is Ok,
{
    match term {
        LTerm::CondBr(cond, a, b) => {
            operands_keep_their_values(c, cond, 1, l, v);
        },
        LTerm::Switch { value, width, default, cases } => {
            operands_keep_their_values(c, value, width, l, v);
            lemma_switch(c, cases@, width);
            let x = value_of(l, value, width as nat);
            let s = switch_cases(c, cases@, width)->Ok_0;
            if no_case(cases@, width, x) && to == default@ {
                assert forall|j: int| 0 <= j < s.len() implies (#[trigger] s[j]).0.bits != x by {
                    assert(!case_equals(cases@[j], width, x));
                }
                assert(none_equal(s, x));
            } else {
                let i = choose|i: int| #[trigger]
                    first_case(cases@, width, x, i) && to == cases@[i].1@;
                assert(s[i].0.bits == x);
                assert forall|j: int| 0 <= j < i implies (#[trigger] s[j]).0.bits != x by {
                    assert(!case_equals(cases@[j], width, x));
                }
                assert(first_equal(s, x, i));
            }
        },
        _ => {},
    }
}

/// A return is lowered to a return of the same value.
pub proof fn returns_keep_their_value(
    c: CtxView,
    from: Seq<char>,
    x: LValue,
    l: Locals,
    v: Reading,
)
    requires
        agrees(c, l, v),
        representable(x, 64),
    ensures
        term_of(c, from, LTerm::Ret(Some(x))) matches Ok(t) ==> t matches TermView::Return(Some(o))
            && read(v, o) == value_of(l, x, 64),
{
    operands_keep_their_values(c, x, 64, l, v);
}

} // verus!
