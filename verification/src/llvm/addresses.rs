//! Where the pointers of lowered LLVM lead.

use crate::ir::{
    field_offset, field_start, field_type, size_of_type, stride_of, Inst, InstView, Operand, RegId,
    RegionKind, Type,
};
use crate::llvm::ast::{LFields, LType, LValue};
use crate::llvm::blocks::{
    alloc_of, atomic_of, chain_of, field_of, reg_at, used, walk_step, walk_steps, Walk,
};
use crate::llvm::calls::{mem_kind_of, no_effect, overflow_op, AllocSize};
use crate::llvm::insts::call_inst;
use crate::llvm::laws::{
    agrees, alignment, bytes, next_multiple, operands_keep_their_values, representable,
    types_keep_their_layout, value_of, Locals,
};
use crate::llvm::lower::{fields_of, low_half, operand_of, operands_of, reg_of, type_of, CtxView};
use crate::meaning::{gives, read, Reading};
use vstd::arithmetic::power2::pow2;
use vstd::prelude::*;

verus! {

// ---- walks through types ----

/// Where field `k` starts, of fields that begin at an offset.
pub open spec fn start_of_field(f: LFields, k: int, at: int, packed: bool) -> int
    decreases f,
{
    match f {
        LFields::End => at,
        LFields::Field { ty, rest } => {
            let start = if packed {
                at
            } else {
                next_multiple(at, alignment(*ty))
            };
            if k <= 0 {
                start
            } else {
                start_of_field(*rest, k - 1, start + bytes(*ty), packed)
            }
        },
    }
}

/// The type of field `k`.
pub open spec fn nth_type(f: LFields, k: int) -> Option<LType>
    decreases f,
{
    match f {
        LFields::End => None,
        LFields::Field { ty, rest } => if k == 0 {
            Some(*ty)
        } else {
            nth_type(*rest, k - 1)
        },
    }
}

/// How far an index leads into a value of a type, and the type there: to a field of a struct,
/// or over as many elements.
pub open spec fn part(t: LType, x: LValue, l: Locals) -> Option<(int, LType)> {
    match t {
        LType::Struct(f) => field_part(f, x, false),
        LType::PackedStruct(f) => field_part(f, x, true),
        LType::Array(e, _) => Some(
            (value_of(l, x, 64) * next_multiple(bytes(*e), alignment(*e)), *e),
        ),
        LType::Vector(e, _) => Some(
            (value_of(l, x, 64) * next_multiple(bytes(*e), alignment(*e)), *e),
        ),
        _ => None,
    }
}

/// How far a field is from the start of a struct, and its type.
pub open spec fn field_part(f: LFields, x: LValue, packed: bool) -> Option<(int, LType)> {
    match x {
        LValue::Int(k) => match nth_type(f, k as int) {
            Some(t) => Some((start_of_field(f, k as int, 0, packed), t)),
            None => None,
        },
        _ => None,
    }
}

/// How far indices lead into a value of a type, one after another, and the type there.
pub open spec fn parts(t: LType, path: Seq<LValue>, l: Locals) -> Option<(int, LType)>
    decreases path.len(),
{
    if path.len() == 0 {
        Some((0, t))
    } else {
        match parts(t, path.drop_last(), l) {
            None => None,
            Some((at, u)) => match part(u, path.last(), l) {
                None => None,
                Some((more, inner)) => Some((at + more, inner)),
            },
        }
    }
}

/// Elements without padding between them, at offsets of 64 bits, and fields with numbers of 32
/// bits.
pub open spec fn tame(t: LType, x: LValue) -> bool {
    match t {
        LType::Array(e, _) => tame_element(*e, x),
        LType::Vector(e, _) => tame_element(*e, x),
        _ => x matches LValue::Int(k) ==> 0 <= k <= u32::MAX,
    }
}

/// A constant number of elements is one without padding between them, at an offset of 64 bits.
pub open spec fn tame_element(e: LType, x: LValue) -> bool {
    match x {
        LValue::Int(k) => 0 <= k <= u64::MAX ==> bytes(e) % alignment(e) == 0 && k * bytes(e)
            <= u64::MAX,
        _ => true,
    }
}

/// Every step of a walk is tame.
pub open spec fn all_tame(t: LType, path: Seq<LValue>, l: Locals) -> bool
    decreases path.len(),
{
    path.len() > 0 ==> {
        &&& all_tame(t, path.drop_last(), l)
        &&& representable(path.last(), 64)
        &&& parts(t, path.drop_last(), l) matches Some((_, u)) ==> tame(u, path.last())
    }
}

// ---- what offsets do ----

/// The values after an instruction that moves a pointer.
pub open spec fn moved(v: Reading, i: InstView) -> Reading {
    match i {
        InstView::Plain(Inst::PtrOffset { dst, base, index, elem }) => {
            let before = v.regs;
            let x = read(v, base) + read(v, index) * stride_of(elem);
            Reading {
                regs: |q: RegId|
                    if q == dst {
                        x
                    } else {
                        before(q)
                    },
                ..v
            }
        },
        _ => v,
    }
}

/// The values after instructions that move pointers.
pub open spec fn moves(v: Reading, out: Seq<InstView>) -> Reading
    decreases out.len(),
{
    if out.len() == 0 {
        v
    } else {
        moved(moves(v, out.drop_last()), out.last())
    }
}

/// The registers of named values come before those that are free.
pub open spec fn ordered(c: CtxView) -> bool {
    &&& 0 <= c.next
    &&& forall|n: Seq<char>| #[trigger] c.regs.contains_key(n) ==> c.regs[n] < c.next
}

proof fn lemma_more(v: Reading, out: Seq<InstView>, x: InstView)
    ensures
        moves(v, out.push(x)) == moved(moves(v, out), x),
{
    assert(out.push(x).drop_last() =~= out);
}

proof fn lemma_number(n: u64, v: Reading)
    ensures
        read(v, crate::ir::int_operand(64, n as u128)) == n,
{
    crate::meaning::low_bits_are_a_remainder(64, n as u128);
    vstd::arithmetic::power2::lemma2_to64();
    vstd::arithmetic::div_mod::lemma_small_mod(n as nat, 0x1_0000_0000_0000_0000nat);
}

proof fn lemma_byte()
    ensures
        stride_of(Type::Int { bits: 8 }) == 1,
{
    types_keep_their_layout(LType::Int(8));
}

proof fn lemma_field(f: LFields, k: int, at: int, packed: bool)
    requires
        0 <= k,
        0 <= at,
    ensures
        match nth_type(f, k) {
            Some(t) => field_type(fields_of(f), k as nat) == Some(type_of(t)) && field_start(
                fields_of(f),
                packed,
                at,
                k as nat,
            ) == Some(start_of_field(f, k, at, packed)) && start_of_field(f, k, at, packed) >= at,
            None => field_type(fields_of(f), k as nat) is None,
        },
    decreases f,
{
    if let LFields::Field { ty, rest } = f {
        types_keep_their_layout(*ty);
        let start = if packed {
            at
        } else {
            next_multiple(at, alignment(*ty))
        };
        crate::llvm::laws::lemma_next_multiple(at, alignment(*ty));
        crate::ir::lemma_layout_bounds(type_of(*ty));
        if k > 0 {
            lemma_field(*rest, k - 1, start + bytes(*ty), packed);
        }
    }
}

/// The state of a walk: the pointer so far and the offset not yet added are the address so far.
spec fn walked(w: Walk, c: CtxView, l: Locals, v: Reading, t: LType, at: int) -> bool {
    let e = moves(v, w.out);
    &&& w.ty == type_of(t)
    &&& ordered(w.ctx)
    &&& c.next <= w.ctx.next
    &&& w.ctx.regs == c.regs
    &&& agrees(w.ctx, l, e)
    &&& (e.regs)(w.cur) + w.acc == at
    &&& w.ctx == (CtxView { next: w.ctx.next, ..c })
}

proof fn lemma_fresh(w: Walk, c: CtxView, l: Locals, v: Reading, x: InstView, r: int)
    requires
        c.regs == w.ctx.regs,
        ordered(w.ctx),
        agrees(w.ctx, l, moves(v, w.out)),
        w.ctx.next <= r <= u32::MAX,
        x matches InstView::Plain(Inst::PtrOffset { dst, .. }) && dst == reg_at(r),
    ensures
        agrees(w.ctx, l, moves(v, w.out.push(x))),
{
    lemma_more(v, w.out, x);
    let e = moves(v, w.out);
    let e1 = moves(v, w.out.push(x));
    assert forall|n: Seq<char>| #[trigger] w.ctx.regs.contains_key(n) implies (e1.regs)(
        RegId(w.ctx.regs[n]),
    ) == (l.values)(n) by {
        assert((e.regs)(RegId(w.ctx.regs[n])) == (l.values)(n));
    }
}

proof fn lemma_distance(e: LType, k: u64)
    ensures
        0 <= k * bytes(e),
{
    types_keep_their_layout(e);
    crate::ir::lemma_layout_bounds(type_of(e));
    assert(0 <= k * bytes(e)) by (nonlinear_arith)
        requires
            0 <= bytes(e),
    ;
}

proof fn lemma_constant(
    w: Walk,
    c: CtxView,
    l: Locals,
    v: Reading,
    t: LType,
    at: int,
    x: LValue,
)
    requires
        walked(w, c, l, v, t, at),
        tame(t, x),
        crate::llvm::blocks::constant_index(x) is Some,
        walk_step(w, x) is Ok,
        part(t, x, l) is Some,
    ensures
        walked(walk_step(w, x)->Ok_0, c, l, v, (part(t, x, l)->0).1, at + (part(t, x, l)->0).0),
{
    let k = crate::llvm::blocks::constant_index(x)->0;
    assert(value_of(l, x, 64) == k) by {
        vstd::arithmetic::power2::lemma2_to64();
        vstd::arithmetic::div_mod::lemma_small_mod(k as nat, 0x1_0000_0000_0000_0000nat);
    }
    let next = walk_step(w, x)->Ok_0;
    match t {
        LType::Struct(f) => {
            lemma_field(f, k as int, 0, false);
            assert(low_half(k) == k);
            assert(next.acc == w.acc + start_of_field(f, k as int, 0, false));
        },
        LType::PackedStruct(f) => {
            lemma_field(f, k as int, 0, true);
            assert(low_half(k) == k);
            assert(next.acc == w.acc + start_of_field(f, k as int, 0, true));
        },
        LType::Array(e, _) => {
            types_keep_their_layout(*e);
            lemma_distance(*e, k);
            assert(k * bytes(*e) == value_of(l, x, 64) * next_multiple(bytes(*e), alignment(*e)));
            assert(next.acc == w.acc + k * bytes(*e));
        },
        LType::Vector(e, _) => {
            types_keep_their_layout(*e);
            lemma_distance(*e, k);
            assert(k * bytes(*e) == value_of(l, x, 64) * next_multiple(bytes(*e), alignment(*e)));
            assert(next.acc == w.acc + k * bytes(*e));
        },
        _ => {},
    }
}

proof fn lemma_variable(
    w: Walk,
    c: CtxView,
    l: Locals,
    v: Reading,
    t: LType,
    at: int,
    x: LValue,
)
    requires
        walked(w, c, l, v, t, at),
        representable(x, 64),
        crate::llvm::blocks::constant_index(x) is None,
        walk_step(w, x) is Ok,
        part(t, x, l) is Some,
        w.ctx.next + 2 <= u32::MAX,
    ensures
        walked(walk_step(w, x)->Ok_0, c, l, v, (part(t, x, l)->0).1, at + (part(t, x, l)->0).0),
{
    let e = (part(t, x, l)->0).1;
    let next = walk_step(w, x)->Ok_0;
    types_keep_their_layout(e);
    lemma_byte();
    let flushed = if w.acc > 0 {
        Walk {
            cur: reg_at(w.ctx.next),
            acc: 0,
            ctx: used(w.ctx, 1),
            out: w.out.push(
                crate::llvm::blocks::byte_offset(reg_at(w.ctx.next), w.cur, w.acc),
            ),
            ..w
        }
    } else {
        w
    };
    if w.acc > 0 {
        let b = crate::llvm::blocks::byte_offset(reg_at(w.ctx.next), w.cur, w.acc);
        lemma_number(w.acc, moves(v, w.out));
        lemma_fresh(w, c, l, v, b, w.ctx.next);
        lemma_more(v, w.out, b);
    }
    let f = moves(v, flushed.out);
    assert(agrees(flushed.ctx, l, f));
    assert((f.regs)(flushed.cur) + flushed.acc == at);
    assert(flushed.acc == 0);
    operands_keep_their_values(used(flushed.ctx, 1), x, 64, l, f);
    let last = next.out.last();
    assert(next.out =~= flushed.out.push(last));
    lemma_fresh(flushed, c, l, v, last, flushed.ctx.next);
    lemma_more(v, flushed.out, last);
}

proof fn lemma_walk(
    start: Walk,
    c: CtxView,
    l: Locals,
    v: Reading,
    t: LType,
    at: int,
    path: Seq<LValue>,
)
    requires
        walked(start, c, l, v, t, at),
        walk_steps(start, path) is Ok,
        parts(t, path, l) is Some,
        all_tame(t, path, l),
        start.ctx.next + 2 * path.len() <= u32::MAX,
    ensures
        walked(walk_steps(start, path)->Ok_0, c, l, v, (parts(t, path, l)->0).1, at + (parts(t, path, l)->0).0),
        walk_steps(start, path)->Ok_0.ctx.next <= start.ctx.next + 2 * path.len(),
    decreases path.len(),
{
    if path.len() > 0 {
        let head = path.drop_last();
        let x = path.last();
        lemma_walk(start, c, l, v, t, at, head);
        let w = walk_steps(start, head)->Ok_0;
        let (far, u) = parts(t, head, l)->0;
        match crate::llvm::blocks::constant_index(x) {
            Some(_) => {
                lemma_constant(w, c, l, v, u, at + far, x);
            },
            None => {
                lemma_variable(w, c, l, v, u, at + far, x);
            },
        }
    }
}

/// The pointer that a walk through an aggregate gives leads to the part that the indices name:
/// over as many aggregates as the first says, and then into fields and elements, one after
/// another.
pub proof fn walks_reach_their_part(
    c: CtxView,
    dst: Seq<char>,
    agg: LType,
    base: LValue,
    indices: Seq<LValue>,
    l: Locals,
    v: Reading,
)
    requires
        agrees(c, l, v),
        ordered(c),
        c.next + 2 * indices.len() + 1 <= u32::MAX,
        indices.len() > 0,
        representable(base, 64),
        representable(indices[0], 64),
        all_tame(agg, indices.skip(1), l),
        parts(agg, indices.skip(1), l) is Some,
        chain_of(c, dst, type_of(agg), base, indices) is Ok,
    ensures
        ({
            let (c1, out) = chain_of(c, dst, type_of(agg), base, indices)->Ok_0;
            &&& c.regs.contains_key(dst)
            &&& (moves(v, out).regs)(RegId(c.regs[dst])) == value_of(l, base, 64) + value_of(
                l,
                indices[0],
                64,
            ) * next_multiple(bytes(agg), alignment(agg)) + (parts(agg, indices.skip(1), l)->0).0
        }),
{
    let c1 = used(c, 1);
    let path = indices.skip(1);
    assert(path =~= indices.subrange(1, indices.len() as int));
    operands_keep_their_values(c1, base, 64, l, v);
    operands_keep_their_values(c1, indices[0], 64, l, v);
    types_keep_their_layout(agg);
    lemma_byte();
    let b = operand_of(c1, base, 64)->Ok_0;
    let i = operand_of(c1, indices[0], 64)->Ok_0;
    let first = InstView::Plain(
        Inst::PtrOffset { dst: reg_at(c.next), base: b, index: i, elem: type_of(agg) },
    );
    let start = Walk {
        cur: reg_at(c.next),
        ty: type_of(agg),
        acc: 0,
        ctx: c1,
        out: seq![first],
    };
    let zero = Walk { out: Seq::empty(), ctx: c, ..start };
    assert(seq![first] =~= zero.out.push(first));
    assert(moves(v, zero.out) == v);
    lemma_fresh(zero, c, l, v, first, c.next);
    lemma_more(v, zero.out, first);
    let at = value_of(l, base, 64) + value_of(l, indices[0], 64) * next_multiple(
        bytes(agg),
        alignment(agg),
    );
    assert(walked(start, c, l, v, agg, at));
    lemma_walk(start, c, l, v, agg, at, path);
    let w = walk_steps(start, path)->Ok_0;
    let d = reg_of(w.ctx, dst)->Ok_0;
    let last = crate::llvm::blocks::byte_offset(d, w.cur, w.acc);
    lemma_number(w.acc, moves(v, w.out));
    lemma_more(v, w.out, last);
}

/// The pointer to a field leads to where the field starts, in the struct that the index names.
pub proof fn field_pointers_reach_their_field(
    c: CtxView,
    dst: Seq<char>,
    t: LType,
    base: LValue,
    index: LValue,
    field: u32,
    l: Locals,
    v: Reading,
)
    requires
        agrees(c, l, v),
        ordered(c),
        c.next + 1 <= u32::MAX,
        representable(base, 64),
        representable(index, 64),
        part(t, LValue::Int(field as i128), l) is Some,
        t is Struct || t is PackedStruct,
        field_of(c, dst, t, base, index, field) is Ok,
    ensures
        ({
            let (c1, out) = field_of(c, dst, t, base, index, field)->Ok_0;
            &&& c.regs.contains_key(dst)
            &&& (moves(v, out).regs)(RegId(c.regs[dst])) == value_of(l, base, 64) + value_of(
                l,
                index,
                64,
            ) * next_multiple(bytes(t), alignment(t)) + (part(t, LValue::Int(field as i128), l)->0).0
        }),
{
    let c1 = used(c, 1);
    operands_keep_their_values(c1, base, 64, l, v);
    operands_keep_their_values(c1, index, 64, l, v);
    types_keep_their_layout(t);
    lemma_byte();
    match t {
        LType::Struct(f) => {
            lemma_field(f, field as int, 0, false);
        },
        LType::PackedStruct(f) => {
            lemma_field(f, field as int, 0, true);
        },
        _ => {},
    }
    let out = field_of(c, dst, t, base, index, field)->Ok_0.1;
    let off = field_offset(type_of(t), field)->0;
    let one = out.drop_last();
    assert(one =~= seq![out[0]]);
    assert(one.drop_last() =~= Seq::<InstView>::empty());
    assert(moves(v, one.drop_last()) == v);
    lemma_number(off, moves(v, one));
    assert(moves(v, one) == moved(v, out[0]));
    assert(moves(v, out) == moved(moves(v, one), out[1]));
}

// ---- calls ----

/// A call to an allocator makes a heap region of as many bytes as its argument says, or the
/// product of its two arguments modulo the address space.
pub proof fn allocators_make_what_is_asked(
    c: CtxView,
    dst: Seq<char>,
    size: AllocSize,
    args: Seq<LValue>,
    l: Locals,
    v: Reading,
    n: int,
)
    requires
        agrees(c, l, v),
        ordered(c),
        c.next + 1 <= u32::MAX,
        forall|i: int| 0 <= i < args.len() ==> representable(#[trigger] args[i], 64),
        alloc_of(c, dst, size, args) is Ok,
        match size {
            AllocSize::Bytes(i) => i < args.len(),
            AllocSize::Product(a, b) => a < args.len() && b < args.len(),
        },
    ensures
        ({
            let (c1, out) = alloc_of(c, dst, size, args)->Ok_0;
            &&& out.len() > 0
            &&& out.last() matches InstView::Plain(
                Inst::Alloc { dst: d, region, elem, count, .. },
            ) && c.regs.contains_key(dst) && d.0 == c.regs[dst] && region == RegionKind::Heap
                && size_of_type(elem) == 1 && match size {
                AllocSize::Bytes(i) => out.len() == 1 && read(v, count) == value_of(
                    l,
                    args[i as int],
                    64,
                ),
                AllocSize::Product(a, b) => out.len() == 2 && (out[0] matches InstView::Plain(
                    Inst::Assign { dst: p, value, .. },
                ) && count == Operand::Reg(p) && (gives(value, v, 64, n) <==> 0 <= n < pow2(64) && n
                    == (value_of(l, args[a as int], 64) * value_of(l, args[b as int], 64)) % (
                pow2(64) as int))),
            }
        }),
{
    match size {
        AllocSize::Bytes(i) => {
            operands_keep_their_values(c, args[i as int], 64, l, v);
        },
        AllocSize::Product(a, b) => {
            operands_keep_their_values(used(c, 1), args[a as int], 64, l, v);
            operands_keep_their_values(used(c, 1), args[b as int], 64, l, v);
            vstd::arithmetic::power2::lemma_pow2_pos(64);
        },
    }
}

/// A copy, a move or a fill of memory goes to the first argument, comes from the second where
/// it is not a fill, and is as long as the third says.
pub proof fn copies_keep_their_operands(
    c: CtxView,
    dst: Option<String>,
    ret: LType,
    callee: String,
    args: Seq<LValue>,
    l: Locals,
    v: Reading,
)
    requires
        agrees(c, l, v),
        args.len() >= 3,
        forall|i: int| 0 <= i < args.len() ==> representable(#[trigger] args[i], 64),
        mem_kind_of(callee@) is Some,
        !no_effect(callee@),
        !(overflow_op(callee@) is Some && dst is Some),
        call_inst(c, dst, ret, callee, args) is Ok,
    ensures
        call_inst(c, dst, ret, callee, args)->Ok_0 matches InstView::Plain(
            Inst::MemIntrinsic { kind, dst: to, src, len },
        ) && kind == mem_kind_of(callee@)->0 && read(v, to) == value_of(l, args[0], 64) && read(
            v,
            len,
        ) == value_of(l, args[2], 64) && (kind is Copy || kind is Move ==> src is Some && read(
            v,
            src->0,
        ) == value_of(l, args[1], 64)) && (!(kind is Copy || kind is Move) ==> src is None),
{
    operands_keep_their_values(c, args[0], 64, l, v);
    operands_keep_their_values(c, args[1], 64, l, v);
    operands_keep_their_values(c, args[2], 64, l, v);
}

/// The operands of a list have the values of the list, in order.
pub proof fn lists_keep_their_values(c: CtxView, args: Seq<LValue>, l: Locals, v: Reading)
    requires
        agrees(c, l, v),
        forall|i: int| 0 <= i < args.len() ==> representable(#[trigger] args[i], 64),
        operands_of(c, args, 64) is Ok,
    ensures
        ({
            let ops = operands_of(c, args, 64)->Ok_0;
            &&& ops.len() == args.len()
            &&& forall|i: int|
                0 <= i < args.len() ==> read(v, #[trigger] ops[i]) == value_of(l, args[i], 64)
        }),
    decreases args.len(),
{
    if args.len() > 0 {
        let head = args.drop_last();
        assert forall|i: int| 0 <= i < head.len() implies representable(#[trigger] head[i], 64) by {
            assert(representable(args[i], 64));
        }
        lists_keep_their_values(c, head, l, v);
        operands_keep_their_values(c, args.last(), 64, l, v);
        assert(representable(args[args.len() - 1], 64));
        let ops = operands_of(c, args, 64)->Ok_0;
        assert forall|i: int| 0 <= i < args.len() implies read(v, #[trigger] ops[i]) == value_of(
            l,
            args[i],
            64,
        ) by {
            if i < head.len() {
                assert(head[i] == args[i]);
                assert(operands_of(c, head, 64)->Ok_0[i] == ops[i]);
            }
        }
    }
}

/// A call that is nothing special passes its arguments in order, and its result goes where the
/// call says.
pub proof fn calls_keep_their_arguments(
    c: CtxView,
    dst: Option<String>,
    ret: LType,
    callee: String,
    args: Seq<LValue>,
    l: Locals,
    v: Reading,
)
    requires
        agrees(c, l, v),
        forall|i: int| 0 <= i < args.len() ==> representable(#[trigger] args[i], 64),
        mem_kind_of(callee@) is None,
        !no_effect(callee@),
        !(overflow_op(callee@) is Some && dst is Some),
        call_inst(c, dst, ret, callee, args) is Ok,
    ensures
        call_inst(c, dst, ret, callee, args)->Ok_0 matches InstView::Call { dst: d, args: ops, .. }
            && (d is Some <==> dst is Some) && (dst matches Some(n) ==> c.regs.contains_key(n@)
            && (d->0).0 == c.regs[n@]) && ops.len() == args.len() && forall|i: int|
            0 <= i < args.len() ==> read(v, #[trigger] ops[i]) == value_of(l, args[i], 64),
{
    lists_keep_their_values(c, args, l, v);
}

/// An atomic update reads from its pointer and then writes to it, a value of its type.
pub proof fn updates_read_and_write_their_pointer(
    c: CtxView,
    dst: Seq<char>,
    ty: LType,
    ptr: LValue,
    tuple: bool,
    l: Locals,
    v: Reading,
)
    requires
        agrees(c, l, v),
        representable(ptr, 64),
        atomic_of(c, dst, ty, ptr, tuple) is Ok,
    ensures
        ({
            let out = atomic_of(c, dst, ty, ptr, tuple)->Ok_0.1;
            &&& out.len() == if tuple {
                3int
            } else {
                2
            }
            &&& out[0] matches InstView::Plain(Inst::Load { dst: d, ty: t, ptr: p, .. }) && read(v, p)
                == value_of(l, ptr, 64) && size_of_type(t) == bytes(ty) && (!tuple
                ==> c.regs.contains_key(dst) && d.0 == c.regs[dst])
            &&& out[1] matches InstView::Plain(Inst::Store { ty: t, ptr: p, .. }) && read(v, p)
                == value_of(l, ptr, 64) && size_of_type(t) == bytes(ty)
        }),
{
    types_keep_their_layout(ty);
    operands_keep_their_values(c, ptr, 64, l, v);
    operands_keep_their_values(used(c, 1), ptr, 64, l, v);
}

} // verus!
