//! What functions return when they run.

use crate::affine::{fits, multiple_evaluates, sum_evaluates, AffineView};
use crate::ir::{
    defined, stride_of, BasicBlock, BinOp, BlockId, Const, Function, Inst, Operand, RValue, RegId,
    Terminator, Type,
};
use crate::meaning::signed;
use crate::summary::ret::{
    as_signed, bind_params, block_index, constant_form, constant_of, feed, feed_target, form_scaled,
    form_sum, holds, inst_value, joined, offset_stride, operand_value, param_values, ret_summary,
    ret_within, return_sites_agree, returned, run_blocks, run_insts, run_term, scalar_result,
    AbsView, RetState,
};
use crate::summary::RetView;
use vstd::prelude::*;

verus! {

// ---- runs over integers ----

/// The values of registers.
pub type Values = Map<u32, int>;

/// The value of an operand, where it is known.
pub open spec fn operand_at(op: Operand, a: Values) -> Option<int> {
    match op {
        Operand::Reg(r) => if a.contains_key(r.0) {
            Some(a[r.0])
        } else {
            None
        },
        Operand::Const(Const::Int(b)) => Some(signed(b.bits as int, 128)),
        _ => None,
    }
}

/// An operand is no register, or one that was set.
pub open spec fn readable(op: Operand, a: Values) -> bool {
    op matches Operand::Reg(r) ==> a.contains_key(r.0)
}

/// The value of a computed value, where it is known: nothing overflows, so sums, differences
/// and products are those of integers.
pub open spec fn computed_at(rv: RValue, a: Values) -> Option<int> {
    match rv {
        RValue::Use(op) => operand_at(op, a),
        RValue::Bin { op, lhs, rhs } => match (operand_at(lhs, a), operand_at(rhs, a)) {
            (Some(x), Some(y)) => match op {
                BinOp::Add => Some(x + y),
                BinOp::Sub => Some(x - y),
                BinOp::Mul => Some(x * y),
                _ => None,
            },
            _ => None,
        },
        _ => None,
    }
}

/// A register is set: to a value where that is known, else to any.
pub open spec fn set_to(a: Values, r: u32, x: Option<int>, b: Values) -> bool {
    &&& b.contains_key(r)
    &&& b == a.insert(r, b[r])
    &&& x is Some ==> b[r] == x->0
}

/// The operands of a computed value can be read.
pub open spec fn all_readable(rv: RValue, a: Values) -> bool {
    match rv {
        RValue::Use(op) => readable(op, a),
        RValue::Bin { lhs, rhs, .. } => readable(lhs, a) && readable(rhs, a),
        _ => true,
    }
}

/// An instruction takes values of registers to others. It reads registers that were set, and
/// pointer arithmetic moves by whole elements, which are not larger than the address space.
pub open spec fn steps(inst: Inst, a: Values, b: Values) -> bool {
    match inst {
        Inst::Assign { dst, value, .. } => all_readable(value, a) && set_to(
            a,
            dst.0,
            computed_at(value, a),
            b,
        ),
        Inst::PtrOffset { dst, base, index, elem } => stride_of(elem) <= u64::MAX && readable(
            base,
            a,
        ) && readable(index, a) && set_to(
            a,
            dst.0,
            match (operand_at(base, a), operand_at(index, a)) {
                (Some(x), Some(i)) => Some(x + i * stride_of(elem)),
                _ => None,
            },
            b,
        ),
        _ => match defined(inst) {
            Some(r) => set_to(a, r.0, None, b),
            None => b == a,
        },
    }
}

/// Instructions take values of registers from each of a sequence to the next.
pub open spec fn runs(insts: Seq<Inst>, vs: Seq<Values>) -> bool {
    &&& vs.len() == insts.len() + 1
    &&& forall|k: int| 0 <= k < insts.len() ==> steps(#[trigger] insts[k], vs[k], vs[k + 1])
}

/// A terminator may go to a block, with arguments.
pub open spec fn may_go(t: Terminator, to: BlockId, args: Seq<Operand>) -> bool {
    match t {
        Terminator::Br { target, args: given } => to == target && args == given@,
        Terminator::CondBr { then_blk, then_args, else_blk, else_args, .. } => (to == then_blk
            && args == then_args@) || (to == else_blk && args == else_args@),
        Terminator::Switch { .. } => args.len() == 0,
        _ => false,
    }
}

/// Arguments are passed to parameters: each parameter takes the value of its argument, where
/// that is known, and other registers keep theirs.
pub open spec fn passes(
    params: Seq<(RegId, Type)>,
    args: Seq<Operand>,
    a: Values,
    b: Values,
) -> bool {
    forall|r: u32| #[trigger]
        b.contains_key(r) ==> passed(params, args, a, r, b[r]) || (a.contains_key(r) && b[r] == a[r]
            && forall|k: int| !#[trigger] fills(params, args, r, k))
}

/// A register takes a value as the parameter of some argument.
pub open spec fn passed(
    params: Seq<(RegId, Type)>,
    args: Seq<Operand>,
    a: Values,
    r: u32,
    x: int,
) -> bool {
    exists|k: int| #[trigger]
        fills(params, args, r, k) && readable(args[k], a) && (operand_at(args[k], a) is Some ==> x
            == operand_at(args[k], a)->0)
}

/// The argument at a position is for a register.
pub open spec fn fills(params: Seq<(RegId, Type)>, args: Seq<Operand>, r: u32, k: int) -> bool {
    0 <= k < params.len() && k < args.len() && (params[k].0).0 == r
}

/// At the call, the parameters hold the arguments.
pub open spec fn starts(params: Seq<(RegId, Type)>, p: spec_fn(usize) -> int, a: Values) -> bool {
    forall|r: u32| #[trigger]
        a.contains_key(r) ==> exists|k: int|
            0 <= k < params.len() && (#[trigger] params[k].0).0 == r && a[r] == p(k as usize)
}

/// A visit of a block by a run: the position of the block, the arguments that it is entered
/// with, and the values of registers before, between and after its instructions.
pub struct Stay {
    pub block: int,
    pub args: Seq<Operand>,
    pub values: Seq<Values>,
}

/// A run goes from a visit to the next.
pub open spec fn follows(f: Function, a: Stay, b: Stay) -> bool {
    &&& may_go(f.blocks@[a.block].term, f.blocks@[b.block].id, b.args)
    &&& passes(f.blocks@[b.block].params@, b.args, a.values.last(), b.values[0])
}

/// A run of a function on arguments: it enters at the entry block, executes each block that it
/// visits, and goes on as the block says.
pub open spec fn is_run(f: Function, p: spec_fn(usize) -> int, run: Seq<Stay>) -> bool {
    &&& run.len() > 0
    &&& forall|i: int|
        0 <= i < run.len() ==> 0 <= (#[trigger] run[i]).block < f.blocks@.len() && runs(
            f.blocks@[run[i].block].insts@,
            run[i].values,
        )
    &&& f.blocks@[run[0].block].id == f.entry
    &&& starts(f.params@, p, run[0].values[0])
    &&& forall|i: int|
        0 < i < run.len() ==> follows(f, run[i - 1], #[trigger] run[i])
}

/// A run ends with a return of a value.
pub open spec fn returns_value(f: Function, run: Seq<Stay>, x: int) -> bool {
    f.blocks@[run.last().block].term matches Terminator::Return(Some(op)) && operand_at(
        op,
        run.last().values.last(),
    ) == Some(x)
}

/// Blocks are told apart by their ids, and no parameter of the function is set again.
pub open spec fn well_formed(f: Function) -> bool {
    &&& forall|i: int, j: int|
        0 <= i < j < f.blocks@.len() ==> (#[trigger] f.blocks@[i]).id != (#[trigger] f.blocks@[j]).id
    &&& forall|i: int, j: int|
        0 <= i < j < f.params@.len() ==> (#[trigger] f.params@[i]).0 != (#[trigger] f.params@[j]).0
    &&& forall|i: int, k: int|
        0 <= i < f.blocks@.len() && 0 <= k < f.params@.len() ==> leaves_alone(
            #[trigger] f.blocks@[i],
            (#[trigger] f.params@[k]).0,
        )
}

/// A block does not set a register.
pub open spec fn leaves_alone(b: BasicBlock, r: RegId) -> bool {
    &&& forall|k: int| 0 <= k < b.params@.len() ==> (#[trigger] b.params@[k]).0 != r
    &&& forall|k: int| 0 <= k < b.insts@.len() ==> defined(#[trigger] b.insts@[k]) != Some(r)
}

// ---- abstract values ----

/// An abstract value stands for a number.
pub open spec fn stands_for(v: AbsView, p: spec_fn(usize) -> int, x: int) -> bool {
    match v {
        AbsView::PtrArg(k, off) => x == p(k) + off.at(p),
        AbsView::Scalar(a) => x == a.at(p),
        AbsView::Opaque => true,
    }
}

spec fn finite(v: AbsView) -> bool {
    match v {
        AbsView::PtrArg(_, off) => off.terms.dom().finite(),
        AbsView::Scalar(a) => a.terms.dom().finite(),
        AbsView::Opaque => true,
    }
}

spec fn all_finite(m: Map<u32, AbsView>) -> bool {
    forall|r: u32| #[trigger] m.contains_key(r) ==> finite(m[r])
}

proof fn lemma_sum(a: AffineView, b: AffineView, p: spec_fn(usize) -> int)
    requires
        a.terms.dom().finite(),
        b.terms.dom().finite(),
        form_sum(a, b) is Some,
    ensures
        (form_sum(a, b)->0).terms.dom().finite(),
        (form_sum(a, b)->0).at(p) == a.at(p) + b.at(p),
{
    let s = form_sum(a, b)->0;
    let all = a.terms.dom().union(b.terms.dom());
    assert(s.terms.dom().subset_of(all));
    vstd::set_lib::lemma_len_subset(s.terms.dom(), all);
    assert forall|k: usize| #[trigger] s.coeff(k) == a.coeff(k) + b.coeff(k) by {
        if b.terms.contains_key(k) {
            assert(fits(a.coeff(k) + b.coeff(k)));
        }
    }
    assert(s.is_sum(a, b));
    sum_evaluates(s, a, b, p);
}

proof fn lemma_scaled(a: AffineView, c: i128, p: spec_fn(usize) -> int)
    requires
        a.terms.dom().finite(),
        form_scaled(a, c) is Some,
    ensures
        (form_scaled(a, c)->0).terms.dom().finite(),
        (form_scaled(a, c)->0).at(p) == a.at(p) * c,
{
    let s = form_scaled(a, c)->0;
    assert(s.terms.dom().subset_of(a.terms.dom()));
    vstd::set_lib::lemma_len_subset(s.terms.dom(), a.terms.dom());
    assert forall|k: usize| #[trigger] s.coeff(k) == a.coeff(k) * c by {
        if a.terms.contains_key(k) {
            assert(fits(a.coeff(k) * c));
        } else {
            assert(0 * c == 0);
        }
    }
    assert(s.is_multiple(a, c));
    multiple_evaluates(s, a, c, p);
}

proof fn lemma_constant(a: AffineView, p: spec_fn(usize) -> int)
    requires
        a.terms.dom().finite(),
        a.terms.dom().len() == 0,
    ensures
        a.at(p) == a.constant,
{
}

/// The abstract result of an addition, subtraction or multiplication stands for the sum,
/// difference or product of what the operands stand for.
pub proof fn abstract_operations_are_right(
    op: BinOp,
    a: AffineView,
    b: AffineView,
    p: spec_fn(usize) -> int,
)
    requires
        a.terms.dom().finite(),
        b.terms.dom().finite(),
    ensures
        scalar_result(op, a, b) matches AbsView::Scalar(s) ==> s.terms.dom().finite() && match op {
            BinOp::Add => s.at(p) == a.at(p) + b.at(p),
            BinOp::Sub => s.at(p) == a.at(p) - b.at(p),
            BinOp::Mul => s.at(p) == a.at(p) * b.at(p),
            _ => false,
        },
        scalar_result(op, a, b) is Scalar || scalar_result(op, a, b) is Opaque,
{
    match op {
        BinOp::Add => {
            if form_sum(a, b) is Some {
                lemma_sum(a, b, p);
            }
        },
        BinOp::Sub => {
            if let Some(n) = form_scaled(b, -1i128) {
                lemma_scaled(b, -1i128, p);
                assert(b.at(p) * -1 == -b.at(p)) by (nonlinear_arith);
                if form_sum(a, n) is Some {
                    lemma_sum(a, n, p);
                }
            }
        },
        BinOp::Mul => {
            if let Some(c) = constant_of(a) {
                lemma_constant(a, p);
                if form_scaled(b, c) is Some {
                    lemma_scaled(b, c, p);
                    assert(b.at(p) * c == c * b.at(p)) by (nonlinear_arith);
                }
            } else if let Some(c) = constant_of(b) {
                lemma_constant(b, p);
                if form_scaled(a, c) is Some {
                    lemma_scaled(a, c, p);
                }
            }
        },
        _ => {},
    }
}

/// Known registers stand for their values.
spec fn agrees(e: Map<u32, AbsView>, p: spec_fn(usize) -> int, a: Values) -> bool {
    forall|r: u32| #[trigger]
        a.contains_key(r) && e.contains_key(r) ==> stands_for(e[r], p, a[r])
}

proof fn lemma_operand(
    op: Operand,
    e: Map<u32, AbsView>,
    p: spec_fn(usize) -> int,
    a: Values,
)
    requires
        agrees(e, p, a),
        all_finite(e),
    ensures
        finite(operand_value(op, e)),
        operand_at(op, a) is Some ==> stands_for(operand_value(op, e), p, operand_at(op, a)->0),
        !(operand_value(op, e) is Opaque) && readable(op, a) ==> operand_at(op, a) is Some,
{
    match op {
        Operand::Reg(r) => {
            assert(a.contains_key(r.0) && e.contains_key(r.0) ==> stands_for(e[r.0], p, a[r.0]));
        },
        Operand::Const(Const::Int(b)) => {
            let f = constant_form(as_signed(b.bits));
            assert(f.terms.dom() =~= Set::empty());
            lemma_constant(f, p);
            vstd::arithmetic::power2::lemma2_to64();
            vstd::arithmetic::power2::lemma_pow2_adds(64, 64);
        },
        _ => {},
    }
}

/// What an instruction computes is what is known of the register that it sets.
spec fn fixed(inst: Inst, e: Map<u32, AbsView>) -> bool {
    inst_value(inst, e) matches Some((d, v)) ==> holds(e, d, v)
}

/// What an instruction computes stands for what it sets.
proof fn lemma_inst(inst: Inst, e: Map<u32, AbsView>, p: spec_fn(usize) -> int, a: Values, b: Values)
    requires
        agrees(e, p, a),
        all_finite(e),
        steps(inst, a, b),
        fixed(inst, e),
    ensures
        agrees(e, p, b),
{
    match inst {
        Inst::Assign { dst, value, .. } => {
            match value {
                RValue::Use(op) => {
                    lemma_operand(op, e, p, a);
                },
                RValue::Bin { op, lhs, rhs } => {
                    lemma_operand(lhs, e, p, a);
                    lemma_operand(rhs, e, p, a);
                    if let (AbsView::Scalar(x), AbsView::Scalar(y)) = (
                        operand_value(lhs, e),
                        operand_value(rhs, e),
                    ) {
                        abstract_operations_are_right(op, x, y, p);
                    }
                },
                _ => {},
            }
            assert forall|r: u32| #[trigger]
                b.contains_key(r) && e.contains_key(r) implies stands_for(e[r], p, b[r]) by {
                if r != dst.0 {
                    assert(a.contains_key(r));
                }
            }
        },
        Inst::PtrOffset { dst, base, index, elem } => {
            lemma_operand(base, e, p, a);
            lemma_operand(index, e, p, a);
            crate::ir::lemma_layout_bounds(elem);
            if let (AbsView::PtrArg(k, off), AbsView::Scalar(ix)) = (
                operand_value(base, e),
                operand_value(index, e),
            ) {
                let c = offset_stride(elem) as i128;
                if let Some(t) = form_scaled(ix, c) {
                    lemma_scaled(ix, c, p);
                    if form_sum(off, t) is Some {
                        lemma_sum(off, t, p);
                    }
                }
            }
            assert forall|r: u32| #[trigger]
                b.contains_key(r) && e.contains_key(r) implies stands_for(e[r], p, b[r]) by {
                if r != dst.0 {
                    assert(a.contains_key(r));
                }
            }
        },
        _ => {
            assert forall|r: u32| #[trigger]
                b.contains_key(r) && e.contains_key(r) implies stands_for(e[r], p, b[r]) by {
                if let Some(d) = defined(inst) {
                    if r != d.0 {
                        assert(a.contains_key(r));
                    }
                }
            }
        },
    }
}

proof fn lemma_runs(
    insts: Seq<Inst>,
    e: Map<u32, AbsView>,
    p: spec_fn(usize) -> int,
    vs: Seq<Values>,
    k: int,
)
    requires
        0 <= k <= insts.len(),
        all_finite(e),
        runs(insts, vs),
        agrees(e, p, vs[0]),
        forall|i: int| 0 <= i < insts.len() ==> fixed(#[trigger] insts[i], e),
    ensures
        agrees(e, p, vs[k]),
    decreases k,
{
    if k > 0 {
        lemma_runs(insts, e, p, vs, k - 1);
        assert(fixed(insts[k - 1], e));
        assert(steps(insts[k - 1], vs[k - 1], vs[k - 1 + 1]));
        lemma_inst(insts[k - 1], e, p, vs[k - 1], vs[k]);
    }
}

// ---- the last pass ----

proof fn lemma_same_bind(params: Seq<(RegId, Type)>, st: RetState)
    requires
        !bind_params(params, st).changed,
    ensures
        bind_params(params, st) == st,
        forall|k: int|
            0 <= k < params.len() && st.joins.contains_key((#[trigger] params[k].0).0) ==> holds(
                st.env,
                (params[k].0).0,
                st.joins[(params[k].0).0],
            ),
    decreases params.len(),
{
    if params.len() > 0 {
        let head = params.drop_last();
        lemma_same_bind(head, st);
        assert forall|k: int|
            0 <= k < params.len() && st.joins.contains_key((#[trigger] params[k].0).0) implies holds(
            st.env,
            (params[k].0).0,
            st.joins[(params[k].0).0],
        ) by {
            if k < params.len() - 1 {
                assert(head[k] == params[k]);
                assert((head[k].0).0 == (params[k].0).0);
            }
        }
    }
}

proof fn lemma_same_insts(insts: Seq<Inst>, st: RetState)
    requires
        !run_insts(insts, st).changed,
    ensures
        run_insts(insts, st) == st,
        forall|k: int| 0 <= k < insts.len() ==> fixed(#[trigger] insts[k], st.env),
    decreases insts.len(),
{
    if insts.len() > 0 {
        let head = insts.drop_last();
        lemma_same_insts(head, st);
        assert forall|k: int| 0 <= k < insts.len() implies fixed(#[trigger] insts[k], st.env) by {
            if k < insts.len() - 1 {
                assert(fixed(head[k], st.env));
            }
        }
    }
}

/// What is joined for a parameter covers an argument.
spec fn covers(st: RetState, r: u32, op: Operand) -> bool {
    st.joins.contains_key(r) && joined(st.joins[r], operand_value(op, st.env)) == st.joins[r]
}

proof fn lemma_same_feed(
    params: Seq<(RegId, Type)>,
    args: Seq<Operand>,
    n: nat,
    st: RetState,
)
    requires
        !feed(params, args, n, st).changed,
    ensures
        feed(params, args, n, st) == st,
        forall|k: int|
            0 <= k < n ==> covers(st, (params[k].0).0, #[trigger] args[k]),
    decreases n,
{
    if n > 0 {
        lemma_same_feed(params, args, (n - 1) as nat, st);
    }
}

proof fn lemma_block_index(blocks: Seq<BasicBlock>, i: int)
    requires
        0 <= i < blocks.len(),
        forall|a: int, b: int|
            0 <= a < b < blocks.len() ==> (#[trigger] blocks[a]).id != (#[trigger] blocks[b]).id,
    ensures
        block_index(blocks, blocks[i].id) == Some(i),
    decreases blocks.len(),
{
    let n = blocks.len() - 1;
    if i < n {
        assert(blocks[i].id != blocks[n].id);
        let head = blocks.drop_last();
        assert forall|a: int, b: int| 0 <= a < b < head.len() implies (#[trigger] head[a]).id
            != (#[trigger] head[b]).id by {
            assert(blocks[a].id != blocks[b].id);
        }
        lemma_block_index(head, i);
        assert(head[i] == blocks[i]);
    }
}

/// The arguments of a branch are covered by the joins of the block where it goes.
spec fn edge_covered(st: RetState, params: Seq<(RegId, Type)>, args: Seq<Operand>) -> bool {
    forall|k: int|
        0 <= k < params.len() && k < args.len() ==> covers(
            st,
            (params[k].0).0,
            #[trigger] args[k],
        )
}

proof fn lemma_same_target(
    blocks: Seq<BasicBlock>,
    i: int,
    args: Seq<Operand>,
    st: RetState,
)
    requires
        0 <= i < blocks.len(),
        forall|a: int, b: int|
            0 <= a < b < blocks.len() ==> (#[trigger] blocks[a]).id != (#[trigger] blocks[b]).id,
        !feed_target(blocks, blocks[i].id, args, st).changed,
    ensures
        feed_target(blocks, blocks[i].id, args, st) == st,
        edge_covered(st, blocks[i].params@, args),
{
    lemma_block_index(blocks, i);
    let params = blocks[i].params@;
    let n = if params.len() < args.len() {
        params.len()
    } else {
        args.len()
    };
    lemma_same_feed(params, args, n, st);
}

proof fn lemma_still(blocks: Seq<BasicBlock>, target: BlockId, args: Seq<Operand>, st: RetState)
    requires
        !feed_target(blocks, target, args, st).changed,
    ensures
        feed_target(blocks, target, args, st) == st,
{
    if let Some(i) = block_index(blocks, target) {
        let params = blocks[i].params@;
        let n = if params.len() < args.len() {
            params.len()
        } else {
            args.len()
        };
        lemma_same_feed(params, args, n, st);
    }
}

/// Where a terminator changes nothing, every branch that it may take is covered.
proof fn lemma_same_term(
    blocks: Seq<BasicBlock>,
    t: Terminator,
    st: RetState,
    i: int,
    args: Seq<Operand>,
)
    requires
        0 <= i < blocks.len(),
        forall|a: int, b: int|
            0 <= a < b < blocks.len() ==> (#[trigger] blocks[a]).id != (#[trigger] blocks[b]).id,
        !run_term(blocks, t, st).changed,
        may_go(t, blocks[i].id, args),
    ensures
        edge_covered(st, blocks[i].params@, args),
{
    match t {
        Terminator::Br { target, args: given } => {
            lemma_same_target(blocks, i, args, st);
        },
        Terminator::CondBr { then_blk, then_args, else_blk, else_args, .. } => {
            let mid = feed_target(blocks, then_blk, then_args@, st);
            lemma_still(blocks, else_blk, else_args@, mid);
            lemma_still(blocks, then_blk, then_args@, st);
            if blocks[i].id == then_blk && args == then_args@ {
                lemma_same_target(blocks, i, args, st);
            } else {
                lemma_same_target(blocks, i, args, mid);
            }
        },
        _ => {},
    }
}

proof fn lemma_term_still(blocks: Seq<BasicBlock>, t: Terminator, st: RetState)
    requires
        !run_term(blocks, t, st).changed,
    ensures
        run_term(blocks, t, st) == st,
{
    match t {
        Terminator::Br { target, args } => {
            lemma_still(blocks, target, args@, st);
        },
        Terminator::CondBr { then_blk, then_args, else_blk, else_args, .. } => {
            let mid = feed_target(blocks, then_blk, then_args@, st);
            lemma_still(blocks, else_blk, else_args@, mid);
            lemma_still(blocks, then_blk, then_args@, st);
        },
        _ => {},
    }
}

/// A block that changes nothing.
spec fn settled(blocks: Seq<BasicBlock>, b: BasicBlock, st: RetState) -> bool {
    &&& !bind_params(b.params@, st).changed
    &&& !run_insts(b.insts@, st).changed
    &&& !run_term(blocks, b.term, st).changed
}

proof fn lemma_same_blocks(blocks: Seq<BasicBlock>, n: nat, st: RetState)
    requires
        n <= blocks.len(),
        !run_blocks(blocks, n, st).changed,
    ensures
        run_blocks(blocks, n, st) == st,
        forall|i: int| 0 <= i < n ==> settled(blocks, #[trigger] blocks[i], st),
    decreases n,
{
    if n > 0 {
        let b = blocks[n - 1];
        let s0 = run_blocks(blocks, (n - 1) as nat, st);
        let s1 = bind_params(b.params@, s0);
        let s2 = run_insts(b.insts@, s1);
        lemma_term_still(blocks, b.term, s2);
        lemma_same_insts(b.insts@, s1);
        lemma_same_bind(b.params@, s0);
        lemma_same_blocks(blocks, (n - 1) as nat, st);
    }
}

// ---- what every pass keeps ----

/// All forms are finite, and the parameters are known as at the call.
spec fn sound(st: RetState, seed: Map<u32, AbsView>) -> bool {
    &&& all_finite(st.env)
    &&& all_finite(st.joins)
    &&& forall|r: u32| #[trigger] seed.contains_key(r) ==> holds(st.env, r, seed[r])
}

proof fn lemma_finite_operand(op: Operand, e: Map<u32, AbsView>)
    requires
        all_finite(e),
    ensures
        finite(operand_value(op, e)),
{
    if let Operand::Const(Const::Int(b)) = op {
        assert(constant_form(as_signed(b.bits)).terms.dom() =~= Set::empty());
    }
}

proof fn lemma_finite_inst(inst: Inst, e: Map<u32, AbsView>)
    requires
        all_finite(e),
    ensures
        inst_value(inst, e) matches Some((d, v)) ==> finite(v) && defined(inst) == Some(RegId(d)),
{
    let p = |k: usize| 0int;
    match inst {
        Inst::Assign { dst, value, .. } => match value {
            RValue::Use(op) => lemma_finite_operand(op, e),
            RValue::Bin { op, lhs, rhs } => {
                lemma_finite_operand(lhs, e);
                lemma_finite_operand(rhs, e);
                if let (AbsView::Scalar(x), AbsView::Scalar(y)) = (
                    operand_value(lhs, e),
                    operand_value(rhs, e),
                ) {
                    abstract_operations_are_right(op, x, y, p);
                }
            },
            _ => {},
        },
        Inst::PtrOffset { dst, base, index, elem } => {
            lemma_finite_operand(base, e);
            lemma_finite_operand(index, e);
            if let (AbsView::PtrArg(k, off), AbsView::Scalar(ix)) = (
                operand_value(base, e),
                operand_value(index, e),
            ) {
                let c = offset_stride(elem) as i128;
                if let Some(t) = form_scaled(ix, c) {
                    lemma_scaled(ix, c, p);
                    if form_sum(off, t) is Some {
                        lemma_sum(off, t, p);
                    }
                }
            }
        },
        _ => {},
    }
}

proof fn lemma_keep_bind(params: Seq<(RegId, Type)>, st: RetState, seed: Map<u32, AbsView>)
    requires
        sound(st, seed),
        forall|k: int| 0 <= k < params.len() ==> !seed.contains_key((#[trigger] params[k].0).0),
    ensures
        sound(bind_params(params, st), seed),
    decreases params.len(),
{
    if params.len() > 0 {
        let head = params.drop_last();
        assert forall|k: int| 0 <= k < head.len() implies !seed.contains_key(
            (#[trigger] head[k].0).0,
        ) by {
            assert(!seed.contains_key((params[k].0).0));
        }
        lemma_keep_bind(head, st, seed);
        assert(!seed.contains_key((params[params.len() - 1].0).0));
    }
}

proof fn lemma_keep_insts(insts: Seq<Inst>, st: RetState, seed: Map<u32, AbsView>)
    requires
        sound(st, seed),
        forall|k: int|
            0 <= k < insts.len() ==> (defined(#[trigger] insts[k]) matches Some(r)
                ==> !seed.contains_key(r.0)),
    ensures
        sound(run_insts(insts, st), seed),
    decreases insts.len(),
{
    if insts.len() > 0 {
        let head = insts.drop_last();
        assert forall|k: int| 0 <= k < head.len() implies (defined(#[trigger] head[k]) matches Some(
            r,
        ) ==> !seed.contains_key(r.0)) by {
            assert(head[k] == insts[k]);
        }
        lemma_keep_insts(head, st, seed);
        lemma_finite_inst(insts.last(), run_insts(head, st).env);
        assert(insts.last() == insts[insts.len() - 1]);
    }
}

proof fn lemma_keep_feed(
    params: Seq<(RegId, Type)>,
    args: Seq<Operand>,
    n: nat,
    st: RetState,
    seed: Map<u32, AbsView>,
)
    requires
        sound(st, seed),
    ensures
        sound(feed(params, args, n, st), seed),
    decreases n,
{
    if n > 0 {
        lemma_keep_feed(params, args, (n - 1) as nat, st, seed);
        let prior = feed(params, args, (n - 1) as nat, st);
        lemma_finite_operand(args[n - 1], prior.env);
    }
}

proof fn lemma_keep_target(
    blocks: Seq<BasicBlock>,
    target: BlockId,
    args: Seq<Operand>,
    st: RetState,
    seed: Map<u32, AbsView>,
)
    requires
        sound(st, seed),
    ensures
        sound(feed_target(blocks, target, args, st), seed),
{
    if let Some(i) = block_index(blocks, target) {
        let params = blocks[i].params@;
        let n = if params.len() < args.len() {
            params.len()
        } else {
            args.len()
        };
        lemma_keep_feed(params, args, n, st, seed);
    }
}

proof fn lemma_keep_term(
    blocks: Seq<BasicBlock>,
    t: Terminator,
    st: RetState,
    seed: Map<u32, AbsView>,
)
    requires
        sound(st, seed),
    ensures
        sound(run_term(blocks, t, st), seed),
{
    match t {
        Terminator::Br { target, args } => {
            lemma_keep_target(blocks, target, args@, st, seed);
        },
        Terminator::CondBr { then_blk, then_args, else_blk, else_args, .. } => {
            lemma_keep_target(blocks, then_blk, then_args@, st, seed);
            let mid = feed_target(blocks, then_blk, then_args@, st);
            lemma_keep_target(blocks, else_blk, else_args@, mid, seed);
        },
        _ => {},
    }
}

/// A block sets no register of the seed.
spec fn spares(b: BasicBlock, seed: Map<u32, AbsView>) -> bool {
    &&& forall|k: int| 0 <= k < b.params@.len() ==> !seed.contains_key((#[trigger] b.params@[k].0).0)
    &&& forall|k: int|
        0 <= k < b.insts@.len() ==> (defined(#[trigger] b.insts@[k]) matches Some(r)
            ==> !seed.contains_key(r.0))
}

proof fn lemma_keep_blocks(
    blocks: Seq<BasicBlock>,
    n: nat,
    st: RetState,
    seed: Map<u32, AbsView>,
)
    requires
        n <= blocks.len(),
        sound(st, seed),
        forall|i: int| 0 <= i < blocks.len() ==> spares(#[trigger] blocks[i], seed),
    ensures
        sound(run_blocks(blocks, n, st), seed),
    decreases n,
{
    if n > 0 {
        lemma_keep_blocks(blocks, (n - 1) as nat, st, seed);
        let b = blocks[n - 1];
        assert(spares(blocks[n - 1], seed));
        let s0 = run_blocks(blocks, (n - 1) as nat, st);
        lemma_keep_bind(b.params@, s0, seed);
        let s1 = bind_params(b.params@, s0);
        lemma_keep_insts(b.insts@, s1, seed);
        lemma_keep_term(blocks, b.term, run_insts(b.insts@, s1), seed);
    }
}

// ---- runs and summaries ----

/// What a run comes to agrees with what the last pass knows.
proof fn lemma_visits(
    f: Function,
    p: spec_fn(usize) -> int,
    run: Seq<Stay>,
    i: int,
    st: RetState,
)
    requires
        well_formed(f),
        is_run(f, p, run),
        0 <= i < run.len(),
        sound(st, param_values(f.params@)),
        forall|j: int| 0 <= j < f.blocks@.len() ==> settled(f.blocks@, #[trigger] f.blocks@[j], st),
    ensures
        agrees(st.env, p, run[i].values[0]),
        agrees(st.env, p, run[i].values.last()),
    decreases i,
{
    let blocks = f.blocks@;
    let now = run[i];
    let a = now.values[0];
    assert(settled(blocks, blocks[now.block], st));
    if i == 0 {
        assert(f.params@.len() == f.params.len());
        assert forall|r: u32| #[trigger]
            a.contains_key(r) && st.env.contains_key(r) implies stands_for(st.env[r], p, a[r]) by {
            let k = choose|k: int|
                0 <= k < f.params@.len() && (#[trigger] f.params@[k].0).0 == r && a[r] == p(
                    k as usize,
                );
            lemma_param(f.params@, k, p);
            let seed = param_values(f.params@);
            assert(seed.contains_key(r));
            assert(holds(st.env, r, seed[r]));
        }
    } else {
        let was = run[i - 1];
        lemma_visits(f, p, run, i - 1, st);
        assert(follows(f, run[i - 1], run[i]));
        let c = was.values.last();
        let args = now.args;
        assert(settled(blocks, blocks[was.block], st));
        lemma_same_term(blocks, blocks[was.block].term, st, now.block, args);
        let params = blocks[now.block].params@;
        lemma_same_bind(params, st);
        assert forall|r: u32| #[trigger]
            a.contains_key(r) && st.env.contains_key(r) implies stands_for(st.env[r], p, a[r]) by {
            if passed(params, args, c, r, a[r]) {
                let k = choose|k: int| #[trigger]
                    fills(params, args, r, k) && readable(args[k], c) && (operand_at(args[k], c)
                        is Some ==> a[r] == operand_at(args[k], c)->0);
                lemma_operand(args[k], st.env, p, c);
                assert(covers(st, (params[k].0).0, args[k]));
                assert(st.joins.contains_key((params[k].0).0));
                assert(holds(st.env, r, st.joins[r]));
            } else {
                assert(c.contains_key(r));
            }
        }
    }
    let insts = blocks[now.block].insts@;
    lemma_same_insts(insts, st);
    lemma_runs(insts, st.env, p, now.values, insts.len() as int);
}

/// A parameter is known as the argument at its position.
proof fn lemma_param(params: Seq<(RegId, Type)>, k: int, p: spec_fn(usize) -> int)
    requires
        0 <= k < params.len() <= usize::MAX,
        forall|i: int, j: int|
            0 <= i < j < params.len() ==> (#[trigger] params[i]).0 != (#[trigger] params[j]).0,
    ensures
        param_values(params).contains_key((params[k].0).0),
        stands_for(param_values(params)[(params[k].0).0], p, p(k as usize)),
    decreases params.len(),
{
    let n = params.len() - 1;
    if k < n {
        let head = params.drop_last();
        assert forall|i: int, j: int| 0 <= i < j < head.len() implies (#[trigger] head[i]).0
            != (#[trigger] head[j]).0 by {
            assert(params[i].0 != params[j].0);
        }
        lemma_param(head, k, p);
        assert(head[k] == params[k]);
        assert(params[k].0 != params[n].0);
    } else {
        let one = AffineView { constant: 0, terms: Map::<usize, i128>::empty().insert(k as usize, 1i128) };
        let none = constant_form(0);
        assert(none.terms.dom() =~= Set::empty());
        lemma_constant(none, p);
        lemma_single(one, k as usize, p);
    }
}

proof fn lemma_single(a: AffineView, k: usize, p: spec_fn(usize) -> int)
    requires
        a.constant == 0,
        a.terms == Map::<usize, i128>::empty().insert(k, 1i128),
    ensures
        a.at(p) == p(k),
        a.terms.dom().finite(),
{
    let d = a.terms.dom();
    assert(d =~= Set::<usize>::empty().insert(k));
    assert(d.len() == 1);
    let c = d.choose();
    assert(d.contains(c));
    assert(d.remove(c) =~= Set::empty());
    assert(a.weigh(d.remove(c), p) == 0);
    assert(1 * p(k) == p(k));
}

proof fn lemma_seed(params: Seq<(RegId, Type)>)
    requires
        params.len() <= usize::MAX,
    ensures
        all_finite(param_values(params)),
        forall|r: u32| #[trigger]
            param_values(params).contains_key(r) ==> exists|k: int|
                0 <= k < params.len() && (#[trigger] params[k].0).0 == r,
    decreases params.len(),
{
    if params.len() > 0 {
        let head = params.drop_last();
        lemma_seed(head);
        let k = (params.len() - 1) as usize;
        let one = AffineView { constant: 0, terms: Map::<usize, i128>::empty().insert(k, 1i128) };
        lemma_single(one, k, |i: usize| 0int);
        assert(constant_form(0).terms.dom() =~= Set::empty());
        assert forall|r: u32| #[trigger] param_values(params).contains_key(r) implies exists|k: int|
            0 <= k < params.len() && (#[trigger] params[k].0).0 == r by {
            if r == (params.last().0).0 {
                assert((params[params.len() - 1].0).0 == r);
            } else {
                assert(param_values(head).contains_key(r));
                let j = choose|j: int| 0 <= j < head.len() && (#[trigger] head[j].0).0 == r;
                assert((params[j].0).0 == r);
            }
        }
    }
}

/// What is summarized within some passes is right.
proof fn lemma_within(
    f: Function,
    p: spec_fn(usize) -> int,
    env: Map<u32, AbsView>,
    joins: Map<u32, AbsView>,
    passes: nat,
    run: Seq<Stay>,
    x: int,
)
    requires
        well_formed(f),
        is_run(f, p, run),
        returns_value(f, run, x),
        sound(RetState { env, joins, changed: false }, param_values(f.params@)),
        forall|i: int|
            0 <= i < f.blocks@.len() ==> spares(#[trigger] f.blocks@[i], param_values(f.params@)),
    ensures
        ret_is(ret_within(f.blocks@, env, joins, passes), p, x),
    decreases passes,
{
    if passes > 0 {
        let blocks = f.blocks@;
        let s0 = RetState { env, joins, changed: false };
        let st = run_blocks(blocks, blocks.len(), s0);
        lemma_keep_blocks(blocks, blocks.len(), s0, param_values(f.params@));
        if st.changed {
            lemma_within(f, p, st.env, st.joins, (passes - 1) as nat, run, x);
        } else {
            lemma_same_blocks(blocks, blocks.len(), s0);
            lemma_visits(f, p, run, run.len() - 1, s0);
            let i = run.last().block;
            let b = run.last().values.last();
            assert(run[run.len() - 1] == run.last());
            let op = blocks[i].term->Return_0->0;
            lemma_operand(op, env, p, b);
            if let Some(v) = returned(blocks, blocks.len(), env) {
                if v != AbsView::Opaque {
                    return_sites_agree(blocks, blocks.len(), env, v, i);
                }
            }
        }
    }
}

/// A summary of a return value is right for a value.
pub open spec fn ret_is(r: RetView, p: spec_fn(usize) -> int, x: int) -> bool {
    match r {
        RetView::PtrFromArg(k, off) => x == p(k) + off.at(p),
        RetView::Scalar(a) => x == a.at(p),
        RetView::Unknown => true,
    }
}

/// The summarized return value is what the body computes: for every run of the function on
/// arguments, where nothing overflows, the summary evaluated at the arguments is the value that
/// the run returns.
pub proof fn return_summaries_are_right(
    f: Function,
    p: spec_fn(usize) -> int,
    run: Seq<Stay>,
    x: int,
)
    requires
        well_formed(f),
        is_run(f, p, run),
        returns_value(f, run, x),
    ensures
        ret_is(ret_summary(f), p, x),
{
    let seed = param_values(f.params@);
    assert(f.params@.len() == f.params.len());
    lemma_seed(f.params@);
    assert forall|i: int| 0 <= i < f.blocks@.len() implies spares(#[trigger] f.blocks@[i], seed) by {
        let b = f.blocks@[i];
        assert forall|k: int| 0 <= k < b.params@.len() implies !seed.contains_key(
            (#[trigger] b.params@[k].0).0,
        ) by {
            if seed.contains_key((b.params@[k].0).0) {
                let j = choose|j: int|
                    0 <= j < f.params@.len() && (#[trigger] f.params@[j].0).0 == (b.params@[k].0).0;
                assert(leaves_alone(f.blocks@[i], f.params@[j].0));
                assert(b.params@[k].0 != f.params@[j].0);
            }
        }
        assert forall|k: int| 0 <= k < b.insts@.len() implies (defined(#[trigger] b.insts@[k])
            matches Some(r) ==> !seed.contains_key(r.0)) by {
            if let Some(r) = defined(b.insts@[k]) {
                if seed.contains_key(r.0) {
                    let j = choose|j: int|
                        0 <= j < f.params@.len() && (#[trigger] f.params@[j].0).0 == r.0;
                    assert(leaves_alone(f.blocks@[i], f.params@[j].0));
                    assert(defined(b.insts@[k]) != Some(f.params@[j].0));
                }
            }
        }
    }
    lemma_within(f, p, seed, seed, 64, run, x);
}

} // verus!
