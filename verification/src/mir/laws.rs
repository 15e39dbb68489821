//! What lowering MIR keeps.

use crate::ir::{BlockId, Inst, InstView, Operand, RegId};
use crate::llvm::lower::to_bits;
use crate::meaning::{
    first_equal, gives, goes_to, low_bits_are_a_remainder, none_equal, read, truth_bit, wrapped,
    wrapping_may_take_two_steps, Reading,
};
use crate::mir::ast::{BinKind, MConst, MOperand, MRvalue, MTerm};
use crate::mir::lower::{
    block_at, call_edges, case_list, operand_value, operation, rvalue_into, terminator, Env, State,
};
use vstd::arithmetic::power2::pow2;
use vstd::prelude::*;

verus! {

// ---- numbers ----

/// The constant of a number is its pattern of 64 bits, in two's complement.
proof fn lemma_pattern(n: i128)
    ensures
        crate::ir::low_bits(64, to_bits(n)) == wrapped(n as int, 64),
{
    low_bits_are_a_remainder(64, to_bits(n));
    assert(pow2(128) == 0x1_0000_0000_0000_0000_0000_0000_0000_0000 && pow2(64)
        == 0x1_0000_0000_0000_0000) by {
        vstd::arithmetic::power2::lemma2_to64();
        vstd::arithmetic::power2::lemma_pow2_adds(64, 64);
    }
    assert(to_bits(n) == wrapped(n as int, 128));
    wrapping_may_take_two_steps(n as int, 128, 64);
}

/// A constant operand has the value that it names: a number its pattern of 64 bits, a truth
/// value 1 or 0.
pub proof fn constants_keep_their_values(env: Env, s: State, c: MConst, v: Reading)
    ensures
        ({
            let (s1, o) = operand_value(env, s, MOperand::Const(c));
            &&& s1 == s
            &&& read(v, o) == match c {
                MConst::Int(n) => wrapped(n as int, 64),
                MConst::Bool(b) => truth_bit(b),
            }
        }),
{
    if let MConst::Int(n) = c {
        lemma_pattern(n);
    }
    if let MConst::Bool(b) = c {
        let x: u128 = if b {
            1
        } else {
            0
        };
        low_bits_are_a_remainder(1, x);
        vstd::arithmetic::power2::lemma2_to64();
    }
}

// ---- branches ----

/// Every target of a branch has a number of 32 bits.
pub open spec fn targets_fit(cases: Seq<(i128, usize)>, otherwise: usize) -> bool {
    &&& otherwise <= u32::MAX
    &&& forall|i: int| 0 <= i < cases.len() ==> (#[trigger] cases[i]).1 <= u32::MAX
}

/// The case at `i` is the first one equal to a value.
pub open spec fn first_case(cases: Seq<(i128, usize)>, x: int, i: int) -> bool {
    &&& 0 <= i < cases.len()
    &&& wrapped(cases[i].0 as int, 64) == x
    &&& forall|j: int| 0 <= j < i ==> wrapped((#[trigger] cases[j]).0 as int, 64) != x
}

/// No case is equal to a value.
pub open spec fn no_case(cases: Seq<(i128, usize)>, x: int) -> bool {
    forall|j: int| 0 <= j < cases.len() ==> wrapped((#[trigger] cases[j]).0 as int, 64) != x
}

/// A branch on a value goes to a block: that of the first case equal to the value, or the
/// other one where there is none.
pub open spec fn switches_to(
    cases: Seq<(i128, usize)>,
    otherwise: usize,
    x: int,
    n: usize,
) -> bool {
    ||| exists|i: int| #[trigger] first_case(cases, x, i) && n == cases[i].1
    ||| no_case(cases, x) && n == otherwise
}

proof fn lemma_cases(cases: Seq<(i128, usize)>)
    ensures
        case_list(cases).len() == cases.len(),
        forall|i: int|
            0 <= i < cases.len() ==> (#[trigger] case_list(cases)[i]).0.bits == wrapped(
                cases[i].0 as int,
                64,
            ) && case_list(cases)[i].1 == block_at(cases[i].1),
{
    assert forall|i: int| 0 <= i < cases.len() implies (#[trigger] case_list(cases)[i]).0.bits
        == wrapped(cases[i].0 as int, 64) && case_list(cases)[i].1 == block_at(cases[i].1) by {
        lemma_pattern(cases[i].0);
    }
}

/// A lowered branch on a value goes where the branch goes: for every value, control goes on at
/// the block of the first case equal to it, or at the other block where there is none.
pub proof fn switches_keep_their_targets(
    env: Env,
    s: State,
    op: MOperand,
    cases: Vec<(i128, usize)>,
    otherwise: usize,
    v: Reading,
    n: usize,
)
    requires
        targets_fit(cases@, otherwise),
        switches_to(cases@, otherwise, read(v, operand_value(env, s, op).1), n),
    ensures
        terminator(env, s, MTerm::SwitchInt(op, cases, otherwise)).0 == operand_value(env, s, op).0,
        terminator(env, s, MTerm::SwitchInt(op, cases, otherwise)).1 matches Ok(t) && goes_to(
            t,
            v,
            BlockId(n as u32),
            Seq::empty(),
        ),
{
    let t = terminator(env, s, MTerm::SwitchInt(op, cases, otherwise)).1->Ok_0;
    let x = read(v, operand_value(env, s, op).1);
    let cs = cases@;
    lemma_cases(cs);
    assert(block_at(n) == BlockId(n as u32));
    if cs.len() == 1 && cs[0].0 == 0 {
        assert(wrapped(0, 64) == 0) by {
            vstd::arithmetic::power2::lemma_pow2_pos(64);
        }
        assert(wrapped(cs[0].0 as int, 64) == 0);
    } else {
        lemma_first(cs, x);
        if !no_case(cs, x) {
            let i = choose|i: int| #[trigger] first_case(cs, x, i) && n == cs[i].1;
            assert(first_equal(case_list(cs), x, i));
            assert(case_list(cs)[i].1 == block_at(n));
        }
    }
}

proof fn lemma_first(cs: Seq<(i128, usize)>, x: int)
    ensures
        forall|i: int| #[trigger] first_case(cs, x, i) <==> first_equal(case_list(cs), x, i),
        forall|i: int| first_case(cs, x, i) <==> #[trigger] first_equal(case_list(cs), x, i),
        no_case(cs, x) <==> none_equal(case_list(cs), x),
{
    lemma_cases(cs);
    let list = case_list(cs);
    assert forall|i: int| first_case(cs, x, i) <==> #[trigger] first_equal(list, x, i) by {
        if first_case(cs, x, i) {
            assert forall|j: int| 0 <= j < i implies (#[trigger] list[j]).0.bits != x by {
                assert(wrapped(cs[j].0 as int, 64) != x);
            }
            assert(list[i].0.bits == x);
        }
        if first_equal(list, x, i) {
            assert forall|j: int| 0 <= j < i implies wrapped((#[trigger] cs[j]).0 as int, 64) != x by {
                assert(list[j].0.bits != x);
            }
            assert(list[i].0.bits == x);
        }
    }
    assert(no_case(cs, x) <==> none_equal(list, x)) by {
        if no_case(cs, x) {
            assert forall|j: int| 0 <= j < list.len() implies (#[trigger] list[j]).0.bits != x by {
                assert(wrapped(cs[j].0 as int, 64) != x);
            }
        }
        if none_equal(list, x) {
            assert forall|j: int| 0 <= j < cs.len() implies wrapped((#[trigger] cs[j]).0 as int, 64)
                != x by {
                assert(list[j].0.bits != x);
            }
        }
    }
}

/// A lowered branch on a value goes nowhere else.
pub proof fn switches_have_no_other_targets(
    env: Env,
    s: State,
    op: MOperand,
    cases: Vec<(i128, usize)>,
    otherwise: usize,
    v: Reading,
    to: BlockId,
    args: Seq<Operand>,
)
    requires
        targets_fit(cases@, otherwise),
        terminator(env, s, MTerm::SwitchInt(op, cases, otherwise)).1 matches Ok(t) && goes_to(
            t,
            v,
            to,
            args,
        ),
    ensures
        args.len() == 0,
        switches_to(cases@, otherwise, read(v, operand_value(env, s, op).1), to.0 as usize),
{
    let t = terminator(env, s, MTerm::SwitchInt(op, cases, otherwise)).1->Ok_0;
    let x = read(v, operand_value(env, s, op).1);
    let cs = cases@;
    lemma_cases(cs);
    if cs.len() == 1 && cs[0].0 == 0 {
        assert(wrapped(0, 64) == 0) by {
            vstd::arithmetic::power2::lemma_pow2_pos(64);
        }
        assert(wrapped(cs[0].0 as int, 64) == 0);
        if x == 0 {
            assert(first_case(cs, x, 0));
        } else {
            assert(no_case(cs, x));
        }
    } else {
        lemma_first(cs, x);
        if !none_equal(case_list(cs), x) {
            let i = choose|i: int| #[trigger]
                first_equal(case_list(cs), x, i) && to == case_list(cs)[i].1;
            assert(first_case(cs, x, i));
            assert(block_at(cs[i].1) == to);
        }
    }
}

/// A jump goes to its block.
pub proof fn jumps_keep_their_target(env: Env, s: State, n: usize, v: Reading, to: BlockId)
    requires
        n <= u32::MAX,
    ensures
        terminator(env, s, MTerm::Goto(n)).1 matches Ok(t) && (goes_to(t, v, to, Seq::empty())
            <==> to.0 == n),
{
}

/// An assertion goes on at its target where the condition has the expected value, and to the
/// block of failed assertions otherwise.
pub proof fn assertions_keep_their_outcome(
    env: Env,
    s: State,
    cond: MOperand,
    expected: bool,
    target: usize,
    v: Reading,
    to: BlockId,
)
    requires
        target <= u32::MAX,
    ensures
        ({
            let c = operand_value(env, State { panics: true, ..s }, cond).1;
            let met = (read(v, c) != 0) == expected;
            terminator(env, s, MTerm::Assert { cond, expected, target }).1 matches Ok(t) && (goes_to(
                t,
                v,
                to,
                Seq::empty(),
            ) <==> to.0 == if met {
                target as u32
            } else {
                env.panic_id
            })
        }),
{
}

/// After a call, control may go on at the return block and at the cleanup block, each where
/// there is one, and nowhere else.
pub proof fn calls_return_or_unwind(
    s: State,
    target: Option<usize>,
    unwind: Option<usize>,
    to: BlockId,
)
    requires
        target matches Some(t) ==> t <= u32::MAX,
        unwind matches Some(u) ==> u <= u32::MAX,
    ensures
        (exists|v: Reading| #[trigger] goes_to(call_edges(s, target, unwind).1, v, to, Seq::empty()))
            <==> (target == Some(to.0 as usize) || unwind == Some(to.0 as usize)),
{
    let t = call_edges(s, target, unwind).1;
    let yes = Reading { regs: |r: RegId| 1, symbols: |n: Seq<char>| 0, unknown: 0 };
    let no = Reading { regs: |r: RegId| 0, symbols: |n: Seq<char>| 0, unknown: 0 };
    if target == Some(to.0 as usize) {
        assert(goes_to(t, yes, to, Seq::empty()));
    } else if unwind == Some(to.0 as usize) {
        assert(goes_to(t, no, to, Seq::empty()));
    }
}

// ---- operators ----

/// A binary operator on patterns of `w` bits has a result. Comparisons are of unsigned
/// numbers.
pub open spec fn applies(kind: BinKind, x: int, y: int, w: nat, r: int) -> bool {
    match kind {
        BinKind::Add => 0 <= r < pow2(w) && (r - (x + y)) % (pow2(w) as int) == 0,
        BinKind::Sub => 0 <= r < pow2(w) && (r - (x - y)) % (pow2(w) as int) == 0,
        BinKind::Mul => 0 <= r < pow2(w) && (r - x * y) % (pow2(w) as int) == 0,
        BinKind::Lt => r == truth_bit(x < y),
        BinKind::Le => r == truth_bit(x <= y),
        BinKind::Gt => r == truth_bit(x > y),
        BinKind::Ge => r == truth_bit(x >= y),
        BinKind::Eq => r == truth_bit(x == y),
        BinKind::Ne => r == truth_bit(x != y),
        BinKind::BitAnd => 0 <= r < pow2(w) && forall|k: nat|
            k < w ==> (#[trigger] crate::meaning::bit(r, k) == (crate::meaning::bit(x, k)
                && crate::meaning::bit(y, k))),
        BinKind::BitOr => 0 <= r < pow2(w) && forall|k: nat|
            k < w ==> (#[trigger] crate::meaning::bit(r, k) == (crate::meaning::bit(x, k)
                || crate::meaning::bit(y, k))),
        BinKind::BitXor => 0 <= r < pow2(w) && forall|k: nat|
            k < w ==> (#[trigger] crate::meaning::bit(r, k) == (crate::meaning::bit(x, k)
                != crate::meaning::bit(y, k))),
        BinKind::Other => true,
    }
}

proof fn lemma_congruent(r: int, x: int, w: nat)
    ensures
        (0 <= r < pow2(w) && (r - x) % (pow2(w) as int) == 0) <==> (crate::meaning::pattern(r, w)
            && r == wrapped(x, w)),
{
    let p = pow2(w) as int;
    vstd::arithmetic::power2::lemma_pow2_pos(w);
    vstd::arithmetic::div_mod::lemma_mod_bound(x, p);
    if 0 <= r < p {
        vstd::arithmetic::div_mod::lemma_small_mod(r as nat, p as nat);
        vstd::arithmetic::div_mod::lemma_mod_equivalence(r, x, p);
    }
}

/// A lowered operator computes what the operator means.
pub proof fn operators_keep_their_meaning(
    kind: BinKind,
    lhs: Operand,
    rhs: Operand,
    v: Reading,
    w: nat,
    r: int,
)
    ensures
        match operation(kind, lhs, rhs) {
            Some(rv) => gives(rv, v, w, r) <==> applies(kind, read(v, lhs), read(v, rhs), w, r),
            None => kind == BinKind::Other,
        },
{
    let (x, y) = (read(v, lhs), read(v, rhs));
    lemma_congruent(r, x + y, w);
    lemma_congruent(r, x - y, w);
    lemma_congruent(r, x * y, w);
}

/// An assignment of a binary operation ends with the operation on the two operands, in their
/// order, into the destination.
pub proof fn binary_assignments_compute(
    env: Env,
    s: State,
    dst: RegId,
    kind: BinKind,
    a: MOperand,
    b: MOperand,
    v: Reading,
    r: int,
)
    requires
        kind != BinKind::Other,
    ensures
        ({
            let (s1, x) = operand_value(env, s, a);
            let (s2, y) = operand_value(env, s1, b);
            let out = rvalue_into(env, s, dst, MRvalue::Bin(kind, a, b)).out;
            &&& out.len() == s2.out.len() + 1
            &&& out.drop_last() == s2.out
            &&& out.last() matches InstView::Plain(Inst::Assign { dst: d, value, .. }) && d == dst
                && (gives(value, v, 64, r) <==> applies(kind, read(v, x), read(v, y), 64, r))
        }),
{
    let (s1, x) = operand_value(env, s, a);
    let (s2, y) = operand_value(env, s1, b);
    operators_keep_their_meaning(kind, x, y, v, 64, r);
    let out = rvalue_into(env, s, dst, MRvalue::Bin(kind, a, b)).out;
    assert(out.drop_last() =~= s2.out);
}

} // verus!
