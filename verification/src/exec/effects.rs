//! What branches and memory instructions mean for the values that take a path.

use crate::blast::{folding_keeps_values, holds, value, Valuation};
use crate::exec::check::{
    arith_checked, bulk_bounded, bulk_checked, bulk_goals, bulk_noted, dealloc_checked, in_range,
    opt_region, reads_source, region_at, side, site, source_of, within,
};
use crate::exec::eval::{pointer_of, scalar_of, zero, SceneView};
use crate::exec::flow::{back_edge, Flow};
use crate::exec::laws::{later, shown_bulk, shown_decided, shown_one};
use crate::exec::machine::{
    deciding, grounds, infeasible, proving, recorded_mem, Check, MachineView, RefuteMode,
};
use crate::exec::run::{case_guard, leaving, leaving_cases, leaving_if, no_case, Leaving};
use crate::exec::sound::{
    in_region, landing, lemma_add, lemma_equal, lemma_lit, lemma_proven_before, lemma_shown_holds,
    lemma_side, lemma_sle, lemma_takes_cond, lemma_truthful_before, number, proven_at, sized, takes,
    truthful, Landing,
};
use crate::exec::step::{stepped, summary_of};
use crate::exec::value::{premises, with_cond, PTR_WIDTH, PathView, Prov, SymPointer, SymValue};
use crate::expr::{bin, conj, equal, lit, negation, sle, width_of, zext, BvOp, Ex, Expr};
use crate::ir::{
    stride_of, stride_or_one, BitVector, BlockId, Callee, Inst, MemKind, Operand, RefResult, RegId,
    RegionKind, SafetyProperty, Terminator, Type,
};
use crate::meaning::{first_equal, goes_to, none_equal, read, signed, wrapped, Reading};
use crate::summary::SummaryView;
use std::rc::Rc;
use vstd::arithmetic::power2::pow2;
use vstd::prelude::*;

verus! {

// ---- branches ----

/// A cut branch has no execution.
proof fn lemma_cut(m: MachineView, s: PathView, g: Ex, v: Valuation)
    requires
        infeasible(m, s, g).1,
        truthful(infeasible(m, s, g).0),
        takes(s, v),
    ensures
        !holds(g, v),
{
    let e = infeasible(m, s, g).0;
    let j = m.dialogue.len() as int;
    assert(e.dialogue[j].1 == crate::exec::machine::Answer::Exact(true));
    assert(e.dialogue[j].0.goal == negation(g));
    assert(holds(negation(g), v));
    reveal_with_fuel(value, 2);
}

/// An edge that values take is among those that are followed.
pub open spec fn followed(
    out: Seq<Leaving>,
    s: PathView,
    to: u32,
    args: Seq<Operand>,
    v: Valuation,
) -> bool {
    exists|k: int| #[trigger] follows(out, s, to, args, v, k)
}

/// The edge at `k` goes to a block with arguments, from the state of the path, and its
/// condition holds.
pub open spec fn follows(
    out: Seq<Leaving>,
    s: PathView,
    to: u32,
    args: Seq<Operand>,
    v: Valuation,
    k: int,
) -> bool {
    &&& 0 <= k < out.len()
    &&& out[k].0 == to
    &&& out[k].1.state == s
    &&& out[k].1.args == args
    &&& out[k].1.guard is Some ==> holds(out[k].1.guard->0, v)
}

proof fn lemma_followed_more(
    a: Seq<Leaving>,
    b: Seq<Leaving>,
    s: PathView,
    to: u32,
    args: Seq<Operand>,
    v: Valuation,
)
    requires
        followed(a, s, to, args, v) || followed(b, s, to, args, v),
    ensures
        followed(a + b, s, to, args, v),
{
    if followed(a, s, to, args, v) {
        let k = choose|k: int| #[trigger] follows(a, s, to, args, v, k);
        assert(follows(a + b, s, to, args, v, k));
    } else {
        let k = choose|k: int| #[trigger] follows(b, s, to, args, v, k);
        assert((a + b)[a.len() + k] == b[k]);
        assert(follows(a + b, s, to, args, v, a.len() + k));
    }
}

proof fn lemma_leaving_if(
    flow: Flow,
    m: MachineView,
    s: PathView,
    source: u32,
    target: u32,
    g: Ex,
    args: Seq<Operand>,
    v: Valuation,
)
    requires
        truthful(leaving_if(flow, m, s, source, target, g, args).0),
        takes(s, v),
        holds(g, v),
        !back_edge(flow, source, target),
    ensures
        followed(leaving_if(flow, m, s, source, target, g, args).1, s, target, args, v),
{
    let (m1, dead) = infeasible(m, s, g);
    if dead {
        lemma_cut(m, s, g, v);
    }
    assert(follows(leaving_if(flow, m, s, source, target, g, args).1, s, target, args, v, 0));
}

proof fn lemma_case(x: Ex, c: BitVector, v: Valuation)
    ensures
        holds(case_guard(x, c), v) <==> value(x, v) == c.bits,
{
    lemma_equal(x, Rc::new(Expr::Const(c)), v);
}

proof fn lemma_conj_holds(s: Seq<Ex>, v: Valuation)
    requires
        forall|k: int| 0 <= k < s.len() ==> holds(#[trigger] s[k], v),
    ensures
        holds(conj(s), v),
    decreases s.len(),
{
    reveal_with_fuel(value, 2);
    if s.len() == 1 {
        assert(holds(s[0], v));
    } else if s.len() > 1 {
        let head = s.drop_last();
        assert forall|k: int| 0 <= k < head.len() implies holds(#[trigger] head[k], v) by {
            assert(holds(s[k], v));
        }
        lemma_conj_holds(head, v);
        assert(holds(s[s.len() - 1], v));
    }
}

proof fn lemma_cases(
    flow: Flow,
    m: MachineView,
    s: PathView,
    source: u32,
    x: Ex,
    cases: Seq<(BitVector, BlockId)>,
    n: int,
    i: int,
    v: Valuation,
)
    requires
        0 <= i < n <= cases.len(),
        truthful(leaving_cases(flow, m, s, source, x, cases, n).0),
        takes(s, v),
        cases[i].0.bits == value(x, v),
        !back_edge(flow, source, cases[i].1.0),
    ensures
        followed(
            leaving_cases(flow, m, s, source, x, cases, n).1,
            s,
            cases[i].1.0,
            Seq::empty(),
            v,
        ),
    decreases n,
{
    broadcast use {crate::exec::laws::group_values, crate::exec::laws::l_leaving_if};

    let (m1, out) = leaving_cases(flow, m, s, source, x, cases, n - 1);
    let (c, target) = cases[n - 1];
    let g = case_guard(x, c);
    let (m2, more) = leaving_if(flow, m1, s, source, target.0, g, Seq::empty());
    if i < n - 1 {
        lemma_truthful_before(m1, m2);
        lemma_cases(flow, m, s, source, x, cases, n - 1, i, v);
    } else {
        lemma_case(x, c, v);
        lemma_leaving_if(flow, m1, s, source, target.0, g, Seq::empty(), v);
    }
    lemma_followed_more(out, more, s, cases[i].1.0, Seq::empty(), v);
}

/// The operand that a terminator branches on.
pub open spec fn branched_on(t: Terminator) -> Option<Operand> {
    match t {
        Terminator::CondBr { cond, .. } => Some(cond),
        Terminator::Switch { value, .. } => Some(value),
        _ => None,
    }
}

/// No execution is lost at a branch: where values take the path and control goes on at a block,
/// the edge to it is followed, unless it goes back in a loop.
pub proof fn branches_lose_no_execution(
    flow: Flow,
    sc: SceneView,
    m: MachineView,
    s: PathView,
    source: u32,
    term: Terminator,
    r: Reading,
    to: BlockId,
    args: Seq<Operand>,
    v: Valuation,
)
    requires
        truthful(leaving(flow, sc, m, s, source, term).0),
        takes(s, v),
        branched_on(term) matches Some(op) ==> read(r, op) == value(scalar_of(sc, m, s, op).1, v),
        goes_to(term@, r, to, args),
        !back_edge(flow, source, to.0),
    ensures
        followed(leaving(flow, sc, m, s, source, term).1, s, to.0, args, v),
{
    broadcast use {crate::exec::laws::group_values, crate::exec::laws::l_leaving_if, crate::exec::laws::l_leaving_cases};

    let (e, out) = leaving(flow, sc, m, s, source, term);
    match term {
        Terminator::Br { target, args: given } => {
            assert(follows(out, s, to.0, args, v, 0));
        },
        Terminator::CondBr { cond, then_blk, then_args, else_blk, else_args } => {
            let (m1, c) = scalar_of(sc, m, s, cond);
            let (m2, a) = leaving_if(flow, m1, s, source, then_blk.0, c, then_args@);
            let (m3, b) = leaving_if(flow, m2, s, source, else_blk.0, negation(c), else_args@);
            lemma_truthful_before(m2, m3);
            if holds(c, v) {
                lemma_leaving_if(flow, m1, s, source, then_blk.0, c, then_args@, v);
            } else {
                assert(holds(negation(c), v)) by {
                    reveal_with_fuel(value, 2);
                }
                lemma_leaving_if(flow, m2, s, source, else_blk.0, negation(c), else_args@, v);
            }
            lemma_followed_more(a, b, s, to.0, args, v);
        },
        Terminator::Switch { value: op, cases, default } => {
            let (m1, x) = scalar_of(sc, m, s, op);
            let cs = cases@;
            let n = cs.len() as int;
            let (m2, a) = leaving_cases(flow, m1, s, source, x, cs, n);
            let g = no_case(x, cs);
            let (m3, b) = leaving_if(flow, m2, s, source, default.0, g, Seq::empty());
            lemma_truthful_before(m2, m3);
            assert(args =~= Seq::empty());
            if none_equal(cs, value(x, v) as int) && to == default {
                let gs = Seq::new(cs.len(), |i: int| negation(case_guard(x, cs[i].0)));
                assert forall|k: int| 0 <= k < gs.len() implies holds(#[trigger] gs[k], v) by {
                    lemma_case(x, cs[k].0, v);
                    reveal_with_fuel(value, 2);
                }
                lemma_conj_holds(gs, v);
                lemma_leaving_if(flow, m2, s, source, default.0, g, Seq::empty(), v);
            } else {
                let i = choose|i: int| #[trigger]
                    first_equal(cs, value(x, v) as int, i) && to == cs[i].1;
                lemma_cases(flow, m1, s, source, x, cs, n, i, v);
            }
            lemma_followed_more(a, b, s, to.0, args, v);
        },
        _ => {},
    }
}

/// Nothing is followed that no execution takes: where the condition of an edge of a two-way
/// branch holds, control goes on along it.
pub proof fn two_way_edges_are_taken(
    flow: Flow,
    sc: SceneView,
    m: MachineView,
    s: PathView,
    source: u32,
    term: Terminator,
    r: Reading,
    k: int,
    v: Valuation,
)
    requires
        term is Br || term is CondBr || term is Return || term is Unreachable,
        branched_on(term) matches Some(op) ==> read(r, op) == value(scalar_of(sc, m, s, op).1, v),
        0 <= k < leaving(flow, sc, m, s, source, term).1.len(),
        ({
            let e = leaving(flow, sc, m, s, source, term).1[k].1;
            e.guard is Some ==> holds(e.guard->0, v)
        }),
    ensures
        ({
            let (to, e) = leaving(flow, sc, m, s, source, term).1[k];
            e.state == s && goes_to(term@, r, BlockId(to), e.args)
        }),
{
    reveal_with_fuel(value, 2);
    if let Terminator::CondBr { cond, then_blk, then_args, else_blk, else_args } = term {
        let (m1, c) = scalar_of(sc, m, s, cond);
        let (m2, a) = leaving_if(flow, m1, s, source, then_blk.0, c, then_args@);
        let (m3, b) = leaving_if(flow, m2, s, source, else_blk.0, negation(c), else_args@);
        let out = a + b;
        if k < a.len() {
            assert(out[k] == a[k]);
        } else {
            assert(out[k] == b[k - a.len()]);
        }
    }
}

// ---- allocations and pointer arithmetic ----

pub(crate) proof fn lemma_mul(a: Ex, n: u64, v: Valuation)
    requires
        width_of(a) == 64,
    ensures
        value(bin(BvOp::Mul, a, lit(PTR_WIDTH, n as u128)), v) == wrapped(value(a, v) * n, 64),
        width_of(bin(BvOp::Mul, a, lit(PTR_WIDTH, n as u128))) == 64,
{
    let b = lit(PTR_WIDTH, n as u128);
    lemma_lit(n, v);
    folding_keeps_values(BvOp::Mul, a, b, v);
    reveal_with_fuel(value, 2);
    reveal_with_fuel(width_of, 2);
    vstd::arithmetic::power2::lemma_pow2_pos(64);
    vstd::arithmetic::div_mod::lemma_mod_bound((value(a, v) * n) as int, pow2(64) as int);
}

/// An allocation makes a region of its own: live, as large as its elements together, readable,
/// and writable unless it is global. The register points to its start, and nothing else changes
/// but that the size is known not to be negative.
pub proof fn allocations_make_regions(
    sc: SceneView,
    sums: Map<u32, SummaryView>,
    m: MachineView,
    s: PathView,
    at: Check,
    dst: RegId,
    region: RegionKind,
    elem: Type,
    count: Operand,
    align: u32,
    v: Valuation,
)
    requires
        s.regions.len() < usize::MAX,
        0 < stride_of(elem) <= u64::MAX,
        width_of(scalar_of(sc, m, s, count).1) == 64,
    ensures
        ({
            let n = scalar_of(sc, m, s, count).1;
            let (e, s1) = stepped(sc, sums, m, s, at, Inst::Alloc { dst, region, elem, count, align });
            let k = s.regions.len() as int;
            let r = s1.regions[k];
            &&& s1.regions.len() == k + 1
            &&& s1.regions.drop_last() == s.regions
            &&& r.live && r.readable && (r.writable <==> region != RegionKind::Global)
            &&& r.kind == region && r.contract is None && !r.user_controlled
            &&& value(r.size, v) == wrapped(value(n, v) * stride_of(elem), 64)
            &&& s1.env.contains_key(dst.0)
            &&& s1.env == s.env.insert(dst.0, s1.env[dst.0])
            &&& s1.env[dst.0] matches SymValue::Ptr(p) && landing(p, v) == (Landing {
                region: Some(k as usize),
                offset: 0,
                align: align as u64,
            })
            &&& s1.heap == s.heap
            &&& s1.exact == s.exact
            &&& (takes(s1, v) <==> takes(s, v) && number(r.size, v) >= 0)
        }),
{
    let (m1, n) = scalar_of(sc, m, s, count);
    let (e, s1) = stepped(sc, sums, m, s, at, Inst::Alloc { dst, region, elem, count, align });
    let stride = stride_or_one(elem);
    let k = s.regions.len() as int;
    let size = s1.regions[k].size;
    lemma_mul(n, stride, v);
    lemma_lit(0, v);
    assert(s1.regions.drop_last() =~= s.regions);
    let fact = sle(zero(), size);
    lemma_sle(zero(), size, v);
    assert(number(zero(), v) == 0) by {
        vstd::arithmetic::power2::lemma2_to64();
    }
    assert(premises(s1) =~= premises(s).push(fact));
    assert(holds(fact, v) <==> number(size, v) >= 0);
    if takes(s1, v) {
        assert forall|i: int| 0 <= i < premises(s).len() implies holds(#[trigger] premises(s)[i], v) by {
            assert(holds(premises(s1)[i], v));
        }
        assert(holds(premises(s1)[premises(s).len() as int], v));
    }
    if takes(s, v) && number(size, v) >= 0 {
        assert forall|i: int| 0 <= i < premises(s1).len() implies holds(
            #[trigger] premises(s1)[i],
            v,
        ) by {
            if i < premises(s).len() {
                assert(holds(premises(s)[i], v));
            }
        }
    }
}

/// Pointer arithmetic moves a pointer within its region by whole elements, modulo the address
/// space, and changes nothing else.
pub proof fn pointers_move_by_elements(
    sc: SceneView,
    sums: Map<u32, SummaryView>,
    m: MachineView,
    s: PathView,
    at: Check,
    dst: RegId,
    base: Operand,
    index: Operand,
    elem: Type,
    v: Valuation,
)
    requires
        0 < stride_of(elem) <= u64::MAX,
        sized(pointer_of(sc, m, s, base).1),
        ({
            let (m1, b) = pointer_of(sc, m, s, base);
            width_of(scalar_of(sc, m1, s, index).1) == 64
        }),
    ensures
        ({
            let (m1, b) = pointer_of(sc, m, s, base);
            let i = scalar_of(sc, m1, s, index).1;
            let (e, s1) = stepped(sc, sums, m, s, at, Inst::PtrOffset { dst, base, index, elem });
            &&& s1.env.contains_key(dst.0)
            &&& s1 == (PathView { env: s.env.insert(dst.0, s1.env[dst.0]), ..s })
            &&& s1.env[dst.0] matches SymValue::Ptr(p) && sized(p) && landing(p, v).region == landing(
                b,
                v,
            ).region && landing(p, v).offset == wrapped(
                landing(b, v).offset + value(i, v) * stride_of(elem),
                64,
            )
        }),
{
    let (m1, b) = pointer_of(sc, m, s, base);
    let i = scalar_of(sc, m1, s, index).1;
    let stride = stride_or_one(elem);
    let delta = bin(BvOp::Mul, i, lit(PTR_WIDTH, stride as u128));
    lemma_mul(i, stride, v);
    lemma_add(b.offset, delta, v);
    let (e, s1) = stepped(sc, sums, m, s, at, Inst::PtrOffset { dst, base, index, elem });
    let p = s1.env[dst.0]->Ptr_0;
    lemma_side(b, delta, v);
    assert(landing(p, v).region == landing(side(b, delta), v).region && landing(p, v).offset
        == landing(side(b, delta), v).offset) by {
        assert(p.prov == b.prov && p.offset == side(b, delta).offset);
    }
    let x = value(i, v) * stride_of(elem);
    vstd::arithmetic::power2::lemma_pow2_pos(64);
    vstd::arithmetic::div_mod::lemma_add_mod_noop_right(
        landing(b, v).offset,
        x,
        pow2(64) as int,
    );
    assert(s1 =~= (PathView { env: s.env.insert(dst.0, s1.env[dst.0]), ..s }));
}

/// A landing lies within its region or at its end.
pub open spec fn inside(s: PathView, l: Landing, v: Valuation) -> bool {
    &&& in_region(s, l)
    &&& 0 <= signed(l.offset, 64) <= number(s.regions[l.region->0 as int].size, v)
}

/// Pointer arithmetic that is proved valid stays within the region, or at its end.
pub proof fn proven_arithmetic_stays_inside(
    m: MachineView,
    s: PathView,
    at: Check,
    p: SymPointer,
    v: Valuation,
)
    requires
        sized(p),
        proven_at(arith_checked(m, s, at, p), site(at, SafetyProperty::ValidPointerArith)),
        truthful(arith_checked(m, s, at, p)),
        takes(s, v),
    ensures
        inside(s, landing(p, v), v),
    decreases p.prov,
{
    broadcast use crate::exec::laws::group_values;

    let o = site(at, SafetyProperty::ValidPointerArith);
    let e = arith_checked(m, s, at, p);
    match p.prov {
        Prov::Select { cond, then_ptr, else_ptr } => {
            let a = side(*then_ptr, p.offset);
            let b = side(*else_ptr, p.offset);
            let sa = with_cond(s, cond);
            let sb = with_cond(s, negation(cond));
            let m1 = arith_checked(m, sa, at, a);
            lemma_side(*then_ptr, p.offset, v);
            lemma_side(*else_ptr, p.offset, v);
            crate::exec::laws::l_arith(m, sa, at, a);
            crate::exec::laws::l_arith(m1, sb, at, b);
            if holds(cond, v) {
                lemma_takes_cond(s, cond, v);
                lemma_truthful_before(m1, e);
                lemma_arith_decides(m, sa, at, a);
                lemma_proven_before(m1, e, o);
                proven_arithmetic_stays_inside(m, sa, at, a, v);
                assert(inside(sa, landing(a, v), v));
            } else {
                assert(holds(negation(cond), v)) by {
                    reveal_with_fuel(value, 2);
                }
                lemma_takes_cond(s, negation(cond), v);
                proven_arithmetic_stays_inside(m1, sb, at, b, v);
                assert(inside(sb, landing(b, v), v));
            }
        },
        _ => {
            if let Some(r) = region_at(s, p.prov) {
                let goals = in_range(p.offset, r.size);
                let (m1, d) = deciding(m, s, goals, RefuteMode::Off, Seq::empty());
                shown_decided(m, s, goals, RefuteMode::Off, Seq::empty());
                assert(later(m1, e));
                lemma_truthful_before(m1, e);
                assert(d is Proven);
                lemma_shown_holds(m1, s, goals, v);
                assert(holds(goals[0], v) && holds(goals[1], v));
                lemma_lit(0, v);
                lemma_sle(zero(), p.offset, v);
                lemma_sle(p.offset, r.size, v);
                vstd::arithmetic::power2::lemma2_to64();
            }
        },
    }
}

proof fn lemma_arith_decides(m: MachineView, s: PathView, at: Check, p: SymPointer)
    ensures
        arith_checked(m, s, at, p).mem.contains_key(site(at, SafetyProperty::ValidPointerArith)),
    decreases p.prov,
{
    if let Prov::Select { cond, then_ptr, else_ptr } = p.prov {
        let m1 = arith_checked(m, with_cond(s, cond), at, side(*then_ptr, p.offset));
        lemma_arith_decides(m1, with_cond(s, negation(cond)), at, side(*else_ptr, p.offset));
    }
}

// ---- deallocations ----

/// Memory that is proved to be freed rightly is heap memory that was allocated on the path, not
/// freed yet, and freed by its start; afterwards it is freed, and nothing else changes.
pub proof fn proven_deallocations_are_right(
    m: MachineView,
    s: PathView,
    at: Check,
    p: SymPointer,
    v: Valuation,
)
    requires
        proven_at(dealloc_checked(m, s, at, p).0, site(at, SafetyProperty::NoDoubleFree)),
        truthful(dealloc_checked(m, s, at, p).0),
        takes(s, v),
    ensures
        ({
            let l = landing(p, v);
            let r = s.regions[l.region->0 as int];
            let s1 = dealloc_checked(m, s, at, p).1;
            &&& in_region(s, l)
            &&& l.offset == 0
            &&& r.kind == RegionKind::Heap && r.live && r.contract is None
            &&& s1.regions.len() == s.regions.len()
            &&& !s1.regions[l.region->0 as int].live
            &&& forall|i: int|
                0 <= i < s.regions.len() && i != l.region->0 ==> #[trigger] s1.regions[i]
                    == s.regions[i]
            &&& s1 == (PathView { regions: s1.regions, ..s })
        }),
{
    broadcast use crate::exec::laws::group_values;

    let e = dealloc_checked(m, s, at, p).0;
    if let Some(r) = region_at(s, p.prov) {
        if r.contract is None && r.kind == RegionKind::Heap && r.live {
            let goal = equal(p.offset, zero());
            let (m1, at_base) = proving(m, s, goal);
            assert(at_base);
            shown_one(m, s, goal);
            assert(later(m1, e));
            lemma_truthful_before(m1, e);
            lemma_shown_holds(m1, s, seq![goal], v);
            assert(holds(seq![goal][0], v));
            lemma_equal(p.offset, zero(), v);
            lemma_lit(0, v);
        }
    }
}

// ---- bulk operations ----

proof fn lemma_within_len(offset: Ex, len: Ex, size: Ex, v: Valuation)
    requires
        width_of(offset) == 64,
        forall|k: int| 0 <= k < 2 ==> holds(#[trigger] within(offset, len, size)[k], v),
    ensures
        0 <= number(offset, v),
        signed(wrapped((value(offset, v) + value(len, v)) as int, 64), 64) <= number(size, v),
{
    let g = within(offset, len, size);
    assert(holds(g[0], v) && holds(g[1], v));
    lemma_lit(0, v);
    lemma_add(offset, len, v);
    lemma_sle(zero(), offset, v);
    lemma_sle(bin(BvOp::Add, offset, len), size, v);
    vstd::arithmetic::power2::lemma2_to64();
}

/// `n` bytes from a pointer on lie within its region: they do not begin before it, and their end,
/// as a number of 64 bits, is at most its size.
pub open spec fn spans_within(s: PathView, p: SymPointer, n: int, v: Valuation) -> bool {
    let l = landing(p, v);
    &&& in_region(s, l)
    &&& 0 <= signed(l.offset, 64)
    &&& signed(wrapped(l.offset + n, 64), 64) <= number(s.regions[l.region->0 as int].size, v)
}

proof fn lemma_zext(e: Ex, v: Valuation)
    ensures
        value(zext(e, PTR_WIDTH), v) == value(e, v),
{
    reveal_with_fuel(value, 2);
}

/// A bulk operation that is proved to stay in bounds does: as many bytes as it is given lie
/// within the region of the destination, and within that of the source where it reads one.
pub proof fn proven_copies_stay_in_bounds(
    sc: SceneView,
    m: MachineView,
    s: PathView,
    at: Check,
    kind: MemKind,
    dst: Operand,
    src: Option<Operand>,
    len: Operand,
    v: Valuation,
)
    requires
        ({
            let (m1, d) = pointer_of(sc, m, s, dst);
            let (m2, n) = scalar_of(sc, m1, s, len);
            let p = source_of(sc, m2, s, kind, src).1;
            sized(d) && (p is Some ==> sized(p->0))
        }),
        proven_at(
            bulk_checked(sc, m, s, at, kind, dst, src, len),
            site(at, SafetyProperty::InBounds),
        ),
        truthful(bulk_checked(sc, m, s, at, kind, dst, src, len)),
        takes(s, v),
    ensures
        ({
            let (m1, d) = pointer_of(sc, m, s, dst);
            let (m2, n) = scalar_of(sc, m1, s, len);
            let p = source_of(sc, m2, s, kind, src).1;
            &&& spans_within(s, d, value(n, v) as int, v)
            &&& (kind == MemKind::Copy || kind == MemKind::Move) ==> p is Some && spans_within(
                s,
                p->0,
                value(n, v) as int,
                v,
            )
        }),
{
    broadcast use {crate::exec::laws::group_values, crate::exec::laws::l_source, crate::exec::laws::l_bulk_bounded, crate::exec::laws::shown_bulk, crate::exec::laws::countered_bulk};

    let (m1, d) = pointer_of(sc, m, s, dst);
    let (m2, n) = scalar_of(sc, m1, s, len);
    let (m3, p) = source_of(sc, m2, s, kind, src);
    let need = reads_source(kind);
    let m5 = bulk_noted(m3, s, at, d, p, need);
    let wide = zext(n, PTR_WIDTH);
    let (m7, dd) = bulk_bounded(m5, s, d, p, wide, need);
    let goals = bulk_goals(s, d, p, wide, need);
    let o = site(at, SafetyProperty::InBounds);
    let m8 = recorded_mem(
        m7,
        grounds(s, goals),
        o,
        dd,
        "the copy stays within both regions",
        "could not prove the copy stays in bounds",
    );
    let e = bulk_checked(sc, m, s, at, kind, dst, src, len);
    assert(later(m8, e));
    assert(later(m7, e));
    lemma_proven_before(m8, e, o);
    assert(dd is Proven);
    shown_bulk(m5, s, d, p, wide, need);
    lemma_truthful_before(m7, e);
    lemma_shown_holds(m7, s, goals, v);
    lemma_zext(n, v);
    let r = region_at(s, d.prov)->0;
    let target = within(d.offset, wide, r.size);
    assert forall|k: int| 0 <= k < 2 implies holds(#[trigger] target[k], v) by {
        assert(goals[k] == target[k]);
    }
    lemma_within_len(d.offset, wide, r.size, v);
    if need {
        let q = opt_region(s, p)->0;
        let source = within((p->0).offset, wide, q.size);
        assert forall|k: int| 0 <= k < 2 implies holds(#[trigger] source[k], v) by {
            assert(goals[k + 2] == source[k]);
        }
        lemma_within_len((p->0).offset, wide, q.size, v);
    }
}

// ---- calls ----

/// After a call whose effects are not known, no store is remembered and no heap memory of the
/// path is known to be live; the path is no longer exact.
pub proof fn unknown_calls_forget_memory(
    sc: SceneView,
    sums: Map<u32, SummaryView>,
    m: MachineView,
    s: PathView,
    at: Check,
    dst: Option<RegId>,
    callee: Callee,
    args: Vec<Operand>,
    ret_ty: Type,
    ret_ref: Option<RefResult>,
    i: int,
)
    requires
        summary_of(sums, callee) is None,
        0 <= i < s.regions.len(),
    ensures
        ({
            let s1 = stepped(
                sc,
                sums,
                m,
                s,
                at,
                Inst::Call { dst, callee, args, ret_ty, ret_ref },
            ).1;
            &&& s1.heap.len() == 0
            &&& !s1.exact
            &&& i < s1.regions.len()
            &&& s.regions[i].kind == RegionKind::Heap && s.regions[i].contract is None
                ==> !s1.regions[i].live
        }),
{
}

/// A call keeps what its summary says that it keeps: the stores unless it writes or frees, and
/// the liveness of memory unless it frees.
pub proof fn calls_keep_what_summaries_say(
    sc: SceneView,
    sums: Map<u32, SummaryView>,
    m: MachineView,
    s: PathView,
    at: Check,
    dst: Option<RegId>,
    callee: Callee,
    args: Vec<Operand>,
    ret_ty: Type,
    ret_ref: Option<RefResult>,
)
    requires
        summary_of(sums, callee) is Some,
    ensures
        ({
            let s1 = stepped(
                sc,
                sums,
                m,
                s,
                at,
                Inst::Call { dst, callee, args, ret_ty, ret_ref },
            ).1;
            let x = summary_of(sums, callee)->0;
            &&& x.writes || x.frees ==> s1.heap.len() == 0
            &&& !x.writes && !x.frees ==> s1.heap == s.heap
            &&& x.frees ==> forall|i: int|
                0 <= i < s.regions.len() && (#[trigger] s.regions[i]).kind == RegionKind::Heap
                    && s.regions[i].contract is None ==> !s1.regions[i].live
            &&& !x.frees ==> s1.regions == s.regions
            &&& forall|r: u32| dst != Some(RegId(r)) ==> (#[trigger] s1.env.contains_key(r)
                <==> s.env.contains_key(r)) && (s.env.contains_key(r) ==> s1.env[r] == s.env[r])
            &&& premises(s1) == premises(s)
        }),
{
}

} // verus!
