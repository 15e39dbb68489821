//! What entering a loop means for the values of its iterations.

use crate::blast::{holds, value, Valuation};
use crate::exec::eval::{scalar_of, value_of, zero, SceneView};
use crate::exec::evaluation::operations_are_evaluated;
use crate::exec::flow::{defined_in, loop_at, modified_in, modified_regs, Flow, Interval};
use crate::exec::flow::{EqExit, PtrWalk};
use crate::exec::havoc::{
    differing, exit_bounded, exit_gate, exits_bounded, exits_captured, havocked, havocked_regs,
    kept_bounded, kept_numbers, lists_at, loop_entered, on_grid, walk_gate, walks_bounded,
    walks_captured, with_nowrap, within_interval, ExitCapture, WalkCapture, isize_max,
    last_offset, scan_bounded, walk_bounded, walk_facts,
};
use crate::exec::laws::shown_all;
use crate::exec::machine::{fresh_scalar, proving_all, MachineView};
use crate::exec::effects::lemma_mul;
use crate::exec::shapes::{body_of, ScanBound};
use crate::exec::sound::{
    landing, lemma_add, lemma_equal, lemma_lit, lemma_shown_holds, lemma_sle, number, takes, truthful,
};
use crate::exec::step::{inexact, without_stores};
use crate::exec::value::{premises, with_fact, PTR_WIDTH, PathView, SymValue};
use crate::expr::{bin, lit, sge, sle, width_of, BvOp, Ex, Expr, Symbol};
use crate::ir::{block_with, defined, BinOp, BlockId, Function, RegId, RegionKind};
use crate::llvm::slices::power_of_two;
use crate::meaning::{bit, wrapped};
use crate::sorted::{ascending, increasing};
use vstd::arithmetic::power2::{lemma_pow2_adds, lemma_pow2_pos, lemma_pow2_unfold, pow2};
use vstd::prelude::*;

verus! {

// ---- what is forgotten ----

/// A variable that was made from a number of variables on.
pub open spec fn made_since(e: Ex, n: u64) -> bool {
    match *e {
        Expr::Sym { name: Symbol::Fresh(k), .. } => k >= n,
        Expr::Sym { name: Symbol::Ind(k), .. } => k >= n,
        _ => false,
    }
}

/// Nothing is left of what a value was: it is a new variable, a pointer that is not followed,
/// or one at a new offset.
pub open spec fn renewed(x: SymValue, n: u64) -> bool {
    match x {
        SymValue::Scalar(e) => made_since(e, n),
        SymValue::Ptr(p) => p.prov is Unknown || made_since(p.offset, n),
    }
}

proof fn lemma_ascending_has(p: spec_fn(int) -> bool, n: nat)
    ensures
        increasing(ascending(p, n)),
        forall|x: int| #[trigger] ascending(p, n).contains(x) <==> 0 <= x < n && p(x),
    decreases n,
{
    if n > 0 {
        let s = ascending(p, (n - 1) as nat);
        lemma_ascending_has(p, (n - 1) as nat);
        let t = ascending(p, n);
        assert forall|i: int, j: int| 0 <= i < j < t.len() implies t[i] < t[j] by {
            if j == s.len() {
                assert(s.contains(s[i]));
            }
        }
        assert forall|x: int| #[trigger] t.contains(x) <==> 0 <= x < n && p(x) by {
            if t.contains(x) {
                let i = choose|i: int| 0 <= i < t.len() && t[i] == x;
                if i < s.len() {
                    assert(s[i] == x);
                    assert(s.contains(x));
                }
            }
            if 0 <= x < n && p(x) {
                if x < n - 1 {
                    assert(s.contains(x));
                    let i = choose|i: int| 0 <= i < s.len() && s[i] == x;
                    assert(t[i] == x);
                } else {
                    assert(t[s.len() as int] == x);
                }
            }
        }
    }
}

proof fn lemma_havocked_regs(
    f: Function,
    flow: Flow,
    m: MachineView,
    s: PathView,
    header: u32,
    regs: Seq<int>,
    n: int,
)
    requires
        0 <= n <= regs.len(),
        increasing(regs),
        forall|i: int| 0 <= i < regs.len() ==> 0 <= #[trigger] regs[i] <= u32::MAX,
    ensures
        ({
            let (m1, s1) = havocked_regs(f, flow, m, s, header, regs, n);
            &&& m1.fresh >= m.fresh
            &&& s1.heap == s.heap && s1.regions == s.regions && s1.exact == s.exact
            &&& forall|r: u32| #[trigger] s1.env.contains_key(r) <==> s.env.contains_key(r)
            &&& forall|i: int|
                0 <= i < n && s.env.contains_key(#[trigger] regs[i] as u32) ==> renewed(
                    s1.env[regs[i] as u32],
                    m.fresh,
                )
            &&& forall|r: u32|
                (forall|i: int| 0 <= i < n ==> #[trigger] regs[i] != r) && #[trigger]
                s1.env.contains_key(r) ==> s1.env[r] == s.env[r]
        }),
    decreases n,
{
    if n > 0 {
        lemma_havocked_regs(f, flow, m, s, header, regs, n - 1);
        let (m1, s1) = havocked_regs(f, flow, m, s, header, regs, n - 1);
        let (m2, s2) = havocked_regs(f, flow, m, s, header, regs, n);
        let r = regs[n - 1] as u32;
        assert forall|i: int| 0 <= i < n && s.env.contains_key(#[trigger] regs[i] as u32) implies renewed(
            s2.env[regs[i] as u32],
            m.fresh,
        ) by {
            if i < n - 1 {
                assert(regs[i] < regs[n - 1]);
                assert(renewed(s1.env[regs[i] as u32], m.fresh));
            }
        }
        assert forall|x: u32|
            (forall|i: int| 0 <= i < n ==> #[trigger] regs[i] != x) && #[trigger]
            s2.env.contains_key(x) implies s2.env[x] == s.env[x] by {
            assert(regs[n - 1] != x);
            assert(s1.env.contains_key(x));
            assert forall|i: int| 0 <= i < n - 1 implies #[trigger] regs[i] != x by {}
        }
    }
}

proof fn lemma_scalar_fresh(sc: SceneView, m: MachineView, s: PathView, op: crate::ir::Operand)
    ensures
        scalar_of(sc, m, s, op).0.fresh >= m.fresh,
        value_of(sc, m, s, op).0.fresh >= m.fresh,
{
}

proof fn lemma_exits_fresh(sc: SceneView, m: MachineView, s: PathView, xs: Seq<EqExit>, n: int)
    ensures
        exits_captured(sc, m, s, xs, n).0.fresh >= m.fresh,
    decreases n,
{
    if n > 0 {
        lemma_exits_fresh(sc, m, s, xs, n - 1);
        lemma_scalar_fresh(sc, exits_captured(sc, m, s, xs, n - 1).0, s, xs[n - 1].bound);
    }
}

proof fn lemma_walks_fresh(sc: SceneView, m: MachineView, s: PathView, ws: Seq<PtrWalk>, n: int)
    ensures
        walks_captured(sc, m, s, ws, n).0.fresh >= m.fresh,
    decreases n,
{
    if n > 0 {
        lemma_walks_fresh(sc, m, s, ws, n - 1);
        lemma_scalar_fresh(sc, walks_captured(sc, m, s, ws, n - 1).0, s, ws[n - 1].end);
    }
}

/// States that agree but for conditions and facts.
spec fn only_facts(a: PathView, b: PathView) -> bool {
    a.env == b.env && a.regions == b.regions && a.heap == b.heap && a.exact == b.exact && a.pathcond
        == b.pathcond
}

proof fn lemma_kept_bounded(flow: Flow, s: PathView, header: u32, kept: Seq<int>, n: int)
    ensures
        only_facts(s, kept_bounded(flow, s, header, kept, n)),
    decreases n,
{
    if n > 0 {
        lemma_kept_bounded(flow, s, header, kept, n - 1);
    }
}

proof fn lemma_differing(s: PathView, ds: Seq<(u32, u32, i128)>, n: int)
    ensures
        only_facts(s, differing(s, ds, n)),
    decreases n,
{
    if n > 0 {
        lemma_differing(s, ds, n - 1);
    }
}

proof fn lemma_proving_fresh(m: MachineView, s: PathView, gs: Seq<Ex>, i: int)
    ensures
        proving_all(m, s, gs, i).0.fresh == m.fresh,
    decreases gs.len() - i,
{
    if 0 <= i < gs.len() {
        lemma_proving_fresh(crate::exec::machine::proving(m, s, gs[i]).0, s, gs, i + 1);
    }
}

proof fn lemma_exits_bounded(m: MachineView, s: PathView, cs: Seq<ExitCapture>, n: int)
    ensures
        only_facts(s, exits_bounded(m, s, cs, n).1),
        exits_bounded(m, s, cs, n).0.fresh == m.fresh,
    decreases n,
{
    if n > 0 {
        lemma_exits_bounded(m, s, cs, n - 1);
        let (m1, s1) = exits_bounded(m, s, cs, n - 1);
        let c = cs[n - 1];
        lemma_proving_fresh(m1, s1, exit_gate(c.start, c.bound, c.stride), 0);
    }
}

proof fn lemma_walks_bounded(m: MachineView, s: PathView, cs: Seq<WalkCapture>, n: int)
    ensures
        ({
            let (m1, s1) = walks_bounded(m, s, cs, n);
            &&& m1.fresh >= m.fresh
            &&& s1.heap == s.heap && s1.regions == s.regions && s1.exact == s.exact
            &&& forall|r: u32| #[trigger]
                s.env.contains_key(r) ==> s1.env.contains_key(r) && (s1.env[r] == s.env[r]
                    || renewed(s1.env[r], m.fresh))
        }),
    decreases n,
{
    if n > 0 {
        lemma_walks_bounded(m, s, cs, n - 1);
        let (m1, s1) = walks_bounded(m, s, cs, n - 1);
        let c = cs[n - 1];
        lemma_proving_fresh(m1, with_nowrap(s1, c.region), walk_gate(c), 0);
    }
}

/// A loop sets a register: as the parameter or by an instruction of one of its blocks.
pub open spec fn loop_sets(f: Function, flow: Flow, header: u32, r: u32) -> bool {
    loop_at(flow.loops@, header) matches Some(l) && exists|i: int|
        0 <= i < l.body@.len() && block_sets(f, #[trigger] l.body@[i], r)
}

/// A block sets a register.
pub open spec fn block_sets(f: Function, block: u32, r: u32) -> bool {
    block_with(f.blocks@, BlockId(block)) matches Some(b) && ((exists|k: int|
        0 <= k < b.params@.len() && (#[trigger] b.params@[k]).0 == RegId(r)) || (exists|k: int|
        0 <= k < b.insts@.len() && defined(#[trigger] b.insts@[k]) == Some(RegId(r))))
}

/// A loop frees memory: some instruction of its blocks does.
pub open spec fn loop_may_free(f: Function, flow: Flow, header: u32) -> bool {
    loop_at(flow.loops@, header) matches Some(l) && exists|i: int, k: int|
        #![trigger dealloc_at(f, l.body@[i], k)]
        0 <= i < l.body@.len() && dealloc_at(f, l.body@[i], k)
}

/// An instruction of a block frees memory.
pub open spec fn dealloc_at(f: Function, block: u32, k: int) -> bool {
    block_with(f.blocks@, BlockId(block)) matches Some(b) && 0 <= k < b.insts@.len() && b.insts@[k]
        is Dealloc
}

/// Entering a loop forgets what its iterations may change: nothing is left of the value of a
/// register that the loop sets, no store is remembered, the path is no longer exact, and where
/// the loop frees memory, no heap memory of the path is known to be live. A register that the
/// loop does not set keeps its value, unless it is a pointer that is known to walk a region.
pub proof fn loops_forget_what_they_change(
    f: Function,
    flow: Flow,
    sc: SceneView,
    m: MachineView,
    s: PathView,
    header: u32,
)
    ensures
        ({
            let s1 = havocked(f, flow, sc, m, s, header).1;
            &&& forall|r: u32| #[trigger]
                s.env.contains_key(r) ==> s1.env.contains_key(r) && (loop_sets(f, flow, header, r)
                    ==> renewed(s1.env[r], m.fresh)) && (s1.env[r] == s.env[r] || renewed(
                    s1.env[r],
                    m.fresh,
                ))
            &&& s1.heap.len() == 0
            &&& !s1.exact
            &&& s1.regions.len() == s.regions.len()
            &&& loop_may_free(f, flow, header) ==> forall|i: int|
                0 <= i < s.regions.len() && (#[trigger] s.regions[i]).kind == RegionKind::Heap
                    && s.regions[i].contract is None ==> !s1.regions[i].live
        }),
{
    let (exits, walks, diffs) = lists_at(flow, header);
    let s0 = without_stores(inexact(s));
    let (m1, ecs) = exits_captured(sc, m, s0, exits, exits.len() as int);
    let (m2, wcs) = walks_captured(sc, m1, s0, walks, walks.len() as int);
    lemma_exits_fresh(sc, m, s0, exits, exits.len() as int);
    lemma_walks_fresh(sc, m1, s0, walks, walks.len() as int);
    let a = loop_entered(f, flow, s, header);
    let body = body_of(flow, header);
    let p = |r: int| modified_in(f, body, r as u32);
    let regs = modified_regs(f, body);
    lemma_ascending_has(p, 0x1_0000_0000);
    assert forall|i: int| 0 <= i < regs.len() implies 0 <= #[trigger] regs[i] <= u32::MAX by {
        assert(regs.contains(regs[i]));
    }
    lemma_havocked_regs(f, flow, m2, a, header, regs, regs.len() as int);
    let (m3, s2) = havocked_regs(f, flow, m2, a, header, regs, regs.len() as int);
    let kept = kept_numbers(s2.env, regs);
    lemma_kept_bounded(flow, s2, header, kept, kept.len() as int);
    let s3 = kept_bounded(flow, s2, header, kept, kept.len() as int);
    lemma_differing(s3, diffs, diffs.len() as int);
    let s4 = differing(s3, diffs, diffs.len() as int);
    lemma_exits_bounded(m3, s4, ecs, ecs.len() as int);
    let (m4, s5) = exits_bounded(m3, s4, ecs, ecs.len() as int);
    lemma_walks_bounded(m4, s5, wcs, wcs.len() as int);
    let (m5, s6) = walks_bounded(m4, s5, wcs, wcs.len() as int);
    let end = havocked(f, flow, sc, m, s, header).1;
    assert(end.env == s6.env && end.heap == s6.heap && end.regions == s6.regions && end.exact
        == s6.exact);
    assert forall|r: u32| #[trigger] s.env.contains_key(r) implies end.env.contains_key(r) && (
    loop_sets(f, flow, header, r) ==> renewed(end.env[r], m.fresh)) && (end.env[r] == s.env[r]
        || renewed(end.env[r], m.fresh)) by {
        assert(a.env.contains_key(r));
        assert(s2.env.contains_key(r));
        if loop_sets(f, flow, header, r) {
            let l = loop_at(flow.loops@, header)->0;
            let i = choose|i: int| 0 <= i < l.body@.len() && block_sets(f, #[trigger] l.body@[i], r);
            assert(defined_in(f, body[i], r)) by {
                let b = block_with(f.blocks@, BlockId(body[i]))->0;
                if exists|k: int| 0 <= k < b.params@.len() && (#[trigger] b.params@[k]).0 == RegId(r) {
                    let k = choose|k: int|
                        0 <= k < b.params@.len() && (#[trigger] b.params@[k]).0 == RegId(r);
                    assert((b.params@[k].0).0 == r);
                }
            }
            assert(p(r as int));
            assert(regs.contains(r as int));
            let k = choose|k: int| 0 <= k < regs.len() && regs[k] == r as int;
            assert(a.env.contains_key(regs[k] as u32));
            assert(renewed(s2.env[regs[k] as u32], m2.fresh));
        }
        if regs.contains(r as int) {
            let k = choose|k: int| 0 <= k < regs.len() && regs[k] == r as int;
            assert(a.env.contains_key(regs[k] as u32));
            assert(renewed(s2.env[regs[k] as u32], m2.fresh));
        } else {
            assert forall|i: int| 0 <= i < regs.len() implies #[trigger] regs[i] != r by {
                assert(regs.contains(regs[i]));
            }
        }
    }
    if loop_may_free(f, flow, header) {
        let l = loop_at(flow.loops@, header)->0;
        let (i, k) = choose|i: int, k: int|
            #![trigger dealloc_at(f, l.body@[i], k)]
            0 <= i < l.body@.len() && dealloc_at(f, l.body@[i], k);
        assert(crate::exec::flow::frees_in(f, body[i]));
    }
}

// ---- facts ----

proof fn lemma_takes_fact(s: PathView, e: Ex, v: Valuation)
    ensures
        takes(with_fact(s, e), v) <==> takes(s, v) && holds(e, v),
{
    let t = with_fact(s, e);
    let n = premises(s).len() as int;
    assert(premises(t) =~= premises(s).push(e));
    if takes(t, v) {
        assert forall|i: int| 0 <= i < n implies holds(#[trigger] premises(s)[i], v) by {
            assert(holds(premises(t)[i], v));
        }
        assert(holds(premises(t)[n], v));
    }
}

/// A number is within the bounds of an interval that are not negative.
pub open spec fn admits(i: Interval, x: int) -> bool {
    &&& i.lower is Some && i.lower->0 >= 0 ==> i.lower->0 <= x
    &&& i.upper is Some && i.upper->0 >= 0 ==> x <= i.upper->0
}

/// The bounds of an interval that are not negative are what is assumed of a number.
pub proof fn intervals_are_assumed(s: PathView, iv: Option<Interval>, e: Ex, v: Valuation)
    requires
        width_of(e) == PTR_WIDTH,
        iv matches Some(i) ==> (i.lower matches Some(x) ==> x <= i64::MAX) && (i.upper matches Some(x)
            ==> x <= i64::MAX),
    ensures
        takes(within_interval(s, iv, e, PTR_WIDTH), v) <==> takes(s, v) && (iv is Some ==> admits(
            iv->0,
            number(e, v),
        )),
{
    if let Some(i) = iv {
        let s1 = if i.lower is Some && i.lower->0 >= 0 {
            with_fact(s, sge(e, lit(PTR_WIDTH, i.lower->0 as u128)))
        } else {
            s
        };
        vstd::arithmetic::power2::lemma2_to64();
        if i.lower is Some && i.lower->0 >= 0 {
            let x = lit(PTR_WIDTH, i.lower->0 as u128);
            lemma_takes_fact(s, sge(e, x), v);
            lemma_lit(i.lower->0 as u64, v);
            lemma_sge(e, x, v);
        }
        if i.upper is Some && i.upper->0 >= 0 {
            let x = lit(PTR_WIDTH, i.upper->0 as u128);
            lemma_takes_fact(s1, sle(e, x), v);
            lemma_lit(i.upper->0 as u64, v);
            lemma_sle(e, x, v);
        }
    }
}

proof fn lemma_sge(a: Ex, b: Ex, v: Valuation)
    requires
        width_of(a) == 64,
    ensures
        holds(sge(a, b), v) <==> number(a, v) >= number(b, v),
{
    reveal_with_fuel(value, 2);
    lemma_pow2_unfold(64);
}

// ---- counters ----

proof fn lemma_power(n: nat) -> (k: nat)
    requires
        power_of_two(n),
    ensures
        n == pow2(k),
    decreases n,
{
    if n == 1 {
        vstd::arithmetic::power2::lemma2_to64();
        0
    } else {
        let k = lemma_power(n / 2);
        lemma_pow2_unfold(k + 1);
        k + 1
    }
}

proof fn lemma_mask_bit(k: nat, i: nat)
    requires
        i < k,
    ensures
        bit(pow2(k) - 1, i),
{
    lemma_pow2_pos(i);
    lemma_pow2_adds(i, (k - i) as nat);
    lemma_pow2_unfold((k - i) as nat);
    let d = pow2(i) as int;
    let h = pow2((k - i - 1) as nat) as int;
    lemma_pow2_pos((k - i - 1) as nat);
    assert(pow2(k) - 1 == (2 * h - 1) * d + (d - 1)) by (nonlinear_arith)
        requires
            pow2(k) == d * (2 * h),
    ;
    vstd::arithmetic::div_mod::lemma_fundamental_div_mod_converse(
        pow2(k) - 1,
        d,
        2 * h - 1,
        d - 1,
    );
    assert((2 * h - 1) % 2 == 1);
}

proof fn lemma_low_bits_zero(x: int, k: nat)
    requires
        x >= 0,
        forall|i: nat| i < k ==> !#[trigger] bit(x, i),
    ensures
        x % (pow2(k) as int) == 0,
    decreases k,
{
    lemma_pow2_pos(k);
    if k == 0 {
        vstd::arithmetic::power2::lemma2_to64();
    } else {
        let n = (k - 1) as nat;
        lemma_low_bits_zero(x, n);
        lemma_pow2_unfold(k);
        lemma_pow2_pos(n);
        let d = pow2(n) as int;
        vstd::arithmetic::div_mod::lemma_fundamental_div_mod(x, d);
        let q = x / d;
        assert(!bit(x, n));
        assert(q % 2 == 0);
        assert(x == (q / 2) * (2 * d) + 0) by (nonlinear_arith)
            requires
                x == d * q,
                q == 2 * (q / 2),
        ;
        vstd::arithmetic::div_mod::lemma_fundamental_div_mod_converse(x, 2 * d, q / 2, 0);
    }
}

proof fn lemma_sub(a: Ex, b: Ex, v: Valuation)
    requires
        width_of(a) == 64,
    ensures
        value(bin(BvOp::Sub, a, b), v) == wrapped(value(a, v) - value(b, v), 64),
        width_of(bin(BvOp::Sub, a, b)) == 64,
{
    crate::blast::folding_keeps_values(BvOp::Sub, a, b, v);
    reveal_with_fuel(value, 2);
    reveal_with_fuel(width_of, 2);
    lemma_pow2_pos(64);
    vstd::arithmetic::div_mod::lemma_mod_bound(value(a, v) - value(b, v), pow2(64) as int);
}

/// Where the distance is on the grid, the stride divides it.
proof fn lemma_on_grid(a: Ex, b: Ex, stride: u64, v: Valuation)
    requires
        width_of(b) == 64,
        power_of_two(stride as nat),
        holds(on_grid(a, b, stride as u128), v),
        0 <= number(a, v) <= number(b, v),
        value(a, v) < pow2(64),
        value(b, v) < pow2(64),
    ensures
        (number(b, v) - number(a, v)) % (stride as int) == 0,
{
    let k = lemma_power(stride as nat);
    let diff = bin(BvOp::Sub, b, a);
    let mask = lit(PTR_WIDTH, (stride - 1) as u128);
    let both = bin(BvOp::And, diff, mask);
    lemma_sub(b, a, v);
    lemma_lit((stride - 1) as u64, v);
    lemma_lit(0, v);
    lemma_equal(both, zero(), v);
    vstd::arithmetic::power2::lemma2_to64();
    let x = value(diff, v) as int;
    vstd::arithmetic::div_mod::lemma_small_mod((value(b, v) - value(a, v)) as nat, pow2(64));
    assert(x == number(b, v) - number(a, v));
    operations_are_evaluated(BinOp::And, diff, mask, v);
    assert forall|i: nat| i < k implies !#[trigger] bit(x, i) by {
        lemma_mask_bit(k, i);
        lemma_pow2_pos(i);
        assert(k < 64) by {
            if k >= 64 {
                if k > 64 {
                    vstd::arithmetic::power2::lemma_pow2_strictly_increases(64, k);
                }
            }
        }
        assert(!bit(0, i)) by {
            vstd::arithmetic::div_mod::lemma_div_basics(pow2(i) as int);
        }
        assert(bit(value(both, v) as int, i) <==> bit(x, i) && bit((stride - 1) as int, i));
    }
    lemma_low_bits_zero(x, k);
}

/// A counter that steps from a start onto a bound, and leaves the loop there, is at some
/// iteration: it was not at the bound before.
pub open spec fn counting(start: int, bound: int, stride: int, j: nat) -> bool {
    forall|i: nat| i < j ==> start + #[trigger] stepped_by(i, stride) != bound
}

/// The distance of some steps.
pub open spec fn stepped_by(i: nat, stride: int) -> int {
    i * stride
}

proof fn lemma_counting(start: int, bound: int, stride: int, j: nat)
    requires
        stride > 0,
        start <= bound,
        (bound - start) % stride == 0,
        counting(start, bound, stride, j),
    ensures
        start <= start + stepped_by(j, stride) <= bound,
{
    let q = (bound - start) / stride;
    vstd::arithmetic::div_mod::lemma_fundamental_div_mod(bound - start, stride);
    vstd::arithmetic::div_mod::lemma_div_pos_is_pos(bound - start, stride);
    assert(stepped_by(q as nat, stride) == bound - start) by (nonlinear_arith)
        requires
            bound - start == stride * q,
            q >= 0,
            stepped_by(q as nat, stride) == (q as nat) * stride,
    ;
    if j > q {
        assert(start + stepped_by(q as nat, stride) != bound);
    }
    assert(0 <= j * stride <= q * stride) by (nonlinear_arith)
        requires
            0 <= j <= q,
            stride > 0,
    ;
    assert(q * stride == bound - start) by (nonlinear_arith)
        requires
            bound - start == stride * q,
    ;
}

/// What is assumed of a counter that ends at a bound holds at every iteration: values that take
/// the path into the loop, with the counter as many steps from its start as any iteration makes
/// it, satisfy the bounds that are added.
pub proof fn counters_stay_between(
    m: MachineView,
    s: PathView,
    e: Ex,
    start: Ex,
    bound: Ex,
    stride: i128,
    j: nat,
    v: Valuation,
)
    requires
        truthful(exit_bounded(m, s, e, start, bound, stride).0),
        takes(s, v),
        stride <= u64::MAX,
        width_of(start) == 64 && width_of(bound) == 64 && width_of(e) == 64,
        value(start, v) < pow2(64) && value(bound, v) < pow2(64),
        counting(number(start, v), number(bound, v), stride as int, j),
        number(e, v) == number(start, v) + stepped_by(j, stride as int),
    ensures
        takes(exit_bounded(m, s, e, start, bound, stride).1, v),
        exit_bounded(m, s, e, start, bound, stride).1 != s ==> number(start, v) <= number(e, v)
            <= number(bound, v),
{
    if stride > 0 && power_of_two(stride as nat) {
        let gate = exit_gate(start, bound, stride);
        let (m1, ok) = proving_all(m, s, gate, 0);
        if ok {
            shown_all(m, s, gate);
            lemma_shown_holds(m1, s, gate, v);
            assert(holds(gate[0], v) && holds(gate[1], v) && holds(gate[2], v));
            lemma_lit(0, v);
            lemma_sle(zero(), start, v);
            lemma_sle(start, bound, v);
            vstd::arithmetic::power2::lemma2_to64();
            if stride > 1 {
                assert(gate[3] == on_grid(start, bound, stride as u128));
                assert(holds(gate[3], v));
                lemma_on_grid(start, bound, stride as u64, v);
            }
            lemma_counting(number(start, v), number(bound, v), stride as int, j);
            lemma_sle(start, e, v);
            lemma_sle(e, bound, v);
            lemma_takes_fact(s, sle(start, e), v);
            lemma_takes_fact(with_fact(s, sle(start, e)), sle(e, bound), v);
        }
    }
}

// ---- walks ----

proof fn lemma_bit_off(x: int, k: nat, i: nat)
    requires
        x >= 0,
        x % (pow2(k) as int) == 0,
        i < k,
    ensures
        !bit(x, i),
{
    lemma_pow2_pos(i);
    lemma_pow2_pos(k);
    lemma_pow2_adds(i, (k - i) as nat);
    lemma_pow2_unfold((k - i) as nat);
    let d = pow2(i) as int;
    let h = pow2((k - i - 1) as nat) as int;
    let q = x / (pow2(k) as int);
    vstd::arithmetic::div_mod::lemma_fundamental_div_mod(x, pow2(k) as int);
    assert(x == (2 * (h * q)) * d + 0) by (nonlinear_arith)
        requires
            x == pow2(k) * q,
            pow2(k) == d * (2 * h),
    ;
    vstd::arithmetic::div_mod::lemma_fundamental_div_mod_converse(x, d, 2 * (h * q), 0);
}

proof fn lemma_bit_beyond(x: int, k: nat, i: nat)
    requires
        0 <= x < pow2(k),
        k <= i,
    ensures
        !bit(x, i),
{
    lemma_pow2_pos(i);
    if k < i {
        vstd::arithmetic::power2::lemma_pow2_strictly_increases(k, i);
    }
    vstd::arithmetic::div_mod::lemma_basic_div(x, pow2(i) as int);
}

/// Where the stride divides the distance, it is on the grid.
proof fn lemma_grid_holds(a: Ex, b: Ex, stride: u64, v: Valuation)
    requires
        width_of(b) == 64,
        power_of_two(stride as nat),
        0 <= number(a, v) <= number(b, v),
        value(a, v) < pow2(64),
        value(b, v) < pow2(64),
        (number(b, v) - number(a, v)) % (stride as int) == 0,
    ensures
        holds(on_grid(a, b, stride as u128), v),
{
    let k = lemma_power(stride as nat);
    let diff = bin(BvOp::Sub, b, a);
    let mask = lit(PTR_WIDTH, (stride - 1) as u128);
    let both = bin(BvOp::And, diff, mask);
    lemma_sub(b, a, v);
    lemma_lit((stride - 1) as u64, v);
    lemma_lit(0, v);
    lemma_equal(both, zero(), v);
    vstd::arithmetic::power2::lemma2_to64();
    let x = value(diff, v) as int;
    vstd::arithmetic::div_mod::lemma_small_mod((value(b, v) - value(a, v)) as nat, pow2(64));
    assert(x == number(b, v) - number(a, v));
    operations_are_evaluated(BinOp::And, diff, mask, v);
    assert forall|i: nat| i < 64 implies !#[trigger] bit(value(both, v) as int, i) by {
        assert(bit(value(both, v) as int, i) <==> bit(x, i) && bit((stride - 1) as int, i));
        if i < k {
            lemma_bit_off(x, k, i);
        } else {
            lemma_pow2_pos(k);
            lemma_bit_beyond((stride - 1) as int, k, i);
        }
    }
    lemma_low_bits_zero(value(both, v) as int, 64);
    vstd::arithmetic::div_mod::lemma_small_mod(value(both, v), pow2(64));
}

proof fn lemma_takes_facts(s: PathView, es: Seq<Ex>, v: Valuation)
    requires
        takes(s, v),
        forall|k: int| 0 <= k < es.len() ==> holds(#[trigger] es[k], v),
    ensures
        takes(PathView { facts: s.facts + es, ..s }, v),
{
    let t = PathView { facts: s.facts + es, ..s };
    let n = premises(s).len() as int;
    assert(premises(t) =~= premises(s) + es);
    assert forall|i: int| 0 <= i < premises(t).len() implies holds(#[trigger] premises(t)[i], v) by {
        if i < n {
            assert(holds(premises(s)[i], v));
        } else {
            assert(holds(es[i - n], v));
        }
    }
}

/// How far the bytes go that an iteration of a walk may touch: to the pointer, or one step
/// further where the end is tested after the access.
pub open spec fn reach(c: WalkCapture) -> int {
    if c.bottom_test {
        c.stride as int
    } else {
        0
    }
}

/// Expressions of a walk are of 64 bits.
pub open spec fn walk_sized(c: WalkCapture, v: Valuation) -> bool {
    &&& width_of(c.start) == 64 && width_of(c.end) == 64 && width_of(c.size) == 64
    &&& value(c.start, v) < pow2(64) && value(c.end, v) < pow2(64) && value(c.size, v) < pow2(64)
}

proof fn lemma_last(c: WalkCapture, e: Ex, v: Valuation)
    requires
        width_of(e) == 64,
        value(e, v) < pow2(64),
        0 <= number(e, v),
        number(e, v) + reach(c) <= i64::MAX,
    ensures
        number(last_offset(c, e), v) == number(e, v) + reach(c),
        width_of(last_offset(c, e)) == 64,
{
    vstd::arithmetic::power2::lemma2_to64();
    lemma_pow2_unfold(64);
    if c.bottom_test {
        lemma_lit(c.stride, v);
        lemma_add(e, lit(PTR_WIDTH, c.stride as u128), v);
        vstd::arithmetic::div_mod::lemma_small_mod(
            (value(e, v) + c.stride) as nat,
            pow2(64),
        );
    }
}

/// What is assumed of a pointer that walks a region holds at every iteration: values that take
/// the path into the loop, with the pointer as many steps from its start as any iteration makes
/// it, satisfy the bounds that are added. At each of them the bytes that the iteration may
/// touch are inside the region.
pub proof fn walks_stay_in_their_region(
    m: MachineView,
    s: PathView,
    c: WalkCapture,
    j: nat,
    v: Valuation,
)
    requires
        truthful(walk_bounded(m, s, c).0),
        takes(s, v),
        takes(with_nowrap(s, c.region), v),
        walk_sized(c, v),
        number(c.start, v) + reach(c) <= i64::MAX,
        counting(number(c.start, v) + reach(c), number(c.end, v), c.stride as int, j),
        walk_bounded(m, s, c).1 != s ==> {
            let m1 = proving_all(m, with_nowrap(s, c.region), walk_gate(c), 0).0;
            let o = fresh_scalar(m1, PTR_WIDTH).1;
            value(o, v) < pow2(64) && number(o, v) == number(c.start, v) + stepped_by(
                j,
                c.stride as int,
            )
        },
    ensures
        takes(walk_bounded(m, s, c).1, v),
        walk_bounded(m, s, c).1 != s ==> {
            let p = walk_bounded(m, s, c).1.env[c.reg];
            &&& walk_bounded(m, s, c).1.env.contains_key(c.reg)
            &&& p matches SymValue::Ptr(p) && landing(p, v).region == Some(c.region) && number(
                p.offset,
                v,
            ) == number(c.start, v) + stepped_by(j, c.stride as int) && number(c.start, v)
                <= number(p.offset, v) && number(p.offset, v) + reach(c) <= number(c.end, v)
                && number(c.end, v) <= number(c.size, v)
        },
{
    let s0 = with_nowrap(s, c.region);
    let gate = walk_gate(c);
    let (m1, ok) = proving_all(m, s0, gate, 0);
    if c.stride != 0 && power_of_two(c.stride as nat) && ok {
        let o = fresh_scalar(m1, PTR_WIDTH).1;
        shown_all(m, s0, gate);
        assert(walk_bounded(m, s, c).0.dialogue == m1.dialogue);
        assert(truthful(m1));
        lemma_shown_holds(m1, s0, gate, v);
        assert(holds(gate[0], v) && holds(gate[1], v) && holds(gate[2], v) && holds(gate[3], v)
            && holds(gate[4], v));
        vstd::arithmetic::power2::lemma2_to64();
        lemma_pow2_unfold(64);
        lemma_lit(0, v);
        lemma_lit(0x7fff_ffff_ffff_ffff, v);
        lemma_sle(zero(), c.start, v);
        lemma_last(c, c.start, v);
        lemma_sle(last_offset(c, c.start), c.end, v);
        lemma_sle(c.end, c.size, v);
        lemma_sle(c.size, isize_max(), v);
        lemma_on_grid(c.start, c.end, c.stride, v);
        let a = number(c.start, v);
        let b = number(c.end, v);
        let stride = c.stride as int;
        assert((b - (a + reach(c))) % stride == 0) by {
            if c.bottom_test {
                vstd::arithmetic::div_mod::lemma_mod_sub_multiples_vanish(b - a, stride);
            }
        }
        lemma_counting(a + reach(c), b, stride, j);
        assert(width_of(o) == 64) by {
            reveal_with_fuel(width_of, 2);
        }
        lemma_last(c, o, v);
        let facts = walk_facts(c, o);
        let last = last_offset(c, o);
        lemma_sle(c.start, o, v);
        lemma_sle(zero(), last, v);
        lemma_sle(last, c.end, v);
        lemma_sle(last, c.size, v);
        assert((number(o, v) - a) % stride == 0) by {
            vstd::arithmetic::div_mod::lemma_mod_multiples_basic(j as int, stride);
        }
        lemma_grid_holds(c.start, o, c.stride, v);
        assert forall|k: int| 0 <= k < facts.len() implies holds(#[trigger] facts[k], v) by {
            assert(k == 0 || k == 1 || k == 2 || k == 3 || k == 4 || k == 5 || k == 6 || k == 7 || k
                == 8);
        }
        let p = walk_bounded(m, s, c).1.env[c.reg]->Ptr_0;
        let s1 = crate::exec::value::bound(s, c.reg, SymValue::Ptr(p));
        assert(premises(s1) =~= premises(s));
        assert(takes(s1, v));
        lemma_takes_facts(s1, facts, v);
    }
}

/// The bound of a scan says that the element at the index lies inside the region: the index is
/// not negative, and its element ends within the size.
pub proof fn scans_stay_in_their_region(s: PathView, b: ScanBound, v: Valuation)
    requires
        width_of(b.index) == 64 && width_of(b.size) == 64,
        value(b.index, v) < pow2(64),
        number(b.index, v) < i64::MAX,
        0 <= (number(b.index, v) + 1) * b.elem <= i64::MAX,
    ensures
        takes(scan_bounded(s, Some(b)), v) <==> takes(s, v) && 0 <= number(b.index, v) && (number(
            b.index,
            v,
        ) + 1) * b.elem <= number(b.size, v),
{
    vstd::arithmetic::power2::lemma2_to64();
    lemma_pow2_unfold(64);
    let one = lit(PTR_WIDTH, 1);
    let up = bin(BvOp::Add, b.index, one);
    let e = lit(PTR_WIDTH, b.elem as u128);
    let end = bin(BvOp::Mul, up, e);
    lemma_lit(0, v);
    lemma_lit(1, v);
    lemma_lit(b.elem, v);
    lemma_sle(zero(), b.index, v);
    lemma_takes_fact(s, sle(zero(), b.index), v);
    lemma_takes_fact(with_fact(s, sle(zero(), b.index)), sle(end, b.size), v);
    if 0 <= number(b.index, v) {
        lemma_add(b.index, one, v);
        vstd::arithmetic::div_mod::lemma_small_mod((value(b.index, v) + 1) as nat, pow2(64));
        lemma_mul(up, b.elem, v);
        vstd::arithmetic::div_mod::lemma_small_mod((value(up, v) * b.elem) as nat, pow2(64));
        lemma_sle(end, b.size, v);
    }
}

} // verus!
