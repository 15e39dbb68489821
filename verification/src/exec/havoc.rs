//! Entering a loop: every iteration at once.

use crate::exec::eval::{
    const_expr, mk_untracked, scalar_of, signed_lit, untracked, value_of, zero, Scene, SceneView,
};
use crate::exec::flow::{
    body_frees, facts_at, interval_of, loop_frees, loop_modified, modified_regs, EqExit, Flow,
    Interval, PtrWalk,
};
use crate::exec::machine::{
    fresh_induction, fresh_scalar, proving_all, Machine, MachineView,
};
use crate::exec::shapes::{
    body_of, find_sentinel_scan, sentinel_scan, sound_counter, sound_counting_induction, ScanBound,
};
use crate::exec::step::{all_freed, free_all, inexact, without_stores};
use crate::exec::value::{
    bound, common, gcd, with_fact, POrigin, PTR_WIDTH, PathState, PathView, Prov, StoreRecord,
    SymPointer, SymValue,
};
use crate::expr::{
    bin, equal, lit, mk_bin, mk_equal, mk_lit, mk_sge, mk_sle, sge, sle, width, width_of, BvOp, Ex,
};
use crate::ir::{stride_or_one, Function};
use crate::llvm::slices::power_of_two;
use crate::numbers::{at, find, lemma_numbered_has, numbered};
use crate::sorted::{ascending, increasing, insert, lemma_ascending, numbers};
use vstd::prelude::*;

verus! {

// ---- captures ----

/// A counter that ends at a bound: its value before the loop, and the bound.
pub struct ExitCapture {
    pub reg: u32,
    pub start: Ex,
    pub bound: Ex,
    pub stride: i128,
}

/// A pointer that walks a region: where it starts, where the walk ends, the size of the
/// region, and the number of bytes of a step.
pub struct WalkCapture {
    pub reg: u32,
    pub region: usize,
    pub start: Ex,
    pub align: u64,
    pub end: Ex,
    pub size: Ex,
    pub stride: u64,
    pub bottom_test: bool,
}

/// The counters that end at a bound, of the first `n`.
pub open spec fn exits_captured(
    sc: SceneView,
    m: MachineView,
    s: PathView,
    exits: Seq<EqExit>,
    n: int,
) -> (MachineView, Seq<ExitCapture>)
    decreases n,
{
    if n <= 0 {
        (m, Seq::empty())
    } else {
        let (m1, cs) = exits_captured(sc, m, s, exits, n - 1);
        let x = exits[n - 1];
        match at(s.env, x.reg) {
            Some(SymValue::Scalar(start)) => {
                let (m2, b) = scalar_of(sc, m1, s, x.bound);
                (m2, cs.push(ExitCapture { reg: x.reg, start, bound: b, stride: x.stride }))
            },
            _ => (m1, cs),
        }
    }
}

/// The number of bytes of a step, where it fits.
pub open spec fn walk_stride(w: PtrWalk) -> Option<u64> {
    let n = w.stride_elems * stride_or_one(w.elem);
    if 0 <= w.stride_elems <= u64::MAX && n <= u64::MAX {
        Some(n as u64)
    } else {
        None
    }
}

/// A pointer that walks a region, where its end lies in that region.
pub open spec fn walk_captured(sc: SceneView, m: MachineView, s: PathView, w: PtrWalk) -> (
    MachineView,
    Option<WalkCapture>,
) {
    match at(s.env, w.reg) {
        Some(SymValue::Ptr(base)) => match base.prov {
            Prov::Region(r) => if r < s.regions.len() {
                let (m1, e) = value_of(sc, m, s, w.end);
                match (e, walk_stride(w)) {
                    (SymValue::Ptr(end), Some(stride)) => if end.prov == Prov::Region(r) {
                        (
                            m1,
                            Some(
                                WalkCapture {
                                    reg: w.reg,
                                    region: r,
                                    start: base.offset,
                                    align: base.align,
                                    end: end.offset,
                                    size: s.regions[r as int].size,
                                    stride,
                                    bottom_test: w.bottom_test,
                                },
                            ),
                        )
                    } else {
                        (m1, None)
                    },
                    _ => (m1, None),
                }
            } else {
                (m, None)
            },
            _ => (m, None),
        },
        _ => (m, None),
    }
}

/// The pointers that walk a region, of the first `n`.
pub open spec fn walks_captured(
    sc: SceneView,
    m: MachineView,
    s: PathView,
    walks: Seq<PtrWalk>,
    n: int,
) -> (MachineView, Seq<WalkCapture>)
    decreases n,
{
    if n <= 0 {
        (m, Seq::empty())
    } else {
        let (m1, cs) = walks_captured(sc, m, s, walks, n - 1);
        match walk_captured(sc, m1, s, walks[n - 1]) {
            (m2, Some(c)) => (m2, cs.push(c)),
            (m2, None) => (m2, cs),
        }
    }
}

// ---- facts ----

/// The state with the bounds of an interval that are not negative.
pub open spec fn within_interval(s: PathView, iv: Option<Interval>, e: Ex, w: u32) -> PathView {
    match iv {
        None => s,
        Some(i) => {
            let s1 = if i.lower is Some && i.lower->0 >= 0 {
                with_fact(s, sge(e, lit(w, i.lower->0 as u128)))
            } else {
                s
            };
            if i.upper is Some && i.upper->0 >= 0 {
                with_fact(s1, sle(e, lit(w, i.upper->0 as u128)))
            } else {
                s1
            }
        },
    }
}

/// After one register that the loop may redefine: a pointer is no longer tracked, and a
/// number is any that the interval at the header admits.
pub open spec fn havocked_reg(
    m: MachineView,
    s: PathView,
    r: u32,
    iv: Option<Interval>,
    counter: bool,
) -> (MachineView, PathView) {
    match at(s.env, r) {
        None => (m, s),
        Some(SymValue::Ptr(_)) => (
            m,
            bound(s, r, SymValue::Ptr(untracked(POrigin::Loop))),
        ),
        Some(SymValue::Scalar(_)) => {
            let (m1, e) = if counter {
                fresh_induction(m, PTR_WIDTH)
            } else {
                fresh_scalar(m, PTR_WIDTH)
            };
            (
                m1,
                bound(within_interval(s, iv, e, PTR_WIDTH), r, SymValue::Scalar(e)),
            )
        },
    }
}

/// The intervals at a header.
pub open spec fn intervals_at(flow: Flow, header: u32) -> Seq<Interval> {
    match facts_at(flow.headers@, header) {
        Some(h) => h.intervals@,
        None => Seq::empty(),
    }
}

/// After the first `n` registers that the loop may redefine.
pub open spec fn havocked_regs(
    f: Function,
    flow: Flow,
    m: MachineView,
    s: PathView,
    header: u32,
    regs: Seq<int>,
    n: int,
) -> (MachineView, PathView)
    decreases n,
{
    if n <= 0 {
        (m, s)
    } else {
        let (m1, s1) = havocked_regs(f, flow, m, s, header, regs, n - 1);
        let r = regs[n - 1] as u32;
        havocked_reg(
            m1,
            s1,
            r,
            interval_of(intervals_at(flow, header), r),
            sound_counter(f, flow, header, r),
        )
    }
}

/// A register that holds a number and that the loop does not redefine.
pub open spec fn kept_number(env: Map<u32, SymValue>, regs: Seq<int>, r: int) -> bool {
    env.contains_key(r as u32) && env[r as u32] is Scalar && !regs.contains(r)
}

/// The registers that hold a number and that the loop does not redefine, in ascending
/// order.
pub open spec fn kept_numbers(env: Map<u32, SymValue>, regs: Seq<int>) -> Seq<int> {
    ascending(|r: int| kept_number(env, regs, r), 0x1_0000_0000)
}

/// The state with the intervals of the first `n` registers that the loop does not
/// redefine.
pub open spec fn kept_bounded(flow: Flow, s: PathView, header: u32, kept: Seq<int>, n: int) -> PathView
    decreases n,
{
    if n <= 0 {
        s
    } else {
        let s1 = kept_bounded(flow, s, header, kept, n - 1);
        let r = kept[n - 1] as u32;
        match at(s1.env, r) {
            Some(SymValue::Scalar(e)) => if width_of(e) > 1 {
                within_interval(
                    s1,
                    interval_of(intervals_at(flow, header), r),
                    e,
                    width_of(e),
                )
            } else {
                s1
            },
            _ => s1,
        }
    }
}

/// The state with the first `n` differences.
pub open spec fn differing(s: PathView, diffs: Seq<(u32, u32, i128)>, n: int) -> PathView
    decreases n,
{
    if n <= 0 {
        s
    } else {
        let s1 = differing(s, diffs, n - 1);
        let (a, b, c) = diffs[n - 1];
        match (at(s1.env, a), at(s1.env, b)) {
            (Some(SymValue::Scalar(x)), Some(SymValue::Scalar(y))) => with_fact(
                s1,
                sle(x, bin(BvOp::Add, y, signed_lit(c as int))),
            ),
            _ => s1,
        }
    }
}

/// The greatest number of bytes of an allocation.
pub open spec fn isize_max() -> Ex {
    lit(PTR_WIDTH, 0x7fff_ffff_ffff_ffff)
}

/// That the distance from `a` to `b` is a multiple of a power of two.
pub open spec fn on_grid(a: Ex, b: Ex, stride: u128) -> Ex {
    equal(
        bin(BvOp::And, bin(BvOp::Sub, b, a), lit(PTR_WIDTH, (stride - 1) as u128)),
        zero(),
    )
}

/// What makes `start <= v <= bound` hold on every iteration: the counter starts in range,
/// and steps onto the bound.
pub open spec fn exit_gate(start: Ex, bound: Ex, stride: i128) -> Seq<Ex> {
    let g = seq![sle(zero(), start), sle(start, bound), sle(bound, isize_max())];
    if stride > 1 {
        g.push(on_grid(start, bound, stride as u128))
    } else {
        g
    }
}

/// After the bound of a counter that ends at it, where that can be shown.
pub open spec fn exit_bounded(
    m: MachineView,
    s: PathView,
    v: Ex,
    start: Ex,
    bound: Ex,
    stride: i128,
) -> (MachineView, PathView) {
    if stride <= 0 || !power_of_two(stride as nat) {
        (m, s)
    } else {
        let (m1, ok) = proving_all(m, s, exit_gate(start, bound, stride), 0);
        if ok {
            (m1, with_fact(with_fact(s, sle(start, v)), sle(v, bound)))
        } else {
            (m1, s)
        }
    }
}

/// After the bounds of the first `n` counters.
pub open spec fn exits_bounded(m: MachineView, s: PathView, cs: Seq<ExitCapture>, n: int) -> (
    MachineView,
    PathView,
)
    decreases n,
{
    if n <= 0 {
        (m, s)
    } else {
        let (m1, s1) = exits_bounded(m, s, cs, n - 1);
        let c = cs[n - 1];
        match at(s1.env, c.reg) {
            Some(SymValue::Scalar(v)) => exit_bounded(m1, s1, v, c.start, c.bound, c.stride),
            _ => (m1, s1),
        }
    }
}

/// An offset, or the one after a step where the end is tested after the access.
pub open spec fn last_offset(c: WalkCapture, e: Ex) -> Ex {
    if c.bottom_test {
        bin(BvOp::Add, e, lit(PTR_WIDTH, c.stride as u128))
    } else {
        e
    }
}

/// What makes the bounds of a walk hold on every iteration.
pub open spec fn walk_gate(c: WalkCapture) -> Seq<Ex> {
    seq![
        sle(zero(), c.start),
        sle(last_offset(c, c.start), c.end),
        sle(c.end, c.size),
        sle(c.size, isize_max()),
        on_grid(c.start, c.end, c.stride as u128),
    ]
}

/// The bounds of a walk at an offset.
pub open spec fn walk_facts(c: WalkCapture, o: Ex) -> Seq<Ex> {
    let last = last_offset(c, o);
    seq![
        sle(zero(), c.start),
        sle(c.start, o),
        sle(zero(), last),
        sle(last, c.end),
        sle(last, c.size),
        sle(c.end, c.size),
        sle(c.size, isize_max()),
        on_grid(c.start, o, c.stride as u128),
        on_grid(c.start, c.end, c.stride as u128),
    ]
}

/// The state with the premise that a region's size does not wrap.
pub open spec fn with_nowrap(s: PathView, region: usize) -> PathView {
    if region < s.regions.len() && s.regions[region as int].size_nowrap is Some {
        with_fact(s, s.regions[region as int].size_nowrap->0)
    } else {
        s
    }
}

/// After the bounds of a walk, where they can be shown: the pointer is at some step of the
/// walk.
pub open spec fn walk_bounded(m: MachineView, s: PathView, c: WalkCapture) -> (
    MachineView,
    PathView,
) {
    if c.stride == 0 || !power_of_two(c.stride as nat) {
        (m, s)
    } else {
        let (m1, ok) = proving_all(m, with_nowrap(s, c.region), walk_gate(c), 0);
        if ok {
            let (m2, o) = fresh_scalar(m1, PTR_WIDTH);
            let p = SymPointer {
                prov: Prov::Region(c.region),
                offset: o,
                align: common(c.align as int, c.stride as int) as u64,
            };
            let s1 = bound(s, c.reg, SymValue::Ptr(p));
            (m2, PathView { facts: s1.facts + walk_facts(c, o), ..s1 })
        } else {
            (m1, s)
        }
    }
}

/// After the bounds of the first `n` walks.
pub open spec fn walks_bounded(m: MachineView, s: PathView, cs: Seq<WalkCapture>, n: int) -> (
    MachineView,
    PathView,
)
    decreases n,
{
    if n <= 0 {
        (m, s)
    } else {
        let (m1, s1) = walks_bounded(m, s, cs, n - 1);
        walk_bounded(m1, s1, cs[n - 1])
    }
}

/// The state with the bound of a scan.
pub open spec fn scan_bounded(s: PathView, b: Option<ScanBound>) -> PathView {
    match b {
        None => s,
        Some(x) => with_fact(
            with_fact(s, sle(zero(), x.index)),
            sle(
                bin(
                    BvOp::Mul,
                    bin(BvOp::Add, x.index, lit(PTR_WIDTH, 1)),
                    lit(PTR_WIDTH, x.elem as u128),
                ),
                x.size,
            ),
        ),
    }
}

/// The facts of a header that has none.
pub open spec fn lists_at(flow: Flow, header: u32) -> (
    Seq<EqExit>,
    Seq<PtrWalk>,
    Seq<(u32, u32, i128)>,
) {
    match facts_at(flow.headers@, header) {
        Some(h) => (h.exits@, h.walks@, h.diffs@),
        None => (Seq::empty(), Seq::empty(), Seq::empty()),
    }
}

/// The state before the registers are forgotten: nothing stored is known, and where the
/// loop frees memory, nothing allocated is known to be live.
pub open spec fn loop_entered(f: Function, flow: Flow, s: PathView, header: u32) -> PathView {
    let s1 = without_stores(inexact(s));
    if body_frees(f, body_of(flow, header)) {
        PathView { regions: all_freed(s1.regions), ..s1 }
    } else {
        s1
    }
}

/// After a loop header: what holds on every iteration.
pub open spec fn havocked(
    f: Function,
    flow: Flow,
    sc: SceneView,
    m: MachineView,
    s: PathView,
    header: u32,
) -> (MachineView, PathView) {
    let (exits, walks, diffs) = lists_at(flow, header);
    let s0 = without_stores(inexact(s));
    let (m1, ecs) = exits_captured(sc, m, s0, exits, exits.len() as int);
    let (m2, wcs) = walks_captured(sc, m1, s0, walks, walks.len() as int);
    let s1 = loop_entered(f, flow, s, header);
    let regs = modified_regs(f, body_of(flow, header));
    let (m3, s2) = havocked_regs(f, flow, m2, s1, header, regs, regs.len() as int);
    let kept = kept_numbers(s2.env, regs);
    let s3 = kept_bounded(flow, s2, header, kept, kept.len() as int);
    let s4 = differing(s3, diffs, diffs.len() as int);
    let (m4, s5) = exits_bounded(m3, s4, ecs, ecs.len() as int);
    let (m5, s6) = walks_bounded(m4, s5, wcs, wcs.len() as int);
    (m5, scan_bounded(s6, sentinel_scan(f, flow, s6, header)))
}

// ---- the loop entry at work ----

fn is_power(n: u128) -> (r: bool)
    ensures
        r == power_of_two(n as nat),
{
    let mut x: u128 = n;
    while x > 1 && x % 2 == 0
        invariant
            power_of_two(x as nat) == power_of_two(n as nat),
        decreases x,
    {
        x = x / 2;
    }
    x == 1
}

fn mk_isize_max() -> (e: Ex)
    ensures
        e == isize_max(),
{
    mk_lit(PTR_WIDTH, 0x7fff_ffff_ffff_ffff)
}

fn mk_on_grid(a: &Ex, b: &Ex, stride: u128) -> (e: Ex)
    requires
        stride > 0,
    ensures
        e == on_grid(*a, *b, stride),
{
    let d = mk_bin(BvOp::Sub, b, a);
    let masked = mk_bin(BvOp::And, &d, &mk_lit(PTR_WIDTH, stride - 1));
    mk_equal(&masked, &const_expr(0))
}

fn add_interval(s: &mut PathState, iv: Option<Interval>, e: &Ex, w: u32)
    ensures
        final(s)@ == within_interval(old(s)@, iv, *e, w),
{
    if let Some(i) = iv {
        if let Some(lo) = i.lower {
            if lo >= 0 {
                s.add_fact(mk_sge(e, &mk_lit(w, lo as u128)));
            }
        }
        if let Some(hi) = i.upper {
            if hi >= 0 {
                s.add_fact(mk_sle(e, &mk_lit(w, hi as u128)));
            }
        }
    }
}

fn interval_at(flow: &Flow, header: u32, reg: u32) -> (r: Option<Interval>)
    ensures
        r == interval_of(intervals_at(*flow, header), reg),
{
    match flow.facts_of(header) {
        Some(h) => h.interval(reg),
        None => None,
    }
}

fn live_numbers(env: &Vec<(u32, SymValue)>, regs: &Vec<usize>) -> (v: Vec<usize>)
    ensures
        numbers(v@) == kept_numbers(numbered(env@), numbers(regs@)),
        forall|i: int| 0 <= i < v@.len() ==> #[trigger] v@[i] <= u32::MAX,
{
    let ghost m = numbered(env@);
    let ghost rs = numbers(regs@);
    let mut v: Vec<usize> = Vec::new();
    let mut i: usize = 0;
    while i < env.len()
        invariant
            i <= env@.len(),
            m == numbered(env@),
            rs == numbers(regs@),
            increasing(numbers(v@)),
            forall|y: usize| #[trigger]
                v@.contains(y) <==> y <= u32::MAX && kept_number(m, rs, y as int)
                    && exists|k: int| 0 <= k < i && (#[trigger] env@[k]).0 as usize == y,
        decreases env@.len() - i,
    {
        let ghost before = v@;
        let r: u32 = env[i].0;
        let scalar = match find(env, r) {
            Some(SymValue::Scalar(_)) => true,
            _ => false,
        };
        proof {
            lemma_numbered_has(env@, r);
            assert(env@[i as int].0 == r);
        }
        let is_modified = holds_number(regs, r as usize);
        if scalar && !is_modified {
            insert(&mut v, r as usize);
        }
        proof {
            assert forall|y: usize| #[trigger] v@.contains(y) <==> y <= u32::MAX && kept_number(
                m,
                rs,
                y as int,
            ) && exists|k: int| 0 <= k < i + 1 && (#[trigger] env@[k]).0 as usize == y by {
                if before.contains(y) {
                    let k = choose|k: int| 0 <= k < i && (#[trigger] env@[k]).0 as usize == y;
                    assert(env@[k].0 as usize == y);
                }
                if y == r as usize {
                    assert(env@[i as int].0 as usize == y);
                }
            }
        }
        i += 1;
    }
    proof {
        let s = numbers(v@);
        let p = |r: int| kept_number(m, rs, r);
        assert forall|x: int| #[trigger] s.contains(x) <==> 0 <= x < 0x1_0000_0000 && p(x) by {
            if s.contains(x) {
                let j = choose|j: int| 0 <= j < s.len() && s[j] == x;
                assert(v@.contains(v@[j]));
            }
            if 0 <= x < 0x1_0000_0000 && p(x) {
                lemma_numbered_has(env@, x as u32);
                let k = choose|k: int| 0 <= k < env@.len() && (#[trigger] env@[k]).0 == x as u32;
                assert(env@[k].0 as usize == x as usize);
                assert(v@.contains(x as usize));
                let j = choose|j: int| 0 <= j < v@.len() && v@[j] == x as usize;
                assert(s[j] == x);
            }
        }
        lemma_ascending(p, 0x1_0000_0000, s);
        assert forall|i: int| 0 <= i < v@.len() implies #[trigger] v@[i] <= u32::MAX by {
            assert(v@.contains(v@[i]));
        }
    }
    v
}

fn holds_number(s: &Vec<usize>, x: usize) -> (r: bool)
    ensures
        r == numbers(s@).contains(x as int),
{
    let mut i: usize = 0;
    while i < s.len()
        invariant
            i <= s@.len(),
            forall|k: int| 0 <= k < i ==> s@[k] != x,
        decreases s@.len() - i,
    {
        if s[i] == x {
            assert(numbers(s@)[i as int] == x as int);
            return true;
        }
        i += 1;
    }
    proof {
        if numbers(s@).contains(x as int) {
            let k = choose|k: int| 0 <= k < s@.len() && numbers(s@)[k] == x as int;
            assert(s@[k] == x);
        }
    }
    false
}

impl<'a> Machine<'a> {
    fn capture_exits(&mut self, sc: &Scene, exits: &Vec<EqExit>, s: &PathState) -> (r: Vec<
        ExitCapture,
    >)
        ensures
            (final(self)@, r@) == exits_captured(
                sc@,
                old(self)@,
                s@,
                exits@,
                exits@.len() as int,
            ),
    {
        let mut out: Vec<ExitCapture> = Vec::new();
        let mut i: usize = 0;
        assert(out@ =~= Seq::<ExitCapture>::empty());
        while i < exits.len()
            invariant
                i <= exits@.len(),
                (self@, out@) == exits_captured(sc@, old(self)@, s@, exits@, i as int),
            decreases exits@.len() - i,
        {
            let x = &exits[i];
            let start: Option<Ex> = match find(&s.env, x.reg) {
                Some(SymValue::Scalar(e)) => Some(e.clone()),
                _ => None,
            };
            if let Some(start) = start {
                let b = self.eval_scalar(sc, &x.bound, s);
                out.push(ExitCapture { reg: x.reg, start, bound: b, stride: x.stride });
            }
            i += 1;
        }
        out
    }

    fn capture_walk(&mut self, sc: &Scene, w: &PtrWalk, s: &PathState) -> (r: Option<WalkCapture>)
        ensures
            (final(self)@, r) == walk_captured(sc@, old(self)@, s@, *w),
    {
        let base: SymPointer = match find(&s.env, w.reg) {
            Some(SymValue::Ptr(p)) => p.copy(),
            _ => {
                return None;
            },
        };
        let region: usize = match base.prov {
            Prov::Region(r) => r,
            _ => {
                return None;
            },
        };
        if region >= s.regions.len() {
            return None;
        }
        let end = match self.eval_value(sc, &w.end, s) {
            SymValue::Ptr(p) => p,
            SymValue::Scalar(_) => {
                return None;
            },
        };
        let stride: Option<u64> = stride_of_walk(w);
        match (end.prov, stride) {
            (Prov::Region(r), Some(stride)) => if r == region {
                Some(
                    WalkCapture {
                        reg: w.reg,
                        region,
                        start: base.offset,
                        align: base.align,
                        end: end.offset,
                        size: s.regions[region].size.clone(),
                        stride,
                        bottom_test: w.bottom_test,
                    },
                )
            } else {
                None
            },
            _ => None,
        }
    }

    fn capture_walks(&mut self, sc: &Scene, walks: &Vec<PtrWalk>, s: &PathState) -> (r: Vec<
        WalkCapture,
    >)
        ensures
            (final(self)@, r@) == walks_captured(
                sc@,
                old(self)@,
                s@,
                walks@,
                walks@.len() as int,
            ),
    {
        let mut out: Vec<WalkCapture> = Vec::new();
        let mut i: usize = 0;
        assert(out@ =~= Seq::<WalkCapture>::empty());
        while i < walks.len()
            invariant
                i <= walks@.len(),
                (self@, out@) == walks_captured(sc@, old(self)@, s@, walks@, i as int),
            decreases walks@.len() - i,
        {
            if let Some(c) = self.capture_walk(sc, &walks[i], s) {
                out.push(c);
            }
            i += 1;
        }
        out
    }

    fn havoc_reg(&mut self, s: &mut PathState, r: u32, iv: Option<Interval>, counter: bool)
        ensures
            (final(self)@, final(s)@) == havocked_reg(old(self)@, old(s)@, r, iv, counter),
    {
        let scalar: Option<bool> = match find(&s.env, r) {
            None => None,
            Some(SymValue::Ptr(_)) => Some(false),
            Some(SymValue::Scalar(_)) => Some(true),
        };
        match scalar {
            None => {},
            Some(false) => {
                s.bind(r, SymValue::Ptr(mk_untracked(POrigin::Loop)));
            },
            Some(true) => {
                let e = if counter {
                    self.fresh_induction_scalar(PTR_WIDTH)
                } else {
                    self.fresh_scalar(PTR_WIDTH)
                };
                add_interval(s, iv, &e, PTR_WIDTH);
                s.bind(r, SymValue::Scalar(e));
            },
        }
    }

    /// Bound a counter that ends at a bound, where that can be shown.
    pub fn assert_eq_exit_bound(
        &mut self,
        s: &mut PathState,
        v: &Ex,
        start: &Ex,
        limit: &Ex,
        stride: i128,
    )
        ensures
            (final(self)@, final(s)@) == exit_bounded(
                old(self)@,
                old(s)@,
                *v,
                *start,
                *limit,
                stride,
            ),
    {
        if stride <= 0 {
            return;
        }
        if !is_power(stride as u128) {
            return;
        }
        let z = const_expr(0);
        let mut gate = vec![mk_sle(&z, start), mk_sle(start, limit), mk_sle(limit, &mk_isize_max())];
        assert(gate@ =~= seq![sle(zero(), *start), sle(*start, *limit), sle(*limit, isize_max())]);
        if stride > 1 {
            gate.push(mk_on_grid(start, limit, stride as u128));
        }
        if self.prove_all(&gate, s) {
            s.add_fact(mk_sle(start, v));
            s.add_fact(mk_sle(v, limit));
        }
    }

    /// Bound a pointer that walks a region, where that can be shown.
    pub fn assert_ptr_walk_bound(&mut self, s: &mut PathState, c: &WalkCapture)
        ensures
            (final(self)@, final(s)@) == walk_bounded(old(self)@, old(s)@, *c),
    {
        if c.stride == 0 || !is_power(c.stride as u128) {
            return;
        }
        let gate = make_walk_gate(c);
        let mut t = s.copy();
        if c.region < t.regions.len() {
            let nowrap: Option<Ex> = match &t.regions[c.region].size_nowrap {
                Some(f) => Some(f.clone()),
                None => None,
            };
            if let Some(f) = nowrap {
                t.add_fact(f);
            }
        }
        if !self.prove_all(&gate, &t) {
            return;
        }
        let o = self.fresh_scalar(PTR_WIDTH);
        let mut facts = make_walk_facts(c, &o);
        s.bind(
            c.reg,
            SymValue::Ptr(
                SymPointer {
                    prov: Prov::Region(c.region),
                    offset: o,
                    align: gcd(c.align, c.stride),
                },
            ),
        );
        s.facts.append(&mut facts);
    }

    /// Enter a loop: replace what it changes by what holds on every iteration.
    pub fn havoc_header(
        &mut self,
        f: &Function,
        flow: &Flow,
        sc: &Scene,
        header: u32,
        s: &mut PathState,
    )
        ensures
            (final(self)@, final(s)@) == havocked(
                *f,
                *flow,
                sc@,
                old(self)@,
                old(s)@,
                header,
            ),
    {
        s.exact = false;
        s.heap = Vec::new();
        assert(s.heap@ =~= Seq::<StoreRecord>::empty());
        let no_exits: Vec<EqExit> = Vec::new();
        let no_walks: Vec<PtrWalk> = Vec::new();
        let no_diffs: Vec<(u32, u32, i128)> = Vec::new();
        let no_body: Vec<u32> = Vec::new();
        assert(no_exits@ =~= Seq::<EqExit>::empty());
        assert(no_walks@ =~= Seq::<PtrWalk>::empty());
        assert(no_diffs@ =~= Seq::<(u32, u32, i128)>::empty());
        assert(no_body@ =~= Seq::<u32>::empty());
        let (exits, walks, diffs) = match flow.facts_of(header) {
            Some(h) => (&h.exits, &h.walks, &h.diffs),
            None => (&no_exits, &no_walks, &no_diffs),
        };
        let body: &Vec<u32> = match flow.loop_of(header) {
            Some(l) => &l.body,
            None => &no_body,
        };
        assert((exits@, walks@, diffs@) == lists_at(*flow, header));
        assert(body@ == body_of(*flow, header));
        let ecs = self.capture_exits(sc, exits, s);
        let wcs = self.capture_walks(sc, walks, s);
        if loop_frees(f, body) {
            free_all(s);
        }
        let ghost s1 = s@;
        let ghost m2 = self@;
        let regs = loop_modified(f, body);
        let ghost rs = numbers(regs@);
        let mut i: usize = 0;
        while i < regs.len()
            invariant
                i <= regs@.len(),
                rs == numbers(regs@),
                forall|k: int| 0 <= k < regs@.len() ==> #[trigger] regs@[k] <= u32::MAX,
                (self@, s@) == havocked_regs(*f, *flow, m2, s1, header, rs, i as int),
            decreases regs@.len() - i,
        {
            assert(regs@[i as int] <= u32::MAX);
            assert(rs[i as int] == regs@[i as int]);
            let r: u32 = regs[i] as u32;
            let counter = sound_counting_induction(f, flow, header, r);
            let iv = interval_at(flow, header, r);
            self.havoc_reg(s, r, iv, counter);
            i += 1;
        }
        let ghost s2 = s@;
        let kept = live_numbers(&s.env, &regs);
        let ghost ks = numbers(kept@);
        let mut j: usize = 0;
        while j < kept.len()
            invariant
                j <= kept@.len(),
                ks == numbers(kept@),
                forall|k: int| 0 <= k < kept@.len() ==> #[trigger] kept@[k] <= u32::MAX,
                s@ == kept_bounded(*flow, s2, header, ks, j as int),
            decreases kept@.len() - j,
        {
            assert(kept@[j as int] <= u32::MAX);
            assert(ks[j as int] == kept@[j as int]);
            let r: u32 = kept[j] as u32;
            let e: Option<Ex> = match find(&s.env, r) {
                Some(SymValue::Scalar(e)) => Some(e.clone()),
                _ => None,
            };
            if let Some(e) = e {
                let w: u32 = width(&e);
                if w > 1 {
                    let iv = interval_at(flow, header, r);
                    add_interval(s, iv, &e, w);
                }
            }
            j += 1;
        }
        add_diffs(s, diffs);
        let ghost s4 = s@;
        let ghost m3 = self@;
        let mut k: usize = 0;
        while k < ecs.len()
            invariant
                k <= ecs@.len(),
                (self@, s@) == exits_bounded(m3, s4, ecs@, k as int),
            decreases ecs@.len() - k,
        {
            let v: Option<Ex> = match find(&s.env, ecs[k].reg) {
                Some(SymValue::Scalar(e)) => Some(e.clone()),
                _ => None,
            };
            if let Some(v) = v {
                let c = &ecs[k];
                self.assert_eq_exit_bound(s, &v, &c.start, &c.bound, c.stride);
            }
            k += 1;
        }
        let ghost s5 = s@;
        let ghost m4 = self@;
        let mut q: usize = 0;
        while q < wcs.len()
            invariant
                q <= wcs@.len(),
                (self@, s@) == walks_bounded(m4, s5, wcs@, q as int),
            decreases wcs@.len() - q,
        {
            self.assert_ptr_walk_bound(s, &wcs[q]);
            q += 1;
        }
        install_sentinel_scan_bound(f, flow, header, s);
    }
}

fn stride_of_walk(w: &PtrWalk) -> (r: Option<u64>)
    ensures
        r == walk_stride(*w),
{
    let e: u64 = w.elem.stride_or_one();
    if w.stride_elems < 0 || w.stride_elems > 0xffff_ffff_ffff_ffff {
        return None;
    }
    let n: u64 = w.stride_elems as u64;
    n.checked_mul(e)
}

fn mk_last_offset(c: &WalkCapture, e: &Ex) -> (r: Ex)
    ensures
        r == last_offset(*c, *e),
{
    if c.bottom_test {
        mk_bin(BvOp::Add, e, &mk_lit(PTR_WIDTH, c.stride as u128))
    } else {
        e.clone()
    }
}

fn make_walk_gate(c: &WalkCapture) -> (g: Vec<Ex>)
    requires
        c.stride > 0,
    ensures
        g@ == walk_gate(*c),
{
    let z = const_expr(0);
    let last = mk_last_offset(c, &c.start);
    let g = vec![
        mk_sle(&z, &c.start),
        mk_sle(&last, &c.end),
        mk_sle(&c.end, &c.size),
        mk_sle(&c.size, &mk_isize_max()),
        mk_on_grid(&c.start, &c.end, c.stride as u128),
    ];
    assert(g@ =~= walk_gate(*c));
    g
}

fn make_walk_facts(c: &WalkCapture, o: &Ex) -> (g: Vec<Ex>)
    requires
        c.stride > 0,
    ensures
        g@ == walk_facts(*c, *o),
{
    let z = const_expr(0);
    let last = mk_last_offset(c, o);
    let g = vec![
        mk_sle(&z, &c.start),
        mk_sle(&c.start, o),
        mk_sle(&z, &last),
        mk_sle(&last, &c.end),
        mk_sle(&last, &c.size),
        mk_sle(&c.end, &c.size),
        mk_sle(&c.size, &mk_isize_max()),
        mk_on_grid(&c.start, o, c.stride as u128),
        mk_on_grid(&c.start, &c.end, c.stride as u128),
    ];
    assert(g@ =~= walk_facts(*c, *o));
    g
}

fn add_diffs(s: &mut PathState, diffs: &Vec<(u32, u32, i128)>)
    ensures
        final(s)@ == differing(old(s)@, diffs@, diffs@.len() as int),
{
    let mut i: usize = 0;
    while i < diffs.len()
        invariant
            i <= diffs@.len(),
            s@ == differing(old(s)@, diffs@, i as int),
        decreases diffs@.len() - i,
    {
        let d = diffs[i];
        let x: Option<Ex> = match find(&s.env, d.0) {
            Some(SymValue::Scalar(e)) => Some(e.clone()),
            _ => None,
        };
        let y: Option<Ex> = match find(&s.env, d.1) {
            Some(SymValue::Scalar(e)) => Some(e.clone()),
            _ => None,
        };
        if let (Some(x), Some(y)) = (x, y) {
            let rhs = mk_bin(BvOp::Add, &y, &const_expr(d.2));
            s.add_fact(mk_sle(&x, &rhs));
        }
        i += 1;
    }
}

/// Bound the counter of a scan for the end of a terminated region.
pub fn install_sentinel_scan_bound(f: &Function, flow: &Flow, header: u32, s: &mut PathState)
    ensures
        final(s)@ == scan_bounded(old(s)@, sentinel_scan(*f, *flow, old(s)@, header)),
{
    if let Some(b) = find_sentinel_scan(f, flow, s, header) {
        let z = const_expr(0);
        s.add_fact(mk_sle(&z, &b.index));
        let next = mk_bin(BvOp::Add, &b.index, &mk_lit(PTR_WIDTH, 1));
        let bytes = mk_bin(BvOp::Mul, &next, &mk_lit(PTR_WIDTH, b.elem as u128));
        s.add_fact(mk_sle(&bytes, &b.size));
    }
}

} // verus!
