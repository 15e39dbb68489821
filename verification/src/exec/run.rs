//! Exploring a function block by block.

use crate::exec::eval::{scalar_of, Scene, SceneView};
use crate::exec::flow::{back_edge, loop_at, Flow};
use crate::exec::havoc::havocked;
use crate::exec::machine::{infeasible, time_up, Check, Machine, MachineView};
use crate::exec::merge::{edge_views, entered, EdgeState, EdgeView};
use crate::exec::step::{stepped, sum_views};
use crate::exec::value::{PathState, PathView};
use crate::expr::{conj, equal, mk_conj, mk_equal, mk_not, negation, Ex, Expr};
use crate::ir::{
    block_with, copy_operands, BitVector, BlockId, Function, Inst, Operand, RegId, Terminator, Type,
};
use crate::summary::{Summary, SummaryView};
use std::collections::HashMap;
use std::rc::Rc;
use vstd::prelude::*;

verus! {

// ---- edges ----

/// A path along an edge, with its target.
pub type Leaving = (u32, EdgeView);

/// After an edge under a condition: it is cut where it goes back, or where the condition
/// cannot hold.
pub open spec fn leaving_if(
    flow: Flow,
    m: MachineView,
    s: PathView,
    source: u32,
    target: u32,
    guard: Ex,
    args: Seq<Operand>,
) -> (MachineView, Seq<Leaving>) {
    if back_edge(flow, source, target) {
        (m, Seq::empty())
    } else {
        let (m1, dead) = infeasible(m, s, guard);
        if dead {
            (m1, Seq::empty())
        } else {
            (m1, seq![(target, EdgeView { state: s, guard: Some(guard), args })])
        }
    }
}

/// That a value is the one of a case.
pub open spec fn case_guard(v: Ex, c: BitVector) -> Ex {
    equal(v, Rc::new(Expr::Const(c)))
}

/// After the first `n` cases of a branch on a value.
pub open spec fn leaving_cases(
    flow: Flow,
    m: MachineView,
    s: PathView,
    source: u32,
    v: Ex,
    cases: Seq<(BitVector, BlockId)>,
    n: int,
) -> (MachineView, Seq<Leaving>)
    decreases n,
{
    if n <= 0 {
        (m, Seq::empty())
    } else {
        let (m1, out) = leaving_cases(flow, m, s, source, v, cases, n - 1);
        let (c, target) = cases[n - 1];
        let (m2, more) = leaving_if(
            flow,
            m1,
            s,
            source,
            target.0,
            case_guard(v, c),
            Seq::empty(),
        );
        (m2, out + more)
    }
}

/// That a value is none of the cases.
pub open spec fn no_case(v: Ex, cases: Seq<(BitVector, BlockId)>) -> Ex {
    conj(Seq::new(cases.len(), |i: int| negation(case_guard(v, cases[i].0))))
}

/// The paths that leave a block.
pub open spec fn leaving(
    flow: Flow,
    sc: SceneView,
    m: MachineView,
    s: PathView,
    source: u32,
    term: Terminator,
) -> (MachineView, Seq<Leaving>) {
    match term {
        Terminator::Return(_) => (m, Seq::empty()),
        Terminator::Unreachable => (m, Seq::empty()),
        Terminator::Br { target, args } => if back_edge(flow, source, target.0) {
            (m, Seq::empty())
        } else {
            (m, seq![(target.0, EdgeView { state: s, guard: None, args: args@ })])
        },
        Terminator::CondBr { cond, then_blk, then_args, else_blk, else_args } => {
            let (m1, c) = scalar_of(sc, m, s, cond);
            let (m2, a) = leaving_if(flow, m1, s, source, then_blk.0, c, then_args@);
            let (m3, b) = leaving_if(flow, m2, s, source, else_blk.0, negation(c), else_args@);
            (m3, a + b)
        },
        Terminator::Switch { value, cases, default } => {
            let (m1, v) = scalar_of(sc, m, s, value);
            let (m2, a) = leaving_cases(flow, m1, s, source, v, cases@, cases@.len() as int);
            let (m3, b) = leaving_if(
                flow,
                m2,
                s,
                source,
                default.0,
                no_case(v, cases@),
                Seq::empty(),
            );
            (m3, a + b)
        },
    }
}

// ---- blocks ----

/// After the first `n` instructions of a block.
pub open spec fn stepping(
    sc: SceneView,
    sums: Map<u32, SummaryView>,
    m: MachineView,
    s: PathView,
    block: BlockId,
    insts: Seq<Inst>,
    n: int,
) -> (MachineView, PathView)
    decreases n,
{
    if n <= 0 {
        (m, s)
    } else {
        let (m1, s1) = stepping(sc, sums, m, s, block, insts, n - 1);
        stepped(
            sc,
            sums,
            m1,
            s1,
            Check { block, index: (n - 1) as usize },
            insts[n - 1],
        )
    }
}

/// The paths that enter a block.
pub open spec fn entering(pending: Seq<Leaving>, block: u32) -> Seq<EdgeView>
    decreases pending.len(),
{
    if pending.len() == 0 {
        Seq::empty()
    } else {
        let s = entering(pending.drop_last(), block);
        if pending.last().0 == block {
            s.push(pending.last().1)
        } else {
            s
        }
    }
}

/// The paths that do not enter a block.
pub open spec fn elsewhere(pending: Seq<Leaving>, block: u32) -> Seq<Leaving>
    decreases pending.len(),
{
    if pending.len() == 0 {
        Seq::empty()
    } else {
        let s = elsewhere(pending.drop_last(), block);
        if pending.last().0 == block {
            s
        } else {
            s.push(pending.last())
        }
    }
}

/// An exploration under way: the machine, the paths not followed yet, and how many blocks
/// were visited.
pub struct Progressing {
    pub m: MachineView,
    pub pending: Seq<Leaving>,
    pub visits: int,
}

/// What an exploration is about.
pub struct Subject {
    pub f: Function,
    pub flow: Flow,
    pub sc: SceneView,
    pub sums: Map<u32, SummaryView>,
    pub max_visits: int,
    /// Whether the time is limited.
    pub timed: bool,
}

/// The parameters of a block.
pub open spec fn params_at(f: Function, block: u32) -> Seq<(RegId, Type)> {
    match block_with(f.blocks@, BlockId(block)) {
        Some(b) => b.params@,
        None => Seq::empty(),
    }
}

/// After the visit of a block that paths enter.
pub open spec fn visited(x: Subject, m: MachineView, edges: Seq<EdgeView>, block: u32) -> (
    MachineView,
    Seq<Leaving>,
) {
    let (m1, s1) = entered(x.sc, m, edges, params_at(x.f, block));
    let (m2, s2) = if loop_at(x.flow.loops@, block) is Some {
        havocked(x.f, x.flow, x.sc, m1, s1, block)
    } else {
        (m1, s1)
    };
    match block_with(x.f.blocks@, BlockId(block)) {
        None => (m2, Seq::empty()),
        Some(b) => {
            let (m3, s3) = stepping(
                x.sc,
                x.sums,
                m2,
                s2,
                BlockId(block),
                b.insts@,
                b.insts@.len() as int,
            );
            leaving(x.flow, x.sc, m3, s3, block, b.term)
        },
    }
}

/// An exploration that is cut short.
pub open spec fn cut_short(m: MachineView) -> MachineView {
    MachineView { truncated: true, ..m }
}

/// After one block of the order. Where too many blocks were visited, or the time is up,
/// the exploration is cut short.
pub open spec fn advanced(x: Subject, p: Progressing, block: u32) -> Progressing {
    let edges = entering(p.pending, block);
    if p.m.truncated || edges.len() == 0 {
        p
    } else if p.visits + 1 > x.max_visits {
        Progressing { m: cut_short(p.m), visits: p.visits + 1, ..p }
    } else {
        let (m1, up) = if x.timed {
            time_up(p.m)
        } else {
            (p.m, false)
        };
        if up {
            Progressing { m: cut_short(m1), visits: p.visits + 1, ..p }
        } else {
            let (m2, out) = visited(x, m1, edges, block);
            Progressing {
                m: m2,
                pending: elsewhere(p.pending, block) + out,
                visits: p.visits + 1,
            }
        }
    }
}

/// After the first `n` blocks of the order.
pub open spec fn explored(x: Subject, p: Progressing, order: Seq<u32>, n: int) -> Progressing
    decreases n,
{
    if n <= 0 {
        p
    } else {
        advanced(x, explored(x, p, order, n - 1), order[n - 1])
    }
}

// ---- the exploration at work ----

/// Paths with their targets, as mathematical values.
pub open spec fn leaving_views(s: Seq<(u32, EdgeState)>) -> Seq<Leaving> {
    Seq::new(s.len(), |i: int| (s[i].0, s[i].1@))
}

fn push_edge(out: &mut Vec<(u32, EdgeState)>, target: u32, e: EdgeState)
    ensures
        leaving_views(final(out)@) == leaving_views(old(out)@).push((target, e@)),
{
    let ghost before = out@;
    let ghost ev = e@;
    out.push((target, e));
    assert(leaving_views(out@) =~= leaving_views(before).push((target, ev)));
}

fn take_entering(pending: &mut Vec<(u32, EdgeState)>, block: u32) -> (r: Vec<EdgeState>)
    ensures
        edge_views(r@) == entering(leaving_views(old(pending)@), block),
        leaving_views(final(pending)@) == if r@.len() > 0 {
            elsewhere(leaving_views(old(pending)@), block)
        } else {
            leaving_views(old(pending)@)
        },
{
    let ghost all = leaving_views(pending@);
    let mut back: Vec<(u32, EdgeState)> = Vec::new();
    while pending.len() > 0
        invariant
            all == leaving_views(pending@) + leaving_views(back@).reverse(),
        decreases pending@.len(),
    {
        let ghost a = pending@;
        let ghost b = back@;
        let x = pending.pop().unwrap();
        let ghost xv = (x.0, x.1@);
        back.push(x);
        assert(leaving_views(a) =~= leaving_views(pending@).push(xv));
        assert(leaving_views(back@) =~= leaving_views(b).push(xv));
        assert(all =~= leaving_views(pending@) + leaving_views(back@).reverse());
    }
    assert(all =~= leaving_views(back@).reverse());
    assert(all.take(0) =~= Seq::<Leaving>::empty());
    let mut out: Vec<EdgeState> = Vec::new();
    assert(leaving_views(pending@) =~= Seq::<Leaving>::empty());
    assert(edge_views(out@) =~= Seq::<EdgeView>::empty());
    while back.len() > 0
        invariant
            back@.len() <= all.len(),
            all.subrange(all.len() - back@.len(), all.len() as int) == leaving_views(
                back@,
            ).reverse(),
            edge_views(out@) == entering(all.take(all.len() - back@.len()), block),
            leaving_views(pending@) == elsewhere(all.take(all.len() - back@.len()), block),
        decreases back@.len(),
    {
        let ghost n = all.len() - back@.len();
        let ghost kept = back@;
        let x = back.pop().unwrap();
        let ghost xv = (x.0, x.1@);
        assert(leaving_views(kept).reverse()[0] == xv);
        assert(all[n] == all.subrange(n, all.len() as int)[0]);
        assert(all.take(n + 1).drop_last() =~= all.take(n));
        assert(all.take(n + 1).last() == xv);
        assert(leaving_views(back@).reverse() =~= leaving_views(kept).reverse().subrange(
            1,
            kept.len() as int,
        ));
        assert(all.subrange(n + 1, all.len() as int) =~= all.subrange(
            n,
            all.len() as int,
        ).subrange(1, kept.len() as int));
        if x.0 == block {
            let ghost before = out@;
            let e = x.1;
            let ghost ev = e@;
            out.push(e);
            assert(edge_views(out@) =~= edge_views(before).push(ev));
        } else {
            let ghost before = pending@;
            pending.push(x);
            assert(leaving_views(pending@) =~= leaving_views(before).push(xv));
        }
    }
    assert(all.take(all.len() as int) =~= all);
    proof {
        if out@.len() == 0 {
            lemma_nothing_enters(all, block);
        }
    }
    out
}

proof fn lemma_nothing_enters(pending: Seq<Leaving>, block: u32)
    requires
        entering(pending, block).len() == 0,
    ensures
        elsewhere(pending, block) == pending,
    decreases pending.len(),
{
    if pending.len() > 0 {
        lemma_nothing_enters(pending.drop_last(), block);
        assert(elsewhere(pending, block) =~= pending);
    } else {
        assert(elsewhere(pending, block) =~= pending);
    }
}

fn copy_edge(s: &PathState, guard: Option<Ex>, args: &Vec<Operand>) -> (e: EdgeState)
    ensures
        e@ == (EdgeView { state: s@, guard, args: args@ }),
{
    EdgeState { state: s.copy(), guard, args: copy_operands(args) }
}

impl<'a> Machine<'a> {
    fn leave_if(
        &mut self,
        flow: &Flow,
        s: &PathState,
        source: u32,
        target: u32,
        guard: &Ex,
        args: &Vec<Operand>,
        out: &mut Vec<(u32, EdgeState)>,
    )
        ensures
            final(self)@ == leaving_if(
                *flow,
                old(self)@,
                s@,
                source,
                target,
                *guard,
                args@,
            ).0,
            leaving_views(final(out)@) == leaving_views(old(out)@) + leaving_if(
                *flow,
                old(self)@,
                s@,
                source,
                target,
                *guard,
                args@,
            ).1,
    {
        let ghost start = leaving_views(out@);
        assert(start + Seq::<Leaving>::empty() =~= start);
        if flow.is_back_edge(source, target) {
            return;
        }
        if self.branch_infeasible(guard, s) {
            return;
        }
        let e = copy_edge(s, Some(guard.clone()), args);
        let ghost ev = e@;
        push_edge(out, target, e);
        assert(leaving_views(out@) =~= start + seq![(target, ev)]);
    }

    fn leave_cases(
        &mut self,
        flow: &Flow,
        s: &PathState,
        source: u32,
        v: &Ex,
        cases: &Vec<(BitVector, BlockId)>,
        out: &mut Vec<(u32, EdgeState)>,
    )
        ensures
            final(self)@ == leaving_cases(
                *flow,
                old(self)@,
                s@,
                source,
                *v,
                cases@,
                cases@.len() as int,
            ).0,
            leaving_views(final(out)@) == leaving_views(old(out)@) + leaving_cases(
                *flow,
                old(self)@,
                s@,
                source,
                *v,
                cases@,
                cases@.len() as int,
            ).1,
    {
        let ghost start = leaving_views(out@);
        let none: Vec<Operand> = Vec::new();
        assert(none@ =~= Seq::<Operand>::empty());
        let mut i: usize = 0;
        assert(start + Seq::<Leaving>::empty() =~= start);
        while i < cases.len()
            invariant
                i <= cases@.len(),
                start == leaving_views(old(out)@),
                none@ == Seq::<Operand>::empty(),
                self@ == leaving_cases(
                    *flow,
                    old(self)@,
                    s@,
                    source,
                    *v,
                    cases@,
                    i as int,
                ).0,
                leaving_views(out@) == start + leaving_cases(
                    *flow,
                    old(self)@,
                    s@,
                    source,
                    *v,
                    cases@,
                    i as int,
                ).1,
            decreases cases@.len() - i,
        {
            let ghost so_far = leaving_cases(
                *flow,
                old(self)@,
                s@,
                source,
                *v,
                cases@,
                i as int,
            ).1;
            let ghost m1 = self@;
            let c = cases[i].0;
            let target: u32 = (cases[i].1).0;
            let guard = mk_equal(v, &Rc::new(Expr::Const(c)));
            self.leave_if(flow, s, source, target, &guard, &none, out);
            proof {
                let more = leaving_if(*flow, m1, s@, source, target, guard, none@).1;
                assert((start + so_far) + more =~= start + (so_far + more));
            }
            i += 1;
        }
    }

    /// The paths that leave a block.
    pub fn propagate_edges(
        &mut self,
        flow: &Flow,
        sc: &Scene,
        s: &PathState,
        source: u32,
        term: &Terminator,
        out: &mut Vec<(u32, EdgeState)>,
    )
        ensures
            final(self)@ == leaving(*flow, sc@, old(self)@, s@, source, *term).0,
            leaving_views(final(out)@) == leaving_views(old(out)@) + leaving(
                *flow,
                sc@,
                old(self)@,
                s@,
                source,
                *term,
            ).1,
    {
        let ghost start = leaving_views(out@);
        assert(start + Seq::<Leaving>::empty() =~= start);
        match term {
            Terminator::Return(_) => {},
            Terminator::Unreachable => {},
            Terminator::Br { target, args } => {
                if !flow.is_back_edge(source, target.0) {
                    let e = copy_edge(s, None, args);
                    let ghost ev = e@;
                    push_edge(out, target.0, e);
                    assert(leaving_views(out@) =~= start + seq![(target.0, ev)]);
                }
            },
            Terminator::CondBr { cond, then_blk, then_args, else_blk, else_args } => {
                let c = self.eval_scalar(sc, cond, s);
                let ghost m1 = self@;
                self.leave_if(flow, s, source, then_blk.0, &c, then_args, out);
                let ghost m2 = self@;
                let nc = mk_not(&c);
                self.leave_if(flow, s, source, else_blk.0, &nc, else_args, out);
                proof {
                    let a = leaving_if(*flow, m1, s@, source, then_blk.0, c, then_args@).1;
                    let b = leaving_if(*flow, m2, s@, source, else_blk.0, nc, else_args@).1;
                    assert((start + a) + b =~= start + (a + b));
                }
            },
            Terminator::Switch { value, cases, default } => {
                let v = self.eval_scalar(sc, value, s);
                let ghost m1 = self@;
                self.leave_cases(flow, s, source, &v, cases, out);
                let ghost m2 = self@;
                let guard = none_of(&v, cases);
                let none: Vec<Operand> = Vec::new();
                assert(none@ =~= Seq::<Operand>::empty());
                self.leave_if(flow, s, source, default.0, &guard, &none, out);
                proof {
                    let a = leaving_cases(
                        *flow,
                        m1,
                        s@,
                        source,
                        v,
                        cases@,
                        cases@.len() as int,
                    ).1;
                    let b = leaving_if(*flow, m2, s@, source, default.0, guard, none@).1;
                    assert((start + a) + b =~= start + (a + b));
                }
            },
        }
    }

    fn run_insts(
        &mut self,
        sc: &Scene,
        sums: &HashMap<u32, Summary>,
        block: BlockId,
        insts: &Vec<Inst>,
        s: &mut PathState,
    )
        ensures
            (final(self)@, final(s)@) == stepping(
                sc@,
                sum_views(sums@),
                old(self)@,
                old(s)@,
                block,
                insts@,
                insts@.len() as int,
            ),
    {
        let mut i: usize = 0;
        while i < insts.len()
            invariant
                i <= insts@.len(),
                (self@, s@) == stepping(
                    sc@,
                    sum_views(sums@),
                    old(self)@,
                    old(s)@,
                    block,
                    insts@,
                    i as int,
                ),
            decreases insts@.len() - i,
        {
            self.step(sc, sums, Check { block, index: i }, &insts[i], s);
            i += 1;
        }
    }

    fn visit(
        &mut self,
        f: &Function,
        flow: &Flow,
        sc: &Scene,
        sums: &HashMap<u32, Summary>,
        edges: Vec<EdgeState>,
        block: u32,
        out: &mut Vec<(u32, EdgeState)>,
        Ghost(x): Ghost<Subject>,
    )
        requires
            edges@.len() > 0,
            x.f == *f,
            x.flow == *flow,
            x.sc == sc@,
            x.sums == sum_views(sums@),
        ensures
            final(self)@ == visited(x, old(self)@, edge_views(edges@), block).0,
            leaving_views(final(out)@) == leaving_views(old(out)@) + visited(
                x,
                old(self)@,
                edge_views(edges@),
                block,
            ).1,
    {
        let ghost start = leaving_views(out@);
        assert(start + Seq::<Leaving>::empty() =~= start);
        let none: Vec<(RegId, Type)> = Vec::new();
        assert(none@ =~= Seq::<(RegId, Type)>::empty());
        let b = f.block(BlockId(block));
        let params: &Vec<(RegId, Type)> = match b {
            Some(b) => &b.params,
            None => &none,
        };
        assert(params@ == params_at(*f, block));
        let mut s = self.merge_edges(sc, edges, params);
        if flow.loop_of(block).is_some() {
            self.havoc_header(f, flow, sc, block, &mut s);
        }
        if let Some(b) = b {
            self.run_insts(sc, sums, BlockId(block), &b.insts, &mut s);
            self.propagate_edges(flow, sc, &s, block, &b.term, out);
        }
    }

    /// Explore the blocks in order.
    pub fn run_merged(
        &mut self,
        f: &Function,
        flow: &Flow,
        sc: &Scene,
        sums: &HashMap<u32, Summary>,
        max_visits: usize,
        timed: bool,
        entry: PathState,
        Ghost(x): Ghost<Subject>,
    )
        requires
            x.f == *f,
            x.flow == *flow,
            x.sc == sc@,
            x.sums == sum_views(sums@),
            x.max_visits == max_visits,
            x.timed == timed,
        ensures
            final(self)@ == explored(
                x,
                entry_at(x, old(self)@, entry@),
                flow.order@,
                flow.order@.len() as int,
            ).m,
    {
        let mut pending: Vec<(u32, EdgeState)> = Vec::new();
        let none: Vec<Operand> = Vec::new();
        assert(none@ =~= Seq::<Operand>::empty());
        let ghost ent = entry@;
        pending.push((f.entry.0, EdgeState { state: entry, guard: None, args: none }));
        let ghost p0 = entry_at(x, self@, ent);
        assert(leaving_views(pending@) =~= p0.pending);
        let mut visits: usize = 0;
        let mut i: usize = 0;
        while i < flow.order.len()
            invariant
                i <= flow.order@.len(),
                x.f == *f,
                x.flow == *flow,
                x.sc == sc@,
                x.sums == sum_views(sums@),
                x.max_visits == max_visits,
                x.timed == timed,
                p0 == entry_at(x, old(self)@, ent),
                ent == entry@,
                ({
                    let p = explored(x, p0, flow.order@, i as int);
                    &&& p.m == self@
                    &&& p.pending == leaving_views(pending@)
                    &&& p.visits == visits
                    &&& !p.m.truncated
                    &&& visits <= max_visits
                }) || (self.truncated && self@ == explored(x, p0, flow.order@, i as int).m),
            decreases flow.order@.len() - i,
        {
            let block: u32 = flow.order[i];
            if !self.truncated {
                let edges = take_entering(&mut pending, block);
                assert(edge_views(edges@).len() == edges@.len());
                if edges.len() > 0 {
                    if visits >= max_visits {
                        self.truncated = true;
                    } else {
                        visits = visits + 1;
                        let up = if timed {
                            self.out_of_time()
                        } else {
                            false
                        };
                        if up {
                            self.truncated = true;
                        } else {
                            self.visit(f, flow, sc, sums, edges, block, &mut pending, Ghost(x));
                        }
                    }
                }
            }
            i += 1;
        }
    }
}

/// An exploration at the start: the entry is the only path.
pub open spec fn entry_at(x: Subject, m: MachineView, s: PathView) -> Progressing {
    Progressing {
        m,
        pending: seq![
            (x.f.entry.0, EdgeView { state: s, guard: None, args: Seq::empty() }),
        ],
        visits: 0,
    }
}

fn none_of(v: &Ex, cases: &Vec<(BitVector, BlockId)>) -> (e: Ex)
    ensures
        e == no_case(*v, cases@),
{
    let mut out: Vec<Ex> = Vec::new();
    let mut i: usize = 0;
    while i < cases.len()
        invariant
            i <= cases@.len(),
            out@.len() == i,
            forall|k: int|
                0 <= k < i ==> #[trigger] out@[k] == negation(case_guard(*v, cases@[k].0)),
        decreases cases@.len() - i,
    {
        let guard = mk_equal(v, &Rc::new(Expr::Const(cases[i].0)));
        out.push(mk_not(&guard));
        i += 1;
    }
    assert(out@ =~= Seq::new(cases@.len(), |i: int| negation(case_guard(*v, cases@[i].0))));
    mk_conj(&out)
}

} // verus!
