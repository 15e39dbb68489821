//! Joining the paths that enter a block.

use crate::exec::eval::{
    fresh_value, mk_untracked, untracked, value_of, zero, const_expr, Scene, SceneView,
};
use crate::exec::machine::{Machine, MachineView};
use crate::exec::value::{
    addrs_same, bound, common, copy_exprs, deeper_than, gcd, pointer_regions_kept, provs_same,
    regions_kept, same_addr, same_prov, select_depth, with_cond, POrigin, PathState, PathView,
    Prov, StoreRecord, SymPointer, SymRegion, SymValue,
};
use crate::expr::{conj, ite, mk_conj, mk_ite, same, Ex};
use crate::ir::{Operand, RegId, Type};
use crate::numbers::{lemma_numbered_push, numbered};
use vstd::prelude::*;

verus! {

/// A path that enters a block: the state at its source, the condition of the edge, and the
/// arguments for the block's parameters.
pub struct EdgeState {
    pub state: PathState,
    pub guard: Option<Ex>,
    pub args: Vec<Operand>,
}

/// A path that enters a block, as a mathematical value.
pub struct EdgeView {
    pub state: PathView,
    pub guard: Option<Ex>,
    pub args: Seq<Operand>,
}

impl View for EdgeState {
    type V = EdgeView;

    open spec fn view(&self) -> EdgeView {
        EdgeView { state: self.state@, guard: self.guard, args: self.args@ }
    }
}

/// Paths as mathematical values.
pub open spec fn edge_views(s: Seq<EdgeState>) -> Seq<EdgeView> {
    Seq::new(s.len(), |i: int| s[i]@)
}

// ---- values ----

/// How deep choices of pointers nest.
pub const MAX_SELECT_DEPTH: u32 = 8;

/// One of two values, by a condition: a choice of numbers, of offsets into one region, or
/// of pointers, as long as choices do not nest too deep.
pub open spec fn selected(m: MachineView, d: Ex, a: SymValue, b: SymValue, ty: Type) -> (
    MachineView,
    SymValue,
) {
    match (a, b) {
        (SymValue::Scalar(x), SymValue::Scalar(y)) => (m, SymValue::Scalar(ite(d, x, y))),
        (SymValue::Ptr(p), SymValue::Ptr(q)) => (m, SymValue::Ptr(selected_ptr(d, p, q))),
        _ => fresh_value(m, ty, POrigin::SelectJoin),
    }
}

/// One of two pointers, by a condition.
pub open spec fn selected_ptr(d: Ex, p: SymPointer, q: SymPointer) -> SymPointer {
    if same_prov(p.prov, q.prov) {
        SymPointer {
            prov: p.prov,
            offset: ite(d, p.offset, q.offset),
            align: common(p.align as int, q.align as int) as u64,
        }
    } else if select_depth(p.prov) >= MAX_SELECT_DEPTH || select_depth(q.prov)
        >= MAX_SELECT_DEPTH {
        untracked(POrigin::SelectJoin)
    } else {
        SymPointer {
            prov: Prov::Select { cond: d, then_ptr: Box::new(p), else_ptr: Box::new(q) },
            offset: zero(),
            align: common(p.align as int, q.align as int) as u64,
        }
    }
}

/// The value of the paths from the one at `i` on, each under its condition; the last one
/// where no other applies.
pub open spec fn joined_from(m: MachineView, vals: Seq<(Ex, SymValue)>, ty: Type, i: int) -> (
    MachineView,
    SymValue,
)
    decreases vals.len() - i,
{
    if i >= vals.len() - 1 || i < 0 {
        (m, vals.last().1)
    } else {
        let (m1, rest) = joined_from(m, vals, ty, i + 1);
        selected(m1, vals[i].0, vals[i].1, rest, ty)
    }
}

/// The value of several paths.
pub open spec fn joined(m: MachineView, vals: Seq<(Ex, SymValue)>, ty: Type) -> (
    MachineView,
    SymValue,
) {
    if vals.len() == 0 {
        fresh_value(m, ty, POrigin::PhiFallback)
    } else {
        joined_from(m, vals, ty, 0)
    }
}

// ---- states ----

/// The condition under which control comes by a path.
pub open spec fn discriminator(e: EdgeView) -> Ex {
    match e.guard {
        Some(g) => conj(e.state.pathcond.push(g)),
        None => conj(e.state.pathcond),
    }
}

/// The conditions of paths.
pub open spec fn discriminators(edges: Seq<EdgeView>) -> Seq<Ex> {
    Seq::new(edges.len(), |i: int| discriminator(edges[i]))
}

/// Every path has a region at a position, and of the same size as the first path's.
pub open spec fn region_agreed(edges: Seq<EdgeView>, i: int) -> bool {
    forall|k: int|
        0 <= k < edges.len() ==> i < (#[trigger] edges[k]).state.regions.len()
            && edges[k].state.regions[i].size == edges[0].state.regions[i].size
}

/// The number of regions from `i` on that every path has.
pub open spec fn kept_from(edges: Seq<EdgeView>, i: int) -> int
    decreases edges[0].state.regions.len() - i,
{
    if i < edges[0].state.regions.len() && region_agreed(edges, i) {
        kept_from(edges, i + 1)
    } else {
        i
    }
}

/// The region is live on every path.
pub open spec fn live_on_all(edges: Seq<EdgeView>, i: int) -> bool {
    forall|k: int| 0 <= k < edges.len() ==> (#[trigger] edges[k]).state.regions[i].live
}

/// The regions that every path has, live where they are on every path.
pub open spec fn merged_regions(edges: Seq<EdgeView>) -> Seq<SymRegion> {
    Seq::new(
        kept_from(edges, 0) as nat,
        |i: int|
            SymRegion { live: live_on_all(edges, i), ..edges[0].state.regions[i] },
    )
}

/// A value without a pointer into a region that was dropped.
pub open spec fn sanitized(v: SymValue, count: int) -> SymValue {
    match v {
        SymValue::Ptr(p) => match p.prov {
            Prov::Region(r) => if r >= count {
                SymValue::Ptr(SymPointer { prov: Prov::Unknown(POrigin::RegionDrop), ..p })
            } else {
                v
            },
            _ => v,
        },
        _ => v,
    }
}

/// Every path has the condition at a position.
pub open spec fn cond_agreed(edges: Seq<EdgeView>, i: int) -> bool {
    forall|k: int|
        0 <= k < edges.len() ==> i < (#[trigger] edges[k]).state.pathcond.len()
            && edges[k].state.pathcond[i] == edges[0].state.pathcond[i]
}

/// The number of conditions from `i` on that every path has.
pub open spec fn conds_from(edges: Seq<EdgeView>, i: int) -> int
    decreases edges[0].state.pathcond.len() - i,
{
    if i < edges[0].state.pathcond.len() && cond_agreed(edges, i) {
        conds_from(edges, i + 1)
    } else {
        i
    }
}

/// A fact holds on every path.
pub open spec fn fact_agreed(edges: Seq<EdgeView>, e: Ex) -> bool {
    forall|k: int| 0 <= k < edges.len() ==> (#[trigger] edges[k]).state.facts.contains(e)
}

/// The facts that hold on every path.
pub open spec fn shared_facts(edges: Seq<EdgeView>, facts: Seq<Ex>) -> Seq<Ex>
    decreases facts.len(),
{
    if facts.len() == 0 {
        Seq::empty()
    } else {
        let s = shared_facts(edges, facts.drop_last());
        if fact_agreed(edges, facts.last()) {
            s.push(facts.last())
        } else {
            s
        }
    }
}

/// What holds on all of several paths, without stores. Registers that are live past a
/// join have one value on all paths, that of the first.
pub open spec fn merged_core(edges: Seq<EdgeView>) -> PathView {
    let n = kept_from(edges, 0);
    let first = edges[0].state;
    PathView {
        env: first.env.map_values(|v: SymValue| sanitized(v, n)),
        regions: merged_regions(edges),
        pathcond: first.pathcond.take(conds_from(edges, 0)),
        facts: shared_facts(edges, first.facts),
        heap: Seq::empty(),
        exact: false,
    }
}

// ---- stores ----

/// The last store to an address.
pub open spec fn last_store(heap: Seq<StoreRecord>, t: SymPointer) -> Option<StoreRecord>
    decreases heap.len(),
{
    if heap.len() == 0 {
        None
    } else if same_addr(heap.last().target, t) {
        Some(heap.last())
    } else {
        last_store(heap.drop_last(), t)
    }
}

/// A later store is to the same address.
pub open spec fn superseded(heap: Seq<StoreRecord>, k: int) -> bool {
    exists|j: int| k < j < heap.len() && same_addr((#[trigger] heap[j]).target, heap[k].target)
}

/// The values that the first `n` paths last stored at an address, where each of them
/// stored that many bytes there.
pub open spec fn stored_values(
    edges: Seq<EdgeView>,
    discs: Seq<Ex>,
    t: SymPointer,
    size: u64,
    n: int,
) -> Option<Seq<(Ex, SymValue)>>
    decreases n,
{
    if n <= 0 {
        Some(Seq::empty())
    } else {
        match (
            stored_values(edges, discs, t, size, n - 1),
            last_store(edges[n - 1].state.heap, t),
        ) {
            (Some(s), Some(r)) => if r.size == size {
                Some(s.push((discs[n - 1], r.value)))
            } else {
                None
            },
            _ => None,
        }
    }
}

/// The address is in a region that was dropped.
pub open spec fn dropped(p: Prov, count: int) -> bool {
    match p {
        Prov::Region(r) => r >= count,
        _ => false,
    }
}

/// A pointer to bytes.
pub open spec fn byte_ptr() -> Type {
    Type::Ptr { pointee: Box::new(Type::Int { bits: 8 }) }
}

/// The stores that survive among those of the first path from the one at `k - 1` back to
/// the first: an address that every path stored to, with the value of each under its
/// condition.
pub open spec fn merged_stores(
    m: MachineView,
    edges: Seq<EdgeView>,
    discs: Seq<Ex>,
    count: int,
    out: Seq<StoreRecord>,
    k: int,
) -> (MachineView, Seq<StoreRecord>)
    decreases k,
{
    if k <= 0 {
        (m, out)
    } else {
        let heap = edges[0].state.heap;
        let rec = heap[k - 1];
        let (m1, kept) = merged_store(m, edges, discs, count, k - 1);
        merged_stores(
            m1,
            edges,
            discs,
            count,
            match kept {
                Some(r) => out.push(r),
                None => out,
            },
            k - 1,
        )
    }
}

/// What becomes of one store of the first path.
pub open spec fn merged_store(
    m: MachineView,
    edges: Seq<EdgeView>,
    discs: Seq<Ex>,
    count: int,
    k: int,
) -> (MachineView, Option<StoreRecord>) {
    let heap = edges[0].state.heap;
    let rec = heap[k];
    if superseded(heap, k) || dropped(rec.target.prov, count) {
        (m, None)
    } else {
        match stored_values(edges, discs, rec.target, rec.size, edges.len() as int) {
            None => (m, None),
            Some(vals) => {
                let (m1, value) = joined(m, vals, byte_ptr());
                if value is Ptr && !regions_kept(value->Ptr_0.prov, count) {
                    (m1, None)
                } else {
                    (m1, Some(StoreRecord { target: rec.target, value, size: rec.size }))
                }
            },
        }
    }
}

// ---- parameters ----

/// The value of a block parameter on one path.
pub open spec fn param_value(
    sc: SceneView,
    m: MachineView,
    s: PathView,
    args: Seq<Operand>,
    j: int,
    ty: Type,
) -> (MachineView, SymValue) {
    if 0 <= j < args.len() {
        value_of(sc, m, s, args[j])
    } else {
        fresh_value(m, ty, POrigin::PhiFallback)
    }
}

/// The values of a block parameter on the first `n` paths.
pub open spec fn param_values(
    sc: SceneView,
    m: MachineView,
    edges: Seq<EdgeView>,
    discs: Seq<Ex>,
    j: int,
    ty: Type,
    n: int,
) -> (MachineView, Seq<(Ex, SymValue)>)
    decreases n,
{
    if n <= 0 {
        (m, Seq::empty())
    } else {
        let (m1, s) = param_values(sc, m, edges, discs, j, ty, n - 1);
        let e = edges[n - 1];
        let (m2, v) = param_value(sc, m1, e.state, e.args, j, ty);
        (m2, s.push((discs[n - 1], v)))
    }
}

/// The state with the first `n` block parameters bound to what the paths pass.
pub open spec fn params_joined(
    sc: SceneView,
    m: MachineView,
    s: PathView,
    edges: Seq<EdgeView>,
    discs: Seq<Ex>,
    params: Seq<(RegId, Type)>,
    n: int,
) -> (MachineView, PathView)
    decreases n,
{
    if n <= 0 {
        (m, s)
    } else {
        let (m1, s1) = params_joined(sc, m, s, edges, discs, params, n - 1);
        let (r, ty) = params[n - 1];
        let (m2, vals) = param_values(
            sc,
            m1,
            edges,
            discs,
            n - 1,
            ty,
            edges.len() as int,
        );
        let (m3, v) = joined(m2, vals, ty);
        (m3, bound(s1, r.0, v))
    }
}

/// The values of the first `n` block parameters on a single path.
pub open spec fn args_values(
    sc: SceneView,
    m: MachineView,
    s: PathView,
    args: Seq<Operand>,
    params: Seq<(RegId, Type)>,
    n: int,
) -> (MachineView, Seq<SymValue>)
    decreases n,
{
    if n <= 0 {
        (m, Seq::empty())
    } else {
        let (m1, vs) = args_values(sc, m, s, args, params, n - 1);
        let (m2, v) = param_value(sc, m1, s, args, n - 1, params[n - 1].1);
        (m2, vs.push(v))
    }
}

/// The state with the first `n` block parameters bound.
pub open spec fn all_bound(
    s: PathView,
    params: Seq<(RegId, Type)>,
    vals: Seq<SymValue>,
    n: int,
) -> PathView
    decreases n,
{
    if n <= 0 {
        s
    } else {
        bound(all_bound(s, params, vals, n - 1), (params[n - 1].0).0, vals[n - 1])
    }
}

/// The state in which a block with the given parameters is entered.
pub open spec fn entered(
    sc: SceneView,
    m: MachineView,
    edges: Seq<EdgeView>,
    params: Seq<(RegId, Type)>,
) -> (MachineView, PathView) {
    if edges.len() == 1 {
        let e = edges[0];
        let s = match e.guard {
            Some(g) => with_cond(e.state, g),
            None => e.state,
        };
        let (m1, vals) = args_values(sc, m, s, e.args, params, params.len() as int);
        (m1, all_bound(s, params, vals, params.len() as int))
    } else {
        let discs = discriminators(edges);
        let core = merged_core(edges);
        let (m1, heap) = merged_stores(
            m,
            edges,
            discs,
            core.regions.len() as int,
            Seq::empty(),
            edges[0].state.heap.len() as int,
        );
        params_joined(
            sc,
            m1,
            PathView { heap, ..core },
            edges,
            discs,
            params,
            params.len() as int,
        )
    }
}

// ---- the joins at work ----

fn select_ptr(d: &Ex, p: SymPointer, q: SymPointer) -> (r: SymPointer)
    ensures
        r == selected_ptr(*d, p, q),
{
    let align: u64 = gcd(p.align, q.align);
    if provs_same(&p.prov, &q.prov) {
        SymPointer { prov: p.prov, offset: mk_ite(d, &p.offset, &q.offset), align }
    } else if deeper_than(&p.prov, MAX_SELECT_DEPTH) || deeper_than(&q.prov, MAX_SELECT_DEPTH) {
        mk_untracked(POrigin::SelectJoin)
    } else {
        SymPointer {
            prov: Prov::Select {
                cond: d.clone(),
                then_ptr: Box::new(p),
                else_ptr: Box::new(q),
            },
            offset: const_expr(0),
            align,
        }
    }
}

fn has_fact(facts: &Vec<Ex>, e: &Ex) -> (r: bool)
    ensures
        r == facts@.contains(*e),
{
    let mut i: usize = 0;
    while i < facts.len()
        invariant
            i <= facts@.len(),
            forall|k: int| 0 <= k < i ==> facts@[k] != *e,
        decreases facts@.len() - i,
    {
        if same(&facts[i], e) {
            assert(facts@[i as int] == *e);
            return true;
        }
        i += 1;
    }
    false
}

fn agreed_region(edges: &Vec<EdgeState>, i: usize) -> (r: bool)
    requires
        edges@.len() > 0,
        i < edges@[0].state.regions@.len(),
    ensures
        r == region_agreed(edge_views(edges@), i as int),
{
    let ghost ev = edge_views(edges@);
    let mut k: usize = 0;
    while k < edges.len()
        invariant
            k <= edges@.len(),
            edges@.len() > 0,
            i < edges@[0].state.regions@.len(),
            ev == edge_views(edges@),
            forall|j: int|
                0 <= j < k ==> i < (#[trigger] ev[j]).state.regions.len()
                    && ev[j].state.regions[i as int].size == ev[0].state.regions[i as int].size,
        decreases edges@.len() - k,
    {
        let s = &edges[k].state;
        if i >= s.regions.len() || !same(&s.regions[i].size, &edges[0].state.regions[i].size) {
            assert(!(i < ev[k as int].state.regions.len() && ev[k as int].state.regions[i as int].size
                == ev[0].state.regions[i as int].size));
            return false;
        }
        k += 1;
    }
    true
}

fn all_live(edges: &Vec<EdgeState>, i: usize) -> (r: bool)
    requires
        forall|k: int| 0 <= k < edges@.len() ==> i < (#[trigger] edges@[k]).state.regions@.len(),
    ensures
        r == live_on_all(edge_views(edges@), i as int),
{
    let ghost ev = edge_views(edges@);
    let mut k: usize = 0;
    while k < edges.len()
        invariant
            k <= edges@.len(),
            ev == edge_views(edges@),
            forall|k: int|
                0 <= k < edges@.len() ==> i < (#[trigger] edges@[k]).state.regions@.len(),
            forall|j: int| 0 <= j < k ==> (#[trigger] ev[j]).state.regions[i as int].live,
        decreases edges@.len() - k,
    {
        assert(i < edges@[k as int].state.regions@.len());
        if !edges[k].state.regions[i].live {
            assert(!ev[k as int].state.regions[i as int].live);
            return false;
        }
        k += 1;
    }
    true
}

fn merge_regions(edges: &Vec<EdgeState>) -> (r: Vec<SymRegion>)
    requires
        edges@.len() > 0,
    ensures
        r@ == merged_regions(edge_views(edges@)),
        r@.len() == kept_from(edge_views(edges@), 0),
{
    let ghost ev = edge_views(edges@);
    let mut out: Vec<SymRegion> = Vec::new();
    let mut i: usize = 0;
    while i < edges[0].state.regions.len() && agreed_region(edges, i)
        invariant
            edges@.len() > 0,
            ev == edge_views(edges@),
            i <= edges@[0].state.regions@.len(),
            out@.len() == i,
            kept_from(ev, 0) == kept_from(ev, i as int),
            forall|k: int|
                0 <= k < i ==> #[trigger] out@[k] == (SymRegion {
                    live: live_on_all(ev, k),
                    ..ev[0].state.regions[k]
                }),
        decreases edges@[0].state.regions@.len() - i,
    {
        assert forall|k: int| 0 <= k < edges@.len() implies i < (
        #[trigger] edges@[k]).state.regions@.len() by {
            assert(i < ev[k].state.regions.len());
        }
        let mut r = edges[0].state.regions[i].copy();
        r.live = all_live(edges, i);
        out.push(r);
        i += 1;
    }
    assert(kept_from(ev, i as int) == i);
    assert(out@ =~= merged_regions(ev));
    out
}

fn sanitize(v: &SymValue, count: usize) -> (r: SymValue)
    ensures
        r == sanitized(*v, count as int),
{
    if let SymValue::Ptr(p) = v {
        if let Prov::Region(i) = p.prov {
            if i >= count {
                return SymValue::Ptr(
                    SymPointer {
                        prov: Prov::Unknown(POrigin::RegionDrop),
                        offset: p.offset.clone(),
                        align: p.align,
                    },
                );
            }
        }
    }
    v.copy()
}

fn merge_env(env: &Vec<(u32, SymValue)>, count: usize) -> (r: Vec<(u32, SymValue)>)
    ensures
        numbered(r@) == numbered(env@).map_values(|v: SymValue| sanitized(v, count as int)),
{
    let ghost g = |v: SymValue| sanitized(v, count as int);
    let mut out: Vec<(u32, SymValue)> = Vec::new();
    let mut i: usize = 0;
    assert(env@.take(0) =~= Seq::<(u32, SymValue)>::empty());
    assert(numbered(out@) =~= numbered(env@.take(0)).map_values(g));
    while i < env.len()
        invariant
            i <= env@.len(),
            g == (|v: SymValue| sanitized(v, count as int)),
            numbered(out@) == numbered(env@.take(i as int)).map_values(g),
        decreases env@.len() - i,
    {
        let e: (u32, SymValue) = (env[i].0, sanitize(&env[i].1, count));
        proof {
            lemma_numbered_push(out@, e);
            lemma_numbered_push(env@.take(i as int), env@[i as int]);
            assert(env@.take(i + 1) =~= env@.take(i as int).push(env@[i as int]));
        }
        out.push(e);
        assert(numbered(out@) =~= numbered(env@.take(i + 1)).map_values(g));
        i += 1;
    }
    assert(env@.take(env@.len() as int) =~= env@);
    out
}

fn agreed_cond(edges: &Vec<EdgeState>, i: usize) -> (r: bool)
    requires
        edges@.len() > 0,
        i < edges@[0].state.pathcond@.len(),
    ensures
        r == cond_agreed(edge_views(edges@), i as int),
{
    let ghost ev = edge_views(edges@);
    let mut k: usize = 0;
    while k < edges.len()
        invariant
            k <= edges@.len(),
            edges@.len() > 0,
            i < edges@[0].state.pathcond@.len(),
            ev == edge_views(edges@),
            forall|j: int|
                0 <= j < k ==> i < (#[trigger] ev[j]).state.pathcond.len()
                    && ev[j].state.pathcond[i as int] == ev[0].state.pathcond[i as int],
        decreases edges@.len() - k,
    {
        let s = &edges[k].state;
        if i >= s.pathcond.len() || !same(&s.pathcond[i], &edges[0].state.pathcond[i]) {
            assert(!(i < ev[k as int].state.pathcond.len() && ev[k as int].state.pathcond[i as int]
                == ev[0].state.pathcond[i as int]));
            return false;
        }
        k += 1;
    }
    true
}

fn merge_conds(edges: &Vec<EdgeState>) -> (r: Vec<Ex>)
    requires
        edges@.len() > 0,
    ensures
        r@ == edges@[0].state.pathcond@.take(conds_from(edge_views(edges@), 0)),
{
    let ghost ev = edge_views(edges@);
    let mut out: Vec<Ex> = Vec::new();
    let mut i: usize = 0;
    while i < edges[0].state.pathcond.len() && agreed_cond(edges, i)
        invariant
            edges@.len() > 0,
            ev == edge_views(edges@),
            i <= edges@[0].state.pathcond@.len(),
            out@ == edges@[0].state.pathcond@.take(i as int),
            conds_from(ev, 0) == conds_from(ev, i as int),
        decreases edges@[0].state.pathcond@.len() - i,
    {
        out.push(edges[0].state.pathcond[i].clone());
        assert(out@ =~= edges@[0].state.pathcond@.take(i + 1));
        i += 1;
    }
    assert(conds_from(ev, i as int) == i);
    out
}

fn agreed_fact(edges: &Vec<EdgeState>, e: &Ex) -> (r: bool)
    ensures
        r == fact_agreed(edge_views(edges@), *e),
{
    let ghost ev = edge_views(edges@);
    let mut k: usize = 0;
    while k < edges.len()
        invariant
            k <= edges@.len(),
            ev == edge_views(edges@),
            forall|j: int| 0 <= j < k ==> (#[trigger] ev[j]).state.facts.contains(*e),
        decreases edges@.len() - k,
    {
        if !has_fact(&edges[k].state.facts, e) {
            assert(!ev[k as int].state.facts.contains(*e));
            return false;
        }
        k += 1;
    }
    true
}

fn merge_facts(edges: &Vec<EdgeState>) -> (r: Vec<Ex>)
    requires
        edges@.len() > 0,
    ensures
        r@ == shared_facts(edge_views(edges@), edges@[0].state.facts@),
{
    let ghost ev = edge_views(edges@);
    let facts = &edges[0].state.facts;
    let mut out: Vec<Ex> = Vec::new();
    let mut i: usize = 0;
    assert(facts@.take(0) =~= Seq::<Ex>::empty());
    assert(out@ =~= Seq::<Ex>::empty());
    while i < facts.len()
        invariant
            i <= facts@.len(),
            ev == edge_views(edges@),
            out@ == shared_facts(ev, facts@.take(i as int)),
        decreases facts@.len() - i,
    {
        assert(facts@.take(i + 1).drop_last() =~= facts@.take(i as int));
        assert(facts@.take(i + 1).last() == facts@[i as int]);
        if agreed_fact(edges, &facts[i]) {
            out.push(facts[i].clone());
        }
        i += 1;
    }
    assert(facts@.take(facts@.len() as int) =~= facts@);
    out
}

/// What holds on all of several paths, without stores.
pub fn merge_core(edges: &Vec<EdgeState>) -> (s: PathState)
    requires
        edges@.len() > 0,
    ensures
        s@ == merged_core(edge_views(edges@)),
{
    let regions = merge_regions(edges);
    let env = merge_env(&edges[0].state.env, regions.len());
    let heap: Vec<StoreRecord> = Vec::new();
    assert(heap@ =~= Seq::<StoreRecord>::empty());
    PathState {
        env,
        regions,
        pathcond: merge_conds(edges),
        facts: merge_facts(edges),
        heap,
        exact: false,
    }
}

fn find_last<'s>(heap: &'s Vec<StoreRecord>, t: &SymPointer) -> (r: Option<&'s StoreRecord>)
    ensures
        match r {
            Some(x) => last_store(heap@, *t) == Some(*x),
            None => last_store(heap@, *t) is None,
        },
{
    let mut k: usize = heap.len();
    assert(heap@.take(k as int) =~= heap@);
    while k > 0
        invariant
            k <= heap@.len(),
            last_store(heap@, *t) == last_store(heap@.take(k as int), *t),
        decreases k,
    {
        k -= 1;
        assert(heap@.take(k + 1).drop_last() =~= heap@.take(k as int));
        assert(heap@.take(k + 1).last() == heap@[k as int]);
        if addrs_same(&heap[k].target, t) {
            return Some(&heap[k]);
        }
    }
    None
}

fn is_superseded(heap: &Vec<StoreRecord>, k: usize) -> (r: bool)
    requires
        k < heap@.len(),
    ensures
        r == superseded(heap@, k as int),
{
    let n: usize = heap.len();
    let mut j: usize = k + 1;
    while j < heap.len()
        invariant
            k < j <= heap@.len(),
            forall|i: int|
                k < i < j ==> !same_addr((#[trigger] heap@[i]).target, heap@[k as int].target),
        decreases heap@.len() - j,
    {
        if addrs_same(&heap[j].target, &heap[k].target) {
            assert(same_addr(heap@[j as int].target, heap@[k as int].target));
            return true;
        }
        j += 1;
    }
    false
}

proof fn lemma_stored_stop(
    edges: Seq<EdgeView>,
    discs: Seq<Ex>,
    t: SymPointer,
    size: u64,
    k: int,
    n: int,
)
    requires
        0 <= k <= n,
        stored_values(edges, discs, t, size, k) is None,
    ensures
        stored_values(edges, discs, t, size, n) is None,
    decreases n,
{
    if k < n {
        lemma_stored_stop(edges, discs, t, size, k, n - 1);
    }
}

fn values_stored(
    edges: &Vec<EdgeState>,
    discs: &Vec<Ex>,
    t: &SymPointer,
    size: u64,
) -> (r: Option<Vec<(Ex, SymValue)>>)
    requires
        discs@.len() == edges@.len(),
    ensures
        match r {
            Some(v) => stored_values(
                edge_views(edges@),
                discs@,
                *t,
                size,
                edges@.len() as int,
            ) == Some(v@),
            None => stored_values(
                edge_views(edges@),
                discs@,
                *t,
                size,
                edges@.len() as int,
            ) is None,
        },
{
    let ghost ev = edge_views(edges@);
    let mut out: Vec<(Ex, SymValue)> = Vec::new();
    let mut k: usize = 0;
    assert(out@ =~= Seq::<(Ex, SymValue)>::empty());
    while k < edges.len()
        invariant
            k <= edges@.len(),
            discs@.len() == edges@.len(),
            ev == edge_views(edges@),
            stored_values(ev, discs@, *t, size, k as int) == Some(out@),
        decreases edges@.len() - k,
    {
        assert(ev[k as int].state.heap == edges@[k as int].state.heap@);
        let found: Option<SymValue> = match find_last(&edges[k].state.heap, t) {
            Some(r) => if r.size == size {
                Some(r.value.copy())
            } else {
                None
            },
            None => None,
        };
        match found {
            Some(v) => {
                out.push((discs[k].clone(), v));
            },
            None => {
                proof {
                    lemma_stored_stop(ev, discs@, *t, size, k + 1, edges@.len() as int);
                }
                return None;
            },
        }
        k += 1;
    }
    Some(out)
}

fn make_discs(edges: &Vec<EdgeState>) -> (r: Vec<Ex>)
    ensures
        r@ == discriminators(edge_views(edges@)),
{
    let ghost ev = edge_views(edges@);
    let mut out: Vec<Ex> = Vec::new();
    let mut i: usize = 0;
    while i < edges.len()
        invariant
            i <= edges@.len(),
            ev == edge_views(edges@),
            out@.len() == i,
            forall|k: int| 0 <= k < i ==> #[trigger] out@[k] == discriminator(ev[k]),
        decreases edges@.len() - i,
    {
        let mut conds = copy_exprs(&edges[i].state.pathcond);
        if let Some(g) = &edges[i].guard {
            conds.push(g.clone());
        }
        out.push(mk_conj(&conds));
        i += 1;
    }
    assert(out@ =~= discriminators(ev));
    out
}

impl<'a> Machine<'a> {
    /// One of two values, by a condition.
    pub fn select(&mut self, d: &Ex, a: SymValue, b: SymValue, ty: &Type) -> (v: SymValue)
        ensures
            (final(self)@, v) == selected(old(self)@, *d, a, b, *ty),
    {
        match (a, b) {
            (SymValue::Scalar(x), SymValue::Scalar(y)) => SymValue::Scalar(mk_ite(d, &x, &y)),
            (SymValue::Ptr(p), SymValue::Ptr(q)) => SymValue::Ptr(select_ptr(d, p, q)),
            _ => self.fresh_value(ty, POrigin::SelectJoin),
        }
    }

    /// The value of several paths.
    pub fn merge_values(&mut self, vals: &Vec<(Ex, SymValue)>, ty: &Type) -> (v: SymValue)
        ensures
            (final(self)@, v) == joined(old(self)@, vals@, *ty),
    {
        if vals.len() == 0 {
            return self.fresh_value(ty, POrigin::PhiFallback);
        }
        let mut k: usize = vals.len() - 1;
        let mut acc = vals[k].1.copy();
        while k > 0
            invariant
                k < vals@.len(),
                (self@, acc) == joined_from(old(self)@, vals@, *ty, k as int),
            decreases k,
        {
            k -= 1;
            acc = self.select(&vals[k].0, vals[k].1.copy(), acc, ty);
        }
        acc
    }

    fn keep_store(
        &mut self,
        edges: &Vec<EdgeState>,
        discs: &Vec<Ex>,
        count: usize,
        k: usize,
    ) -> (r: Option<StoreRecord>)
        requires
            edges@.len() > 0,
            discs@.len() == edges@.len(),
            k < edges@[0].state.heap@.len(),
        ensures
            (final(self)@, r) == merged_store(
                old(self)@,
                edge_views(edges@),
                discs@,
                count as int,
                k as int,
            ),
    {
        let heap = &edges[0].state.heap;
        assert(edge_views(edges@)[0].state.heap == heap@);
        let rec = &heap[k];
        let gone = match &rec.target.prov {
            Prov::Region(i) => *i >= count,
            _ => false,
        };
        if is_superseded(heap, k) || gone {
            return None;
        }
        match values_stored(edges, discs, &rec.target, rec.size) {
            None => None,
            Some(vals) => {
                let ty = Type::Ptr { pointee: Box::new(Type::Int { bits: 8 }) };
                let value = self.merge_values(&vals, &ty);
                if let SymValue::Ptr(p) = &value {
                    if !pointer_regions_kept(&p.prov, count) {
                        return None;
                    }
                }
                Some(StoreRecord { target: rec.target.copy(), value, size: rec.size })
            },
        }
    }

    /// The stores that survive a join.
    pub fn merge_heap(&mut self, edges: &Vec<EdgeState>, discs: &Vec<Ex>, count: usize) -> (r: Vec<
        StoreRecord,
    >)
        requires
            edges@.len() > 0,
            discs@.len() == edges@.len(),
        ensures
            (final(self)@, r@) == merged_stores(
                old(self)@,
                edge_views(edges@),
                discs@,
                count as int,
                Seq::empty(),
                edges@[0].state.heap@.len() as int,
            ),
    {
        let ghost ev = edge_views(edges@);
        let mut out: Vec<StoreRecord> = Vec::new();
        let mut k: usize = edges[0].state.heap.len();
        assert(out@ =~= Seq::<StoreRecord>::empty());
        while k > 0
            invariant
                k <= edges@[0].state.heap@.len(),
                edges@.len() > 0,
                discs@.len() == edges@.len(),
                ev == edge_views(edges@),
                merged_stores(
                    old(self)@,
                    ev,
                    discs@,
                    count as int,
                    Seq::empty(),
                    edges@[0].state.heap@.len() as int,
                ) == merged_stores(self@, ev, discs@, count as int, out@, k as int),
            decreases k,
        {
            k -= 1;
            if let Some(r) = self.keep_store(edges, discs, count, k) {
                out.push(r);
            }
        }
        out
    }

    fn eval_param(
        &mut self,
        sc: &Scene,
        s: &PathState,
        args: &Vec<Operand>,
        j: usize,
        ty: &Type,
    ) -> (v: SymValue)
        ensures
            (final(self)@, v) == param_value(sc@, old(self)@, s@, args@, j as int, *ty),
    {
        if j < args.len() {
            self.eval_value(sc, &args[j], s)
        } else {
            self.fresh_value(ty, POrigin::PhiFallback)
        }
    }

    /// Bind the parameters of a block that is entered by a single path.
    pub fn bind_params_into(
        &mut self,
        sc: &Scene,
        params: &Vec<(RegId, Type)>,
        args: &Vec<Operand>,
        s: &mut PathState,
    )
        ensures
            final(self)@ == args_values(
                sc@,
                old(self)@,
                old(s)@,
                args@,
                params@,
                params@.len() as int,
            ).0,
            final(s)@ == all_bound(
                old(s)@,
                params@,
                args_values(
                    sc@,
                    old(self)@,
                    old(s)@,
                    args@,
                    params@,
                    params@.len() as int,
                ).1,
                params@.len() as int,
            ),
    {
        let mut vals: Vec<SymValue> = Vec::new();
        let mut i: usize = 0;
        assert(vals@ =~= Seq::<SymValue>::empty());
        while i < params.len()
            invariant
                i <= params@.len(),
                vals@.len() == i,
                *s == *old(s),
                (self@, vals@) == args_values(
                    sc@,
                    old(self)@,
                    old(s)@,
                    args@,
                    params@,
                    i as int,
                ),
            decreases params@.len() - i,
        {
            let v = self.eval_param(sc, s, args, i, &params[i].1);
            vals.push(v);
            i += 1;
        }
        let mut k: usize = 0;
        while k < params.len()
            invariant
                k <= params@.len(),
                vals@.len() == params@.len(),
                s@ == all_bound(old(s)@, params@, vals@, k as int),
            decreases params@.len() - k,
        {
            s.bind((params[k].0).0, vals[k].copy());
            k += 1;
        }
    }

    fn param_on_paths(
        &mut self,
        sc: &Scene,
        edges: &Vec<EdgeState>,
        discs: &Vec<Ex>,
        j: usize,
        ty: &Type,
    ) -> (r: Vec<(Ex, SymValue)>)
        requires
            discs@.len() == edges@.len(),
        ensures
            (final(self)@, r@) == param_values(
                sc@,
                old(self)@,
                edge_views(edges@),
                discs@,
                j as int,
                *ty,
                edges@.len() as int,
            ),
    {
        let ghost ev = edge_views(edges@);
        let mut out: Vec<(Ex, SymValue)> = Vec::new();
        let mut k: usize = 0;
        assert(out@ =~= Seq::<(Ex, SymValue)>::empty());
        while k < edges.len()
            invariant
                k <= edges@.len(),
                discs@.len() == edges@.len(),
                ev == edge_views(edges@),
                (self@, out@) == param_values(
                    sc@,
                    old(self)@,
                    ev,
                    discs@,
                    j as int,
                    *ty,
                    k as int,
                ),
            decreases edges@.len() - k,
        {
            let v = self.eval_param(sc, &edges[k].state, &edges[k].args, j, ty);
            out.push((discs[k].clone(), v));
            k += 1;
        }
        out
    }

    fn merge_multi(
        &mut self,
        sc: &Scene,
        edges: &Vec<EdgeState>,
        params: &Vec<(RegId, Type)>,
    ) -> (s: PathState)
        requires
            edges@.len() > 1,
        ensures
            (final(self)@, s@) == entered(sc@, old(self)@, edge_views(edges@), params@),
    {
        let ghost ev = edge_views(edges@);
        let discs = make_discs(edges);
        let mut s = merge_core(edges);
        let heap = self.merge_heap(edges, &discs, s.regions.len());
        s.heap = heap;
        let ghost m1 = self@;
        let ghost s1 = s@;
        let mut j: usize = 0;
        while j < params.len()
            invariant
                j <= params@.len(),
                edges@.len() > 1,
                discs@.len() == edges@.len(),
                ev == edge_views(edges@),
                (self@, s@) == params_joined(
                    sc@,
                    m1,
                    s1,
                    ev,
                    discs@,
                    params@,
                    j as int,
                ),
            decreases params@.len() - j,
        {
            let vals = self.param_on_paths(sc, edges, &discs, j, &params[j].1);
            let v = self.merge_values(&vals, &params[j].1);
            s.bind((params[j].0).0, v);
            j += 1;
        }
        s
    }

    /// The state in which a block with the given parameters is entered.
    pub fn merge_edges(
        &mut self,
        sc: &Scene,
        edges: Vec<EdgeState>,
        params: &Vec<(RegId, Type)>,
    ) -> (s: PathState)
        requires
            edges@.len() > 0,
        ensures
            (final(self)@, s@) == entered(sc@, old(self)@, edge_views(edges@), params@),
    {
        if edges.len() == 1 {
            let e = &edges[0];
            let mut s = e.state.copy();
            if let Some(g) = &e.guard {
                s.add_cond(g.clone());
            }
            self.bind_params_into(sc, params, &e.args, &mut s);
            return s;
        }
        self.merge_multi(sc, &edges, params)
    }
}

// ---- laws ----

proof fn lemma_kept(edges: Seq<EdgeView>, i: int, k: int)
    requires
        0 <= i <= k < kept_from(edges, i),
    ensures
        region_agreed(edges, k),
        k < edges[0].state.regions.len(),
    decreases kept_from(edges, i) - i,
{
    if i < edges[0].state.regions.len() && region_agreed(edges, i) {
        if i < k {
            lemma_kept_more(edges, i + 1);
            lemma_kept(edges, i + 1, k);
        }
    }
}

proof fn lemma_kept_more(edges: Seq<EdgeView>, i: int)
    ensures
        kept_from(edges, i) >= i,
    decreases edges[0].state.regions.len() - i,
{
    if i < edges[0].state.regions.len() && region_agreed(edges, i) {
        lemma_kept_more(edges, i + 1);
    }
}

proof fn lemma_conds(edges: Seq<EdgeView>, i: int, k: int)
    requires
        0 <= i <= k < conds_from(edges, i),
    ensures
        cond_agreed(edges, k),
        k < edges[0].state.pathcond.len(),
    decreases conds_from(edges, i) - i,
{
    if i < edges[0].state.pathcond.len() && cond_agreed(edges, i) {
        if i < k {
            lemma_conds_more(edges, i + 1);
            lemma_conds(edges, i + 1, k);
        }
    }
}

proof fn lemma_conds_more(edges: Seq<EdgeView>, i: int)
    requires
        0 <= i <= edges[0].state.pathcond.len(),
    ensures
        i <= conds_from(edges, i) <= edges[0].state.pathcond.len(),
    decreases edges[0].state.pathcond.len() - i,
{
    if i < edges[0].state.pathcond.len() && cond_agreed(edges, i) {
        lemma_conds_more(edges, i + 1);
    }
}

proof fn lemma_shared(edges: Seq<EdgeView>, facts: Seq<Ex>, e: Ex)
    requires
        shared_facts(edges, facts).contains(e),
    ensures
        fact_agreed(edges, e),
    decreases facts.len(),
{
    let all = shared_facts(edges, facts);
    let s = shared_facts(edges, facts.drop_last());
    let i = choose|i: int| 0 <= i < all.len() && all[i] == e;
    if i < s.len() {
        assert(s[i] == e);
        lemma_shared(edges, facts.drop_last(), e);
    }
}

/// A state says no more than another: its conditions and facts hold there, a region that
/// it calls live is live there, of the same size, and it is not exact.
pub open spec fn says_no_more(j: PathView, s: PathView) -> bool {
    &&& j.pathcond.len() <= s.pathcond.len()
    &&& j.pathcond == s.pathcond.take(j.pathcond.len() as int)
    &&& forall|e: Ex| #[trigger] j.facts.contains(e) ==> s.facts.contains(e)
    &&& forall|i: int| #![trigger j.regions[i]]
        0 <= i < j.regions.len() ==> i < s.regions.len() && j.regions[i].size == s.regions[i].size
            && (j.regions[i].live ==> s.regions[i].live)
    &&& !j.exact
}

/// A join only forgets: it says no more than any of its paths.
pub proof fn joins_only_forget(edges: Seq<EdgeView>, k: int)
    requires
        0 <= k < edges.len(),
    ensures
        says_no_more(merged_core(edges), edges[k].state),
{
    let j = merged_core(edges);
    let s = edges[k].state;
    lemma_conds_more(edges, 0);
    lemma_kept_more(edges, 0);
    let n = conds_from(edges, 0);
    assert(n <= s.pathcond.len()) by {
        if n > 0 {
            lemma_conds(edges, 0, n - 1);
            assert(n - 1 < edges[k].state.pathcond.len());
        }
    }
    assert(j.pathcond =~= s.pathcond.take(n)) by {
        assert forall|i: int| 0 <= i < n implies edges[0].state.pathcond[i] == s.pathcond[i] by {
            lemma_conds(edges, 0, i);
            assert(edges[k].state.pathcond[i] == edges[0].state.pathcond[i]);
        }
    }
    assert forall|e: Ex| #[trigger] j.facts.contains(e) implies s.facts.contains(e) by {
        lemma_shared(edges, edges[0].state.facts, e);
        assert(edges[k].state.facts.contains(e));
    }
    assert forall|i: int| #![trigger j.regions[i]] 0 <= i < j.regions.len() implies i
        < s.regions.len() && j.regions[i].size == s.regions[i].size && (j.regions[i].live
        ==> s.regions[i].live) by {
        lemma_kept(edges, 0, i);
        assert(i < edges[k].state.regions.len());
        assert(live_on_all(edges, i) ==> edges[k].state.regions[i].live);
    }
}

} // verus!
