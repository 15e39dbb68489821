//! What joining paths means for the values that take them.

use crate::blast::{holds, value, Valuation};
use crate::exec::eval::{zero, SceneView};
use crate::exec::evaluation::{
    choices_point_where_they_should, known_as, known_operands_are_evaluated,
};
use crate::exec::machine::MachineView;
use crate::exec::merge::{
    discriminator, discriminators, joined, joined_from, joins_only_forget, last_store, merged_core,
    merged_store, param_values, params_joined, selected_ptr, stored_values, EdgeView,
};
use crate::exec::sound::{landing, lemma_lit, sized, takes};
use crate::exec::value::{premises, same_addr, PathView, Prov, StoreRecord, SymPointer, SymValue};
use crate::expr::{conj, ite, width_of, Ex};
use crate::ir::{Operand, RegId, Type};
use vstd::arithmetic::power2::pow2;
use vstd::prelude::*;

verus! {

/// A value stands for another: they are the same number, or point to the same place unless the
/// first is a pointer that is not followed.
pub open spec fn stands_for(x: SymValue, y: SymValue, v: Valuation) -> bool {
    match (x, y) {
        (SymValue::Scalar(a), SymValue::Scalar(b)) => value(a, v) == value(b, v),
        (SymValue::Ptr(p), SymValue::Ptr(q)) => landing(p, v).region is None || (landing(p, v).region
            == landing(q, v).region && landing(p, v).offset == landing(q, v).offset),
        _ => false,
    }
}

/// A pointer of 64 bits.
pub open spec fn proper(p: SymPointer, v: Valuation) -> bool {
    sized(p) && 0 <= landing(p, v).offset < pow2(64)
}

/// Values of one kind: all of them are numbers, or all are pointers.
pub open spec fn alike(vals: Seq<(Ex, SymValue)>, v: Valuation) -> bool {
    ||| forall|i: int| 0 <= i < vals.len() ==> (#[trigger] vals[i]).1 is Scalar
    ||| forall|i: int|
        0 <= i < vals.len() ==> (#[trigger] vals[i]).1 is Ptr && proper(vals[i].1->Ptr_0, v)
}

/// The path at `k` is the first one whose condition holds, or the last one where none of the
/// others holds.
pub open spec fn path_taken(vals: Seq<(Ex, SymValue)>, k: int, v: Valuation) -> bool {
    &&& 0 <= k < vals.len()
    &&& k < vals.len() - 1 ==> holds(vals[k].0, v)
    &&& forall|j: int| 0 <= j < k ==> !holds((#[trigger] vals[j]).0, v)
}

proof fn lemma_proper_choice(d: Ex, p: SymPointer, q: SymPointer, v: Valuation)
    requires
        proper(p, v),
        proper(q, v),
    ensures
        proper(selected_ptr(d, p, q), v),
{
    choices_point_where_they_should(d, p, q, v);
    lemma_lit(0, v);
    reveal_with_fuel(value, 2);
    reveal_with_fuel(width_of, 2);
    vstd::arithmetic::power2::lemma_pow2_pos(64);
    let l = landing(selected_ptr(d, p, q), v);
    if crate::exec::value::same_prov(p.prov, q.prov) {
        assert(value(ite(d, p.offset, q.offset), v) == if holds(d, v) {
            value(p.offset, v)
        } else {
            value(q.offset, v)
        });
        let s = selected_ptr(d, p, q);
        assert(sized(s));
        match p.prov {
            Prov::Select { cond, then_ptr, else_ptr } => {
                let inner = if holds(cond, v) {
                    landing(*then_ptr, v)
                } else {
                    landing(*else_ptr, v)
                };
                vstd::arithmetic::div_mod::lemma_mod_bound(
                    inner.offset + value(s.offset, v),
                    pow2(64) as int,
                );
            },
            Prov::Region(_) => {},
            _ => {
                match q.prov {
                    Prov::Select { .. } => {},
                    _ => {},
                }
            },
        }
    } else if selected_ptr(d, p, q).prov is Select {
        let inner = if holds(d, v) {
            landing(p, v)
        } else {
            landing(q, v)
        };
        vstd::arithmetic::div_mod::lemma_mod_bound(
            inner.offset + value(zero(), v),
            pow2(64) as int,
        );
    }
}

proof fn lemma_joined_from(
    m: MachineView,
    vals: Seq<(Ex, SymValue)>,
    ty: Type,
    i: int,
    k: int,
    v: Valuation,
)
    requires
        alike(vals, v),
        path_taken(vals, k, v),
        0 <= i <= k,
    ensures
        stands_for(joined_from(m, vals, ty, i).1, vals[k].1, v),
        (forall|j: int| 0 <= j < vals.len() ==> (#[trigger] vals[j]).1 is Scalar)
            ==> joined_from(m, vals, ty, i).1 is Scalar,
    decreases vals.len() - i,
{
    reveal_with_fuel(value, 2);
    assert(vals[k].1 is Scalar || vals[k].1 is Ptr);
    if i < vals.len() - 1 {
        let (m1, rest) = joined_from(m, vals, ty, i + 1);
        let d = vals[i].0;
        lemma_shape(m, vals, ty, i + 1, v);
        if i < k {
            lemma_joined_from(m, vals, ty, i + 1, k, v);
            assert(!holds(vals[i].0, v));
        }
        if let (SymValue::Ptr(p), SymValue::Ptr(q)) = (vals[i].1, rest) {
            choices_point_where_they_should(d, p, q, v);
        }
        assert(vals[i].1 is Scalar || vals[i].1 is Ptr);
    } else {
        assert(vals.last() == vals[vals.len() - 1]);
    }
}

/// Joining values of one kind gives one of that kind.
proof fn lemma_shape(m: MachineView, vals: Seq<(Ex, SymValue)>, ty: Type, i: int, v: Valuation)
    requires
        alike(vals, v),
        0 <= i < vals.len(),
    ensures
        (forall|j: int| 0 <= j < vals.len() ==> (#[trigger] vals[j]).1 is Scalar)
            ==> joined_from(m, vals, ty, i).1 is Scalar,
        (forall|j: int|
            0 <= j < vals.len() ==> (#[trigger] vals[j]).1 is Ptr && proper(vals[j].1->Ptr_0, v))
            ==> joined_from(m, vals, ty, i).1 is Ptr && proper(
            joined_from(m, vals, ty, i).1->Ptr_0,
            v,
        ),
    decreases vals.len() - i,
{
    assert(vals.last() == vals[vals.len() - 1]);
    if i < vals.len() - 1 {
        lemma_shape(m, vals, ty, i + 1, v);
        assert(vals[i].1 is Scalar || vals[i].1 is Ptr);
        let (m1, rest) = joined_from(m, vals, ty, i + 1);
        if let (SymValue::Ptr(p), SymValue::Ptr(q)) = (vals[i].1, rest) {
            if proper(p, v) && proper(q, v) {
                lemma_proper_choice(vals[i].0, p, q, v);
            }
        }
    }
}

/// A joined value is that of the path that is taken.
pub proof fn joined_values_are_those_of_the_path(
    m: MachineView,
    vals: Seq<(Ex, SymValue)>,
    ty: Type,
    k: int,
    v: Valuation,
)
    requires
        alike(vals, v),
        path_taken(vals, k, v),
    ensures
        stands_for(joined(m, vals, ty).1, vals[k].1, v),
{
    lemma_joined_from(m, vals, ty, 0, k, v);
}

/// Values that take a path with the condition of its edge satisfy the condition under which
/// control comes by it.
pub proof fn discriminators_hold_of_their_path(e: EdgeView, v: Valuation)
    requires
        takes(e.state, v),
        e.guard is Some ==> holds(e.guard->0, v),
    ensures
        holds(discriminator(e), v),
{
    let cs = match e.guard {
        Some(g) => e.state.pathcond.push(g),
        None => e.state.pathcond,
    };
    assert forall|i: int| 0 <= i < cs.len() implies holds(#[trigger] cs[i], v) by {
        if i < e.state.pathcond.len() {
            assert(premises(e.state)[i] == e.state.pathcond[i]);
            assert(holds(premises(e.state)[i], v));
        }
    }
    lemma_conj(cs, v);
}

proof fn lemma_conj(s: Seq<Ex>, v: Valuation)
    requires
        forall|k: int| 0 <= k < s.len() ==> holds(#[trigger] s[k], v),
    ensures
        holds(conj(s), v),
    decreases s.len(),
{
    reveal_with_fuel(value, 2);
    if s.len() == 1 {
        assert(holds(s[0], v));
    } else if s.len() > 1 {
        let head = s.drop_last();
        assert forall|k: int| 0 <= k < head.len() implies holds(#[trigger] head[k], v) by {
            assert(holds(s[k], v));
        }
        lemma_conj(head, v);
        assert(holds(s[s.len() - 1], v));
    }
}

/// Values that take one of several paths take their join.
pub proof fn joins_are_taken_by_every_path(edges: Seq<EdgeView>, k: int, v: Valuation)
    requires
        0 <= k < edges.len(),
        takes(edges[k].state, v),
    ensures
        takes(merged_core(edges), v),
{
    joins_only_forget(edges, k);
    let j = merged_core(edges);
    let s = edges[k].state;
    assert forall|i: int| 0 <= i < premises(j).len() implies holds(#[trigger] premises(j)[i], v) by {
        if i < j.pathcond.len() {
            assert(premises(j)[i] == s.pathcond[i]);
            assert(premises(s)[i] == s.pathcond[i]);
            assert(holds(premises(s)[i], v));
        } else {
            let f = j.facts[i - j.pathcond.len()];
            assert(j.facts.contains(f));
            let n = choose|n: int| 0 <= n < s.facts.len() && s.facts[n] == f;
            assert(premises(s)[s.pathcond.len() + n] == f);
            assert(holds(premises(s)[s.pathcond.len() + n], v));
        }
    }
}

// ---- stores ----

proof fn lemma_stored_values(
    edges: Seq<EdgeView>,
    discs: Seq<Ex>,
    t: SymPointer,
    size: u64,
    n: int,
    k: int,
)
    requires
        0 <= k < n <= edges.len(),
        stored_values(edges, discs, t, size, n) is Some,
    ensures
        ({
            let vals = stored_values(edges, discs, t, size, n)->0;
            &&& vals.len() == n
            &&& vals[k].0 == discs[k]
            &&& last_store(edges[k].state.heap, t) is Some
            &&& vals[k].1 == (last_store(edges[k].state.heap, t)->0).value
            &&& (last_store(edges[k].state.heap, t)->0).size == size
        }),
    decreases n,
{
    reveal_with_fuel(stored_values, 2);
    if k < n - 1 {
        lemma_stored_values(edges, discs, t, size, n - 1, k);
    } else if n > 1 {
        lemma_stored_values(edges, discs, t, size, n - 1, 0);
    }
}

/// The last store to an address is a store of the path to that address, and no later one is to
/// it.
pub proof fn last_stores_are_the_last(heap: Seq<StoreRecord>, t: SymPointer)
    ensures
        match last_store(heap, t) {
            Some(r) => exists|i: int|
                0 <= i < heap.len() && (#[trigger] heap[i]) == r && same_addr(r.target, t) && forall|
                    j: int,
                |
                    i < j < heap.len() ==> !same_addr((#[trigger] heap[j]).target, t),
            None => forall|j: int| 0 <= j < heap.len() ==> !same_addr((#[trigger] heap[j]).target, t),
        },
    decreases heap.len(),
{
    if heap.len() > 0 {
        let n = heap.len() - 1;
        let head = heap.drop_last();
        if same_addr(heap.last().target, t) {
            assert(heap[n] == heap.last());
        } else {
            last_stores_are_the_last(head, t);
            match last_store(head, t) {
                Some(r) => {
                    let i = choose|i: int|
                        0 <= i < head.len() && (#[trigger] head[i]) == r && same_addr(r.target, t)
                            && forall|j: int|
                            i < j < head.len() ==> !same_addr((#[trigger] head[j]).target, t);
                    assert(heap[i] == r);
                    assert forall|j: int| i < j < heap.len() implies !same_addr(
                        (#[trigger] heap[j]).target,
                        t,
                    ) by {
                        if j < n {
                            assert(head[j] == heap[j]);
                        }
                    }
                },
                None => {
                    assert forall|j: int| 0 <= j < heap.len() implies !same_addr(
                        (#[trigger] heap[j]).target,
                        t,
                    ) by {
                        if j < n {
                            assert(head[j] == heap[j]);
                        }
                    }
                },
            }
        }
    }
}

/// A store that survives a join holds, on the path that is taken, what that path stored last at
/// its address, in as many bytes.
pub proof fn joined_stores_are_those_of_the_path(
    m: MachineView,
    edges: Seq<EdgeView>,
    count: int,
    i: int,
    k: int,
    v: Valuation,
)
    requires
        0 <= i < edges[0].state.heap.len(),
        0 <= k < edges.len(),
        merged_store(m, edges, discriminators(edges), count, i).1 is Some,
        ({
            let rec = edges[0].state.heap[i];
            let vals = stored_values(
                edges,
                discriminators(edges),
                rec.target,
                rec.size,
                edges.len() as int,
            )->0;
            alike(vals, v)
        }),
        k < edges.len() - 1 ==> holds(discriminator(edges[k]), v),
        forall|j: int| 0 <= j < k ==> !holds(discriminator(#[trigger] edges[j]), v),
    ensures
        ({
            let r = merged_store(m, edges, discriminators(edges), count, i).1->0;
            let rec = edges[0].state.heap[i];
            let was = last_store(edges[k].state.heap, rec.target);
            &&& r.target == rec.target
            &&& was is Some
            &&& r.size == (was->0).size
            &&& stands_for(r.value, (was->0).value, v)
        }),
{
    let discs = discriminators(edges);
    let rec = edges[0].state.heap[i];
    let n = edges.len() as int;
    let vals = stored_values(edges, discs, rec.target, rec.size, n)->0;
    lemma_stored_values(edges, discs, rec.target, rec.size, n, k);
    assert forall|j: int| 0 <= j < k implies !holds((#[trigger] vals[j]).0, v) by {
        lemma_stored_values(edges, discs, rec.target, rec.size, n, j);
        assert(!holds(discriminator(edges[j]), v));
    }
    joined_values_are_those_of_the_path(m, vals, crate::exec::merge::byte_ptr(), k, v);
}

// ---- parameters ----

proof fn lemma_param_values(
    sc: SceneView,
    m: MachineView,
    edges: Seq<EdgeView>,
    discs: Seq<Ex>,
    j: int,
    ty: Type,
    n: int,
    k: int,
)
    requires
        0 <= k < n <= edges.len(),
        forall|i: int|
            0 <= i < n ==> 0 <= j < (#[trigger] edges[i]).args.len() && known_as(
                edges[i].state,
                edges[i].args[j],
            ) is Some,
    ensures
        ({
            let vals = param_values(sc, m, edges, discs, j, ty, n).1;
            &&& vals.len() == n
            &&& vals[k] == (
                discs[k],
                SymValue::Scalar(known_as(edges[k].state, edges[k].args[j])->0),
            )
        }),
    decreases n,
{
    reveal_with_fuel(param_values, 2);
    let m1 = param_values(sc, m, edges, discs, j, ty, n - 1).0;
    assert(0 <= j < edges[n - 1].args.len());
    known_operands_are_evaluated(sc, m1, edges[n - 1].state, edges[n - 1].args[j]);
    if k < n - 1 {
        lemma_param_values(sc, m, edges, discs, j, ty, n - 1, k);
    } else if n > 1 {
        lemma_param_values(sc, m, edges, discs, j, ty, n - 1, 0);
    }
}

/// A block parameter has, on the path that is taken, the value that the path passes for it.
pub proof fn parameters_take_what_is_passed(
    sc: SceneView,
    m: MachineView,
    s: PathView,
    edges: Seq<EdgeView>,
    params: Seq<(RegId, Type)>,
    n: int,
    j: int,
    k: int,
    v: Valuation,
)
    requires
        0 <= j < n <= params.len(),
        0 <= k < edges.len(),
        forall|a: int, b: int|
            0 <= a < b < params.len() ==> (#[trigger] params[a]).0 != (#[trigger] params[b]).0,
        forall|i: int|
            0 <= i < edges.len() ==> j < (#[trigger] edges[i]).args.len() && known_as(
                edges[i].state,
                edges[i].args[j],
            ) is Some,
        k < edges.len() - 1 ==> holds(discriminator(edges[k]), v),
        forall|i: int| 0 <= i < k ==> !holds(discriminator(#[trigger] edges[i]), v),
    ensures
        ({
            let s1 = params_joined(sc, m, s, edges, discriminators(edges), params, n).1;
            known_as(s1, Operand::Reg(params[j].0)) matches Some(x) && value(x, v) == value(
                known_as(edges[k].state, edges[k].args[j])->0,
                v,
            )
        }),
    decreases n,
{
    let discs = discriminators(edges);
    let (m1, s1) = params_joined(sc, m, s, edges, discs, params, n - 1);
    if j < n - 1 {
        parameters_take_what_is_passed(sc, m, s, edges, params, n - 1, j, k, v);
        assert(params[j].0 != params[n - 1].0);
    } else {
        let ty = params[j].1;
        let c = edges.len() as int;
        let (m2, vals) = param_values(sc, m1, edges, discs, j, ty, c);
        lemma_param_values(sc, m1, edges, discs, j, ty, c, k);
        assert forall|i: int| 0 <= i < vals.len() implies (#[trigger] vals[i]).1 is Scalar by {
            lemma_param_values(sc, m1, edges, discs, j, ty, c, i);
        }
        assert forall|i: int| 0 <= i < k implies !holds((#[trigger] vals[i]).0, v) by {
            lemma_param_values(sc, m1, edges, discs, j, ty, c, i);
            assert(!holds(discriminator(edges[i]), v));
        }
        joined_values_are_those_of_the_path(m2, vals, ty, k, v);
        lemma_joined_from(m2, vals, ty, 0, k, v);
    }
}

} // verus!
