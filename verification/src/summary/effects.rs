//! What functions do to memory when they run.

use crate::ir::{defined, Callee, FuncId, Inst, Module, Operand, RValue, RegId, Function, Type};
use crate::summary::fixpoint::{calls_one, effect, reaches, EdgeView};
use crate::summary::perfn::{
    alias_pass, alias_rounds, alias_stable, alias_step, certain_free, freeing, net_count, param_aliases,
    param_position, pointer_params, the_one,
    allocates, derives, flat, flat_observable, inst_frees, inst_writes, is_local, local_step,
    local_within, own_frees, own_writes, points_local,
};
use crate::summary::program::{
    call_sites, calls_opaquely, id_index, ids_of, module_facts, opaque_call, site_of,
};
use crate::summary::{edges_of, frees_of, spread, writes_of};
use vstd::prelude::*;

verus! {

// ---- a function's own allocations ----

/// The registers that hold pointers into memory that the function allocated, after it executed
/// instructions: what an allocation makes, and what is offset, copied or cast from such a
/// pointer.
pub open spec fn owned(run: Seq<Inst>) -> Set<u32>
    decreases run.len(),
{
    if run.len() == 0 {
        Set::empty()
    } else {
        let before = owned(run.drop_last());
        match run.last() {
            Inst::Alloc { dst, .. } => before.insert(dst.0),
            Inst::PtrOffset { dst, base: Operand::Reg(b), .. } => if before.contains(b.0) {
                before.insert(dst.0)
            } else {
                before.remove(dst.0)
            },
            Inst::Assign { dst, value: RValue::Use(Operand::Reg(b)), .. } => if before.contains(
                b.0,
            ) {
                before.insert(dst.0)
            } else {
                before.remove(dst.0)
            },
            Inst::Assign { dst, value: RValue::Cast { operand: Operand::Reg(b), .. }, .. } => if before.contains(
            b.0) {
                before.insert(dst.0)
            } else {
                before.remove(dst.0)
            },
            i => match defined(i) {
                Some(r) => before.remove(r.0),
                None => before,
            },
        }
    }
}

/// A register was set by one of the instructions.
pub open spec fn was_set(run: Seq<Inst>, r: u32) -> bool {
    exists|k: int| 0 <= k < run.len() && defined(#[trigger] run[k]) == Some(RegId(r))
}

/// Each register is set by one instruction at most.
pub open spec fn set_once(insts: Seq<Inst>) -> bool {
    forall|i: int, j: int|
        0 <= i < insts.len() && 0 <= j < insts.len() && defined(#[trigger] insts[i]) is Some
            && defined(insts[i]) == defined(#[trigger] insts[j]) ==> i == j
}

/// Instructions that a function executes: each is one of its own, and a register that is copied
/// or offset was set before if the function sets it at all.
pub open spec fn executes(insts: Seq<Inst>, run: Seq<Inst>) -> bool {
    &&& forall|k: int| 0 <= k < run.len() ==> insts.contains(#[trigger] run[k])
    &&& forall|k: int, d: u32, s: u32|
        0 <= k < run.len() && #[trigger] derives(run[k], d, s) && was_set(insts, s) ==> was_set(
            run.take(k),
            s,
        )
}

proof fn lemma_local_cause(insts: Seq<Inst>, i: int, r: u32)
    requires
        set_once(insts),
        0 <= i < insts.len(),
        defined(insts[i]) == Some(RegId(r)),
        is_local(insts, r),
    ensures
        allocates(insts[i], r) || exists|s: u32| #[trigger]
            derives(insts[i], r, s) && is_local(insts, s) && was_set(insts, s),
{
    let n = choose|n: nat| local_within(insts, r, n);
    let prior = |s: u32| local_within(insts, s, (n - 1) as nat);
    assert(local_step(insts, r, prior));
    if exists|j: int| 0 <= j < insts.len() && #[trigger] allocates(insts[j], r) {
        let j = choose|j: int| 0 <= j < insts.len() && #[trigger] allocates(insts[j], r);
        assert(defined(insts[j]) == Some(RegId(r)));
        assert(i == j);
    } else {
        let (j, s) = choose|j: int, s: u32|
            0 <= j < insts.len() && #[trigger] derives(insts[j], r, s) && prior(s);
        assert(defined(insts[j]) == Some(RegId(r)));
        assert(i == j);
        assert(local_within(insts, s, (n - 1) as nat));
        assert(is_local(insts, s));
        lemma_local_set(insts, s, (n - 1) as nat);
    }
}

proof fn lemma_local_set(insts: Seq<Inst>, s: u32, n: nat)
    requires
        local_within(insts, s, n),
    ensures
        was_set(insts, s),
{
    let prior = |x: u32| local_within(insts, x, (n - 1) as nat);
    assert(local_step(insts, s, prior));
    if exists|j: int| 0 <= j < insts.len() && #[trigger] allocates(insts[j], s) {
        let j = choose|j: int| 0 <= j < insts.len() && #[trigger] allocates(insts[j], s);
        assert(defined(insts[j]) == Some(RegId(s)));
    } else {
        let (j, x) = choose|j: int, x: u32|
            0 <= j < insts.len() && #[trigger] derives(insts[j], s, x) && prior(x);
        assert(defined(insts[j]) == Some(RegId(s)));
    }
}

/// A register that is taken to point into the function's own allocations does so whenever it
/// was set.
pub proof fn local_registers_are_owned(insts: Seq<Inst>, run: Seq<Inst>, r: u32)
    requires
        set_once(insts),
        executes(insts, run),
        is_local(insts, r),
        was_set(run, r),
    ensures
        owned(run).contains(r),
    decreases run.len(),
{
    let n = run.len() - 1;
    let head = run.drop_last();
    let last = run.last();
    assert(insts.contains(run[n]));
    let i = choose|i: int| 0 <= i < insts.len() && insts[i] == last;
    assert(executes(insts, head)) by {
        assert forall|k: int| 0 <= k < head.len() implies insts.contains(#[trigger] head[k]) by {
            assert(insts.contains(run[k]));
        }
        assert forall|k: int, d: u32, s: u32|
            0 <= k < head.len() && #[trigger] derives(head[k], d, s) && was_set(
                insts,
                s,
            ) implies was_set(head.take(k), s) by {
            assert(derives(run[k], d, s));
            assert(run.take(k) =~= head.take(k));
        }
    }
    if defined(last) == Some(RegId(r)) {
        lemma_local_cause(insts, i, r);
        if !allocates(insts[i], r) {
            let s = choose|s: u32| #[trigger]
                derives(insts[i], r, s) && is_local(insts, s) && was_set(insts, s);
            assert(derives(run[n], r, s));
            assert(run.take(n) =~= head);
            assert(was_set(head, s));
            local_registers_are_owned(insts, head, s);
        }
    } else {
        let k = choose|k: int| 0 <= k < run.len() && defined(#[trigger] run[k]) == Some(RegId(r));
        assert(head[k] == run[k]);
        assert(was_set(head, r));
        local_registers_are_owned(insts, head, r);
    }
}

/// The pointer that an instruction writes through.
pub open spec fn writes_through(inst: Inst) -> Option<Operand> {
    match inst {
        Inst::Store { ptr, .. } => Some(ptr),
        Inst::MemIntrinsic { dst, .. } => Some(dst),
        _ => None,
    }
}

/// The pointer that an instruction frees.
pub open spec fn frees_through(inst: Inst) -> Option<Operand> {
    match inst {
        Inst::Dealloc { ptr, .. } => Some(ptr),
        _ => None,
    }
}

/// A pointer may lead to memory that the caller can see: it is a constant, or a register that
/// some execution leaves pointing elsewhere than into the function's own allocations.
pub open spec fn may_be_foreign(insts: Seq<Inst>, op: Operand) -> bool {
    match op {
        Operand::Reg(r) => exists|run: Seq<Inst>| #[trigger]
            executes(insts, run) && (was_set(run, r.0) || !was_set(insts, r.0)) && !owned(run).contains(
                r.0,
            ),
        _ => true,
    }
}

proof fn lemma_foreign(insts: Seq<Inst>, op: Operand)
    requires
        set_once(insts),
        may_be_foreign(insts, op),
    ensures
        !points_local(insts, op),
{
    if let Operand::Reg(r) = op {
        let run = choose|run: Seq<Inst>| #[trigger]
            executes(insts, run) && (was_set(run, r.0) || !was_set(insts, r.0)) && !owned(run).contains(
                r.0,
            );
        if is_local(insts, r.0) {
            let n = choose|n: nat| local_within(insts, r.0, n);
            lemma_local_set(insts, r.0, n);
            local_registers_are_owned(insts, run, r.0);
        }
    }
}

// ---- chains of calls ----

/// An instruction of a module, by the positions of its function, its block and itself.
pub struct Spot {
    pub func: int,
    pub block: int,
    pub inst: int,
}

/// The place exists.
pub open spec fn exists_in(m: Module, p: Spot) -> bool {
    &&& 0 <= p.func < m.functions@.len()
    &&& 0 <= p.block < m.functions@[p.func].blocks@.len()
    &&& 0 <= p.inst < m.functions@[p.func].blocks@[p.block].insts@.len()
}

/// The instruction at a place.
pub open spec fn inst_at(m: Module, p: Spot) -> Inst {
    m.functions@[p.func].blocks@[p.block].insts@[p.inst]
}

/// The block of a place may return control to the caller.
pub open spec fn observable(m: Module, p: Spot) -> bool {
    !(m.functions@[p.func].blocks@[p.block].term is Unreachable)
}

/// Each place but the last is a call, in a block that may return control, of the function of
/// the next place.
pub open spec fn call_chain(m: Module, chain: Seq<Spot>) -> bool {
    &&& chain.len() > 0
    &&& forall|k: int| 0 <= k < chain.len() ==> exists_in(m, #[trigger] chain[k])
    &&& forall|k: int|
        0 <= k < chain.len() - 1 ==> observable(m, #[trigger] chain[k]) && (inst_at(m, chain[k])
            matches Inst::Call { callee: Callee::Direct(g), .. } && g == m.functions@[chain[k
            + 1].func].id)
}

/// An instruction is a call of a function that is not known, other than assembly that touches
/// no memory, or assembly.
pub open spec fn does_anything(inst: Inst) -> bool {
    match inst {
        Inst::Asm { .. } => true,
        Inst::Call { callee: Callee::Indirect(_), .. } => true,
        Inst::Call { callee: Callee::Symbol(n), .. } => n@ != "<inline asm nomem>"@,
        _ => false,
    }
}

/// The instruction at a place may write memory that the caller can see.
pub open spec fn may_write_at(m: Module, p: Spot) -> bool {
    let insts = flat(m.functions@[p.func].blocks@);
    let i = inst_at(m, p);
    ||| writes_through(i) is Some && may_be_foreign(insts, writes_through(i)->0)
    ||| i is Asm
    ||| observable(m, p) && does_anything(i)
}

/// The instruction at a place may free memory that the caller can see.
pub open spec fn may_free_at(m: Module, p: Spot) -> bool {
    let insts = flat(m.functions@[p.func].blocks@);
    let i = inst_at(m, p);
    ||| frees_through(i) is Some && may_be_foreign(insts, frees_through(i)->0)
    ||| i is Asm
    ||| observable(m, p) && does_anything(i)
}

proof fn lemma_flat_has(blocks: Seq<crate::ir::BasicBlock>, b: int, k: int)
    requires
        0 <= b < blocks.len(),
        0 <= k < blocks[b].insts@.len(),
    ensures
        flat(blocks).contains(blocks[b].insts@[k]),
        !(blocks[b].term is Unreachable) ==> flat_observable(blocks).contains(blocks[b].insts@[k]),
    decreases blocks.len(),
{
    let n = blocks.len() - 1;
    let head = blocks.drop_last();
    let x = blocks[b].insts@[k];
    if b < n {
        lemma_flat_has(head, b, k);
        assert(head[b] == blocks[b]);
        let i = choose|i: int| 0 <= i < flat(head).len() && flat(head)[i] == x;
        assert(flat(blocks)[i] == x);
        if !(blocks[b].term is Unreachable) {
            let j = choose|j: int|
                0 <= j < flat_observable(head).len() && flat_observable(head)[j] == x;
            assert(flat_observable(blocks)[j] == x);
        }
    } else {
        assert(flat(blocks)[flat(head).len() + k] == x);
        if !(blocks[b].term is Unreachable) {
            assert(flat_observable(blocks)[flat_observable(head).len() + k] == x);
        }
    }
}

proof fn lemma_sites(insts: Seq<Inst>, ids: Seq<FuncId>, x: Inst, e: EdgeView)
    requires
        insts.contains(x),
        site_of(x, ids) == Some(e),
    ensures
        call_sites(insts, ids).contains(e),
    decreases insts.len(),
{
    let n = insts.len() - 1;
    let head = insts.drop_last();
    let prior = call_sites(head, ids);
    if insts.last() == x {
        assert(call_sites(insts, ids)[prior.len() as int] == e);
    } else {
        let i = choose|i: int| 0 <= i < insts.len() && insts[i] == x;
        assert(head[i] == x);
        lemma_sites(head, ids, x, e);
        let k = choose|k: int| 0 <= k < prior.len() && prior[k] == e;
        assert(call_sites(insts, ids)[k] == e);
    }
}

proof fn lemma_step(calls: Seq<Seq<EdgeView>>, base: Seq<bool>, i: int, k: int)
    requires
        0 <= k < calls[i].len(),
        effect(calls, base, calls[i][k].target),
    ensures
        effect(calls, base, i),
{
    let g = calls[i][k].target;
    let n = choose|n: nat| reaches(calls, base, g, n);
    let p = |x: int| reaches(calls, base, x, ((n + 1) - 1) as nat);
    assert(p(calls[i][k].target));
    assert(calls_one(calls[i], p));
    assert(reaches(calls, base, i, n + 1));
}

proof fn lemma_chain(m: Module, chain: Seq<Spot>, base: Seq<bool>)
    requires
        m.ids_distinct(),
        call_chain(m, chain),
        base.len() == m.functions@.len(),
        base[chain.last().func],
    ensures
        effect(edges_of(module_facts(m)), base, chain[0].func),
    decreases chain.len(),
{
    let facts = module_facts(m);
    let calls = edges_of(facts);
    if chain.len() == 1 {
        assert(reaches(calls, base, chain[0].func, 0));
    } else {
        let rest = chain.subrange(1, chain.len() as int);
        assert forall|k: int| 0 <= k < rest.len() implies exists_in(m, #[trigger] rest[k]) by {
            assert(exists_in(m, chain[k + 1]));
        }
        assert forall|k: int| 0 <= k < rest.len() - 1 implies observable(m, #[trigger] rest[k]) && (
        inst_at(m, rest[k]) matches Inst::Call { callee: Callee::Direct(g), .. } && g
            == m.functions@[rest[k + 1].func].id) by {
            assert(observable(m, chain[k + 1]));
        }
        lemma_chain(m, rest, base);
        let p = chain[0];
        assert(exists_in(m, chain[0]) && observable(m, chain[0]));
        assert(exists_in(m, chain[1]));
        let f = m.functions@[p.func];
        let x = inst_at(m, p);
        let ids = ids_of(m);
        let to = chain[1].func;
        assert(x is Call);
        assert(ids[to] == m.functions@[to].id);
        assert(id_index(ids, ids[to]) == Some(to)) by {
            reveal(id_index);
            let k = id_index(ids, ids[to])->0;
            assert forall|j: int| to < j < ids.len() implies #[trigger] ids[j] != ids[to] by {
                assert(m.functions@[to].id != m.functions@[j].id);
            }
            assert(0 <= to < ids.len() && ids[to] == ids[to]);
            if k < to {
                assert(m.functions@[k].id != m.functions@[to].id);
            }
            if to < k {
                assert(m.functions@[to].id != m.functions@[k].id);
            }
        }
        let e = site_of(x, ids)->0;
        lemma_flat_has(f.blocks@, p.block, p.inst);
        lemma_sites(flat_observable(f.blocks@), ids, x, e);
        let c = call_sites(flat_observable(f.blocks@), ids);
        assert(calls[p.func] == c);
        let k = choose|k: int| 0 <= k < c.len() && c[k] == e;
        assert(calls[p.func][k].target == to);
        assert(rest[0] == chain[1]);
        lemma_step(calls, base, p.func, k);
    }
}

/// No write is lost: where calls lead from a function to an instruction that may write memory
/// that a caller can see, the summary of the function says that it writes.
pub proof fn writes_are_summarized(m: Module, chain: Seq<Spot>)
    requires
        m.ids_distinct(),
        call_chain(m, chain),
        set_once(flat(m.functions@[chain.last().func].blocks@)),
        may_write_at(m, chain.last()),
    ensures
        spread(module_facts(m), chain[0].func).writes,
{
    let facts = module_facts(m);
    let p = chain.last();
    assert(exists_in(m, chain[chain.len() - 1]));
    let f = m.functions@[p.func];
    let insts = flat(f.blocks@);
    let x = inst_at(m, p);
    lemma_flat_has(f.blocks@, p.block, p.inst);
    let i = choose|i: int| 0 <= i < insts.len() && insts[i] == x;
    if observable(m, p) && does_anything(x) && !(x is Asm) {
        let o = flat_observable(f.blocks@);
        let j = choose|j: int| 0 <= j < o.len() && o[j] == x;
        assert(opaque_call(o[j]));
        assert(calls_opaquely(o));
    } else {
        if writes_through(x) is Some {
            lemma_foreign(insts, writes_through(x)->0);
        }
        assert(inst_writes(insts, insts[i]));
        assert(own_writes(f));
    }
    assert(writes_of(facts)[p.func]);
    lemma_chain(m, chain, writes_of(facts));
}

/// No deallocation is lost: where calls lead from a function to an instruction that may free
/// memory that a caller can see, the summary of the function says that it frees.
pub proof fn deallocations_are_summarized(m: Module, chain: Seq<Spot>)
    requires
        m.ids_distinct(),
        call_chain(m, chain),
        set_once(flat(m.functions@[chain.last().func].blocks@)),
        may_free_at(m, chain.last()),
    ensures
        spread(module_facts(m), chain[0].func).frees,
{
    let facts = module_facts(m);
    let p = chain.last();
    assert(exists_in(m, chain[chain.len() - 1]));
    let f = m.functions@[p.func];
    let insts = flat(f.blocks@);
    let x = inst_at(m, p);
    lemma_flat_has(f.blocks@, p.block, p.inst);
    let i = choose|i: int| 0 <= i < insts.len() && insts[i] == x;
    if observable(m, p) && does_anything(x) && !(x is Asm) {
        let o = flat_observable(f.blocks@);
        let j = choose|j: int| 0 <= j < o.len() && o[j] == x;
        assert(opaque_call(o[j]));
        assert(calls_opaquely(o));
    } else {
        if frees_through(x) is Some {
            lemma_foreign(insts, frees_through(x)->0);
        }
        assert(inst_frees(insts, insts[i]));
        assert(own_frees(f));
    }
    assert(frees_of(facts)[p.func]);
    lemma_chain(m, chain, frees_of(facts));
}

// ---- a caller's objects ----

/// The parameter whose object each register points into, after a function executed
/// instructions: a pointer parameter points into its own, and what is offset, copied or cast
/// from such a pointer into the same.
pub open spec fn origins(start: Map<u32, usize>, run: Seq<Inst>) -> Map<u32, usize>
    decreases run.len(),
{
    if run.len() == 0 {
        start
    } else {
        let before = origins(start, run.drop_last());
        match run.last() {
            Inst::PtrOffset { dst, base: Operand::Reg(b), .. } => carried(before, dst.0, b.0),
            Inst::Assign { dst, value: RValue::Use(Operand::Reg(b)), .. } => carried(
                before,
                dst.0,
                b.0,
            ),
            Inst::Assign { dst, value: RValue::Cast { operand: Operand::Reg(b), .. }, .. } => carried(
            before, dst.0, b.0),
            i => match defined(i) {
                Some(r) => before.remove(r.0),
                None => before,
            },
        }
    }
}

/// One register points where another does.
pub open spec fn carried(m: Map<u32, usize>, dst: u32, src: u32) -> Map<u32, usize> {
    if m.contains_key(src) {
        m.insert(dst, m[src])
    } else {
        m.remove(dst)
    }
}

/// Why a register is taken to point into a parameter's object: it is the parameter, or it is
/// derived from a register that points into the same object.
spec fn founded(insts: Seq<Inst>, start: Map<u32, usize>, m: Map<u32, usize>) -> bool {
    forall|r: u32| #[trigger]
        m.contains_key(r) ==> (start.contains_key(r) && start[r] == m[r]) || exists|i: int, s: u32|
            0 <= i < insts.len() && #[trigger] derives(insts[i], r, s) && m.contains_key(s) && m[s]
                == m[r]
}

/// No parameter is set by an instruction.
pub open spec fn params_unset(insts: Seq<Inst>, start: Map<u32, usize>) -> bool {
    forall|r: u32| #[trigger] start.contains_key(r) ==> !was_set(insts, r)
}

proof fn lemma_derives_sets(inst: Inst, d: u32, s: u32)
    requires
        derives(inst, d, s),
    ensures
        defined(inst) == Some(RegId(d)),
        forall|x: u32, y: u32| #[trigger] derives(inst, x, y) ==> x == d && y == s,
{
}

proof fn lemma_founded_step(insts: Seq<Inst>, start: Map<u32, usize>, m: Map<u32, usize>, i: int)
    requires
        set_once(insts),
        params_unset(insts, start),
        0 <= i < insts.len(),
        founded(insts, start, m),
    ensures
        founded(insts, start, alias_step(insts[i], m)),
{
    let m1 = alias_step(insts[i], m);
    if exists|d: u32, s: u32| #[trigger] derives(insts[i], d, s) && m.contains_key(s) {
        let (d, s) = choose|d: u32, s: u32| #[trigger] derives(insts[i], d, s) && m.contains_key(s);
        lemma_derives_sets(insts[i], d, s);
        assert(m1 == m.insert(d, m[s]));
        assert(!start.contains_key(d)) by {
            if start.contains_key(d) {
                assert(defined(insts[i]) == Some(RegId(d)));
                assert(was_set(insts, d));
            }
        }
        if m.contains_key(d) {
            let (j, t) = choose|j: int, t: u32|
                0 <= j < insts.len() && #[trigger] derives(insts[j], d, t) && m.contains_key(t)
                    && m[t] == m[d];
            lemma_derives_sets(insts[j], d, t);
            assert(j == i);
            assert(m1 =~= m);
        } else {
            assert forall|r: u32| #[trigger] m1.contains_key(r) implies (start.contains_key(r)
                && start[r] == m1[r]) || exists|j: int, t: u32|
                0 <= j < insts.len() && #[trigger] derives(insts[j], r, t) && m1.contains_key(t)
                    && m1[t] == m1[r] by {
                if r == d {
                    assert(s != d);
                    assert(derives(insts[i], r, s) && m1.contains_key(s) && m1[s] == m1[r]);
                } else {
                    assert(m.contains_key(r));
                    if !(start.contains_key(r) && start[r] == m[r]) {
                        let (j, t) = choose|j: int, t: u32|
                            0 <= j < insts.len() && #[trigger] derives(insts[j], r, t)
                                && m.contains_key(t) && m[t] == m[r];
                        assert(derives(insts[j], r, t) && m1.contains_key(t) && m1[t] == m1[r]);
                    }
                }
            }
        }
    } else {
        assert(m1 == m) by {
            match insts[i] {
                Inst::PtrOffset { dst, base: Operand::Reg(b), .. } => {
                    assert(derives(insts[i], dst.0, b.0));
                },
                Inst::Assign { dst, value: RValue::Use(Operand::Reg(b)), .. } => {
                    assert(derives(insts[i], dst.0, b.0));
                },
                Inst::Assign { dst, value: RValue::Cast { operand: Operand::Reg(b), .. }, .. } => {
                    assert(derives(insts[i], dst.0, b.0));
                },
                _ => {},
            }
        }
    }
}

proof fn lemma_founded_pass(insts: Seq<Inst>, start: Map<u32, usize>, m: Map<u32, usize>, n: int)
    requires
        set_once(insts),
        params_unset(insts, start),
        0 <= n <= insts.len(),
        founded(insts, start, m),
    ensures
        founded(insts, start, alias_pass(insts.take(n), m)),
    decreases n,
{
    if n > 0 {
        lemma_founded_pass(insts, start, m, n - 1);
        assert(insts.take(n).drop_last() =~= insts.take(n - 1));
        lemma_founded_step(insts, start, alias_pass(insts.take(n - 1), m), n - 1);
    }
}

proof fn lemma_founded_rounds(insts: Seq<Inst>, start: Map<u32, usize>, k: nat)
    requires
        set_once(insts),
        params_unset(insts, start),
    ensures
        founded(insts, start, alias_rounds(insts, start, k)),
    decreases k,
{
    if k > 0 {
        lemma_founded_rounds(insts, start, (k - 1) as nat);
        lemma_founded_pass(
            insts,
            start,
            alias_rounds(insts, start, (k - 1) as nat),
            insts.len() as int,
        );
        assert(insts.take(insts.len() as int) =~= insts);
    }
}

proof fn lemma_origins(
    insts: Seq<Inst>,
    start: Map<u32, usize>,
    m: Map<u32, usize>,
    run: Seq<Inst>,
    r: u32,
)
    requires
        set_once(insts),
        params_unset(insts, start),
        founded(insts, start, m),
        executes(insts, run),
        m.contains_key(r),
        was_set(run, r) || !was_set(insts, r),
    ensures
        origins(start, run).contains_key(r),
        origins(start, run)[r] == m[r],
    decreases run.len(),
{
    if run.len() == 0 {
        if !(start.contains_key(r) && start[r] == m[r]) {
            let (j, t) = choose|j: int, t: u32|
                0 <= j < insts.len() && #[trigger] derives(insts[j], r, t) && m.contains_key(t)
                    && m[t] == m[r];
            lemma_derives_sets(insts[j], r, t);
            assert(was_set(insts, r));
        }
    } else {
        let n = run.len() - 1;
        let head = run.drop_last();
        let last = run.last();
        assert(insts.contains(run[n]));
        let i = choose|i: int| 0 <= i < insts.len() && insts[i] == last;
        lemma_executes_front(insts, run);
        if defined(last) == Some(RegId(r)) {
            assert(was_set(insts, r));
            let (j, t) = choose|j: int, t: u32|
                0 <= j < insts.len() && #[trigger] derives(insts[j], r, t) && m.contains_key(t)
                    && m[t] == m[r];
            lemma_derives_sets(insts[j], r, t);
            assert(i == j);
            assert(derives(run[n], r, t));
            assert(run.take(n) =~= head);
            lemma_origins(insts, start, m, head, t);
        } else {
            if was_set(run, r) {
                let k = choose|k: int|
                    0 <= k < run.len() && defined(#[trigger] run[k]) == Some(RegId(r));
                assert(head[k] == run[k]);
                assert(was_set(head, r));
            }
            lemma_origins(insts, start, m, head, r);
        }
    }
}

proof fn lemma_executes_front(insts: Seq<Inst>, run: Seq<Inst>)
    requires
        executes(insts, run),
        run.len() > 0,
    ensures
        executes(insts, run.drop_last()),
{
    let head = run.drop_last();
    assert forall|k: int| 0 <= k < head.len() implies insts.contains(#[trigger] head[k]) by {
        assert(insts.contains(run[k]));
    }
    assert forall|k: int, d: u32, s: u32|
        0 <= k < head.len() && #[trigger] derives(head[k], d, s) && was_set(insts, s) implies was_set(
        head.take(k),
        s,
    ) by {
        assert(derives(run[k], d, s));
        assert(run.take(k) =~= head.take(k));
    }
}

/// A register that is taken to alias a pointer parameter points into that parameter's object
/// after every execution that set it.
pub proof fn aliases_point_into_their_parameter(f: Function, run: Seq<Inst>, r: u32)
    requires
        set_once(flat(f.blocks@)),
        params_unset(flat(f.blocks@), pointer_params(f.params@)),
        executes(flat(f.blocks@), run),
        param_aliases(f).contains_key(r),
        was_set(run, r) || !was_set(flat(f.blocks@), r),
    ensures
        origins(pointer_params(f.params@), run).contains_key(r),
        origins(pointer_params(f.params@), run)[r] == param_aliases(f)[r],
{
    let insts = flat(f.blocks@);
    let start = pointer_params(f.params@);
    let k = the_one(|k: nat| alias_stable(insts, start, k));
    lemma_founded_rounds(insts, start, k);
    lemma_origins(insts, start, param_aliases(f), run, r);
}

// ---- reference counts ----

/// The instruction takes or drops a reference to the object of a parameter, under a protocol.
pub open spec fn counts_reference(i: Inst, m: Map<u32, usize>, p: usize, proto: u32, dec: bool) -> bool {
    i matches Inst::Refcount { val: Operand::Reg(r), protocol, dec: d } && m.contains_key(r.0)
        && m[r.0] == p && protocol == proto && d == dec
}

/// How many instructions take or drop a reference.
pub open spec fn how_many(insts: Seq<Inst>, m: Map<u32, usize>, p: usize, proto: u32, dec: bool) -> nat {
    insts.filter(|i: Inst| counts_reference(i, m, p, proto, dec)).len()
}

/// The net change of a reference count is the number of references taken less the number of
/// those dropped.
pub proof fn reference_counts_balance(insts: Seq<Inst>, m: Map<u32, usize>, p: usize, proto: u32)
    requires
        insts.len() <= i64::MAX,
    ensures
        net_count(insts, m, p, proto) == how_many(insts, m, p, proto, false) - how_many(
            insts,
            m,
            p,
            proto,
            true,
        ),
        how_many(insts, m, p, proto, false) + how_many(insts, m, p, proto, true) <= insts.len(),
    decreases insts.len(),
{
    reveal(Seq::filter);
    if insts.len() > 0 {
        reference_counts_balance(insts.drop_last(), m, p, proto);
    }
}

/// Where a parameter is said to be freed, the function's one block frees the pointer that is
/// passed, once, and frees nothing else.
pub proof fn certain_frees_free_their_parameter(f: Function, k: usize)
    requires
        certain_free(f, k),
        f.params@.len() <= usize::MAX,
    ensures
        f.blocks@.len() == 1,
        k < f.params@.len(),
        exists|i: int| #[trigger] frees_only(f.blocks@[0].insts@, i, f.params@[k as int].0),
{
    let insts = f.blocks@[0].insts@;
    let i = choose|i: int|
        0 <= i < insts.len() && #[trigger] freeing(f.params@, insts[i]) == Some(Some(k)) && forall|
            j: int,
        |
            0 <= j < insts.len() && j != i ==> #[trigger] freeing(f.params@, insts[j]) is None;
    let r = frees_through(insts[i])->0->Reg_0;
    lemma_position(f.params@, r);
    assert(frees_only(insts, i, f.params@[k as int].0)) by {
        assert forall|j: int| 0 <= j < insts.len() && j != i implies frees_through(
            #[trigger] insts[j],
        ) is None by {
            assert(freeing(f.params@, insts[j]) is None);
        }
    }
}

/// The instruction at a position frees what a register holds, and no other instruction frees.
pub open spec fn frees_only(insts: Seq<Inst>, i: int, r: RegId) -> bool {
    &&& 0 <= i < insts.len()
    &&& frees_through(insts[i]) == Some(Operand::Reg(r))
    &&& forall|j: int| 0 <= j < insts.len() && j != i ==> frees_through(#[trigger] insts[j]) is None
}

proof fn lemma_position(params: Seq<(RegId, Type)>, r: RegId)
    requires
        params.len() <= usize::MAX,
    ensures
        param_position(params, r) matches Some(k) ==> k < params.len() && params[k as int].0 == r,
    decreases params.len(),
{
    if params.len() > 0 {
        lemma_position(params.drop_last(), r);
    }
}

} // verus!
