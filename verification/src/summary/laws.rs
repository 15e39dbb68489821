//! What holds of summaries as a whole: reading modules in shards, and reading them
//! unlinked, gives what reading them together gives.

use crate::ir::{BasicBlock, BlockId, Callee, FuncId, Function, Inst, Module, Operand};
use crate::summary::fixpoint::{effect, reaches};
use crate::summary::perfn::{
    alias_grows, alias_pass, alias_rounds, alias_stable, allocates, certain_free, derives, flat,
    flat_observable, freeing, inst_frees, inst_labels, inst_transfers, inst_writes, is_local,
    local_step, local_within, net_count, own_counts, own_frees, own_labels, own_transfers,
    own_writes, param_aliases, pointer_params,
};
use crate::summary::program::{
    all_sites, any_site, call_sites, calls_opaquely, facts_of, id_index, ids_of, merged,
    module_facts, names_with, no_facts, opaque_call, program_facts, pushed, ref_of, resolve,
    resolved_edges, row_of, row_up, site_up, some_unresolved, unresolved, FactsView, RefView,
};
use crate::summary::ret::{
    bind_params, block_index, feed_target, inst_value, param_values, ret_within, returned,
    run_blocks, run_insts, AbsView, RetState,
};
use crate::summary::{edges_of, frees_of, own_view, spread, writes_of};
use vstd::prelude::*;

verus! {

// ---- shards ----

proof fn lemma_sites_up(insts: Seq<Inst>, ids: Seq<FuncId>, base: int, off: int)
    ensures
        all_sites(insts, ids, base + off) == Seq::new(
            all_sites(insts, ids, base).len(),
            |k: int| site_up(all_sites(insts, ids, base)[k], off),
        ),
    decreases insts.len(),
{
    let low = all_sites(insts, ids, base);
    let high = all_sites(insts, ids, base + off);
    if insts.len() > 0 {
        lemma_sites_up(insts.drop_last(), ids, base, off);
    }
    assert(high =~= Seq::new(low.len(), |k: int| site_up(low[k], off)));
}

proof fn lemma_row_up(f: Function, ids: Seq<FuncId>, base: int, off: int)
    ensures
        row_of(f, ids, base + off) == row_up(row_of(f, ids, base), off),
{
    lemma_sites_up(flat_observable(f.blocks@), ids, base, off);
}

proof fn lemma_names_merged(a: FactsView, b: FactsView, m: Module, n: nat)
    requires
        n <= m.functions@.len(),
        a.rows.len() + b.rows.len() + m.functions@.len() <= u32::MAX,
    ensures
        names_with(merged(a, b).names, m, (a.rows.len() + b.rows.len()) as int, n) == merged(
            a,
            FactsView { names: names_with(b.names, m, b.rows.len() as int, n), rows: b.rows },
        ).names,
    decreases n,
{
    let all = (a.rows.len() + b.rows.len()) as int;
    let left = names_with(merged(a, b).names, m, all, n);
    let inner = names_with(b.names, m, b.rows.len() as int, n);
    let right = merged(a, FactsView { names: inner, rows: b.rows }).names;
    if n > 0 {
        lemma_names_merged(a, b, m, (n - 1) as nat);
        lemma_own_index(m, n - 1);
    }
    assert(left =~= right);
}

/// Reading one more module after merging is merging with that module read.
pub proof fn push_commutes_with_merge(a: FactsView, b: FactsView, m: Module)
    requires
        a.rows.len() + b.rows.len() + m.functions@.len() <= u32::MAX,
    ensures
        pushed(merged(a, b), m) == merged(a, pushed(b, m)),
{
    let left = pushed(merged(a, b), m);
    let right = merged(a, pushed(b, m));
    let off = a.rows.len() as int;
    lemma_names_merged(a, b, m, m.functions@.len());
    let pb = pushed(b, m);
    assert(left.names =~= right.names);
    assert(left.rows.len() == right.rows.len());
    assert forall|i: int| 0 <= i < left.rows.len() implies left.rows[i] == right.rows[i] by {
        if i < off {
        } else if i < off + b.rows.len() {
            assert(pb.rows[i - off] == b.rows[i - off]);
        } else {
            let t = i - off - b.rows.len();
            lemma_row_up(m.functions@[t], ids_of(m), b.rows.len() as int, off);
            assert(pb.rows[i - off] == row_of(m.functions@[t], ids_of(m), b.rows.len() as int));
        }
    }
    assert(left.rows =~= right.rows);
}

/// Shards may be read apart and merged in order: the facts are those of reading every
/// module in one go.
pub proof fn shards_merge(a: Seq<Module>, b: Seq<Module>)
    requires
        facts_of(a + b).rows.len() <= u32::MAX,
    ensures
        merged(facts_of(a), facts_of(b)) == facts_of(a + b),
        facts_of(a).rows.len() + facts_of(b).rows.len() == facts_of(a + b).rows.len(),
    decreases b.len(),
{
    if b.len() == 0 {
        assert(a + b =~= a);
        let m = merged(facts_of(a), no_facts());
        assert(m.names =~= facts_of(a).names);
        assert(m.rows =~= facts_of(a).rows);
    } else {
        let c = b.drop_last();
        assert((a + b).drop_last() =~= a + c);
        assert((a + b).last() == b.last());
        shards_merge(a, c);
        push_commutes_with_merge(facts_of(a), facts_of(c), b.last());
    }
}

// ---- linking ----

/// Instructions that differ at most in the callee of a call.
pub open spec fn alike(a: Inst, b: Inst) -> bool {
    match (a, b) {
        (
            Inst::Call { dst: d1, args: a1, ret_ty: t1, ret_ref: r1, .. },
            Inst::Call { dst: d2, args: a2, ret_ty: t2, ret_ref: r2, .. },
        ) => d1 == d2 && a1@ == a2@ && t1 == t2 && r1 == r2,
        (Inst::Call { .. }, _) => false,
        (_, Inst::Call { .. }) => false,
        _ => a == b,
    }
}

/// Sequences of alike instructions.
pub open spec fn all_alike(a: Seq<Inst>, b: Seq<Inst>) -> bool {
    a.len() == b.len() && forall|i: int| 0 <= i < a.len() ==> alike(#[trigger] a[i], b[i])
}

/// Blocks that differ at most in the callees of calls.
pub open spec fn block_alike(a: BasicBlock, b: BasicBlock) -> bool {
    &&& a.id == b.id
    &&& a.params@ == b.params@
    &&& a.term == b.term
    &&& all_alike(a.insts@, b.insts@)
}

/// Functions that differ at most in ids, names and the callees of calls.
pub open spec fn fn_alike(f: Function, g: Function) -> bool {
    &&& f.params@ == g.params@
    &&& f.blocks@.len() == g.blocks@.len()
    &&& forall|k: int| 0 <= k < f.blocks@.len() ==> block_alike(#[trigger] f.blocks@[k], g.blocks@[k])
}

proof fn lemma_alike_drop(a: Seq<Inst>, b: Seq<Inst>)
    requires
        all_alike(a, b),
        a.len() > 0,
    ensures
        all_alike(a.drop_last(), b.drop_last()),
        alike(a.last(), b.last()),
{
    assert forall|i: int| 0 <= i < a.len() - 1 implies alike(
        #[trigger] a.drop_last()[i],
        b.drop_last()[i],
    ) by {
        assert(alike(a[i], b[i]));
    }
    assert(alike(a[a.len() - 1], b[b.len() - 1]));
}

proof fn lemma_alike_concat(a: Seq<Inst>, b: Seq<Inst>, c: Seq<Inst>, d: Seq<Inst>)
    requires
        all_alike(a, b),
        all_alike(c, d),
    ensures
        all_alike(a + c, b + d),
{
    assert forall|i: int| 0 <= i < (a + c).len() implies alike(
        #[trigger] (a + c)[i],
        (b + d)[i],
    ) by {
        if i < a.len() {
            assert(alike(a[i], b[i]));
        } else {
            assert(alike(c[i - a.len()], d[i - a.len()]));
        }
    }
}

proof fn lemma_flat_alike(a: Seq<BasicBlock>, b: Seq<BasicBlock>)
    requires
        a.len() == b.len(),
        forall|k: int| 0 <= k < a.len() ==> block_alike(#[trigger] a[k], b[k]),
    ensures
        all_alike(flat(a), flat(b)),
        all_alike(flat_observable(a), flat_observable(b)),
    decreases a.len(),
{
    if a.len() > 0 {
        assert forall|k: int| 0 <= k < a.len() - 1 implies block_alike(
            #[trigger] a.drop_last()[k],
            b.drop_last()[k],
        ) by {
            assert(block_alike(a[k], b[k]));
        }
        lemma_flat_alike(a.drop_last(), b.drop_last());
        assert(block_alike(a[a.len() - 1], b[b.len() - 1]));
        lemma_alike_concat(
            flat(a.drop_last()),
            flat(b.drop_last()),
            a.last().insts@,
            b.last().insts@,
        );
        lemma_alike_concat(
            flat_observable(a.drop_last()),
            flat_observable(b.drop_last()),
            a.last().insts@,
            b.last().insts@,
        );
    }
}

proof fn lemma_local_alike(a: Seq<Inst>, b: Seq<Inst>, r: u32, n: nat)
    requires
        all_alike(a, b),
        local_within(a, r, n),
    ensures
        local_within(b, r, n),
    decreases n,
{
    let pa = |s: u32| local_within(a, s, (n - 1) as nat);
    let pb = |s: u32| local_within(b, s, (n - 1) as nat);
    assert(local_step(a, r, pa));
    if exists|i: int| 0 <= i < a.len() && #[trigger] allocates(a[i], r) {
        let i = choose|i: int| 0 <= i < a.len() && #[trigger] allocates(a[i], r);
        assert(alike(a[i], b[i]));
        assert(allocates(b[i], r));
    } else {
        let (i, s) = choose|i: int, s: u32|
            0 <= i < a.len() && #[trigger] derives(a[i], r, s) && pa(s);
        assert(alike(a[i], b[i]));
        lemma_local_alike(a, b, s, (n - 1) as nat);
        assert(derives(b[i], r, s) && pb(s));
    }
    assert(local_step(b, r, pb));
}

proof fn lemma_alike_sym(a: Seq<Inst>, b: Seq<Inst>)
    requires
        all_alike(a, b),
    ensures
        all_alike(b, a),
{
    assert forall|i: int| 0 <= i < b.len() implies alike(#[trigger] b[i], a[i]) by {
        assert(alike(a[i], b[i]));
    }
}

proof fn lemma_is_local_alike(a: Seq<Inst>, b: Seq<Inst>, r: u32)
    requires
        all_alike(a, b),
    ensures
        is_local(a, r) == is_local(b, r),
{
    lemma_alike_sym(a, b);
    if is_local(a, r) {
        let n = choose|n: nat| local_within(a, r, n);
        lemma_local_alike(a, b, r, n);
    }
    if is_local(b, r) {
        let n = choose|n: nat| local_within(b, r, n);
        lemma_local_alike(b, a, r, n);
    }
}

proof fn lemma_inst_effects_alike(a: Seq<Inst>, b: Seq<Inst>, x: Inst, y: Inst)
    requires
        all_alike(a, b),
        alike(x, y),
    ensures
        inst_writes(a, x) == inst_writes(b, y),
        inst_frees(a, x) == inst_frees(b, y),
{
    match x {
        Inst::Store { ptr: Operand::Reg(r), .. } => lemma_is_local_alike(a, b, r.0),
        Inst::MemIntrinsic { dst: Operand::Reg(r), .. } => lemma_is_local_alike(a, b, r.0),
        Inst::Dealloc { ptr: Operand::Reg(r), .. } => lemma_is_local_alike(a, b, r.0),
        _ => {},
    }
}

proof fn lemma_effects_alike(f: Function, g: Function)
    requires
        fn_alike(f, g),
        own_writes(f) || own_frees(f),
    ensures
        own_writes(f) ==> own_writes(g),
        own_frees(f) ==> own_frees(g),
{
    lemma_flat_alike(f.blocks@, g.blocks@);
    let (a, b) = (flat(f.blocks@), flat(g.blocks@));
    if own_writes(f) {
        let i = choose|i: int| 0 <= i < a.len() && inst_writes(a, #[trigger] a[i]);
        assert(alike(a[i], b[i]));
        lemma_inst_effects_alike(a, b, a[i], b[i]);
        assert(inst_writes(b, b[i]));
    }
    if own_frees(f) {
        let i = choose|i: int| 0 <= i < a.len() && inst_frees(a, #[trigger] a[i]);
        assert(alike(a[i], b[i]));
        lemma_inst_effects_alike(a, b, a[i], b[i]);
        assert(inst_frees(b, b[i]));
    }
}

proof fn lemma_fn_alike_sym(f: Function, g: Function)
    requires
        fn_alike(f, g),
    ensures
        fn_alike(g, f),
{
    assert forall|k: int| 0 <= k < g.blocks@.len() implies block_alike(
        #[trigger] g.blocks@[k],
        f.blocks@[k],
    ) by {
        assert(block_alike(f.blocks@[k], g.blocks@[k]));
        lemma_alike_sym(f.blocks@[k].insts@, g.blocks@[k].insts@);
    }
}

proof fn lemma_alias_pass_alike(a: Seq<Inst>, b: Seq<Inst>, m: Map<u32, usize>)
    requires
        all_alike(a, b),
    ensures
        alias_pass(a, m) == alias_pass(b, m),
    decreases a.len(),
{
    if a.len() > 0 {
        lemma_alike_drop(a, b);
        lemma_alias_pass_alike(a.drop_last(), b.drop_last(), m);
    }
}

proof fn lemma_alias_rounds_alike(a: Seq<Inst>, b: Seq<Inst>, m: Map<u32, usize>, k: nat)
    requires
        all_alike(a, b),
    ensures
        alias_rounds(a, m, k) == alias_rounds(b, m, k),
    decreases k,
{
    if k > 0 {
        lemma_alias_rounds_alike(a, b, m, (k - 1) as nat);
        lemma_alias_pass_alike(a, b, alias_rounds(a, m, (k - 1) as nat));
    }
}

proof fn lemma_aliases_alike(f: Function, g: Function)
    requires
        fn_alike(f, g),
    ensures
        param_aliases(f) == param_aliases(g),
{
    lemma_flat_alike(f.blocks@, g.blocks@);
    let (a, b) = (flat(f.blocks@), flat(g.blocks@));
    let m = pointer_params(f.params@);
    assert forall|k: nat| #[trigger] alias_grows(a, m, k) == alias_grows(b, m, k) by {
        lemma_alias_rounds_alike(a, b, m, k);
        if k > 0 {
            lemma_alias_rounds_alike(a, b, m, (k - 1) as nat);
        }
    }
    let pa = |k: nat| alias_stable(a, m, k);
    let pb = |k: nat| alias_stable(b, m, k);
    assert forall|k: nat| #[trigger] pa(k) == pb(k) by {
        assert(alias_grows(a, m, k) == alias_grows(b, m, k));
        if alias_stable(a, m, k) {
            assert forall|j: nat| 0 < j < k implies #[trigger] alias_grows(b, m, j) by {
                assert(alias_grows(a, m, j));
            }
        }
        if alias_stable(b, m, k) {
            assert forall|j: nat| 0 < j < k implies #[trigger] alias_grows(a, m, j) by {
                assert(alias_grows(a, m, j) == alias_grows(b, m, j));
            }
        }
    }
    assert(pa =~= pb);
    lemma_alias_rounds_alike(a, b, m, crate::summary::perfn::the_one(pa));
}

proof fn lemma_counts_alike(a: Seq<Inst>, b: Seq<Inst>, m: Map<u32, usize>, p: usize, q: u32)
    requires
        all_alike(a, b),
    ensures
        net_count(a, m, p, q) == net_count(b, m, p, q),
    decreases a.len(),
{
    if a.len() > 0 {
        lemma_alike_drop(a, b);
        lemma_counts_alike(a.drop_last(), b.drop_last(), m, p, q);
    }
}

proof fn lemma_run_insts_alike(a: Seq<Inst>, b: Seq<Inst>, st: RetState)
    requires
        all_alike(a, b),
    ensures
        run_insts(a, st) == run_insts(b, st),
    decreases a.len(),
{
    if a.len() > 0 {
        lemma_alike_drop(a, b);
        lemma_run_insts_alike(a.drop_last(), b.drop_last(), st);
        let env = run_insts(a.drop_last(), st).env;
        assert(inst_value(a.last(), env) == inst_value(b.last(), env));
    }
}

proof fn lemma_block_index_alike(a: Seq<BasicBlock>, b: Seq<BasicBlock>, id: BlockId)
    requires
        a.len() == b.len(),
        forall|k: int| 0 <= k < a.len() ==> block_alike(#[trigger] a[k], b[k]),
    ensures
        block_index(a, id) == block_index(b, id),
        match block_index(a, id) {
            Some(i) => 0 <= i < a.len(),
            None => true,
        },
    decreases a.len(),
{
    if a.len() > 0 {
        assert(block_alike(a[a.len() - 1], b[b.len() - 1]));
        assert forall|k: int| 0 <= k < a.len() - 1 implies block_alike(
            #[trigger] a.drop_last()[k],
            b.drop_last()[k],
        ) by {
            assert(block_alike(a[k], b[k]));
        }
        lemma_block_index_alike(a.drop_last(), b.drop_last(), id);
    }
}

proof fn lemma_feed_alike(
    a: Seq<BasicBlock>,
    b: Seq<BasicBlock>,
    target: BlockId,
    args: Seq<Operand>,
    st: RetState,
)
    requires
        a.len() == b.len(),
        forall|k: int| 0 <= k < a.len() ==> block_alike(#[trigger] a[k], b[k]),
    ensures
        feed_target(a, target, args, st) == feed_target(b, target, args, st),
{
    lemma_block_index_alike(a, b, target);
    if let Some(i) = block_index(a, target) {
        assert(block_alike(a[i], b[i]));
    }
}

proof fn lemma_run_blocks_alike(a: Seq<BasicBlock>, b: Seq<BasicBlock>, n: nat, st: RetState)
    requires
        a.len() == b.len(),
        n <= a.len(),
        forall|k: int| 0 <= k < a.len() ==> block_alike(#[trigger] a[k], b[k]),
    ensures
        run_blocks(a, n, st) == run_blocks(b, n, st),
    decreases n,
{
    if n > 0 {
        lemma_run_blocks_alike(a, b, (n - 1) as nat, st);
        let mid = run_blocks(a, (n - 1) as nat, st);
        assert(block_alike(a[n - 1], b[n - 1]));
        let bound = bind_params(a[n - 1].params@, mid);
        lemma_run_insts_alike(a[n - 1].insts@, b[n - 1].insts@, bound);
        let after = run_insts(a[n - 1].insts@, bound);
        match a[n - 1].term {
            crate::ir::Terminator::Br { target, args } => {
                lemma_feed_alike(a, b, target, args@, after);
            },
            crate::ir::Terminator::CondBr { then_blk, then_args, else_blk, else_args, .. } => {
                lemma_feed_alike(a, b, then_blk, then_args@, after);
                lemma_feed_alike(
                    a,
                    b,
                    else_blk,
                    else_args@,
                    feed_target(a, then_blk, then_args@, after),
                );
            },
            _ => {},
        }
    }
}

proof fn lemma_returned_alike(
    a: Seq<BasicBlock>,
    b: Seq<BasicBlock>,
    n: nat,
    env: Map<u32, AbsView>,
)
    requires
        a.len() == b.len(),
        n <= a.len(),
        forall|k: int| 0 <= k < a.len() ==> block_alike(#[trigger] a[k], b[k]),
    ensures
        returned(a, n, env) == returned(b, n, env),
    decreases n,
{
    if n > 0 {
        lemma_returned_alike(a, b, (n - 1) as nat, env);
        assert(block_alike(a[n - 1], b[n - 1]));
    }
}

proof fn lemma_ret_alike(
    a: Seq<BasicBlock>,
    b: Seq<BasicBlock>,
    env: Map<u32, AbsView>,
    joins: Map<u32, AbsView>,
    passes: nat,
)
    requires
        a.len() == b.len(),
        forall|k: int| 0 <= k < a.len() ==> block_alike(#[trigger] a[k], b[k]),
    ensures
        ret_within(a, env, joins, passes) == ret_within(b, env, joins, passes),
    decreases passes,
{
    if passes > 0 {
        let start = RetState { env, joins, changed: false };
        lemma_run_blocks_alike(a, b, a.len(), start);
        let st = run_blocks(a, a.len(), start);
        if st.changed {
            lemma_ret_alike(a, b, st.env, st.joins, (passes - 1) as nat);
        } else {
            lemma_returned_alike(a, b, a.len(), st.env);
        }
    }
}

proof fn lemma_certain_free_alike(f: Function, g: Function, k: usize)
    requires
        fn_alike(f, g),
        certain_free(f, k),
    ensures
        certain_free(g, k),
{
    assert(block_alike(f.blocks@[0], g.blocks@[0]));
    let (a, b) = (f.blocks@[0].insts@, g.blocks@[0].insts@);
    let i = choose|i: int|
        0 <= i < a.len() && #[trigger] freeing(f.params@, a[i]) == Some(Some(k)) && forall|j: int|
            0 <= j < a.len() && j != i ==> #[trigger] freeing(f.params@, a[j]) is None;
    assert(alike(a[i], b[i]));
    assert(freeing(g.params@, b[i]) == Some(Some(k)));
    assert forall|j: int| 0 <= j < b.len() && j != i implies #[trigger] freeing(
        g.params@,
        b[j],
    ) is None by {
        assert(alike(a[j], b[j]));
        assert(freeing(f.params@, a[j]) is None);
    }
}

/// A function's own summary does not depend on whom its calls name.
pub proof fn own_summary_ignores_callees(f: Function, g: Function)
    requires
        fn_alike(f, g),
    ensures
        own_view(f) == own_view(g),
        param_aliases(f) == param_aliases(g),
{
    lemma_fn_alike_sym(f, g);
    lemma_aliases_alike(f, g);
    lemma_flat_alike(f.blocks@, g.blocks@);
    lemma_flat_alike(g.blocks@, f.blocks@);
    let (a, b) = (flat(f.blocks@), flat(g.blocks@));
    let m = param_aliases(f);
    let seed = param_values(f.params@);
    lemma_ret_alike(f.blocks@, g.blocks@, seed, seed, 64);
    if own_writes(f) || own_frees(f) {
        lemma_effects_alike(f, g);
    }
    if own_writes(g) || own_frees(g) {
        lemma_effects_alike(g, f);
    }
    assert forall|k: usize| #[trigger] certain_free(f, k) == certain_free(g, k) by {
        if certain_free(f, k) {
            lemma_certain_free_alike(f, g, k);
        }
        if certain_free(g, k) {
            lemma_certain_free_alike(g, f, k);
        }
    }
    assert(crate::summary::freed_param(f) == crate::summary::freed_param(g)) by {
        if exists|k: usize| certain_free(f, k) {
            let k = choose|k: usize| certain_free(f, k);
            assert(certain_free(g, k));
            let j = choose|j: usize| certain_free(g, j);
            assert(certain_free(f, j));
            crate::summary::lemma_certain_free_unique(f, k, j);
        } else if exists|k: usize| certain_free(g, k) {
            let k = choose|k: usize| certain_free(g, k);
            assert(certain_free(f, k));
        }
    }
    let ta = |x: (usize, usize)| own_transfers(f, x);
    let tb = |x: (usize, usize)| own_transfers(g, x);
    assert forall|x: (usize, usize)| #[trigger] ta(x) == tb(x) by {
        if own_transfers(f, x) {
            let i = choose|i: int| 0 <= i < a.len() && inst_transfers(#[trigger] a[i], m, x);
            assert(alike(a[i], b[i]));
            assert(inst_transfers(b[i], m, x));
        }
        if own_transfers(g, x) {
            let i = choose|i: int| 0 <= i < b.len() && inst_transfers(#[trigger] b[i], m, x);
            assert(alike(a[i], b[i]));
            assert(inst_transfers(a[i], m, x));
        }
    }
    assert(ta =~= tb);
    let la = |x: (usize, u32)| own_labels(f, x);
    let lb = |x: (usize, u32)| own_labels(g, x);
    assert forall|x: (usize, u32)| #[trigger] la(x) == lb(x) by {
        if own_labels(f, x) {
            let i = choose|i: int| 0 <= i < a.len() && inst_labels(#[trigger] a[i], m, x);
            assert(alike(a[i], b[i]));
            assert(inst_labels(b[i], m, x));
        }
        if own_labels(g, x) {
            let i = choose|i: int| 0 <= i < b.len() && inst_labels(#[trigger] b[i], m, x);
            assert(alike(a[i], b[i]));
            assert(inst_labels(a[i], m, x));
        }
    }
    assert(la =~= lb);
    assert(own_counts(f) =~= own_counts(g)) by {
        assert forall|p: usize, q: u32| #[trigger] own_counts(f)(p, q) == own_counts(g)(p, q) by {
            lemma_counts_alike(a, b, m, p, q);
        }
    }
}

/// The callee `d` that linking makes of `c`: a known function by its number, another
/// name as it is, and an indirect callee for an indirect one.
pub open spec fn callee_linked(
    c: Callee,
    d: Callee,
    ids: Seq<FuncId>,
    base: int,
    names: Map<Seq<char>, u32>,
) -> bool {
    let r = ref_of(c, ids, base);
    match resolve(r, names) {
        Some(g) => d == Callee::Direct(FuncId(g as u32)),
        None => match r {
            RefView::Name(n) => d matches Callee::Symbol(s) && s@ == n,
            _ => d is Indirect,
        },
    }
}

/// The instruction `b` that linking makes of `a`.
pub open spec fn inst_linked(
    a: Inst,
    b: Inst,
    ids: Seq<FuncId>,
    base: int,
    names: Map<Seq<char>, u32>,
) -> bool {
    alike(a, b) && match (a, b) {
        (Inst::Call { callee: c, .. }, Inst::Call { callee: d, .. }) => callee_linked(
            c,
            d,
            ids,
            base,
            names,
        ),
        _ => true,
    }
}

/// The function `g` that linking makes of `f`.
pub open spec fn fn_linked(
    f: Function,
    g: Function,
    ids: Seq<FuncId>,
    base: int,
    names: Map<Seq<char>, u32>,
) -> bool {
    &&& fn_alike(f, g)
    &&& forall|k: int, i: int|
        0 <= k < f.blocks@.len() && 0 <= i < f.blocks@[k].insts@.len() ==> inst_linked(
            #[trigger] f.blocks@[k].insts@[i],
            g.blocks@[k].insts@[i],
            ids,
            base,
            names,
        )
}

/// `linked` is the module that linking makes of `mods`: their functions in order,
/// numbered from 0 on, with calls by name resolved to external definitions.
pub open spec fn links(mods: Seq<Module>, linked: Module) -> bool {
    let facts = facts_of(mods);
    &&& linked.functions@.len() == facts.rows.len()
    &&& forall|i: int|
        0 <= i < linked.functions@.len() ==> (#[trigger] linked.functions@[i]).id == FuncId(
            i as u32,
        )
    &&& forall|j: int, t: int|
        0 <= j < mods.len() && 0 <= t < mods[j].functions@.len() ==> fn_linked(
            #[trigger] mods[j].functions@[t],
            linked.functions@[facts_of(mods.take(j)).rows.len() + t],
            ids_of(mods[j]),
            facts_of(mods.take(j)).rows.len() as int,
            facts.names,
        )
}

/// Where the row of a function comes from.
proof fn lemma_row_source(mods: Seq<Module>, k: int) -> (at: (int, int))
    requires
        0 <= k < facts_of(mods).rows.len(),
    ensures
        0 <= at.0 < mods.len(),
        0 <= at.1 < mods[at.0].functions@.len(),
        k == facts_of(mods.take(at.0)).rows.len() + at.1,
        facts_of(mods).rows[k] == row_of(
            mods[at.0].functions@[at.1],
            ids_of(mods[at.0]),
            facts_of(mods.take(at.0)).rows.len() as int,
        ),
    decreases mods.len(),
{
    let head = mods.drop_last();
    let prior = facts_of(head);
    if k < prior.rows.len() {
        let at = lemma_row_source(head, k);
        assert(head.take(at.0) =~= mods.take(at.0));
        at
    } else {
        let j = mods.len() - 1;
        assert(mods.take(j) =~= head);
        (j, k - prior.rows.len())
    }
}

/// Corresponding instructions of corresponding sequences are linked.
spec fn all_linked(
    a: Seq<Inst>,
    b: Seq<Inst>,
    ids: Seq<FuncId>,
    base: int,
    names: Map<Seq<char>, u32>,
) -> bool {
    a.len() == b.len() && forall|i: int|
        0 <= i < a.len() ==> inst_linked(#[trigger] a[i], b[i], ids, base, names)
}

proof fn lemma_flat_linked(
    a: Seq<BasicBlock>,
    b: Seq<BasicBlock>,
    ids: Seq<FuncId>,
    base: int,
    names: Map<Seq<char>, u32>,
)
    requires
        a.len() == b.len(),
        forall|k: int| 0 <= k < a.len() ==> block_alike(#[trigger] a[k], b[k]),
        forall|k: int, i: int|
            0 <= k < a.len() && 0 <= i < a[k].insts@.len() ==> inst_linked(
                #[trigger] a[k].insts@[i],
                b[k].insts@[i],
                ids,
                base,
                names,
            ),
    ensures
        all_linked(flat_observable(a), flat_observable(b), ids, base, names),
    decreases a.len(),
{
    if a.len() > 0 {
        let (c, d) = (a.drop_last(), b.drop_last());
        assert forall|k: int| 0 <= k < c.len() implies block_alike(#[trigger] c[k], d[k]) by {
            assert(block_alike(a[k], b[k]));
        }
        assert forall|k: int, i: int|
            0 <= k < c.len() && 0 <= i < c[k].insts@.len() implies inst_linked(
            #[trigger] c[k].insts@[i],
            d[k].insts@[i],
            ids,
            base,
            names,
        ) by {
            assert(inst_linked(a[k].insts@[i], b[k].insts@[i], ids, base, names));
        }
        lemma_flat_linked(c, d, ids, base, names);
        let n = a.len() - 1;
        assert(block_alike(a[n], b[n]));
        let (x, y) = (flat_observable(a), flat_observable(b));
        let (p, q) = (flat_observable(c), flat_observable(d));
        assert forall|i: int| 0 <= i < x.len() implies inst_linked(
            #[trigger] x[i],
            y[i],
            ids,
            base,
            names,
        ) by {
            if i < p.len() {
                assert(inst_linked(p[i], q[i], ids, base, names));
            } else {
                assert(inst_linked(
                    a[n].insts@[i - p.len()],
                    b[n].insts@[i - p.len()],
                    ids,
                    base,
                    names,
                ));
            }
        }
    }
}

/// Numbers found at their own positions.
proof fn lemma_numbered(ids: Seq<FuncId>, g: int)
    requires
        forall|i: int| 0 <= i < ids.len() ==> #[trigger] ids[i] == FuncId(i as u32),
        ids.len() <= u32::MAX,
        0 <= g < ids.len(),
    ensures
        id_index(ids, FuncId(g as u32)) == Some(g),
{
    reveal(id_index);
    assert(ids[g] == FuncId(g as u32));
    let k = id_index(ids, FuncId(g as u32))->0;
    assert(forall|j: int| g < j < ids.len() ==> #[trigger] ids[j] != FuncId(g as u32));
    assert(ids[k] == FuncId(k as u32));
}

proof fn lemma_calls_linked(
    a: Seq<Inst>,
    b: Seq<Inst>,
    ids: Seq<FuncId>,
    base: int,
    names: Map<Seq<char>, u32>,
    all: Seq<FuncId>,
)
    requires
        all_linked(a, b, ids, base, names),
        forall|i: int| 0 <= i < all.len() ==> #[trigger] all[i] == FuncId(i as u32),
        all.len() <= u32::MAX,
        forall|k: int|
            0 <= k < all_sites(a, ids, base).len() ==> crate::summary::program::refers_below(
                (#[trigger] all_sites(a, ids, base)[k]).callee,
                all.len() as int,
            ),
        crate::summary::program::names_below(names, all.len() as int),
    ensures
        call_sites(b, all) == resolved_edges(all_sites(a, ids, base), names),
        calls_opaquely(b) == some_unresolved(all_sites(a, ids, base), names),
    decreases a.len(),
{
    if a.len() == 0 {
        assert(all_sites(a, ids, base) =~= Seq::empty());
    } else {
        let (c, d) = (a.drop_last(), b.drop_last());
        let (x, y) = (a.last(), b.last());
        assert(inst_linked(a[a.len() - 1], b[b.len() - 1], ids, base, names));
        assert(all_linked(c, d, ids, base, names)) by {
            assert forall|i: int| 0 <= i < c.len() implies inst_linked(
                #[trigger] c[i],
                d[i],
                ids,
                base,
                names,
            ) by {
                assert(inst_linked(a[i], b[i], ids, base, names));
            }
        }
        let prior = all_sites(c, ids, base);
        let now = all_sites(a, ids, base);
        assert forall|k: int| 0 <= k < prior.len() implies crate::summary::program::refers_below(
            (#[trigger] prior[k]).callee,
            all.len() as int,
        ) by {
            assert(now[k] == prior[k]);
        }
        lemma_calls_linked(c, d, ids, base, names, all);
        let oc = calls_opaquely(b);
        let ou = some_unresolved(now, names);
        if let Some(s) = any_site(x, ids, base) {
            assert(now == prior.push(s));
            assert(now.drop_last() =~= prior);
            assert(now[prior.len() as int] == s);
            assert(crate::summary::program::refers_below(
                now[prior.len() as int].callee,
                all.len() as int,
            ));
            if let Some(g) = resolve(s.callee, names) {
                lemma_numbered(all, g);
            }
            assert(opaque_call(y) == unresolved(s.callee, names));
            if ou {
                let k = choose|k: int|
                    0 <= k < now.len() && unresolved((#[trigger] now[k]).callee, names);
                if k < prior.len() {
                    assert(unresolved(prior[k].callee, names));
                    assert(calls_opaquely(d));
                } else {
                    assert(opaque_call(b[b.len() - 1]));
                }
            }
            if some_unresolved(prior, names) {
                let k = choose|k: int|
                    0 <= k < prior.len() && unresolved((#[trigger] prior[k]).callee, names);
                assert(unresolved(now[k].callee, names));
            }
        } else {
            assert(now == prior);
        }
        if calls_opaquely(d) {
            let i = choose|i: int| 0 <= i < d.len() && opaque_call(#[trigger] d[i]);
            assert(opaque_call(b[i]));
        }
        if oc {
            let i = choose|i: int| 0 <= i < b.len() && opaque_call(#[trigger] b[i]);
            if i < d.len() {
                assert(opaque_call(d[i]));
            } else {
                assert(opaque_call(y));
                assert(now.len() > 0);
                assert(unresolved(now[now.len() - 1].callee, names));
            }
        }
    }
}

proof fn lemma_sites_below(insts: Seq<Inst>, ids: Seq<FuncId>, base: int)
    requires
        0 <= base,
    ensures
        forall|k: int|
            0 <= k < all_sites(insts, ids, base).len() ==> crate::summary::program::refers_below(
                (#[trigger] all_sites(insts, ids, base)[k]).callee,
                base + ids.len(),
            ),
    decreases insts.len(),
{
    if insts.len() > 0 {
        let prior = all_sites(insts.drop_last(), ids, base);
        let all = all_sites(insts, ids, base);
        lemma_sites_below(insts.drop_last(), ids, base);
        assert forall|k: int| 0 <= k < all.len() implies crate::summary::program::refers_below(
            (#[trigger] all[k]).callee,
            base + ids.len(),
        ) by {
            if k < prior.len() {
                assert(all[k] == prior[k]);
            } else if let Inst::Call { callee: Callee::Direct(g), .. } = insts.last() {
                lemma_index_below(ids, g);
            }
        }
    }
}

proof fn lemma_index_below(ids: Seq<FuncId>, g: FuncId)
    ensures
        match id_index(ids, g) {
            Some(k) => 0 <= k < ids.len(),
            None => true,
        },
{
    reveal(id_index);
    if exists|k: int| 0 <= k < ids.len() && #[trigger] ids[k] == g {
        let k = choose|k: int| 0 <= k < ids.len() && #[trigger] ids[k] == g;
        lemma_last_index(ids, g, k);
    }
}

proof fn lemma_last_index(ids: Seq<FuncId>, g: FuncId, k: int)
    requires
        0 <= k < ids.len(),
        ids[k] == g,
    ensures
        exists|j: int|
            0 <= j < ids.len() && #[trigger] ids[j] == g && forall|i: int|
                j < i < ids.len() ==> #[trigger] ids[i] != g,
    decreases ids.len() - k,
{
    if exists|i: int| k < i < ids.len() && #[trigger] ids[i] == g {
        let i = choose|i: int| k < i < ids.len() && #[trigger] ids[i] == g;
        lemma_last_index(ids, g, i);
    }
}

/// The id of a function has a position.
proof fn lemma_own_index(m: Module, i: int)
    requires
        0 <= i < m.functions@.len(),
    ensures
        id_index(ids_of(m), m.functions@[i].id) is Some,
        0 <= id_index(ids_of(m), m.functions@[i].id)->0 < m.functions@.len(),
{
    reveal(id_index);
    assert(ids_of(m)[i] == m.functions@[i].id);
    lemma_index_below(ids_of(m), m.functions@[i].id);
}

proof fn lemma_names_below(names: Map<Seq<char>, u32>, m: Module, base: int, n: nat)
    requires
        0 <= base,
        n <= m.functions@.len(),
        base + m.functions@.len() <= u32::MAX,
        crate::summary::program::names_below(names, base),
    ensures
        crate::summary::program::names_below(
            names_with(names, m, base, n),
            base + m.functions@.len(),
        ),
    decreases n,
{
    if n > 0 {
        lemma_names_below(names, m, base, (n - 1) as nat);
        lemma_own_index(m, n - 1);
    }
}

/// The facts of any modules are well formed as long as their functions can be numbered.
pub proof fn facts_are_wf(mods: Seq<Module>)
    requires
        facts_of(mods).rows.len() <= u32::MAX,
    ensures
        facts_of(mods).wf(),
    decreases mods.len(),
{
    if mods.len() > 0 {
        let prior = facts_of(mods.drop_last());
        let m = mods.last();
        facts_are_wf(mods.drop_last());
        let base = prior.rows.len() as int;
        lemma_names_below(prior.names, m, base, m.functions@.len());
        let all = facts_of(mods);
        assert forall|i: int, k: int|
            0 <= i < all.rows.len() && 0 <= k < all.rows[i].calls.len()
                implies crate::summary::program::refers_below(
            (#[trigger] all.rows[i].calls[k]).callee,
            all.rows.len() as int,
        ) by {
            if i < base {
                assert(all.rows[i] == prior.rows[i]);
                assert(crate::summary::program::refers_below(
                    prior.rows[i].calls[k].callee,
                    base,
                ));
            } else {
                let f = m.functions@[i - base];
                assert(all.rows[i] == row_of(f, ids_of(m), base));
                lemma_sites_below(flat_observable(f.blocks@), ids_of(m), base);
            }
        }
    }
}

/// What is known of the functions of a program read module by module is what is known
/// of the functions of the linked module.
pub proof fn linking_keeps_facts(mods: Seq<Module>, linked: Module)
    requires
        links(mods, linked),
        facts_of(mods).rows.len() <= u32::MAX,
    ensures
        module_facts(linked) == program_facts(facts_of(mods)),
{
    facts_are_wf(mods);
    let facts = facts_of(mods);
    let left = module_facts(linked);
    let right = program_facts(facts);
    let all = ids_of(linked);
    assert forall|k: int| 0 <= k < left.len() implies left[k] == right[k] by {
        let at = lemma_row_source(mods, k);
        let base = facts_of(mods.take(at.0)).rows.len() as int;
        let ids = ids_of(mods[at.0]);
        let f = mods[at.0].functions@[at.1];
        let g = linked.functions@[k];
        assert(fn_linked(mods[at.0].functions@[at.1], g, ids, base, facts.names));
        own_summary_ignores_callees(f, g);
        lemma_flat_linked(f.blocks@, g.blocks@, ids, base, facts.names);
        assert forall|i: int| 0 <= i < all.len() implies #[trigger] all[i] == FuncId(i as u32) by {
            assert(linked.functions@[i].id == FuncId(i as u32));
        }
        let sites = all_sites(flat_observable(f.blocks@), ids, base);
        assert(facts.rows[k].calls == sites);
        assert forall|q: int| 0 <= q < sites.len() implies crate::summary::program::refers_below(
            (#[trigger] sites[q]).callee,
            all.len() as int,
        ) by {
            assert(crate::summary::program::refers_below(
                facts.rows[k].calls[q].callee,
                facts.rows.len() as int,
            ));
        }
        lemma_calls_linked(
            flat_observable(f.blocks@),
            flat_observable(g.blocks@),
            ids,
            base,
            facts.names,
            all,
        );
    }
    assert(left =~= right);
}

/// Summaries without linking are those of the linked module, for every function.
pub proof fn linking_keeps_summaries(mods: Seq<Module>, linked: Module, i: int)
    requires
        links(mods, linked),
        facts_of(mods).rows.len() <= u32::MAX,
        0 <= i < facts_of(mods).rows.len(),
    ensures
        spread(module_facts(linked), i) == spread(program_facts(facts_of(mods)), i),
{
    linking_keeps_facts(mods, linked);
}

// ---- calls that never return ----

/// Only blocks that never return control hold calls.
pub open spec fn calls_diverge(f: Function) -> bool {
    forall|k: int, i: int|
        0 <= k < f.blocks@.len() && 0 <= i < f.blocks@[k].insts@.len() && (
        #[trigger] f.blocks@[k].insts@[i]) is Call ==> f.blocks@[k].term is Unreachable
}

proof fn lemma_no_observable_call(blocks: Seq<BasicBlock>, j: int)
    requires
        forall|k: int, i: int|
            0 <= k < blocks.len() && 0 <= i < blocks[k].insts@.len() && (
            #[trigger] blocks[k].insts@[i]) is Call ==> blocks[k].term is Unreachable,
        0 <= j < flat_observable(blocks).len(),
    ensures
        !(flat_observable(blocks)[j] is Call),
    decreases blocks.len(),
{
    if blocks.len() > 0 {
        let head = blocks.drop_last();
        assert forall|k: int, i: int|
            0 <= k < head.len() && 0 <= i < head[k].insts@.len() && (
            #[trigger] head[k].insts@[i]) is Call implies head[k].term is Unreachable by {
            assert(blocks[k].insts@[i] is Call);
        }
        if j < flat_observable(head).len() {
            lemma_no_observable_call(head, j);
        } else {
            assert(blocks.last().insts@[j - flat_observable(head).len()]
                == flat_observable(blocks)[j]);
        }
    }
}

proof fn lemma_no_sites(insts: Seq<Inst>, ids: Seq<FuncId>)
    requires
        forall|j: int| 0 <= j < insts.len() ==> !((#[trigger] insts[j]) is Call),
    ensures
        call_sites(insts, ids).len() == 0,
    decreases insts.len(),
{
    if insts.len() > 0 {
        lemma_no_sites(insts.drop_last(), ids);
    }
}

/// What a call does that never returns control is seen by no caller: where a function makes
/// only such calls, its effects are those of its own instructions.
pub proof fn diverging_calls_are_unseen(m: Module, i: int)
    requires
        0 <= i < m.functions@.len(),
        calls_diverge(m.functions@[i]),
    ensures
        spread(module_facts(m), i).writes == own_writes(m.functions@[i]),
        spread(module_facts(m), i).frees == own_frees(m.functions@[i]),
{
    let f = m.functions@[i];
    let insts = flat_observable(f.blocks@);
    assert forall|j: int| 0 <= j < insts.len() implies !((#[trigger] insts[j]) is Call) by {
        lemma_no_observable_call(f.blocks@, j);
    }
    lemma_no_sites(insts, ids_of(m));
    let facts = module_facts(m);
    let calls = edges_of(facts);
    assert(calls[i].len() == 0);
    assert(!facts[i].opaque);
    assert forall|b: Seq<bool>| #[trigger] effect(calls, b, i) == b[i] by {
        if b[i] {
            assert(reaches(calls, b, i, 0));
        }
        if effect(calls, b, i) {
            let n = choose|n: nat| reaches(calls, b, i, n);
            assert(b[i]);
        }
    }
    assert(effect(calls, writes_of(facts), i) == writes_of(facts)[i]);
    assert(effect(calls, frees_of(facts), i) == frees_of(facts)[i]);
}

} // verus!
