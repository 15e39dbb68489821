//! What every exploration keeps.

use crate::affine::AffineView;
use crate::exec::check::{
    access_checked, aliasing, arith_checked, bulk_bounded, bulk_checked, bulk_goals, dealloc_checked,
    loading, opt_region, region_at, region_checked, side, source_bounded, source_of,
    target_bounded, untracked_checked, within,
};
use crate::exec::classify::classified;
use crate::exec::eval::{
    affine_sum, compared, condition_of, fresh_value, offset_argument, pointer_of, rvalue_of,
    scalar_of, scalarized, value_of, values_of, SceneView,
};
use crate::exec::flow::{EqExit, Flow, PtrWalk};
use crate::exec::havoc::{
    exits_bounded, exits_captured, havocked, havocked_regs, walks_bounded, walks_captured,
    ExitCapture, WalkCapture,
};
use crate::exec::machine::{
    after_fresh, all_genuine, asked, assuming, deciding, field_offset, grounds, infeasible, of,
    proving, proving_all, reaching, recorded, recorded_mem, recorded_scalar, recorded_temporal,
    recorded_uninit, refuting, started, time_up, violation, Answer, Check, Decision, Grounds, MachineView,
    ModelId, Owed, QueryKind, QueryView, RefuteMode, Site, Visit,
};
use crate::exec::merge::{
    args_values, entered, joined, joined_from, merged_store, merged_stores, param_values,
    params_joined, selected, EdgeView,
};
use crate::exec::report::{discharged, report_of, ExecLimits};
use crate::exec::run::{
    advanced, cut_short, entering, entry_at, explored, leaving, leaving_cases, leaving_if, stepping,
    visited, Progressing, Subject,
};
use crate::exec::start::{
    blank, block_symbols, contracted_params, entry_state, plain_params, FieldContract,
};
use crate::exec::step::{bulk_written, called, carried, loaded, referenced, returned, stepped};
use crate::exec::value::{
    premises, with_cond, PathView, Prov, StoreRecord, SymPointer, SymRegion, SymValue,
};
use crate::expr::{conj, negation, Ex};
use crate::ir::{
    Assumption, BitVector, BlockId, Callee, CmpOp, Condition, Function, GlobalDef, Inst, MemKind,
    Operand, PtrContract, RValue, RefResult, RegId, SafetyProperty, Terminator, Type,
};
use crate::summary::SummaryView;
use vstd::prelude::*;

verus! {

// ---- later states ----

/// The end of the fields of a region.
pub open spec fn fields_end(m: MachineView, region: usize) -> int {
    match of(m.frontier, region) {
        Some(o) => o as int,
        None => 0,
    }
}

/// Nothing that is proved on every path so far is refuted on one of them.
pub open spec fn one_sided(m: MachineView) -> bool {
    &&& forall|s: Site| #[trigger]
        m.mem.contains_key(s) ==> !(m.mem[s].all_proven && m.mem[s].refutation is Some)
    &&& forall|c: Check| #[trigger]
        m.scalar.contains_key(c) ==> !(m.scalar[c].all_proven && m.scalar[c].refutation is Some)
}

/// A question was whether premises imply a goal, and it was answered that they do.
pub open spec fn affirms(e: (QueryView, Answer), ps: Seq<Ex>, goal: Ex) -> bool {
    &&& e.0.kind == QueryKind::Method
    &&& e.0.premises == ps
    &&& e.0.goal == goal
    &&& e.1 matches Answer::Method(Some(_))
}

/// An answer was that premises imply a goal.
pub open spec fn affirmed(m: MachineView, ps: Seq<Ex>, goal: Ex) -> bool {
    exists|j: int| 0 <= j < m.dialogue.len() && affirms(#[trigger] m.dialogue[j], ps, goal)
}

/// For each goal, an answer was that the premises imply it.
#[verifier::opaque]
pub open spec fn shown(m: MachineView, g: Grounds) -> bool {
    forall|k: int| 0 <= k < g.goals.len() ==> affirmed(m, g.premises, #[trigger] g.goals[k])
}

/// A question was for a model of premises, those of a path among them, in which some of the
/// goals, the first `n`, do not all hold, and a model was the answer.
pub open spec fn counters(e: (QueryView, Answer), g: Grounds, w: ModelId, n: int) -> bool {
    &&& e.0.kind == QueryKind::Witness
    &&& g.premises.is_prefix_of(e.0.premises)
    &&& 0 <= n <= g.goals.len()
    &&& e.0.goal == conj(g.goals.take(n))
    &&& e.1 == Answer::Witness(Some(w))
}

/// An answer was a model in which the goals do not all hold.
#[verifier::opaque]
pub open spec fn countered(m: MachineView, g: Grounds, w: ModelId) -> bool {
    exists|j: int, n: int| 0 <= j < m.dialogue.len() && #[trigger] counters(m.dialogue[j], g, w, n)
}

/// A question was whether the goals never hold together on a path, and it was answered that
/// they do not.
pub open spec fn excludes(e: (QueryView, Answer), g: Grounds) -> bool {
    &&& e.0.kind == QueryKind::Exact
    &&& e.0.premises == g.premises
    &&& e.0.goal == negation(conj(g.goals))
    &&& e.1 == Answer::Exact(true)
}

/// An answer was that the goals never hold together.
#[verifier::opaque]
pub open spec fn excluded(m: MachineView, g: Grounds) -> bool {
    exists|j: int| 0 <= j < m.dialogue.len() && excludes(#[trigger] m.dialogue[j], g)
}

/// A decision rests on answers: where it proves, each goal was proved, and where it refutes, a
/// model was given. An explicit check is refuted only where it never holds on the path.
pub open spec fn rests(m: MachineView, v: Visit) -> bool {
    &&& v.proven ==> shown(m, v.grounds)
    &&& v.witness is Some ==> countered(m, v.grounds, v.witness->0)
    &&& v.witness is Some && v.owed is Explicit ==> excluded(m, v.grounds)
}

/// Some decision refuted an obligation with a model.
pub open spec fn refuted_by(m: MachineView, o: Owed, w: ModelId) -> bool {
    exists|i: int|
        0 <= i < m.visits.len() && (#[trigger] m.visits[i]).owed == o && m.visits[i].witness
            == Some(w)
}

/// A decision is kept: what is proved over all paths was proved by it.
pub open spec fn upheld(m: MachineView, v: Visit) -> bool {
    match v.owed {
        Owed::Memory(s) => m.mem.contains_key(s) && (m.mem[s].all_proven ==> v.proven),
        Owed::Explicit(c) => m.scalar.contains_key(c) && (m.scalar[c].all_proven ==> v.proven),
    }
}

/// Every decision is kept and rests on answers, what is decided was decided on some path, and
/// what is refuted was refuted on some path.
pub open spec fn grounded(m: MachineView) -> bool {
    &&& forall|i: int|
        0 <= i < m.visits.len() ==> upheld(m, #[trigger] m.visits[i]) && rests(m, m.visits[i])
    &&& forall|s: Site| #[trigger]
        m.mem.contains_key(s) ==> exists|i: int|
            0 <= i < m.visits.len() && (#[trigger] m.visits[i]).owed == Owed::Memory(s)
    &&& forall|c: Check| #[trigger]
        m.scalar.contains_key(c) ==> exists|i: int|
            0 <= i < m.visits.len() && (#[trigger] m.visits[i]).owed == Owed::Explicit(c)
    &&& forall|s: Site| #[trigger]
        m.mem.contains_key(s) && m.mem[s].refutation is Some ==> refuted_by(
            m,
            Owed::Memory(s),
            m.mem[s].refutation->0,
        )
    &&& forall|c: Check| #[trigger]
        m.scalar.contains_key(c) && m.scalar[c].refutation is Some ==> refuted_by(
            m,
            Owed::Explicit(c),
            m.scalar[c].refutation->0,
        )
}

/// The answers used are those of the dialogue, and no question waits while there are more.
pub open spec fn aligned(m: MachineView) -> bool {
    &&& 0 <= m.used <= m.answers.len()
    &&& m.dialogue.len() == m.used
    &&& forall|j: int| 0 <= j < m.used ==> (#[trigger] m.dialogue[j]).1 == m.answers[j]
    &&& m.used < m.answers.len() ==> m.pending is None
}

/// One state of an exploration may come after another: what was left open or refuted stays
/// so, nothing proved becomes refuted as well, decisions rest on answers, what was assumed
/// stays assumed, a question that was not answered stays the first one, what was cut short
/// stays so, and fields keep their places, new ones behind them.
#[verifier::opaque]
pub open spec fn later(a: MachineView, b: MachineView) -> bool {
    &&& a.answers == b.answers
    &&& a.bug_finding == b.bug_finding
    &&& a.exported == b.exported
    &&& a.used <= b.used
    &&& a.truncated ==> b.truncated
    &&& a.pending is Some ==> b.pending == a.pending
    &&& a.assumed.subset_of(b.assumed)
    &&& one_sided(a) ==> one_sided(b)
    &&& aligned(a) ==> aligned(b)
    &&& grounded(a) ==> grounded(b)
    &&& a.dialogue.len() <= b.dialogue.len()
    &&& forall|j: int| 0 <= j < a.dialogue.len() ==> b.dialogue[j] == #[trigger] a.dialogue[j]
    &&& forall|s: Site| #![trigger b.mem.contains_key(s)] #![trigger a.mem.contains_key(s)]
        a.mem.contains_key(s) ==> b.mem.contains_key(s) && (b.mem[s].all_proven
            ==> a.mem[s].all_proven) && (a.mem[s].refutation is Some ==> b.mem[s].refutation
            == a.mem[s].refutation)
    &&& forall|c: Check| #![trigger b.scalar.contains_key(c)] #![trigger a.scalar.contains_key(c)]
        a.scalar.contains_key(c) ==> b.scalar.contains_key(c) && (b.scalar[c].all_proven
            ==> a.scalar[c].all_proven) && (a.scalar[c].refutation is Some
            ==> b.scalar[c].refutation == a.scalar[c].refutation)
    &&& forall|k: (usize, u32)| #![trigger b.fields.contains_key(k)] #![trigger a.fields.contains_key(k)]
        a.fields.contains_key(k) ==> b.fields.contains_key(k) && b.fields[k] == a.fields[k]
    &&& forall|k: (usize, u32)| #![trigger b.fields.contains_key(k)]
        b.fields.contains_key(k) && !a.fields.contains_key(k) ==> fields_end(a, k.0)
            <= b.fields[k]
    &&& forall|r: usize| #![trigger fields_end(b, r)] fields_end(a, r) <= fields_end(b, r)
}

/// A state comes after itself.
pub broadcast proof fn later_is_reflexive(a: MachineView)
    ensures
        #[trigger] later(a, a),
{
    reveal(later);
}

/// States that come after one another are in order.
pub proof fn later_is_transitive(a: MachineView, b: MachineView, c: MachineView)
    requires
        later(a, b),
        later(b, c),
    ensures
        later(a, c),
{
    reveal(later);
    assert forall|k: (usize, u32)| #![trigger c.fields.contains_key(k)]
        c.fields.contains_key(k) && !a.fields.contains_key(k) implies fields_end(a, k.0)
        <= c.fields[k] by {
        assert(fields_end(a, k.0) <= fields_end(b, k.0));
        if b.fields.contains_key(k) {
            assert(c.fields[k] == b.fields[k]);
        }
    }
    assert forall|r: usize| #![trigger fields_end(c, r)] fields_end(a, r) <= fields_end(c, r) by {
        assert(fields_end(a, r) <= fields_end(b, r));
    }
    assert forall|s: Site| #![trigger c.mem.contains_key(s)] #![trigger a.mem.contains_key(s)]
        a.mem.contains_key(s) implies c.mem.contains_key(s) && (c.mem[s].all_proven
        ==> a.mem[s].all_proven) && (a.mem[s].refutation is Some ==> c.mem[s].refutation
        == a.mem[s].refutation) by {
        assert(b.mem.contains_key(s));
    }
    assert forall|s: Check| #![trigger c.scalar.contains_key(s)] #![trigger a.scalar.contains_key(s)]
        a.scalar.contains_key(s) implies c.scalar.contains_key(s) && (c.scalar[s].all_proven
        ==> a.scalar[s].all_proven) && (a.scalar[s].refutation is Some
        ==> c.scalar[s].refutation == a.scalar[s].refutation) by {
        assert(b.scalar.contains_key(s));
    }
    assert forall|k: (usize, u32)| #![trigger c.fields.contains_key(k)] #![trigger a.fields.contains_key(k)]
        a.fields.contains_key(k) implies c.fields.contains_key(k) && c.fields[k] == a.fields[k] by {
        assert(b.fields.contains_key(k));
    }
}

pub(crate) broadcast proof fn chain(a: MachineView, b: MachineView, c: MachineView)
    requires
        #[trigger] later(a, b),
        #[trigger] later(b, c),
    ensures
        later(a, c),
{
    later_is_transitive(a, b, c);
}

// ---- the machine ----

proof fn lemma_affirmed_kept(a: MachineView, b: MachineView, g: Grounds)
    requires
        a.dialogue.len() <= b.dialogue.len(),
        forall|j: int| 0 <= j < a.dialogue.len() ==> b.dialogue[j] == #[trigger] a.dialogue[j],
        shown(a, g),
    ensures
        shown(b, g),
{
    reveal(shown);
    assert forall|k: int| 0 <= k < g.goals.len() implies affirmed(
        b,
        g.premises,
        #[trigger] g.goals[k],
    ) by {
        assert(affirmed(a, g.premises, g.goals[k]));
        let j = choose|j: int|
            0 <= j < a.dialogue.len() && affirms(
                #[trigger] a.dialogue[j],
                g.premises,
                g.goals[k],
            );
        assert(b.dialogue[j] == a.dialogue[j]);
    }
}

pub(crate) broadcast proof fn shown_stays(a: MachineView, b: MachineView, g: Grounds)
    requires
        #[trigger] later(a, b),
        shown(a, g),
    ensures
        #[trigger] shown(b, g),
{
    reveal(later);
    lemma_affirmed_kept(a, b, g);
}

proof fn lemma_countered_kept(a: MachineView, b: MachineView, g: Grounds, w: ModelId)
    requires
        a.dialogue.len() <= b.dialogue.len(),
        forall|j: int| 0 <= j < a.dialogue.len() ==> b.dialogue[j] == #[trigger] a.dialogue[j],
        countered(a, g, w),
    ensures
        countered(b, g, w),
{
    reveal(countered);
    let (j, n) = choose|j: int, n: int|
        0 <= j < a.dialogue.len() && #[trigger] counters(a.dialogue[j], g, w, n);
    assert(b.dialogue[j] == a.dialogue[j]);
    assert(counters(b.dialogue[j], g, w, n));
}

/// What the records and the dialogue keep is grounded as before.
proof fn lemma_grounded_kept(a: MachineView, b: MachineView)
    requires
        grounded(a),
        a.mem == b.mem,
        a.scalar == b.scalar,
        a.visits == b.visits,
        a.dialogue.len() <= b.dialogue.len(),
        forall|j: int| 0 <= j < a.dialogue.len() ==> b.dialogue[j] == #[trigger] a.dialogue[j],
    ensures
        grounded(b),
{
    assert forall|i: int| 0 <= i < b.visits.len() implies upheld(b, #[trigger] b.visits[i]) && rests(
        b,
        b.visits[i],
    ) by {
        assert(upheld(a, a.visits[i]));
        lemma_rests_kept(a, b, a.visits[i]);
    }
    assert forall|s: Site| #[trigger]
        b.mem.contains_key(s) && b.mem[s].refutation is Some implies refuted_by(
        b,
        Owed::Memory(s),
        b.mem[s].refutation->0,
    ) by {
        assert(refuted_by(a, Owed::Memory(s), a.mem[s].refutation->0));
    }
    assert forall|c: Check| #[trigger]
        b.scalar.contains_key(c) && b.scalar[c].refutation is Some implies refuted_by(
        b,
        Owed::Explicit(c),
        b.scalar[c].refutation->0,
    ) by {
        assert(refuted_by(a, Owed::Explicit(c), a.scalar[c].refutation->0));
    }
}

proof fn lemma_excluded_kept(a: MachineView, b: MachineView, g: Grounds)
    requires
        a.dialogue.len() <= b.dialogue.len(),
        forall|j: int| 0 <= j < a.dialogue.len() ==> b.dialogue[j] == #[trigger] a.dialogue[j],
        excluded(a, g),
    ensures
        excluded(b, g),
{
    reveal(excluded);
    let j = choose|j: int| 0 <= j < a.dialogue.len() && excludes(#[trigger] a.dialogue[j], g);
    assert(b.dialogue[j] == a.dialogue[j]);
}

proof fn lemma_rests_kept(a: MachineView, b: MachineView, v: Visit)
    requires
        a.dialogue.len() <= b.dialogue.len(),
        forall|j: int| 0 <= j < a.dialogue.len() ==> b.dialogue[j] == #[trigger] a.dialogue[j],
        rests(a, v),
    ensures
        rests(b, v),
{
    if v.proven {
        lemma_affirmed_kept(a, b, v.grounds);
    }
    if v.witness is Some {
        lemma_countered_kept(a, b, v.grounds, v.witness->0);
    }
    if v.witness is Some && v.owed is Explicit {
        lemma_excluded_kept(a, b, v.grounds);
    }
}

proof fn lemma_refuted_more(a: MachineView, b: MachineView, v: Visit, o: Owed, w: ModelId)
    requires
        b.visits == a.visits.push(v),
        refuted_by(a, o, w) || (v.owed == o && v.witness == Some(w)),
    ensures
        refuted_by(b, o, w),
{
    if refuted_by(a, o, w) {
        let i = choose|i: int|
            0 <= i < a.visits.len() && (#[trigger] a.visits[i]).owed == o && a.visits[i].witness
                == Some(w);
        assert(b.visits[i] == a.visits[i]);
    } else {
        assert(b.visits[a.visits.len() as int] == v);
    }
}

/// One more decision is grounded if it rests on answers and is kept.
proof fn lemma_grounded_more(a: MachineView, b: MachineView, v: Visit)
    requires
        grounded(a),
        b.visits == a.visits.push(v),
        b.dialogue == a.dialogue,
        upheld(b, v),
        rests(a, v),
        match v.owed {
            Owed::Memory(s) => b.scalar == a.scalar && b.mem == a.mem.insert(s, b.mem[s]) && (
            a.mem.contains_key(s) && b.mem[s].all_proven ==> a.mem[s].all_proven) && (
            b.mem[s].refutation == v.witness || b.mem[s].refutation is None || (
            a.mem.contains_key(s) && b.mem[s].refutation == a.mem[s].refutation)),
            Owed::Explicit(c) => b.mem == a.mem && b.scalar == a.scalar.insert(c, b.scalar[c]) && (
            a.scalar.contains_key(c) && b.scalar[c].all_proven ==> a.scalar[c].all_proven) && (
            b.scalar[c].refutation == v.witness || b.scalar[c].refutation is None || (
            a.scalar.contains_key(c) && b.scalar[c].refutation == a.scalar[c].refutation)),
        },
    ensures
        grounded(b),
{
    let n = a.visits.len() as int;
    assert forall|i: int| 0 <= i < b.visits.len() implies upheld(b, #[trigger] b.visits[i]) && rests(
        b,
        b.visits[i],
    ) by {
        if i < n {
            assert(upheld(a, a.visits[i]));
            assert(b.visits[i] == a.visits[i]);
        } else {
            assert(b.visits[i] == v);
        }
        lemma_rests_kept(a, b, b.visits[i]);
    }
    assert forall|s: Site| #[trigger]
        b.mem.contains_key(s) && b.mem[s].refutation is Some implies refuted_by(
        b,
        Owed::Memory(s),
        b.mem[s].refutation->0,
    ) by {
        if v.owed != Owed::Memory(s) {
            assert(a.mem.contains_key(s) && a.mem[s] == b.mem[s]);
        }
        lemma_refuted_more(a, b, v, Owed::Memory(s), b.mem[s].refutation->0);
    }
    assert forall|c: Check| #[trigger]
        b.scalar.contains_key(c) && b.scalar[c].refutation is Some implies refuted_by(
        b,
        Owed::Explicit(c),
        b.scalar[c].refutation->0,
    ) by {
        if v.owed != Owed::Explicit(c) {
            assert(a.scalar.contains_key(c) && a.scalar[c] == b.scalar[c]);
        }
        lemma_refuted_more(a, b, v, Owed::Explicit(c), b.scalar[c].refutation->0);
    }
    assert forall|s: Site| #[trigger] b.mem.contains_key(s) implies exists|i: int|
        0 <= i < b.visits.len() && (#[trigger] b.visits[i]).owed == Owed::Memory(s) by {
        if v.owed == Owed::Memory(s) {
            assert(b.visits[n] == v);
        } else {
            assert(a.mem.contains_key(s));
            let i = choose|i: int|
                0 <= i < a.visits.len() && (#[trigger] a.visits[i]).owed == Owed::Memory(s);
            assert(b.visits[i] == a.visits[i]);
        }
    }
    assert forall|c: Check| #[trigger] b.scalar.contains_key(c) implies exists|i: int|
        0 <= i < b.visits.len() && (#[trigger] b.visits[i]).owed == Owed::Explicit(c) by {
        if v.owed == Owed::Explicit(c) {
            assert(b.visits[n] == v);
        } else {
            assert(a.scalar.contains_key(c));
            let i = choose|i: int|
                0 <= i < a.visits.len() && (#[trigger] a.visits[i]).owed == Owed::Explicit(c);
            assert(b.visits[i] == a.visits[i]);
        }
    }
}

pub(crate) broadcast proof fn l_fresh(m: MachineView)
    ensures
        later(m, #[trigger] after_fresh(m)),
{
    reveal(later);
    if grounded(m) {
        lemma_grounded_kept(m, after_fresh(m));
    }
}

pub(crate) broadcast proof fn l_asked(m: MachineView, q: QueryView)
    ensures
        later(m, (#[trigger] asked(m, q)).0),
{
    reveal(later);
    if grounded(m) {
        lemma_grounded_kept(m, asked(m, q).0);
    }
}

pub(crate) broadcast proof fn l_assuming(m: MachineView, a: Assumption)
    ensures
        later(m, #[trigger] assuming(m, a)),
{
    reveal(later);
    if grounded(m) {
        lemma_grounded_kept(m, assuming(m, a));
    }
}

pub(crate) broadcast proof fn l_recorded(
    m: MachineView,
    s: Site,
    p: bool,
    x: &'static str,
    y: &'static str,
)
    ensures
        later(m, #[trigger] recorded(m, s, p, x, y)),
{
    reveal(later);
    if grounded(m) {
        let n = recorded(m, s, p, x, y);
        reveal(shown);
        lemma_grounded_more(m, n, n.visits.last());
    }
}

pub(crate) broadcast proof fn l_recorded_mem(
    m: MachineView,
    g: Grounds,
    s: Site,
    d: Decision,
    x: &'static str,
    y: &'static str,
)
    requires
        d is Proven ==> shown(m, g),
        d is Refuted ==> countered(m, g, d->0),
    ensures
        later(m, #[trigger] recorded_mem(m, g, s, d, x, y)),
{
    reveal(later);
    if grounded(m) {
        let n = recorded_mem(m, g, s, d, x, y);
        lemma_grounded_more(m, n, n.visits.last());
    }
}

pub(crate) broadcast proof fn l_recorded_uninit(m: MachineView, g: Grounds, s: Site, w: ModelId)
    requires
        countered(m, g, w),
    ensures
        later(m, #[trigger] recorded_uninit(m, g, s, w)),
{
    reveal(later);
    if grounded(m) {
        let n = recorded_uninit(m, g, s, w);
        lemma_grounded_more(m, n, n.visits.last());
    }
}

pub(crate) broadcast proof fn l_recorded_scalar(m: MachineView, g: Grounds, c: Check, d: Decision)
    requires
        d is Proven ==> shown(m, g),
        d is Refuted ==> countered(m, g, d->0) && excluded(m, g),
    ensures
        later(m, #[trigger] recorded_scalar(m, g, c, d)),
{
    reveal(later);
    if grounded(m) {
        let n = recorded_scalar(m, g, c, d);
        lemma_grounded_more(m, n, n.visits.last());
    }
}

pub(crate) broadcast proof fn l_field(m: MachineView, r: usize, f: u32, n: u64)
    ensures
        later(m, (#[trigger] field_offset(m, r, f, n)).0),
{
    reveal(later);
    if grounded(m) {
        lemma_grounded_kept(m, field_offset(m, r, f, n).0);
    }
}

pub(crate) broadcast group group_machine {
    later_is_reflexive,
    chain,
    l_fresh,
    l_asked,
    l_assuming,
    l_recorded,
    l_recorded_mem,
    l_recorded_uninit,
    l_recorded_scalar,
    l_field,
}

pub(crate) broadcast proof fn l_proving(m: MachineView, s: PathView, g: Ex)
    ensures
        later(m, (#[trigger] proving(m, s, g)).0),
{
    broadcast use group_machine;

}

pub(crate) broadcast proof fn l_proving_all(m: MachineView, s: PathView, gs: Seq<Ex>, i: int)
    ensures
        later(m, (#[trigger] proving_all(m, s, gs, i)).0),
    decreases gs.len() - i,
{
    broadcast use group_machine, l_proving;

    if 0 <= i < gs.len() {
        let (m1, ok) = proving(m, s, gs[i]);
        l_proving_all(m1, s, gs, i + 1);
    }
}

/// A proved goal is shown.
pub(crate) broadcast proof fn shown_one(m: MachineView, s: PathView, g: Ex)
    ensures
        (#[trigger] proving(m, s, g)).1 ==> shown(proving(m, s, g).0, grounds(s, seq![g])),
{
    reveal(shown);
    let n = proving(m, s, g).0;
    if proving(m, s, g).1 {
        let j = m.dialogue.len() as int;
        assert(affirms(n.dialogue[j], premises(s), g));
        assert(affirmed(n, premises(s), g));
    }
}

/// Proved goals are shown, from the one at `i` on.
proof fn lemma_shown_from(m: MachineView, s: PathView, gs: Seq<Ex>, i: int)
    requires
        0 <= i <= gs.len(),
        proving_all(m, s, gs, i).1,
    ensures
        shown(proving_all(m, s, gs, i).0, grounds(s, gs.skip(i))),
    decreases gs.len() - i,
{
    reveal(shown);
    if i < gs.len() {
        let (m1, ok) = proving(m, s, gs[i]);
        let n = proving_all(m, s, gs, i).0;
        lemma_shown_from(m1, s, gs, i + 1);
        shown_one(m, s, gs[i]);
        l_proving_all(m1, s, gs, i + 1);
        let one = grounds(s, seq![gs[i]]);
        let rest = grounds(s, gs.skip(i + 1));
        shown_stays(m1, n, one);
        assert(affirmed(n, one.premises, one.goals[0]));
        assert forall|k: int| 0 <= k < gs.skip(i).len() implies affirmed(
            n,
            premises(s),
            #[trigger] gs.skip(i)[k],
        ) by {
            if k > 0 {
                assert(gs.skip(i)[k] == rest.goals[k - 1]);
                assert(affirmed(n, rest.premises, rest.goals[k - 1]));
            }
        }
    }
}

pub(crate) broadcast proof fn shown_all(m: MachineView, s: PathView, gs: Seq<Ex>)
    ensures
        (#[trigger] proving_all(m, s, gs, 0)).1 ==> shown(
            proving_all(m, s, gs, 0).0,
            grounds(s, gs),
        ),
{
    if proving_all(m, s, gs, 0).1 {
        lemma_shown_from(m, s, gs, 0);
        assert(gs.skip(0) =~= gs);
    }
}

pub(crate) broadcast proof fn shown_decided(
    m: MachineView,
    s: PathView,
    gs: Seq<Ex>,
    mode: RefuteMode,
    x: Seq<Ex>,
)
    ensures
        (#[trigger] deciding(m, s, gs, mode, x)).1 is Proven ==> shown(
            deciding(m, s, gs, mode, x).0,
            grounds(s, gs),
        ),
{
    shown_all(m, s, gs);
}

/// What is shown of goals is shown of more of them together.
proof fn lemma_shown_both(m: MachineView, ps: Seq<Ex>, a: Seq<Ex>, b: Seq<Ex>)
    requires
        shown(m, Grounds { premises: ps, goals: a }),
        shown(m, Grounds { premises: ps, goals: b }),
    ensures
        shown(m, Grounds { premises: ps, goals: a + b }),
{
    reveal(shown);
    let x = Grounds { premises: ps, goals: a };
    let y = Grounds { premises: ps, goals: b };
    assert forall|k: int| 0 <= k < (a + b).len() implies affirmed(m, ps, #[trigger] (a + b)[k]) by {
        if k < a.len() {
            assert(affirmed(m, x.premises, x.goals[k]));
        } else {
            assert(affirmed(m, y.premises, y.goals[k - a.len()]));
        }
    }
}

pub(crate) broadcast proof fn l_refuting(
    m: MachineView,
    s: PathView,
    gs: Seq<Ex>,
    mode: RefuteMode,
    x: Seq<Ex>,
)
    ensures
        later(m, (#[trigger] refuting(m, s, gs, mode, x)).0),
{
    broadcast use group_machine;

}

pub(crate) broadcast proof fn l_deciding(
    m: MachineView,
    s: PathView,
    gs: Seq<Ex>,
    mode: RefuteMode,
    x: Seq<Ex>,
)
    ensures
        later(m, (#[trigger] deciding(m, s, gs, mode, x)).0),
{
    broadcast use group_machine, l_proving_all, l_refuting;

}

pub(crate) broadcast proof fn l_reaching(m: MachineView, s: PathView)
    ensures
        later(m, (#[trigger] reaching(m, s)).0),
{
    broadcast use group_machine;

}

/// A model in which goals do not hold counters them.
pub(crate) broadcast proof fn countered_refuted(
    m: MachineView,
    s: PathView,
    gs: Seq<Ex>,
    mode: RefuteMode,
    x: Seq<Ex>,
)
    ensures
        (#[trigger] refuting(m, s, gs, mode, x)).1 is Some ==> countered(
            refuting(m, s, gs, mode, x).0,
            grounds(s, gs),
            refuting(m, s, gs, mode, x).1->0,
        ),
{
    reveal(countered);
    let (n, w) = refuting(m, s, gs, mode, x);
    if w is Some {
        let g = grounds(s, gs);
        let e = n.dialogue[n.dialogue.len() - 1];
        assert(gs.take(gs.len() as int) =~= gs);
        assert(e.0.premises == premises(s) + x);
        assert(counters(e, g, w->0, gs.len() as int));
    }
}

pub(crate) broadcast proof fn countered_decided(
    m: MachineView,
    s: PathView,
    gs: Seq<Ex>,
    mode: RefuteMode,
    x: Seq<Ex>,
)
    ensures
        (#[trigger] deciding(m, s, gs, mode, x)).1 is Refuted ==> countered(
            deciding(m, s, gs, mode, x).0,
            grounds(s, gs),
            deciding(m, s, gs, mode, x).1->0,
        ),
{
    countered_refuted(proving_all(m, s, gs, 0).0, s, gs, mode, x);
}

/// Goals that are refuted for good never hold.
pub(crate) broadcast proof fn excluded_decided(m: MachineView, s: PathView, gs: Seq<Ex>)
    ensures
        (#[trigger] deciding(m, s, gs, RefuteMode::Definite, Seq::empty())).1 is Refuted
            ==> excluded(
            deciding(m, s, gs, RefuteMode::Definite, Seq::empty()).0,
            grounds(s, gs),
        ),
{
    reveal(excluded);
    let (n, d) = deciding(m, s, gs, RefuteMode::Definite, Seq::empty());
    if d is Refuted {
        assert(premises(s) + Seq::empty() =~= premises(s));
        assert(excludes(n.dialogue[n.dialogue.len() - 2], grounds(s, gs)));
    }
}

/// A model that reaches the end of a path counters its having no execution.
pub(crate) broadcast proof fn countered_reached(m: MachineView, s: PathView)
    ensures
        (#[trigger] reaching(m, s)).1 is Some ==> countered(
            reaching(m, s).0,
            violation(s),
            reaching(m, s).1->0,
        ),
{
    reveal(countered);
    let (n, w) = reaching(m, s);
    if w is Some {
        let g = violation(s);
        let e = n.dialogue[n.dialogue.len() - 1];
        assert(g.goals.take(1) =~= g.goals);
        assert(counters(e, g, w->0, 1));
    }
}

pub(crate) broadcast proof fn l_temporal(
    m: MachineView,
    s: PathView,
    o: Site,
    v: bool,
    x: &'static str,
    y: &'static str,
)
    ensures
        later(m, #[trigger] recorded_temporal(m, s, o, v, x, y)),
{
    broadcast use group_machine, l_reaching, countered_reached;

}

pub(crate) broadcast proof fn l_infeasible(m: MachineView, s: PathView, c: Ex)
    ensures
        later(m, (#[trigger] infeasible(m, s, c)).0),
{
    broadcast use group_machine;

}

pub(crate) broadcast proof fn l_time(m: MachineView)
    ensures
        later(m, (#[trigger] time_up(m)).0),
{
    broadcast use group_machine;

}

// ---- values ----

pub(crate) broadcast proof fn l_fresh_value(m: MachineView, t: Type, o: crate::exec::value::POrigin)
    ensures
        later(m, (#[trigger] fresh_value(m, t, o)).0),
{
    broadcast use group_machine;

}

pub(crate) broadcast proof fn l_value(sc: SceneView, m: MachineView, s: PathView, o: Operand)
    ensures
        later(m, (#[trigger] value_of(sc, m, s, o)).0),
{
    broadcast use group_machine;

}

pub(crate) broadcast proof fn l_scalarized(m: MachineView, v: SymValue)
    ensures
        later(m, (#[trigger] scalarized(m, v)).0),
{
    broadcast use group_machine;

}

pub(crate) broadcast proof fn l_scalar(sc: SceneView, m: MachineView, s: PathView, o: Operand)
    ensures
        later(m, (#[trigger] scalar_of(sc, m, s, o)).0),
{
    broadcast use group_machine, l_value, l_scalarized;

}

pub(crate) broadcast proof fn l_pointer(sc: SceneView, m: MachineView, s: PathView, o: Operand)
    ensures
        later(m, (#[trigger] pointer_of(sc, m, s, o)).0),
{
    broadcast use group_machine, l_value;

}

pub(crate) broadcast proof fn l_values(sc: SceneView, m: MachineView, s: PathView, ops: Seq<Operand>)
    ensures
        later(m, (#[trigger] values_of(sc, m, s, ops)).0),
    decreases ops.len(),
{
    broadcast use group_machine, l_value;

    if ops.len() > 0 {
        l_values(sc, m, s, ops.drop_last());
    }
}

pub(crate) broadcast proof fn l_compared(
    sc: SceneView,
    m: MachineView,
    s: PathView,
    op: CmpOp,
    a: Operand,
    b: Operand,
)
    ensures
        later(m, (#[trigger] compared(sc, m, s, op, a, b)).0),
{
    broadcast use group_machine, l_value, l_scalarized;

}

pub(crate) broadcast proof fn l_rvalue(sc: SceneView, m: MachineView, s: PathView, v: RValue)
    ensures
        later(m, (#[trigger] rvalue_of(sc, m, s, v)).0),
{
    broadcast use group_machine, l_value, l_scalar, l_compared;

}

pub(crate) broadcast proof fn l_condition(sc: SceneView, m: MachineView, s: PathView, c: Condition)
    ensures
        later(m, (#[trigger] condition_of(sc, m, s, c)).0),
    decreases c,
{
    broadcast use group_machine, l_compared;

    match c {
        Condition::And(a, b) => {
            l_condition(sc, m, s, *a);
            l_condition(sc, condition_of(sc, m, s, *a).0, s, *b);
        },
        Condition::Or(a, b) => {
            l_condition(sc, m, s, *a);
            l_condition(sc, condition_of(sc, m, s, *a).0, s, *b);
        },
        Condition::Not(a) => {
            l_condition(sc, m, s, *a);
        },
        _ => {},
    }
}

pub(crate) broadcast proof fn l_affine(m: MachineView, a: AffineView, args: Seq<SymValue>, n: int)
    ensures
        later(m, (#[trigger] affine_sum(m, a, args, n)).0),
    decreases n,
{
    broadcast use group_machine;

    if n > 0 {
        l_affine(m, a, args, n - 1);
    }
}

pub(crate) broadcast proof fn l_offset_argument(
    m: MachineView,
    k: usize,
    a: AffineView,
    args: Seq<SymValue>,
    t: Type,
)
    ensures
        later(m, (#[trigger] offset_argument(m, k, a, args, t)).0),
{
    broadcast use group_machine, l_affine, l_fresh_value;

}

pub(crate) broadcast group group_values {
    group_machine,
    shown_one,
    shown_all,
    shown_decided,
    countered_decided,
    excluded_decided,
    countered_reached,
    l_proving,
    l_proving_all,
    l_deciding,
    l_reaching,
    l_temporal,
    l_infeasible,
    l_time,
    l_fresh_value,
    l_value,
    l_scalar,
    l_pointer,
    l_values,
    l_rvalue,
    l_condition,
    l_affine,
    l_offset_argument,
}

// ---- checks ----

pub(crate) broadcast proof fn l_region_checked(
    m: MachineView,
    s: PathView,
    at: Check,
    p: SymPointer,
    r: SymRegion,
    n: u64,
    a: u64,
    perm: SafetyProperty,
)
    ensures
        later(m, #[trigger] region_checked(m, s, at, p, r, n, a, perm)),
{
    broadcast use group_values;

}

pub(crate) broadcast proof fn l_untracked(m: MachineView, at: Check, p: Prov, perm: SafetyProperty)
    ensures
        later(m, #[trigger] untracked_checked(m, at, p, perm)),
{
    broadcast use group_values;

}

pub(crate) broadcast proof fn l_access(
    m: MachineView,
    s: PathView,
    at: Check,
    p: SymPointer,
    n: u64,
    a: u64,
    perm: SafetyProperty,
)
    ensures
        later(m, #[trigger] access_checked(m, s, at, p, n, a, perm)),
    decreases p.prov,
{
    broadcast use group_values, l_region_checked, l_untracked;

    if let Prov::Select { cond, then_ptr, else_ptr } = p.prov {
        let x = side(*then_ptr, p.offset);
        let y = side(*else_ptr, p.offset);
        l_access(m, with_cond(s, cond), at, x, n, a, perm);
        let m1 = access_checked(m, with_cond(s, cond), at, x, n, a, perm);
        l_access(m1, with_cond(s, negation(cond)), at, y, n, a, perm);
    }
}

pub(crate) broadcast proof fn l_arith(m: MachineView, s: PathView, at: Check, p: SymPointer)
    ensures
        later(m, #[trigger] arith_checked(m, s, at, p)),
    decreases p.prov,
{
    broadcast use group_values;

    if let Prov::Select { cond, then_ptr, else_ptr } = p.prov {
        let x = side(*then_ptr, p.offset);
        let y = side(*else_ptr, p.offset);
        l_arith(m, with_cond(s, cond), at, x);
        let m1 = arith_checked(m, with_cond(s, cond), at, x);
        l_arith(m1, with_cond(s, negation(cond)), at, y);
    }
}

pub(crate) broadcast proof fn l_dealloc(m: MachineView, s: PathView, at: Check, p: SymPointer)
    ensures
        later(m, (#[trigger] dealloc_checked(m, s, at, p)).0),
{
    broadcast use group_values;

}

pub(crate) broadcast proof fn l_source(
    sc: SceneView,
    m: MachineView,
    s: PathView,
    k: MemKind,
    o: Option<Operand>,
)
    ensures
        later(m, (#[trigger] source_of(sc, m, s, k, o)).0),
{
    broadcast use group_values;

}

pub(crate) broadcast proof fn l_source_bounded(m: MachineView, s: PathView, p: Option<SymPointer>, n: Ex)
    ensures
        later(m, (#[trigger] source_bounded(m, s, p, n)).0),
{
    broadcast use group_values;

}

pub(crate) broadcast proof fn l_target_bounded(
    m: MachineView,
    s: PathView,
    p: SymPointer,
    n: Ex,
    ok: bool,
)
    ensures
        later(m, (#[trigger] target_bounded(m, s, p, n, ok)).0),
{
    broadcast use group_values;

}

pub(crate) broadcast proof fn l_bulk_bounded(
    m: MachineView,
    s: PathView,
    d: SymPointer,
    p: Option<SymPointer>,
    n: Ex,
    need: bool,
)
    ensures
        later(m, (#[trigger] bulk_bounded(m, s, d, p, n, need)).0),
{
    broadcast use group_values, l_source_bounded, l_target_bounded;

}

/// The goals of a bulk operation that is within bounds are shown.
pub(crate) broadcast proof fn shown_bulk(
    m: MachineView,
    s: PathView,
    d: SymPointer,
    p: Option<SymPointer>,
    n: Ex,
    need: bool,
)
    ensures
        (#[trigger] bulk_bounded(m, s, d, p, n, need)).1 is Proven ==> shown(
            bulk_bounded(m, s, d, p, n, need).0,
            grounds(s, bulk_goals(s, d, p, n, need)),
        ),
{
    broadcast use group_values, l_source_bounded, l_target_bounded, shown_stays;

    let (m1, ok) = if need {
        source_bounded(m, s, p, n)
    } else {
        (m, true)
    };
    let (m2, dd) = target_bounded(m1, s, d, n, ok);
    if dd is Proven {
        let r = region_at(s, d.prov)->0;
        let target = within(d.offset, n, r.size);
        assert(shown(m2, grounds(s, target)));
        if need {
            let q = opt_region(s, p)->0;
            let source = within((p->0).offset, n, q.size);
            assert(shown(m1, grounds(s, source)));
            assert(shown(m2, grounds(s, source)));
            lemma_shown_both(m2, premises(s), target, source);
        }
    }
}

/// A model that takes a bulk operation out of bounds counters its goals.
pub(crate) broadcast proof fn countered_bulk(
    m: MachineView,
    s: PathView,
    d: SymPointer,
    p: Option<SymPointer>,
    n: Ex,
    need: bool,
)
    ensures
        (#[trigger] bulk_bounded(m, s, d, p, n, need)).1 is Refuted ==> countered(
            bulk_bounded(m, s, d, p, n, need).0,
            grounds(s, bulk_goals(s, d, p, n, need)),
            bulk_bounded(m, s, d, p, n, need).1->0,
        ),
{
    let (m1, ok) = if need {
        source_bounded(m, s, p, n)
    } else {
        (m, true)
    };
    let (m2, dd) = target_bounded(m1, s, d, n, ok);
    if dd is Refuted {
        let r = region_at(s, d.prov)->0;
        let target = within(d.offset, n, r.size);
        countered_decided(m1, s, target, RefuteMode::Possible, seq![r.size_nowrap->0]);
        lemma_countered_more(m2, s, target, bulk_goals(s, d, p, n, need), dd->0);
    }
}

/// What counters goals counters them with more behind them.
proof fn lemma_countered_more(m: MachineView, s: PathView, a: Seq<Ex>, b: Seq<Ex>, w: ModelId)
    requires
        countered(m, grounds(s, a), w),
        a.is_prefix_of(b),
    ensures
        countered(m, grounds(s, b), w),
{
    reveal(countered);
    let x = grounds(s, a);
    let y = grounds(s, b);
    let (j, n) = choose|j: int, n: int|
        0 <= j < m.dialogue.len() && #[trigger] counters(m.dialogue[j], x, w, n);
    assert(y.goals.take(n) =~= x.goals.take(n));
    assert(counters(m.dialogue[j], y, w, n));
}

pub(crate) broadcast proof fn l_bulk_checked(
    sc: SceneView,
    m: MachineView,
    s: PathView,
    at: Check,
    k: MemKind,
    d: Operand,
    o: Option<Operand>,
    n: Operand,
)
    ensures
        later(m, #[trigger] bulk_checked(sc, m, s, at, k, d, o, n)),
{
    broadcast use
        group_values,
        l_source,
        l_bulk_bounded,
        shown_bulk,
        countered_bulk,
    ;

}

pub(crate) broadcast proof fn l_aliasing(
    m: MachineView,
    s: PathView,
    a: SymPointer,
    b: SymPointer,
    x: u64,
    y: u64,
)
    ensures
        later(m, (#[trigger] aliasing(m, s, a, b, x, y)).0),
{
    broadcast use group_values;

}

pub(crate) broadcast proof fn l_loading(
    m: MachineView,
    s: PathView,
    p: SymPointer,
    n: u64,
    t: Type,
    k: int,
)
    ensures
        later(m, (#[trigger] loading(m, s, p, n, t, k)).0),
    decreases k,
{
    broadcast use group_values, l_aliasing;

    if k > 0 {
        let rec = s.heap[k - 1];
        let m1 = aliasing(m, s, rec.target, p, rec.size, n).0;
        l_loading(m1, s, p, n, t, k - 1);
    }
}

pub(crate) broadcast group group_checks {
    group_values,
    l_access,
    l_arith,
    l_dealloc,
    l_bulk_checked,
    l_loading,
}

// ---- instructions ----

pub(crate) broadcast proof fn l_referenced(m: MachineView, s: PathView, n: Option<u64>, w: bool)
    ensures
        later(m, (#[trigger] referenced(m, s, n, w)).0),
{
    broadcast use group_checks;

}

pub(crate) broadcast proof fn l_loaded(
    m: MachineView,
    s: PathView,
    at: Check,
    d: RegId,
    t: Type,
    p: SymPointer,
    a: u32,
)
    ensures
        later(m, (#[trigger] loaded(m, s, at, d, t, p, a)).0),
{
    broadcast use group_checks;

}

pub(crate) broadcast proof fn l_carried(
    sc: SceneView,
    m: MachineView,
    s: PathView,
    k: MemKind,
    o: Option<Operand>,
    n: u64,
)
    ensures
        later(m, (#[trigger] carried(sc, m, s, k, o, n)).0),
{
    broadcast use group_checks;

}

pub(crate) broadcast proof fn l_bulk_written(
    sc: SceneView,
    m: MachineView,
    s: PathView,
    k: MemKind,
    d: Operand,
    o: Option<Operand>,
    n: Operand,
)
    ensures
        later(m, (#[trigger] bulk_written(sc, m, s, k, d, o, n)).0),
{
    broadcast use group_checks, l_carried;

}

pub(crate) broadcast proof fn l_returned(
    m: MachineView,
    s: PathView,
    d: RegId,
    x: Option<SummaryView>,
    args: Seq<SymValue>,
    t: Type,
    r: Option<RefResult>,
)
    ensures
        later(m, (#[trigger] returned(m, s, d, x, args, t, r)).0),
{
    broadcast use group_checks, l_referenced;

}

pub(crate) broadcast proof fn l_called(
    sc: SceneView,
    sums: Map<u32, SummaryView>,
    m: MachineView,
    s: PathView,
    d: Option<RegId>,
    c: Callee,
    args: Seq<Operand>,
    t: Type,
    r: Option<RefResult>,
)
    ensures
        later(m, (#[trigger] called(sc, sums, m, s, d, c, args, t, r)).0),
{
    broadcast use group_checks, l_returned;

}

/// An instruction only adds to what was decided.
pub(crate) broadcast proof fn l_stepped(
    sc: SceneView,
    sums: Map<u32, SummaryView>,
    m: MachineView,
    s: PathView,
    at: Check,
    inst: Inst,
)
    ensures
        later(m, (#[trigger] stepped(sc, sums, m, s, at, inst)).0),
{
    broadcast use group_checks, l_referenced, l_loaded, l_bulk_written, l_called;

}

// ---- joins ----

pub(crate) broadcast proof fn l_selected(m: MachineView, d: Ex, a: SymValue, b: SymValue, t: Type)
    ensures
        later(m, (#[trigger] selected(m, d, a, b, t)).0),
{
    broadcast use group_values;

}

pub(crate) broadcast proof fn l_joined_from(m: MachineView, vals: Seq<(Ex, SymValue)>, t: Type, i: int)
    ensures
        later(m, (#[trigger] joined_from(m, vals, t, i)).0),
    decreases vals.len() - i,
{
    broadcast use group_values, l_selected;

    if 0 <= i < vals.len() - 1 {
        l_joined_from(m, vals, t, i + 1);
    }
}

pub(crate) broadcast proof fn l_joined(m: MachineView, vals: Seq<(Ex, SymValue)>, t: Type)
    ensures
        later(m, (#[trigger] joined(m, vals, t)).0),
{
    broadcast use group_values, l_joined_from;

}

pub(crate) broadcast proof fn l_merged_stores(
    m: MachineView,
    edges: Seq<EdgeView>,
    discs: Seq<Ex>,
    n: int,
    out: Seq<StoreRecord>,
    k: int,
)
    ensures
        later(m, (#[trigger] merged_stores(m, edges, discs, n, out, k)).0),
    decreases k,
{
    broadcast use group_values, l_joined;

    if k > 0 {
        let (m1, kept) = merged_store(m, edges, discs, n, k - 1);
        assert(later(m, m1));
        let next = match kept {
            Some(r) => out.push(r),
            None => out,
        };
        l_merged_stores(m1, edges, discs, n, next, k - 1);
    }
}

pub(crate) broadcast proof fn l_param_values(
    sc: SceneView,
    m: MachineView,
    edges: Seq<EdgeView>,
    discs: Seq<Ex>,
    j: int,
    t: Type,
    n: int,
)
    ensures
        later(m, (#[trigger] param_values(sc, m, edges, discs, j, t, n)).0),
    decreases n,
{
    broadcast use group_values;

    if n > 0 {
        l_param_values(sc, m, edges, discs, j, t, n - 1);
    }
}

pub(crate) broadcast proof fn l_params_joined(
    sc: SceneView,
    m: MachineView,
    s: PathView,
    edges: Seq<EdgeView>,
    discs: Seq<Ex>,
    params: Seq<(RegId, Type)>,
    n: int,
)
    ensures
        later(m, (#[trigger] params_joined(sc, m, s, edges, discs, params, n)).0),
    decreases n,
{
    broadcast use group_values, l_param_values, l_joined;

    if n > 0 {
        l_params_joined(sc, m, s, edges, discs, params, n - 1);
    }
}

pub(crate) broadcast proof fn l_args_values(
    sc: SceneView,
    m: MachineView,
    s: PathView,
    args: Seq<Operand>,
    params: Seq<(RegId, Type)>,
    n: int,
)
    ensures
        later(m, (#[trigger] args_values(sc, m, s, args, params, n)).0),
    decreases n,
{
    broadcast use group_values;

    if n > 0 {
        l_args_values(sc, m, s, args, params, n - 1);
    }
}

pub(crate) broadcast proof fn l_entered(
    sc: SceneView,
    m: MachineView,
    edges: Seq<EdgeView>,
    params: Seq<(RegId, Type)>,
)
    ensures
        later(m, (#[trigger] entered(sc, m, edges, params)).0),
{
    broadcast use group_machine, l_args_values, l_merged_stores, l_params_joined;

}

// ---- loops ----

pub(crate) broadcast proof fn l_exits_captured(
    sc: SceneView,
    m: MachineView,
    s: PathView,
    xs: Seq<EqExit>,
    n: int,
)
    ensures
        later(m, (#[trigger] exits_captured(sc, m, s, xs, n)).0),
    decreases n,
{
    broadcast use group_values;

    if n > 0 {
        l_exits_captured(sc, m, s, xs, n - 1);
    }
}

pub(crate) broadcast proof fn l_walks_captured(
    sc: SceneView,
    m: MachineView,
    s: PathView,
    ws: Seq<PtrWalk>,
    n: int,
)
    ensures
        later(m, (#[trigger] walks_captured(sc, m, s, ws, n)).0),
    decreases n,
{
    broadcast use group_values;

    if n > 0 {
        l_walks_captured(sc, m, s, ws, n - 1);
    }
}

pub(crate) broadcast proof fn l_havocked_regs(
    f: Function,
    flow: Flow,
    m: MachineView,
    s: PathView,
    h: u32,
    regs: Seq<int>,
    n: int,
)
    ensures
        later(m, (#[trigger] havocked_regs(f, flow, m, s, h, regs, n)).0),
    decreases n,
{
    broadcast use group_values;

    if n > 0 {
        l_havocked_regs(f, flow, m, s, h, regs, n - 1);
    }
}

pub(crate) broadcast proof fn l_exits_bounded(m: MachineView, s: PathView, cs: Seq<ExitCapture>, n: int)
    ensures
        later(m, (#[trigger] exits_bounded(m, s, cs, n)).0),
    decreases n,
{
    broadcast use group_values;

    if n > 0 {
        l_exits_bounded(m, s, cs, n - 1);
    }
}

pub(crate) broadcast proof fn l_walks_bounded(m: MachineView, s: PathView, cs: Seq<WalkCapture>, n: int)
    ensures
        later(m, (#[trigger] walks_bounded(m, s, cs, n)).0),
    decreases n,
{
    broadcast use group_values;

    if n > 0 {
        l_walks_bounded(m, s, cs, n - 1);
    }
}

pub(crate) broadcast proof fn l_havocked(
    f: Function,
    flow: Flow,
    sc: SceneView,
    m: MachineView,
    s: PathView,
    h: u32,
)
    ensures
        later(m, (#[trigger] havocked(f, flow, sc, m, s, h)).0),
{
    broadcast use
        group_machine,
        l_exits_captured,
        l_walks_captured,
        l_havocked_regs,
        l_exits_bounded,
        l_walks_bounded,
    ;

}

// ---- explorations ----

pub(crate) broadcast proof fn l_leaving_if(
    flow: Flow,
    m: MachineView,
    s: PathView,
    a: u32,
    b: u32,
    g: Ex,
    args: Seq<Operand>,
)
    ensures
        later(m, (#[trigger] leaving_if(flow, m, s, a, b, g, args)).0),
{
    broadcast use group_values;

}

pub(crate) broadcast proof fn l_leaving_cases(
    flow: Flow,
    m: MachineView,
    s: PathView,
    a: u32,
    v: Ex,
    cases: Seq<(BitVector, BlockId)>,
    n: int,
)
    ensures
        later(m, (#[trigger] leaving_cases(flow, m, s, a, v, cases, n)).0),
    decreases n,
{
    broadcast use group_machine, l_leaving_if;

    if n > 0 {
        l_leaving_cases(flow, m, s, a, v, cases, n - 1);
    }
}

pub(crate) broadcast proof fn l_leaving(
    flow: Flow,
    sc: SceneView,
    m: MachineView,
    s: PathView,
    a: u32,
    t: Terminator,
)
    ensures
        later(m, (#[trigger] leaving(flow, sc, m, s, a, t)).0),
{
    broadcast use group_machine, l_scalar, l_leaving_if, l_leaving_cases;

}

pub(crate) broadcast proof fn l_stepping(
    sc: SceneView,
    sums: Map<u32, SummaryView>,
    m: MachineView,
    s: PathView,
    b: BlockId,
    insts: Seq<Inst>,
    n: int,
)
    ensures
        later(m, (#[trigger] stepping(sc, sums, m, s, b, insts, n)).0),
    decreases n,
{
    broadcast use group_machine, l_stepped;

    if n > 0 {
        l_stepping(sc, sums, m, s, b, insts, n - 1);
    }
}

pub(crate) broadcast proof fn l_cut(m: MachineView)
    ensures
        later(m, #[trigger] cut_short(m)),
{
    reveal(later);
    if grounded(m) {
        lemma_grounded_kept(m, cut_short(m));
    }
}

proof fn l_advanced(x: Subject, p: Progressing, b: u32)
    ensures
        later(p.m, advanced(x, p, b).m),
{
    broadcast use group_machine, l_cut, l_time, l_entered, l_havocked, l_stepping, l_leaving;

}

/// An exploration only adds to what was decided: what is left open or refuted on one path
/// is not proved by another, so that only what is proved on every path that reaches it is
/// reported as proved.
pub proof fn explorations_only_add(x: Subject, p: Progressing, order: Seq<u32>, k: int, n: int)
    requires
        0 <= k <= n,
    ensures
        later(explored(x, p, order, k).m, explored(x, p, order, n).m),
    decreases n,
{
    broadcast use later_is_reflexive;

    if k < n {
        explorations_only_add(x, p, order, k, n - 1);
        l_advanced(x, explored(x, p, order, n - 1), order[n - 1]);
        later_is_transitive(
            explored(x, p, order, k).m,
            explored(x, p, order, n - 1).m,
            explored(x, p, order, n).m,
        );
    }
}

/// An obligation that is proved in a later state was not left open before.
pub proof fn proved_means_never_open(a: MachineView, b: MachineView, s: Site)
    requires
        later(a, b),
        a.mem.contains_key(s),
        b.mem[s].all_proven,
    ensures
        a.mem[s].all_proven,
{
    reveal(later);
    assert(b.mem.contains_key(s));
}

pub(crate) proof fn l_entry(
    m: MachineView,
    s: PathView,
    params: Seq<(RegId, Type)>,
    cs: Seq<Option<PtrContract>>,
    fields: Seq<Vec<FieldContract>>,
    n: int,
)
    ensures
        later(m, contracted_params(m, s, params, cs, fields, n).0),
    decreases n,
{
    broadcast use group_machine;

    if n > 0 {
        l_entry(m, s, params, cs, fields, n - 1);
    }
}

proof fn lemma_discharged_later(
    f: Function,
    limits: ExecLimits,
    sums: Map<u32, SummaryView>,
    contracts: Seq<Option<PtrContract>>,
    fields: Seq<Vec<FieldContract>>,
    globals: Map<Seq<char>, GlobalDef>,
    flow: Flow,
    answers: Seq<Answer>,
)
    ensures
        later(
            started(answers, limits.bug_finding, limits.exported),
            discharged(f, limits, sums, contracts, fields, globals, flow, answers),
        ),
{
    let m0 = started(answers, limits.bug_finding, limits.exported);
    let n = f.params@.len() as int;
    let s1 = plain_params(blank(), f.params@, contracts, n);
    l_entry(m0, s1, f.params@, contracts, fields, n);
    let (m1, s, known) = entry_state(m0, f, contracts, fields, globals);
    let x = Subject {
        f,
        flow,
        sc: SceneView { causes: classified(f), globals: known, names: block_symbols(f.blocks@) },
        sums,
        max_visits: limits.max_visits as int,
        timed: limits.time_budget is Some,
    };
    explorations_only_add(x, entry_at(x, m1, s), flow.order@, 0, flow.order@.len() as int);
    let m = discharged(f, limits, sums, contracts, fields, globals, flow, answers);
    later_is_transitive(m0, m1, m);
}

/// An exploration keeps every decision, each rests on answers, and what is decided or refuted
/// was so on some path.
pub proof fn explorations_are_grounded(
    f: Function,
    limits: ExecLimits,
    sums: Map<u32, SummaryView>,
    contracts: Seq<Option<PtrContract>>,
    fields: Seq<Vec<FieldContract>>,
    globals: Map<Seq<char>, GlobalDef>,
    flow: Flow,
    answers: Seq<Answer>,
)
    ensures
        grounded(discharged(f, limits, sums, contracts, fields, globals, flow, answers)),
        aligned(discharged(f, limits, sums, contracts, fields, globals, flow, answers)),
        discharged(f, limits, sums, contracts, fields, globals, flow, answers).answers == answers,
{
    lemma_discharged_later(f, limits, sums, contracts, fields, globals, flow, answers);
    reveal(later);
    let m0 = started(answers, limits.bug_finding, limits.exported);
    assert(grounded(m0));
    assert(aligned(m0));
}

/// An obligation that is reported as proved is not refuted: neither a memory obligation nor
/// an explicit check is both.
pub proof fn proven_obligations_have_no_refutation(
    f: Function,
    limits: ExecLimits,
    sums: Map<u32, SummaryView>,
    contracts: Seq<Option<PtrContract>>,
    fields: Seq<Vec<FieldContract>>,
    globals: Map<Seq<char>, GlobalDef>,
    flow: Flow,
    answers: Seq<Answer>,
)
    ensures
        ({
            let m = discharged(f, limits, sums, contracts, fields, globals, flow, answers);
            let r = report_of(m);
            &&& forall|s: Site| #[trigger]
                r.mem.contains_key(s) && r.mem[s].proven ==> r.mem[s].refutation is None
            &&& forall|c: Check| #[trigger]
                r.decided.contains_key(c) ==> (r.decided[c] is Proven
                    <==> m.scalar[c].all_proven)
        }),
{
    let m = discharged(f, limits, sums, contracts, fields, globals, flow, answers);
    let m0 = started(answers, limits.bug_finding, limits.exported);
    lemma_discharged_later(f, limits, sums, contracts, fields, globals, flow, answers);
    assert(one_sided(m0));
    assert(one_sided(m)) by {
        reveal(later);
    }
    let r = report_of(m);
    assert forall|s: Site| #[trigger]
        r.mem.contains_key(s) && r.mem[s].proven implies r.mem[s].refutation is None by {
        assert(m.mem.contains_key(s));
    }
    assert forall|c: Check| #[trigger] r.decided.contains_key(c) implies (r.decided[c] is Proven
        <==> m.scalar[c].all_proven) by {
        assert(m.scalar.contains_key(c));
    }
}

/// The visit of the block at a place of the order cuts the exploration short, because
/// variables or the offsets of fields cannot be numbered any more.
pub open spec fn overrun_at(x: Subject, p: Progressing, order: Seq<u32>, k: int) -> bool {
    let q = explored(x, p, order, k);
    let edges = entering(q.pending, order[k]);
    !q.m.truncated && edges.len() > 0 && visited(x, q.m, edges, order[k]).0.truncated
}

/// An order that is not longer than the visits allowed is not cut short by their number: an
/// exploration without a time limit visits each block of the order that a path reaches, and is
/// cut short only where the visit of a block overruns the machine.
pub proof fn enough_visits_are_not_cut_short(
    x: Subject,
    p: Progressing,
    order: Seq<u32>,
    n: int,
)
    requires
        !x.timed,
        !p.m.truncated,
        0 <= n <= order.len(),
        p.visits + order.len() <= x.max_visits,
    ensures
        explored(x, p, order, n).visits <= p.visits + n,
        explored(x, p, order, n).m.truncated <==> exists|k: int|
            0 <= k < n && #[trigger] overrun_at(x, p, order, k),
    decreases n,
{
    if n > 0 {
        enough_visits_are_not_cut_short(x, p, order, n - 1);
        let q = explored(x, p, order, n - 1);
        let r = explored(x, p, order, n);
        if q.m.truncated {
            let k = choose|k: int| 0 <= k < n - 1 && #[trigger] overrun_at(x, p, order, k);
            assert(overrun_at(x, p, order, k));
        } else {
            assert(r.m.truncated <==> overrun_at(x, p, order, n - 1));
        }
    }
}

/// A field keeps its place, and another field of the region that is placed later lies
/// behind it.
pub proof fn fields_do_not_overlap(
    m: MachineView,
    b: MachineView,
    region: usize,
    f: u32,
    g: u32,
    size: u64,
    other: u64,
)
    requires
        !m.fields.contains_key((region, f)),
        !field_offset(m, region, f, size).0.truncated,
        later(field_offset(m, region, f, size).0, b),
        !field_offset(m, region, f, size).0.fields.contains_key((region, g)),
        !field_offset(b, region, g, other).0.truncated,
    ensures
        field_offset(b, region, f, size).1 == field_offset(m, region, f, size).1,
        field_offset(m, region, f, size).1 + size <= field_offset(b, region, g, other).1,
{
    reveal(later);
    let a = field_offset(m, region, f, size).0;
    assert(a.fields.contains_key((region, f)));
    assert(b.fields.contains_key((region, f)));
    assert(fields_end(a, region) <= fields_end(b, region));
    if b.fields.contains_key((region, g)) {
        assert(fields_end(a, region) <= b.fields[(region, g)]);
    }
}

// ---- decisions ----

/// An exploration that is cut short decides nothing.
pub proof fn truncation_decides_nothing(m: MachineView)
    requires
        m.truncated,
    ensures
        report_of(m).truncated,
        report_of(m).decided == Map::<Check, crate::exec::report::SymOutcome>::empty(),
        report_of(m).mem == Map::<Site, crate::exec::report::MemDecision>::empty(),
        report_of(m).assumptions.len() == 0,
{
}

/// A goal is refuted only where that is allowed, and by a model that a solver gave: on an
/// exact path, or when looking for bugs, where it depends on genuine inputs alone.
pub proof fn refutations_are_witnessed(
    m: MachineView,
    s: PathView,
    goals: Seq<Ex>,
    mode: RefuteMode,
    extra: Seq<Ex>,
    w: ModelId,
)
    requires
        0 <= m.used,
        deciding(m, s, goals, mode, extra).1 == Decision::Refuted(w),
    ensures
        mode != RefuteMode::Off,
        s.exact || (m.bug_finding && mode == RefuteMode::Possible && all_genuine(
            goals,
            m.exported,
        )),
        ({
            let after = deciding(m, s, goals, mode, extra).0;
            after.answers == m.answers && 0 < after.used && after.answers[after.used - 1]
                == Answer::Witness(Some(w))
        }),
{
    let m1 = proving_all(m, s, goals, 0).0;
    l_proving_all(m, s, goals, 0);
    let m2 = deciding(m, s, goals, mode, extra).0;
    l_deciding(m, s, goals, mode, extra);
    reveal(later);
    lemma_used(m, s, goals, 0);
}

proof fn lemma_used(m: MachineView, s: PathView, goals: Seq<Ex>, i: int)
    ensures
        m.used >= 0 ==> proving_all(m, s, goals, i).0.used >= 0,
    decreases goals.len() - i,
{
    if 0 <= i < goals.len() {
        lemma_used(proving(m, s, goals[i]).0, s, goals, i + 1);
    }
}

/// Goals are proved only where a solver proved each of them.
pub proof fn proofs_are_answered(m: MachineView, s: PathView, goals: Seq<Ex>, i: int, k: int)
    requires
        0 <= i <= k < goals.len(),
        0 <= m.used,
        proving_all(m, s, goals, i).1,
    ensures
        m.used + (k - i) < m.answers.len(),
        m.answers[m.used + (k - i)] matches Answer::Method(Some(_)),
    decreases goals.len() - i,
{
    let (m1, ok) = proving(m, s, goals[i]);
    if i < k {
        proofs_are_answered(m1, s, goals, i + 1, k);
    }
}

} // verus!
