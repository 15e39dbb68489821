//! Answering the questions of an exploration exactly.

use crate::blast::{decide, decided, entails, evident, refutes, valued, Assigned, Valuation, Verdict};
use crate::exec::machine::{Answer, MachineView, ModelId, ProofMethod, Query, QueryKind, QueryView};
use crate::exec::machine::{counterexample, proving};
use crate::exec::value::{premises, PathView};
use crate::expr::{negation, Ex};
use vstd::prelude::*;

verus! {

/// The largest number of a model.
pub const MAX_MODEL: usize = 0x7fff_ffff;

/// Models by number.
pub open spec fn model_views(s: Seq<Vec<Assigned>>) -> Seq<Seq<Assigned>> {
    Seq::new(s.len(), |i: int| s[i]@)
}

/// An answer is right: what it calls proved exactly is implied, and the model that it
/// gives is one of the premises in which the goal is false.
pub open spec fn right(q: QueryView, a: Answer, models: Seq<Seq<Assigned>>) -> bool {
    match a {
        Answer::Method(Some(ProofMethod::BitPrecise)) => entails(q.premises, q.goal),
        Answer::Exact(true) => entails(q.premises, q.goal),
        Answer::Witness(Some(w)) => w.0 < models.len() && refutes(
            q.premises,
            q.goal,
            valued(models[w.0 as int]),
        ),
        _ => true,
    }
}

/// The answer is of the kind that is asked for.
pub open spec fn fits(q: QueryView, a: Answer) -> bool {
    match q.kind {
        QueryKind::Method => a is Method,
        QueryKind::Exact => a is Exact,
        QueryKind::Witness => a is Witness,
        QueryKind::Clock => a is Clock,
    }
}

/// An answer is earned. What leaves a question open does so because the premises do not imply
/// the goal, or because that was not decided within the budget. No model is given only where
/// the premises imply the goal, where that was not decided, or where there are too many models
/// to number another.
pub open spec fn earned(q: QueryView, budget: int, a: Answer, models: nat) -> bool {
    match a {
        Answer::Method(m) => match m {
            Some(p) => p == ProofMethod::BitPrecise,
            None => open_or_false(q, budget),
        },
        Answer::Exact(b) => !b ==> open_or_false(q, budget),
        Answer::Witness(w) => match w {
            Some(w) => w.0 <= MAX_MODEL,
            None => models > MAX_MODEL || entails(q.premises, q.goal) || decided(
                q.premises,
                q.goal,
                budget,
                Verdict::Unknown,
            ),
        },
        Answer::Clock(_) => true,
    }
}

/// The premises do not imply the goal, or that was not decided within the budget.
pub open spec fn open_or_false(q: QueryView, budget: int) -> bool {
    !entails(q.premises, q.goal) || decided(q.premises, q.goal, budget, Verdict::Unknown)
}

/// Answer a question, within a budget for the search; `late` tells whether the time is up.
/// A model that is found is added to `models`.
pub fn answer(q: &Query, budget: u64, late: bool, models: &mut Vec<Vec<Assigned>>) -> (a: Answer)
    ensures
        fits(q@, a),
        right(q@, a, model_views(final(models)@)),
        earned(q@, budget as int, a, final(models)@.len()),
        a matches Answer::Witness(Some(w)) ==> w.0 == old(models)@.len(),
        q.kind == QueryKind::Clock ==> a == Answer::Clock(late),
        evident(q.premises@, q.goal) && q.kind == QueryKind::Method ==> a == Answer::Method(
            Some(ProofMethod::BitPrecise),
        ),
        evident(q.premises@, q.goal) && q.kind == QueryKind::Exact ==> a == Answer::Exact(true),
        final(models)@.len() == old(models)@.len() + if a matches Answer::Witness(Some(_)) {
            1int
        } else {
            0
        },
        forall|i: int| 0 <= i < old(models)@.len() ==> #[trigger] final(models)@[i] == old(models)@[i],
{
    match q.kind {
        QueryKind::Clock => Answer::Clock(late),
        QueryKind::Method => match decide(&q.premises, &q.goal, budget) {
            Verdict::Holds => Answer::Method(Some(ProofMethod::BitPrecise)),
            _ => Answer::Method(None),
        },
        QueryKind::Exact => match decide(&q.premises, &q.goal, budget) {
            Verdict::Holds => Answer::Exact(true),
            _ => Answer::Exact(false),
        },
        QueryKind::Witness => match decide(&q.premises, &q.goal, budget) {
            Verdict::Fails(s) => {
                let n: usize = models.len();
                if n <= MAX_MODEL {
                    models.push(s);
                    Answer::Witness(Some(ModelId(n as u32)))
                } else {
                    Answer::Witness(None)
                }
            },
            _ => Answer::Witness(None),
        },
    }
}

// ---- laws ----

/// With a right answer, a goal that is proved exactly is implied by the path.
pub proof fn exact_proofs_are_right(
    m: MachineView,
    s: PathView,
    goal: Ex,
    models: Seq<Seq<Assigned>>,
)
    requires
        0 <= m.used < m.answers.len(),
        right(
            QueryView { kind: QueryKind::Method, premises: premises(s), goal },
            m.answers[m.used],
            models,
        ),
        m.answers[m.used] == Answer::Method(Some(ProofMethod::BitPrecise)),
    ensures
        proving(m, s, goal).1,
        entails(premises(s), goal),
{
}

/// With a right answer, a branch that is cut has no execution: no values satisfy the path
/// and the condition of the branch.
pub proof fn cut_branches_are_dead(
    m: MachineView,
    s: PathView,
    cond: Ex,
    models: Seq<Seq<Assigned>>,
    v: Valuation,
)
    requires
        0 <= m.used < m.answers.len(),
        right(
            QueryView { kind: QueryKind::Exact, premises: premises(s), goal: negation(cond) },
            m.answers[m.used],
            models,
        ),
        crate::exec::machine::infeasible(m, s, cond).1,
        forall|i: int| 0 <= i < premises(s).len() ==> crate::blast::holds(#[trigger] premises(s)[i], v),
    ensures
        !crate::blast::holds(cond, v),
{
    assert(entails(premises(s), negation(cond)));
    assert(crate::blast::holds(negation(cond), v));
}

/// With a right answer, a model that refutes a goal satisfies the premises and violates
/// the goal.
pub proof fn counterexamples_are_real(
    m: MachineView,
    ps: Seq<Ex>,
    goal: Ex,
    models: Seq<Seq<Assigned>>,
    w: ModelId,
)
    requires
        0 <= m.used < m.answers.len(),
        right(
            QueryView { kind: QueryKind::Witness, premises: ps, goal },
            m.answers[m.used],
            models,
        ),
        counterexample(m, ps, goal).1 == Some(w),
    ensures
        w.0 < models.len(),
        refutes(ps, goal, valued(models[w.0 as int])),
{
}

} // verus!
