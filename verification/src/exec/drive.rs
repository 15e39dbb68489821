//! Explorations from their beginning to their end, with the exact solver.

use crate::blast::{entails, holds, refutes, valued, Assigned, Valuation};
use crate::exec::flow::Flow;
use crate::exec::laws::{
    affirmed, affirms, countered, counters, excluded, excludes, explorations_are_grounded,
    refuted_by, rests, shown, upheld,
};
use crate::exec::machine::{Answer, Grounds, MachineView, ModelId, Owed, Visit};
use crate::exec::replay::questions_come_in_order;
use crate::exec::report::{
    decision_of, discharge_inner, discharged, outcome_of, progress_is, report_of, ExecLimits, Progress,
    ReportView, SymOutcome, SymbolicReport,
};
use crate::exec::solver::{answer, earned, fits, model_views, right};
use crate::exec::start::FieldContract;
use crate::exec::step::sum_views;
use crate::expr::{conj, negation, Ex};
use crate::ir::{Function, GlobalDef, PtrContract};
use crate::names::table;
use crate::summary::Summary;
use std::collections::HashMap;
use vstd::prelude::*;

verus! {

/// A function to explore, with what is known around it.
pub struct Task<'a> {
    pub f: &'a Function,
    pub limits: ExecLimits,
    /// Summaries of the functions that it calls.
    pub summaries: &'a HashMap<u32, Summary>,
    /// Contracts of its parameters.
    pub contracts: &'a Vec<Option<PtrContract>>,
    /// Fields of its parameters that hold valid pointers.
    pub fields: &'a Vec<Vec<FieldContract>>,
    pub globals: &'a Vec<(String, GlobalDef)>,
    pub flow: &'a Flow,
}

impl<'a> Task<'a> {
    /// Where the exploration is with these answers.
    #[verifier::opaque]
    pub open spec fn after(&self, answers: Seq<Answer>) -> MachineView {
        discharged(
            *self.f,
            self.limits,
            sum_views(self.summaries@),
            self.contracts@,
            self.fields@,
            table(self.globals@),
            *self.flow,
            answers,
        )
    }

    /// Answer `i` is one to the question that the answers before it lead to: it is of the
    /// kind that is asked for, right, and earned with the budget.
    pub open spec fn well_answered(
        &self,
        search: int,
        answers: Seq<Answer>,
        models: Seq<Seq<Assigned>>,
        i: int,
    ) -> bool {
        match self.after(answers.take(i)).pending {
            Some(q) => {
                &&& fits(q, answers[i])
                &&& right(q, answers[i], models)
                &&& earned(q, search, answers[i], models.len())
            },
            None => false,
        }
    }

    /// Every answer is one to its question.
    pub open spec fn faithful(
        &self,
        search: int,
        answers: Seq<Answer>,
        models: Seq<Seq<Assigned>>,
    ) -> bool {
        forall|i: int|
            0 <= i < answers.len() ==> #[trigger] self.well_answered(search, answers, models, i)
    }

    /// The answers lead to the report.
    pub open spec fn concludes(
        &self,
        search: int,
        answers: Seq<Answer>,
        models: Seq<Seq<Assigned>>,
        r: ReportView,
    ) -> bool {
        &&& self.faithful(search, answers, models)
        &&& self.after(answers).pending is None
        &&& r == report_of(self.after(answers))
    }

    /// After the answers, as many as given, there is still a question.
    pub open spec fn goes_on(
        &self,
        search: int,
        answers: Seq<Answer>,
        models: Seq<Seq<Assigned>>,
        n: int,
    ) -> bool {
        &&& answers.len() == n
        &&& self.faithful(search, answers, models)
        &&& self.after(answers).pending is Some
    }
}

impl<'a> Task<'a> {
    /// How far the exploration comes with these answers.
    pub fn advance(&self, answers: &Vec<Answer>) -> (p: Progress)
        ensures
            progress_is(p, self.after(answers@)),
    {
        proof {
            reveal(Task::after);
        }
        discharge_inner(
            self.f,
            self.limits,
            self.summaries,
            self.contracts,
            self.fields,
            self.globals,
            self.flow,
            answers,
        )
    }
}

proof fn lemma_models_kept(
    t: Task,
    search: int,
    answers: Seq<Answer>,
    before: Seq<Seq<Assigned>>,
    after: Seq<Seq<Assigned>>,
)
    requires
        t.faithful(search, answers, before),
        before.len() <= after.len(),
        forall|i: int| 0 <= i < before.len() ==> #[trigger] after[i] == before[i],
    ensures
        t.faithful(search, answers, after),
{
    assert forall|i: int| 0 <= i < answers.len() implies #[trigger] t.well_answered(
        search,
        answers,
        after,
        i,
    ) by {
        assert(t.well_answered(search, answers, before, i));
    }
}

proof fn lemma_answered(
    t: Task,
    search: int,
    answers: Seq<Answer>,
    models: Seq<Seq<Assigned>>,
    a: Answer,
)
    requires
        t.faithful(search, answers, models),
        t.well_answered(search, answers.push(a), models, answers.len() as int),
    ensures
        t.faithful(search, answers.push(a), models),
{
    let all = answers.push(a);
    assert forall|i: int| 0 <= i < all.len() implies #[trigger] t.well_answered(search, all, models, i) by {
        if i < answers.len() {
            assert(t.well_answered(search, answers, models, i));
            assert(all.take(i) =~= answers.take(i));
        }
    }
}

/// Explore a function, answering at most `questions` questions with a budget of `search` for
/// each. The report is the one that right answers lead to; the models that it refers to are
/// added to `models`. There is none where more questions are asked.
pub fn discharge_exactly(
    t: &Task,
    search: u64,
    questions: usize,
    models: &mut Vec<Vec<Assigned>>,
) -> (r: Option<SymbolicReport>)
    ensures
        match r {
            Some(report) => exists|answers: Seq<Answer>| #[trigger]
                t.concludes(search as int, answers, model_views(final(models)@), report@),
            None => exists|answers: Seq<Answer>| #[trigger]
                t.goes_on(search as int, answers, model_views(final(models)@), questions as int),
        },
        old(models)@.len() <= final(models)@.len(),
        forall|i: int| 0 <= i < old(models)@.len() ==> #[trigger] final(models)@[i] == old(models)@[i],
{
    let start = std::time::Instant::now();
    let mut answers: Vec<Answer> = Vec::new();
    loop
        invariant
            answers@.len() <= questions,
            t.faithful(search as int, answers@, model_views(models@)),
            old(models)@.len() <= models@.len(),
            forall|i: int|
                0 <= i < old(models)@.len() ==> #[trigger] models@[i] == old(models)@[i],
        decreases questions - answers@.len(),
    {
        match t.advance(&answers) {
            Progress::Done(report) => {
                let ghost rv = report@;
                assert(t.concludes(search as int, answers@, model_views(models@), rv));
                let r = Some(report);
                assert(r is Some && (r->0)@ == rv);
                return r;
            },
            Progress::Ask(q) => {
                if answers.len() >= questions {
                    assert(t.goes_on(search as int, answers@, model_views(models@), questions as int));
                    return None;
                }
                let late: bool = match t.limits.time_budget {
                    Some(ms) => start.elapsed().as_nanos() >= ms as u128 * 1_000_000,
                    None => false,
                };
                let ghost before = model_views(models@);
                let a = answer(&q, search, late, models);
                proof {
                    let now = model_views(models@);
                    lemma_models_kept(*t, search as int, answers@, before, now);
                    assert(answers@.push(a).take(answers@.len() as int) =~= answers@);
                    assert(t.well_answered(search as int, answers@.push(a), now, answers@.len() as int));
                    lemma_answered(*t, search as int, answers@, now, a);
                }
                answers.push(a);
            },
        }
    }
}

// ---- laws ----

/// An obligation is reported as proven.
pub open spec fn reported_proven(r: ReportView, o: Owed) -> bool {
    match o {
        Owed::Memory(s) => r.mem.contains_key(s) && r.mem[s].proven,
        Owed::Explicit(c) => r.decided.contains_key(c) && r.decided[c] is Proven,
    }
}

/// Every goal follows from the premises, whatever the values of variables.
pub open spec fn all_entailed(g: Grounds) -> bool {
    forall|k: int| 0 <= k < g.goals.len() ==> entails(g.premises, #[trigger] g.goals[k])
}

/// Nothing is reported as proven without a proof: with right answers of the exact solver, an
/// obligation that is reported as proven was visited, and at each visit the premises of the
/// path implied each of its goals.
pub proof fn proven_obligations_are_entailed(
    t: Task,
    search: int,
    answers: Seq<Answer>,
    models: Seq<Seq<Assigned>>,
    o: Owed,
)
    requires
        t.faithful(search, answers, models),
        reported_proven(
            report_of(
                discharged(
                    *t.f,
                    t.limits,
                    sum_views(t.summaries@),
                    t.contracts@,
                    t.fields@,
                    table(t.globals@),
                    *t.flow,
                    answers,
                ),
            ),
            o,
        ),
    ensures
        ({
            let m = discharged(
                *t.f,
                t.limits,
                sum_views(t.summaries@),
                t.contracts@,
                t.fields@,
                table(t.globals@),
                *t.flow,
                answers,
            );
            &&& exists|i: int| 0 <= i < m.visits.len() && (#[trigger] m.visits[i]).owed == o
            &&& forall|i: int|
                0 <= i < m.visits.len() && (#[trigger] m.visits[i]).owed == o
                    ==> m.visits[i].proven && all_entailed(m.visits[i].grounds)
        }),
{
    reveal(Task::after);
    let m = t.after(answers);
    let r = report_of(m);
    explorations_are_grounded(
        *t.f,
        t.limits,
        sum_views(t.summaries@),
        t.contracts@,
        t.fields@,
        table(t.globals@),
        *t.flow,
        answers,
    );
    match o {
        Owed::Memory(s) => {
            assert(m.mem.contains_key(s));
            assert(r.mem[s] == decision_of(m.mem[s]));
        },
        Owed::Explicit(c) => {
            assert(m.scalar.contains_key(c));
            assert(r.decided[c] == outcome_of(m.scalar[c]));
        },
    }
    assert forall|i: int| 0 <= i < m.visits.len() && (#[trigger] m.visits[i]).owed == o implies m.visits[i].proven
        && all_entailed(m.visits[i].grounds) by {
        let g = m.visits[i].grounds;
        assert(upheld(m, m.visits[i]));
        assert(shown(m, g));
        assert forall|k: int| 0 <= k < g.goals.len() implies entails(
            g.premises,
            #[trigger] g.goals[k],
        ) by {
            reveal(shown);
            assert(affirmed(m, g.premises, g.goals[k]));
            let j = choose|j: int|
                0 <= j < m.dialogue.len() && affirms(
                    #[trigger] m.dialogue[j],
                    g.premises,
                    g.goals[k],
                );
            questions_come_in_order(
                *t.f,
                t.limits,
                sum_views(t.summaries@),
                t.contracts@,
                t.fields@,
                table(t.globals@),
                *t.flow,
                answers,
                j,
            );
            assert(t.well_answered(search, answers, models, j));
        }
    }
}

/// An obligation is reported as refuted with a model.
pub open spec fn reported_refuted(r: ReportView, o: Owed, w: ModelId) -> bool {
    match o {
        Owed::Memory(s) => r.mem.contains_key(s) && r.mem[s].refutation == Some(w),
        Owed::Explicit(c) => r.decided.contains_key(c) && r.decided[c] == SymOutcome::Refuted(w),
    }
}

/// The values satisfy the premises and violate a goal.
pub open spec fn violated(g: Grounds, v: Valuation) -> bool {
    &&& forall|i: int| 0 <= i < g.premises.len() ==> holds(#[trigger] g.premises[i], v)
    &&& exists|k: int| 0 <= k < g.goals.len() && !holds(#[trigger] g.goals[k], v)
}

/// A decision refutes an obligation with a model: it is one of the path in which a goal is
/// violated. An explicit check is violated whatever the values that take the path.
pub open spec fn refuted_at(
    v: Visit,
    o: Owed,
    w: ModelId,
    models: Seq<Seq<Assigned>>,
) -> bool {
    &&& v.owed == o
    &&& v.witness == Some(w)
    &&& w.0 < models.len()
    &&& violated(v.grounds, valued(models[w.0 as int]))
    &&& o is Explicit ==> entails(v.grounds.premises, negation(conj(v.grounds.goals)))
}

/// A conjunction is false only where one of its parts is.
proof fn lemma_conj_fails(s: Seq<Ex>, v: Valuation)
    requires
        !holds(conj(s), v),
    ensures
        exists|k: int| 0 <= k < s.len() && !holds(#[trigger] s[k], v),
    decreases s.len(),
{
    if s.len() >= 2 {
        if holds(s.last(), v) {
            lemma_conj_fails(s.drop_last(), v);
            let k = choose|k: int|
                0 <= k < s.drop_last().len() && !holds(#[trigger] s.drop_last()[k], v);
            assert(s[k] == s.drop_last()[k]);
        } else {
            assert(!holds(s[s.len() - 1], v));
        }
    } else if s.len() == 1 {
        assert(!holds(s[0], v));
    }
}

/// Nothing is reported as refuted without a counterexample: with right answers of the exact
/// solver, an obligation that is reported as refuted with a model was refuted by it at some
/// visit. The model takes the path and violates a goal; an explicit check fails whatever the
/// values that take the path.
pub proof fn refuted_obligations_have_counterexamples(
    t: Task,
    search: int,
    answers: Seq<Answer>,
    models: Seq<Seq<Assigned>>,
    o: Owed,
    w: ModelId,
)
    requires
        t.faithful(search, answers, models),
        reported_refuted(
            report_of(
                discharged(
                    *t.f,
                    t.limits,
                    sum_views(t.summaries@),
                    t.contracts@,
                    t.fields@,
                    table(t.globals@),
                    *t.flow,
                    answers,
                ),
            ),
            o,
            w,
        ),
    ensures
        ({
            let m = discharged(
                *t.f,
                t.limits,
                sum_views(t.summaries@),
                t.contracts@,
                t.fields@,
                table(t.globals@),
                *t.flow,
                answers,
            );
            exists|i: int|
                0 <= i < m.visits.len() && refuted_at(#[trigger] m.visits[i], o, w, models)
        }),
{
    reveal(Task::after);
    let m = t.after(answers);
    let r = report_of(m);
    explorations_are_grounded(
        *t.f,
        t.limits,
        sum_views(t.summaries@),
        t.contracts@,
        t.fields@,
        table(t.globals@),
        *t.flow,
        answers,
    );
    match o {
        Owed::Memory(s) => {
            assert(m.mem.contains_key(s));
            assert(r.mem[s] == decision_of(m.mem[s]));
        },
        Owed::Explicit(c) => {
            assert(m.scalar.contains_key(c));
            assert(r.decided[c] == outcome_of(m.scalar[c]));
        },
    }
    assert(refuted_by(m, o, w));
    let i = choose|i: int|
        0 <= i < m.visits.len() && (#[trigger] m.visits[i]).owed == o && m.visits[i].witness
            == Some(w);
    let g = m.visits[i].grounds;
    assert(upheld(m, m.visits[i]));
    assert(rests(m, m.visits[i]));
    reveal(countered);
    reveal(excluded);
    let (j, n) = choose|j: int, n: int|
        0 <= j < m.dialogue.len() && #[trigger] counters(m.dialogue[j], g, w, n);
    questions_come_in_order(
        *t.f,
        t.limits,
        sum_views(t.summaries@),
        t.contracts@,
        t.fields@,
        table(t.globals@),
        *t.flow,
        answers,
        j,
    );
    assert(t.well_answered(search, answers, models, j));
    let q = m.dialogue[j].0;
    let v = valued(models[w.0 as int]);
    assert(refutes(q.premises, q.goal, v));
    assert forall|k: int| 0 <= k < g.premises.len() implies holds(#[trigger] g.premises[k], v) by {
        assert(q.premises[k] == g.premises[k]);
    }
    lemma_conj_fails(g.goals.take(n), v);
    let k = choose|k: int| 0 <= k < n && !holds(#[trigger] g.goals.take(n)[k], v);
    assert(!holds(g.goals[k], v));
    if o is Explicit {
        let x = choose|x: int| 0 <= x < m.dialogue.len() && excludes(#[trigger] m.dialogue[x], g);
        questions_come_in_order(
            *t.f,
            t.limits,
            sum_views(t.summaries@),
            t.contracts@,
            t.fields@,
            table(t.globals@),
            *t.flow,
            answers,
            x,
        );
        assert(t.well_answered(search, answers, models, x));
    }
    assert(refuted_at(m.visits[i], o, w, models));
}

} // verus!
