//! Discharging the obligations of a function.

use crate::exec::classify::{classified, classify_scalar_ptr_defs};
use crate::exec::eval::{Scene, SceneView};
use crate::exec::flow::Flow;
use crate::exec::machine::{
    assoc, lemma_assoc_push, of, started, Answer, Check, Machine, MachineView, MemAgg, ModelId,
    Query, ScalarAgg, Site,
};
use crate::exec::run::{entry_at, explored, Subject};
use crate::exec::start::{block_symbols, entry_state, referenced_symbols, FieldContract};
use crate::exec::step::sum_views;
use crate::exec::value::{assumption_name};
use crate::ir::{Assumption, BlockId, Function, GlobalDef, PtrContract, SafetyProperty};
use crate::names::table;
use crate::summary::{Summary, SummaryView};
use std::collections::HashMap;
use vstd::prelude::*;

verus! {

/// Bounds on an exploration.
#[derive(Debug, Clone, Copy, PartialEq, Eq, Structural)]
pub struct ExecLimits {
    /// How many blocks are visited at most.
    pub max_visits: usize,
    /// The time for one function in milliseconds; none where it is not limited.
    pub time_budget: Option<u64>,
    /// Whether violations by genuine inputs are reported on approximated paths too.
    pub bug_finding: bool,
    /// Whether the function can be called from outside.
    pub exported: bool,
}

/// The usual bounds.
pub open spec fn usual_limits() -> ExecLimits {
    ExecLimits {
        max_visits: 200_000,
        time_budget: Some(30_000),
        bug_finding: false,
        exported: true,
    }
}

impl Default for ExecLimits {
    fn default() -> (l: ExecLimits)
        ensures
            l == usual_limits(),
    {
        ExecLimits {
            max_visits: 200_000,
            time_budget: Some(30_000),
            bug_finding: false,
            exported: true,
        }
    }
}

/// Whether an explicit check holds.
#[derive(Debug, Clone, Copy, PartialEq, Eq, Structural)]
pub enum SymOutcome {
    /// On every path that reaches it.
    Proven,
    Unknown,
    /// It is violated in a model that reaches it.
    Refuted(ModelId),
}

/// The decision of a memory obligation.
#[derive(Debug, Clone, Copy)]
pub struct MemDecision {
    /// Whether it holds on every path that reaches it.
    pub proven: bool,
    /// A model in which it is violated.
    pub refutation: Option<ModelId>,
    /// What is shown, or would be.
    pub predicate: &'static str,
    /// Why it is not proved; empty where it is.
    pub residual: &'static str,
}

/// The outcome of an explicit check over all paths.
pub open spec fn outcome_of(a: ScalarAgg) -> SymOutcome {
    match a.refutation {
        Some(w) => SymOutcome::Refuted(w),
        None => if a.all_proven {
            SymOutcome::Proven
        } else {
            SymOutcome::Unknown
        },
    }
}

/// The decision of a memory obligation over all paths.
pub open spec fn decision_of(a: MemAgg) -> MemDecision {
    MemDecision {
        proven: a.all_proven,
        refutation: a.refutation,
        predicate: a.predicate,
        residual: if a.all_proven {
            ""
        } else {
            a.residual
        },
    }
}

/// What an exploration found.
#[derive(Debug)]
pub struct SymbolicReport {
    /// The explicit checks.
    pub decided: Vec<(Check, SymOutcome)>,
    /// The memory obligations.
    pub mem: Vec<(Site, MemDecision)>,
    /// The names of what the proofs rest on, in alphabetical order.
    pub assumptions: Vec<&'static str>,
    /// Whether the exploration was cut short, so that nothing is decided.
    pub truncated: bool,
}

/// What an exploration found, as a mathematical value.
#[verifier::ext_equal]
pub struct ReportView {
    pub decided: Map<Check, SymOutcome>,
    pub mem: Map<Site, MemDecision>,
    pub assumptions: Seq<&'static str>,
    pub truncated: bool,
}

impl View for SymbolicReport {
    type V = ReportView;

    open spec fn view(&self) -> ReportView {
        ReportView {
            decided: assoc(self.decided@),
            mem: assoc(self.mem@),
            assumptions: self.assumptions@,
            truncated: self.truncated,
        }
    }
}

/// All assumptions, in alphabetical order.
pub open spec fn all_assumptions() -> Seq<Assumption> {
    seq![
        Assumption::AllocSucceeds,
        Assumption::DebugInfo,
        Assumption::GlobalMemory,
        Assumption::LinearNoOverflow,
        Assumption::ParamContracts,
        Assumption::SliceAbi,
        Assumption::StructAbi,
        Assumption::ValidReference,
    ]
}

/// The names of the assumptions among the first `n` that were made.
pub open spec fn names_of(made: Set<Assumption>, n: int) -> Seq<&'static str>
    decreases n,
{
    if n <= 0 {
        Seq::empty()
    } else {
        let s = names_of(made, n - 1);
        if made.contains(all_assumptions()[n - 1]) {
            s.push(assumption_name(all_assumptions()[n - 1]))
        } else {
            s
        }
    }
}

/// The report of a finished exploration: one that was cut short decides nothing.
pub open spec fn report_of(m: MachineView) -> ReportView {
    if m.truncated {
        ReportView {
            decided: Map::empty(),
            mem: Map::empty(),
            assumptions: Seq::empty(),
            truncated: true,
        }
    } else {
        ReportView {
            decided: m.scalar.map_values(|a: ScalarAgg| outcome_of(a)),
            mem: m.mem.map_values(|a: MemAgg| decision_of(a)),
            assumptions: names_of(m.assumed, 8),
            truncated: false,
        }
    }
}

/// How far an exploration came with the answers it was given.
#[derive(Debug)]
pub enum Progress {
    /// It needs the answer to a question.
    Ask(Query),
    /// It is finished.
    Done(SymbolicReport),
}

/// The progress is that of a machine.
pub open spec fn progress_is(p: Progress, m: MachineView) -> bool {
    match p {
        Progress::Ask(q) => m.pending == Some(q@),
        Progress::Done(r) => m.pending is None && r@ == report_of(m),
    }
}

/// The machine after the exploration of a function.
pub open spec fn discharged(
    f: Function,
    limits: ExecLimits,
    sums: Map<u32, SummaryView>,
    contracts: Seq<Option<PtrContract>>,
    fields: Seq<Vec<FieldContract>>,
    globals: Map<Seq<char>, GlobalDef>,
    flow: Flow,
    answers: Seq<Answer>,
) -> MachineView {
    let m0 = started(answers, limits.bug_finding, limits.exported);
    let (m1, s, known) = entry_state(m0, f, contracts, fields, globals);
    let x = Subject {
        f,
        flow,
        sc: SceneView {
            causes: classified(f),
            globals: known,
            names: block_symbols(f.blocks@),
        },
        sums,
        max_visits: limits.max_visits as int,
        timed: limits.time_budget is Some,
    };
    explored(x, entry_at(x, m1, s), flow.order@, flow.order@.len() as int).m
}

// ---- reports ----

fn find_outcome(s: &Vec<(Check, SymOutcome)>, k: Check) -> (r: Option<SymOutcome>)
    ensures
        r == of(assoc(s@), k),
{
    let mut i: usize = s.len();
    assert(s@.take(i as int) =~= s@);
    while i > 0
        invariant
            i <= s@.len(),
            of(assoc(s@), k) == of(assoc(s@.take(i as int)), k),
        decreases i,
    {
        i -= 1;
        assert(s@.take(i + 1).drop_last() =~= s@.take(i as int));
        if s[i].0 == k {
            return Some(s[i].1);
        }
    }
    None
}

fn find_decision(s: &Vec<(Site, MemDecision)>, k: Site) -> (r: Option<MemDecision>)
    ensures
        r == of(assoc(s@), k),
{
    let mut i: usize = s.len();
    assert(s@.take(i as int) =~= s@);
    while i > 0
        invariant
            i <= s@.len(),
            of(assoc(s@), k) == of(assoc(s@.take(i as int)), k),
        decreases i,
    {
        i -= 1;
        assert(s@.take(i + 1).drop_last() =~= s@.take(i as int));
        if s[i].0 == k {
            return Some(s[i].1);
        }
    }
    None
}

impl SymbolicReport {
    /// The outcome of an explicit check.
    pub fn outcome(&self, block: BlockId, index: usize) -> (r: Option<SymOutcome>)
        ensures
            r == of(self@.decided, Check { block, index }),
    {
        find_outcome(&self.decided, Check { block, index })
    }

    /// The decision of a memory obligation.
    pub fn mem_decision(&self, block: BlockId, index: usize, prop: SafetyProperty) -> (r: Option<
        MemDecision,
    >)
        ensures
            r == of(self@.mem, Site { block, index, prop }),
    {
        find_decision(&self.mem, Site { block, index, prop })
    }
}

fn outcomes(s: &Vec<(Check, ScalarAgg)>) -> (r: Vec<(Check, SymOutcome)>)
    ensures
        assoc(r@) == assoc(s@).map_values(|a: ScalarAgg| outcome_of(a)),
{
    let ghost g = |a: ScalarAgg| outcome_of(a);
    let mut out: Vec<(Check, SymOutcome)> = Vec::new();
    let mut i: usize = 0;
    assert(s@.take(0) =~= Seq::<(Check, ScalarAgg)>::empty());
    assert(assoc(out@) =~= assoc(s@.take(0)).map_values(g));
    while i < s.len()
        invariant
            i <= s@.len(),
            g == (|a: ScalarAgg| outcome_of(a)),
            assoc(out@) == assoc(s@.take(i as int)).map_values(g),
        decreases s@.len() - i,
    {
        let a = s[i].1;
        let o = match a.refutation {
            Some(w) => SymOutcome::Refuted(w),
            None => if a.all_proven {
                SymOutcome::Proven
            } else {
                SymOutcome::Unknown
            },
        };
        let e: (Check, SymOutcome) = (s[i].0, o);
        proof {
            lemma_assoc_push(out@, e);
            lemma_assoc_push(s@.take(i as int), s@[i as int]);
            assert(s@.take(i + 1) =~= s@.take(i as int).push(s@[i as int]));
        }
        out.push(e);
        assert(assoc(out@) =~= assoc(s@.take(i + 1)).map_values(g));
        i += 1;
    }
    assert(s@.take(s@.len() as int) =~= s@);
    out
}

fn decisions(s: &Vec<(Site, MemAgg)>) -> (r: Vec<(Site, MemDecision)>)
    ensures
        assoc(r@) == assoc(s@).map_values(|a: MemAgg| decision_of(a)),
{
    let ghost g = |a: MemAgg| decision_of(a);
    let mut out: Vec<(Site, MemDecision)> = Vec::new();
    let mut i: usize = 0;
    assert(s@.take(0) =~= Seq::<(Site, MemAgg)>::empty());
    assert(assoc(out@) =~= assoc(s@.take(0)).map_values(g));
    while i < s.len()
        invariant
            i <= s@.len(),
            g == (|a: MemAgg| decision_of(a)),
            assoc(out@) == assoc(s@.take(i as int)).map_values(g),
        decreases s@.len() - i,
    {
        let a = s[i].1;
        let d = MemDecision {
            proven: a.all_proven,
            refutation: a.refutation,
            predicate: a.predicate,
            residual: if a.all_proven {
                ""
            } else {
                a.residual
            },
        };
        let e: (Site, MemDecision) = (s[i].0, d);
        proof {
            lemma_assoc_push(out@, e);
            lemma_assoc_push(s@.take(i as int), s@[i as int]);
            assert(s@.take(i + 1) =~= s@.take(i as int).push(s@[i as int]));
        }
        out.push(e);
        assert(assoc(out@) =~= assoc(s@.take(i + 1)).map_values(g));
        i += 1;
    }
    assert(s@.take(s@.len() as int) =~= s@);
    out
}

fn was_made(s: &Vec<Assumption>, a: Assumption) -> (r: bool)
    ensures
        r == s@.to_set().contains(a),
{
    let mut i: usize = 0;
    while i < s.len()
        invariant
            i <= s@.len(),
            forall|k: int| 0 <= k < i ==> s@[k] != a,
        decreases s@.len() - i,
    {
        if s[i] == a {
            assert(s@.contains(a));
            return true;
        }
        i += 1;
    }
    false
}

fn names(made: &Vec<Assumption>) -> (r: Vec<&'static str>)
    ensures
        r@ == names_of(made@.to_set(), 8),
{
    let all = vec![
        Assumption::AllocSucceeds,
        Assumption::DebugInfo,
        Assumption::GlobalMemory,
        Assumption::LinearNoOverflow,
        Assumption::ParamContracts,
        Assumption::SliceAbi,
        Assumption::StructAbi,
        Assumption::ValidReference,
    ];
    assert(all@ =~= all_assumptions());
    let mut out: Vec<&'static str> = Vec::new();
    let mut i: usize = 0;
    assert(out@ =~= Seq::<&'static str>::empty());
    while i < all.len()
        invariant
            i <= all@.len(),
            all@ == all_assumptions(),
            out@ == names_of(made@.to_set(), i as int),
        decreases all@.len() - i,
    {
        if was_made(made, all[i]) {
            out.push(all[i].name());
        }
        i += 1;
    }
    out
}

fn finish(m: Machine) -> (p: Progress)
    ensures
        progress_is(p, m@),
{
    match m.pending {
        Some(q) => Progress::Ask(q),
        None => {
            if m.truncated {
                let none: Vec<&'static str> = Vec::new();
                assert(none@ =~= Seq::<&'static str>::empty());
                Progress::Done(
                    SymbolicReport {
                        decided: Vec::new(),
                        mem: Vec::new(),
                        assumptions: none,
                        truncated: true,
                    },
                )
            } else {
                Progress::Done(
                    SymbolicReport {
                        decided: outcomes(&m.scalar),
                        mem: decisions(&m.mem),
                        assumptions: names(&m.assumed),
                        truncated: false,
                    },
                )
            }
        },
    }
}

// ---- discharging ----

pub fn discharge_inner(
    f: &Function,
    limits: ExecLimits,
    summaries: &HashMap<u32, Summary>,
    contracts: &Vec<Option<PtrContract>>,
    fields: &Vec<Vec<FieldContract>>,
    globals: &Vec<(String, GlobalDef)>,
    flow: &Flow,
    answers: &Vec<Answer>,
) -> (p: Progress)
    ensures
        progress_is(
            p,
            discharged(
                *f,
                limits,
                sum_views(summaries@),
                contracts@,
                fields@,
                table(globals@),
                *flow,
                answers@,
            ),
        ),
{
    let mut m = Machine::new(answers, limits.bug_finding, limits.exported);
    let names = referenced_symbols(f);
    let (s, known) = m.enter(f, contracts, fields, globals, &names);
    let sc = Scene { causes: classify_scalar_ptr_defs(f), globals: known, names };
    let timed = limits.time_budget.is_some();
    let ghost x = Subject {
        f: *f,
        flow: *flow,
        sc: sc@,
        sums: sum_views(summaries@),
        max_visits: limits.max_visits as int,
        timed,
    };
    m.run_merged(f, flow, &sc, summaries, limits.max_visits, timed, s, Ghost(x));
    finish(m)
}

/// Discharge the obligations of a function with the usual bounds, with nothing known of
/// the functions that it calls. `flow` is its control flow, and `answers` are those to the
/// questions of the exploration so far.
pub fn discharge_function(f: &Function, flow: &Flow, answers: &Vec<Answer>) -> (p: Progress)
    ensures
        progress_is(
            p,
            discharged(
                *f,
                usual_limits(),
                Map::empty(),
                Seq::empty(),
                Seq::empty(),
                Map::empty(),
                *flow,
                answers@,
            ),
        ),
{
    discharge_with(f, ExecLimits::default(), flow, answers)
}

/// Like `discharge_function`, with summaries of the functions that it calls.
pub fn discharge_with_summaries(
    f: &Function,
    summaries: &HashMap<u32, Summary>,
    flow: &Flow,
    answers: &Vec<Answer>,
) -> (p: Progress)
    ensures
        progress_is(
            p,
            discharged(
                *f,
                usual_limits(),
                sum_views(summaries@),
                Seq::empty(),
                Seq::empty(),
                Map::empty(),
                *flow,
                answers@,
            ),
        ),
{
    let contracts: Vec<Option<PtrContract>> = Vec::new();
    let fields: Vec<Vec<FieldContract>> = Vec::new();
    let globals: Vec<(String, GlobalDef)> = Vec::new();
    assert(contracts@ =~= Seq::<Option<PtrContract>>::empty());
    assert(fields@ =~= Seq::<Vec<FieldContract>>::empty());
    discharge_inner(
        f,
        ExecLimits::default(),
        summaries,
        &contracts,
        &fields,
        &globals,
        flow,
        answers,
    )
}

/// Like `discharge_with_summaries`, with contracts of the parameters, and globals.
pub fn discharge_full(
    f: &Function,
    summaries: &HashMap<u32, Summary>,
    contracts: &Vec<Option<PtrContract>>,
    globals: &Vec<(String, GlobalDef)>,
    flow: &Flow,
    answers: &Vec<Answer>,
) -> (p: Progress)
    ensures
        progress_is(
            p,
            discharged(
                *f,
                usual_limits(),
                sum_views(summaries@),
                contracts@,
                Seq::empty(),
                table(globals@),
                *flow,
                answers@,
            ),
        ),
{
    let fields: Vec<Vec<FieldContract>> = Vec::new();
    assert(fields@ =~= Seq::<Vec<FieldContract>>::empty());
    discharge_inner(
        f,
        ExecLimits::default(),
        summaries,
        contracts,
        &fields,
        globals,
        flow,
        answers,
    )
}

/// Like `discharge_full`, with fields of the parameters that hold valid pointers.
pub fn discharge_with_fields(
    f: &Function,
    summaries: &HashMap<u32, Summary>,
    contracts: &Vec<Option<PtrContract>>,
    fields: &Vec<Vec<FieldContract>>,
    globals: &Vec<(String, GlobalDef)>,
    bug_finding: bool,
    exported: bool,
    flow: &Flow,
    answers: &Vec<Answer>,
) -> (p: Progress)
    ensures
        progress_is(
            p,
            discharged(
                *f,
                ExecLimits { bug_finding, exported, ..usual_limits() },
                sum_views(summaries@),
                contracts@,
                fields@,
                table(globals@),
                *flow,
                answers@,
            ),
        ),
{
    let limits = ExecLimits { bug_finding, exported, ..ExecLimits::default() };
    discharge_inner(f, limits, summaries, contracts, fields, globals, flow, answers)
}

/// Like `discharge_function`, with given bounds.
pub fn discharge_with(f: &Function, limits: ExecLimits, flow: &Flow, answers: &Vec<Answer>) -> (p:
    Progress)
    ensures
        progress_is(
            p,
            discharged(
                *f,
                limits,
                Map::empty(),
                Seq::empty(),
                Seq::empty(),
                Map::empty(),
                *flow,
                answers@,
            ),
        ),
{
    let summaries: HashMap<u32, Summary> = HashMap::new();
    let contracts: Vec<Option<PtrContract>> = Vec::new();
    let fields: Vec<Vec<FieldContract>> = Vec::new();
    let globals: Vec<(String, GlobalDef)> = Vec::new();
    assert(contracts@ =~= Seq::<Option<PtrContract>>::empty());
    assert(fields@ =~= Seq::<Vec<FieldContract>>::empty());
    assert(sum_views(summaries@) =~= Map::<u32, SummaryView>::empty());
    discharge_inner(f, limits, &summaries, &contracts, &fields, &globals, flow, answers)
}

} // verus!
