//! A conflict-driven clause-learning SAT solver.

use vstd::arithmetic::power2::pow2;
use vstd::prelude::*;

pub mod effort;
mod logic;
mod analyze;
mod reduce;
mod propagate;
mod trail;

use effort::{
    few, lemma_conflict_effort, lemma_effort, lemma_few_alike, lemma_few_bound, lemma_few_kept, lemma_few_start,
    lemma_weight_bound, lemma_weight_grows, lemma_weight_learnt, lemma_weight_opened, search_bound,
    weight,
};
use logic::{
    code_of, earlier, forces, guarded, is_false, is_true, lemma_level_zero_conflict,
    lemma_occurrences_absent, lemma_occurrences_push, lemma_trail_bounds, level_at, list_below,
    lits_below, logic_inv, occurrences, queue_inv, reason_inv, repeated, same_lits, trail_inv,
    true_lit, value_of, wanted, watch_inv, watch_sound, watch_sound_below, watch_upto,
};

verus! {

/// A boolean literal: a variable together with a polarity.
#[derive(Clone, Copy, PartialEq, Eq, Hash, Debug, Structural)]
pub struct Lit {
    /// The variable index.
    pub var: u32,
    /// Whether the literal is negated (`true` means `¬var`).
    pub neg: bool,
}

/// The value of `l` under the total assignment `m`.
pub open spec fn lit_true(m: Seq<bool>, l: Lit) -> bool {
    m[l.var as int] != l.neg
}

/// Clause `c` holds under `m`: one of its literals does.
pub open spec fn clause_true(m: Seq<bool>, c: Seq<Lit>) -> bool {
    exists|l: Lit| #[trigger] c.contains(l) && lit_true(m, l)
}

/// `m` is a model of the conjunction of `clauses`.
pub open spec fn satisfies(m: Seq<bool>, clauses: Seq<Seq<Lit>>) -> bool {
    forall|i: int| 0 <= i < clauses.len() ==> clause_true(m, #[trigger] clauses[i])
}

impl Lit {
    /// The positive literal `var`.
    pub fn pos(var: u32) -> (l: Lit)
        ensures
            l == (Lit { var, neg: false }),
            forall|m: Seq<bool>| #[trigger] lit_true(m, l) == m[var as int],
    {
        Lit { var, neg: false }
    }

    /// The negative literal `¬var`.
    pub fn neg(var: u32) -> (l: Lit)
        ensures
            l == (Lit { var, neg: true }),
            forall|m: Seq<bool>| #[trigger] lit_true(m, l) == !m[var as int],
    {
        Lit { var, neg: true }
    }

    /// The complement of this literal.
    pub fn negated(self) -> (l: Lit)
        ensures
            l == (Lit { var: self.var, neg: !self.neg }),
            forall|m: Seq<bool>| #[trigger] lit_true(m, l) == !lit_true(m, self),
    {
        Lit { var: self.var, neg: !self.neg }
    }
}

/// The outcome of a solve.
#[derive(Clone, Debug, PartialEq, Eq)]
pub enum SatResult {
    /// Satisfiable, with a model: `model[v]` is the value of variable `v`.
    Sat(Vec<bool>),
    /// Unsatisfiable: no assignment satisfies every clause.
    Unsat,
    /// The search gave up before it reached an answer.
    Unknown,
}

/// The default decision budget.
pub const DEFAULT_BUDGET: u64 = 200_000;

/// What a bump adds to a variable's activity at first.
const FIRST_INCREMENT: u64 = 0x10_0000;

/// The activity above which every activity is scaled down.
const ACTIVITY_RESCALE_LIMIT: u64 = 0x100_0000_0000_0000;

/// The factor by which activities are scaled down.
const ACTIVITY_RESCALE: u64 = 0x1_0000_0000;

/// The increment grows by one part in this many after each conflict.
const GROWTH: u64 = 19;

/// Conflicts per unit of the restart sequence.
const RESTART_UNIT: u64 = 50;

/// The least number of learnt clauses kept before a reduction.
const MIN_LEARNT_LIMIT: usize = 100;

/// Ticks between two readings of the clock.
const TICKS_PER_READING: u128 = 8192;

/// Wall-clock limit of one solve, in nanoseconds.
const SOLVE_TIME_BUDGET: u128 = 250_000_000;

/// When to restart and when to forget learnt clauses.
#[derive(Clone, Copy)]
struct Pace {
    conflicts_since_restart: u64,
    luby_u: u64,
    luby_v: u64,
    restarts: u64,
    max_learnt: usize,
    reductions: u64,
}

/// What a search took: the decisions, the ticks (one for each decision and for each conflict
/// above level 0), and what the readings of the clock showed, in nanoseconds.
struct Effort {
    decisions: u64,
    ticks: u128,
    readings: Vec<u128>,
}

/// What became of a watched clause.
#[derive(Clone, Copy, PartialEq, Eq, Structural)]
enum Visit {
    Keep,
    Moved,
    Conflict,
}

/// The solver: clauses, their watch lists, the assignment trail, the branching
/// activities and the restart state.
pub struct Solver {
    num_vars: usize,
    clauses: Vec<Vec<Lit>>,
    watches: Vec<Vec<usize>>,
    assign: Vec<Option<bool>>,
    level: Vec<u32>,
    reason: Vec<Option<usize>>,
    trail: Vec<u32>,
    trail_lim: Vec<usize>,
    prop_queue: Vec<u32>,
    seen: Vec<bool>,
    activity: Vec<u64>,
    var_inc: u64,
    num_original: usize,
    lbd: Vec<u32>,
    pace: Pace,
    effort: Effort,
    formula: Ghost<Seq<Seq<Lit>>>,
    /// The decisions and the conflicts of all searches so far.
    history: Ghost<(int, int)>,
}

/// A dense index for a literal, used to key the watch lists.
fn lit_code(l: Lit) -> (c: usize)
    requires
        2 * l.var + 1 <= usize::MAX,
    ensures
        c == code_of(l),
{
    2 * (l.var as usize) + if l.neg { 1 } else { 0 }
}

impl Solver {
    /// The clauses that the solver was made with.
    pub closed spec fn formula(&self) -> Seq<Seq<Lit>> {
        self.formula@
    }

    /// The number of variables that the solver was made with.
    pub closed spec fn vars(&self) -> nat {
        self.num_vars as nat
    }

    spec fn coherent(&self) -> bool {
        let n = self.num_vars as int;
        &&& n <= u32::MAX
        &&& 2 * n <= usize::MAX
        &&& trail_inv(n, self.trail@, self.trail_lim@, self.assign@, self.level@)
        &&& reason_inv(
            self.trail@,
            self.trail_lim@,
            self.assign@,
            self.level@,
            self.reason@,
            self.clauses@,
        )
        &&& logic_inv(n, self.formula@, self.clauses@)
        &&& queue_inv(
            self.prop_queue@,
            n,
            self.assign@,
            self.level@,
            self.trail_lim@.len() as int,
        )
        &&& self.seen@.len() == n
        &&& self.activity@.len() == n
        &&& self.lbd@.len() == self.clauses@.len()
        &&& self.num_original == self.formula@.len()
    }

    /// No variable is marked.
    spec fn quiet(&self) -> bool {
        forall|v: int| 0 <= v < self.seen@.len() ==> !(#[trigger] self.seen@[v])
    }

    /// Everything but the assignment, the clauses' order and the watch lists is `o`'s.
    spec fn same_rest(&self, o: &Solver) -> bool {
        &&& self.num_vars == o.num_vars
        &&& self.trail_lim == o.trail_lim
        &&& self.seen == o.seen
        &&& self.activity == o.activity
        &&& self.var_inc == o.var_inc
        &&& self.num_original == o.num_original
        &&& self.lbd == o.lbd
        &&& self.pace == o.pace
        &&& self.formula == o.formula
    }

    /// What `o` assigned is assigned alike, at the same level.
    spec fn grown(&self, o: &Solver) -> bool {
        &&& self.trail@.len() >= o.trail@.len()
        &&& forall|i: int| 0 <= i < o.trail@.len() ==> #[trigger] self.trail@[i] == o.trail@[i]
        &&& forall|v: int|
            0 <= v < o.num_vars && (#[trigger] o.assign@[v]).is_some() ==> self.assign@[v]
                == o.assign@[v] && self.level@[v] == o.level@[v]
    }

    /// The assignment of `o` with `lit` made true at the current level because of
    /// `reason`.
    spec fn assigned(&self, o: &Solver, lit: Lit, reason: Option<usize>) -> bool {
        let v = lit.var as int;
        &&& o.assign@[v].is_none()
        &&& self.assign@ == o.assign@.update(v, Some(!lit.neg))
        &&& self.level@ == o.level@.update(v, self.trail_lim@.len() as u32)
        &&& self.reason@ == o.reason@.update(v, reason)
        &&& self.trail@ == o.trail@.push(lit.var)
        &&& self.prop_queue@ == o.prop_queue@.push(lit.var)
    }

    spec fn same_assignment(&self, o: &Solver) -> bool {
        &&& self.assign == o.assign
        &&& self.level == o.level
        &&& self.reason == o.reason
        &&& self.trail == o.trail
        &&& self.prop_queue == o.prop_queue
    }

    /// The current decision level.
    fn decision_level(&self) -> (d: u32)
        requires
            self.coherent(),
        ensures
            d == self.trail_lim@.len(),
    {
        proof {
            lemma_trail_bounds(
                self.num_vars as int,
                self.trail@,
                self.trail_lim@,
                self.assign@,
                self.level@,
            );
        }
        self.trail_lim.len() as u32
    }

    /// The value of a literal: true, false, or unassigned.
    fn lit_value(&self, lit: Lit) -> (r: Option<bool>)
        requires
            lit.var < self.assign@.len(),
        ensures
            r == value_of(self.assign@, lit),
    {
        match self.assign[lit.var as usize] {
            Some(b) => Some(b != lit.neg),
            None => None,
        }
    }

    /// The literal of an assigned variable that is false.
    fn false_lit(&self, v: u32) -> (l: Lit)
        requires
            v < self.assign@.len(),
            self.assign@[v as int].is_some(),
        ensures
            l.var == v,
            is_false(self.assign@, l),
    {
        match self.assign[v as usize] {
            Some(b) => Lit { var: v, neg: b },
            None => Lit { var: v, neg: false },
        }
    }

    /// Make `lit` true because of clause `reason`; `false` when it is false already.
    fn enqueue(&mut self, lit: Lit, reason: usize) -> (ok: bool)
        requires
            old(self).coherent(),
            lit.var < old(self).num_vars,
            reason < old(self).clauses@.len(),
            old(self).clauses@[reason as int]@.contains(lit),
            old(self).assign@[lit.var as int].is_none() ==> !repeated(
                old(self).clauses@[reason as int]@,
                lit,
            ),
            old(self).assign@[lit.var as int].is_none() ==> forall|l: Lit| #[trigger]
                old(self).clauses@[reason as int]@.contains(l) ==> l == lit || is_false(
                    old(self).assign@,
                    l,
                ),
        ensures
            final(self).coherent(),
            final(self).same_rest(old(self)),
            final(self).clauses == old(self).clauses,
            final(self).watches == old(self).watches,
            ok == !is_false(old(self).assign@, lit),
            old(self).assign@[lit.var as int].is_some() ==> *final(self) == *old(self),
            old(self).assign@[lit.var as int].is_none() ==> final(self).assigned(
                old(self),
                lit,
                Some(reason),
            ),
            final(self).grown(old(self)),
    {
        let v: usize = lit.var as usize;
        match self.assign[v] {
            Some(b) => b != lit.neg,
            None => {
                let d = self.decision_level();
                self.assign.set(v, Some(!lit.neg));
                self.level.set(v, d);
                self.reason.set(v, Some(reason));
                self.trail.push(lit.var);
                self.prop_queue.push(lit.var);
                proof {
                    self.lemma_assigned(old(self), lit, Some(reason));
                }
                true
            },
        }
    }

    proof fn lemma_assigned(&self, o: &Solver, lit: Lit, reason: Option<usize>)
        requires
            o.coherent(),
            lit.var < o.num_vars,
            self.same_rest(o),
            self.clauses == o.clauses,
            self.assigned(o, lit, reason),
            match reason {
                Some(r) => {
                    &&& r < o.clauses@.len()
                    &&& o.clauses@[r as int]@.contains(lit)
                    &&& !repeated(o.clauses@[r as int]@, lit)
                    &&& forall|l: Lit| #[trigger]
                        o.clauses@[r as int]@.contains(l) ==> l == lit || is_false(o.assign@, l)
                },
                None => false,
            },
        ensures
            self.coherent(),
            self.grown(o),
    {
        let v = lit.var;
        let t = self.trail@;
        let d = self.trail_lim@.len() as u32;
        lemma_trail_bounds(o.num_vars as int, o.trail@, o.trail_lim@, o.assign@, o.level@);
        assert(!o.trail@.contains(v));
        assert forall|i: int| 0 <= i < t.len() implies level_at(
            self.trail_lim@,
            self.level@[(#[trigger] t[i]) as int] as int,
            i,
        ) by {
            if i < o.trail@.len() {
                assert(o.trail@[i] != v);
                assert(level_at(o.trail_lim@, o.level@[o.trail@[i] as int] as int, i));
            }
        }
        assert forall|w: int| 0 <= w < self.num_vars && (
        #[trigger] self.assign@[w]).is_some() implies t.contains(w as u32) by {
            if w == v {
                assert(t[t.len() - 1] == v);
            } else {
                assert(o.assign@[w].is_some());
                let i = choose|i: int| 0 <= i < o.trail@.len() && o.trail@[i] == w as u32;
                assert(t[i] == w as u32);
            }
        }
        assert forall|i: int| 0 <= i < t.len() implies match self.reason@[(
        #[trigger] t[i]) as int] {
            Some(r) => r < self.clauses@.len() && forces(
                t,
                self.assign@,
                i,
                self.clauses@[r as int]@,
            ),
            None => self.level@[t[i] as int] > 0 && i == self.trail_lim@[self.level@[t[i] as int]
                - 1],
        } by {
            if i < o.trail@.len() {
                assert(o.trail@[i] == t[i]);
                assert(t[i] != v);
                if let Some(r) = o.reason@[o.trail@[i] as int] {
                    let c = o.clauses@[r as int]@;
                    assert(forces(o.trail@, o.assign@, i, c));
                    assert(true_lit(self.assign@, t[i]) == true_lit(o.assign@, t[i]));
                    assert forall|l: Lit| #[trigger] c.contains(l) implies if l.var == t[i] {
                        is_true(self.assign@, l)
                    } else {
                        is_false(self.assign@, l) && earlier(t, i, l.var)
                    } by {
                        if l.var != t[i] {
                            let j = choose|j: int| 0 <= j < i && o.trail@[j] == l.var;
                            assert(t[j] == l.var);
                        }
                    }
                }
            } else {
                let c = o.clauses@[reason->0 as int]@;
                assert(true_lit(self.assign@, v) == lit);
                assert forall|l: Lit| #[trigger] c.contains(l) implies if l.var == v {
                    is_true(self.assign@, l)
                } else {
                    is_false(self.assign@, l) && earlier(t, i, l.var)
                } by {
                    if l != lit {
                        assert(lits_below(c, o.num_vars as int));
                        let k = choose|k: int| 0 <= k < c.len() && c[k] == l;
                        assert(c[k].var < o.num_vars);
                        assert(o.assign@[l.var as int].is_some());
                        let j = choose|j: int| 0 <= j < o.trail@.len() && o.trail@[j] == l.var;
                        assert(t[j] == l.var);
                    }
                }
            }
        }
        assert(queue_inv(
            self.prop_queue@,
            self.num_vars as int,
            self.assign@,
            self.level@,
            d as int,
        )) by {
            assert forall|k: int| 0 <= k < o.prop_queue@.len() implies o.prop_queue@[k] != v by {
                assert(o.assign@[o.prop_queue@[k] as int].is_some());
            }
        }
    }

    /// List clause `ci` under its first two literals.
    fn watch_clause(&mut self, ci: usize)
        requires
            2 * old(self).num_vars <= usize::MAX,
            old(self).num_vars <= u32::MAX,
            ci < old(self).clauses@.len(),
            lits_below(old(self).clauses@[ci as int]@, old(self).num_vars as int),
            watch_upto(
                old(self).num_vars as int,
                old(self).clauses@,
                old(self).watches@,
                ci as int,
            ),
        ensures
            watch_upto(
                final(self).num_vars as int,
                final(self).clauses@,
                final(self).watches@,
                ci + 1,
            ),
            final(self).clauses == old(self).clauses,
            final(self).same_assignment(old(self)),
            final(self).same_rest(old(self)),
            final(self).history == old(self).history,
    {
        let ghost n = self.num_vars as int;
        proof {
            assert forall|x: int| 0 <= x < 2 * n implies #[trigger] occurrences(
                self.watches@[x]@,
                ci as int,
            ) == 0 by {
                assert(list_below(self.watches@[x]@, ci as int));
                lemma_occurrences_absent(self.watches@[x]@, ci as int, ci as int);
            }
        }
        if self.clauses[ci].len() >= 2 {
            let ghost w0 = self.watches@;
            let a = self.clauses[ci][0];
            let b = self.clauses[ci][1];
            self.watches[lit_code(a)].push(ci);
            let ghost w1 = self.watches@;
            self.watches[lit_code(b)].push(ci);
            proof {
                let w2 = self.watches@;
                assert forall|x: int, c: int| 0 <= x < w2.len() && 0 <= c < ci
                    + 1 implies #[trigger] occurrences(w2[x]@, c) == wanted(
                    self.clauses@[c]@,
                    x,
                ) by {
                    lemma_occurrences_push(w0[x]@, ci, c);
                    lemma_occurrences_push(w1[x]@, ci, c);
                    assert(c < ci ==> occurrences(w0[x]@, c) == wanted(self.clauses@[c]@, x));
                    assert(c == ci ==> occurrences(w0[x]@, c) == 0);
                    assert(w1[x]@ == if x == code_of(a) { w0[x]@.push(ci) } else { w0[x]@ });
                    assert(w2[x]@ == if x == code_of(b) { w1[x]@.push(ci) } else { w1[x]@ });
                }
                assert forall|x: int| 0 <= x < w2.len() implies list_below(
                    (#[trigger] w2[x])@,
                    ci + 1,
                ) by {
                    assert(list_below(w0[x]@, ci as int));
                    assert(w1[x]@ == if x == code_of(a) { w0[x]@.push(ci) } else { w0[x]@ });
                    assert(w2[x]@ == if x == code_of(b) { w1[x]@.push(ci) } else { w1[x]@ });
                }
            }
        }
    }

    /// The state of a solver that has not searched yet.
    pub closed spec fn fresh(&self) -> bool {
        &&& self.coherent()
        &&& self.quiet()
        &&& watch_inv(self.num_vars as int, self.clauses@, self.watches@)
        &&& self.trail@.len() == 0
        &&& self.trail_lim@.len() == 0
        &&& self.prop_queue@.len() == 0
        &&& self.pace.conflicts_since_restart == 0
        &&& self.pace.restarts == 0
        &&& self.pace.reductions == 0
        &&& self.pace.luby_u == 1
        &&& self.pace.luby_v == 1
        &&& self.clauses@.len() == self.formula@.len()
        &&& self.history@ == (0int, 0int)
    }

    /// The state of a solver that can search: it has not searched yet, or its last search ended
    /// with everything propagated and no conflict.
    pub closed spec fn ready(&self) -> bool {
        self.fresh() || self.resumable()
    }

    /// The last search ended with everything propagated and no conflict.
    spec fn resumable(&self) -> bool {
        &&& self.settled()
        &&& !self.due()
        &&& self.bounded()
        &&& self.paced(self.history@.0)
        &&& self.spent(self.history@.1, self.history@.0)
    }

    /// The decisions of all searches so far.
    pub closed spec fn decisions_so_far(&self) -> int {
        self.history@.0
    }

    /// The values that variables have from earlier searches.
    pub closed spec fn kept(&self) -> Map<u32, bool> {
        assigned_values(self.assign@)
    }

    /// A restart is due.
    spec fn due(&self) -> bool {
        self.trail_lim@.len() > 0 && RESTART_UNIT * self.pace.luby_v <= u64::MAX
            && self.pace.conflicts_since_restart >= RESTART_UNIT * self.pace.luby_v
    }

    /// A solver that has not searched can search, and has no values.
    proof fn lemma_fresh(&self)
        requires
            self.fresh(),
        ensures
            self.kept() == Map::<u32, bool>::empty(),
    {
        assert forall|v: u32| !(#[trigger] self.kept().contains_key(v)) by {
            if v < self.num_vars && self.assign@[v as int].is_some() {
                assert(self.trail@.contains(v));
            }
        }
        assert(self.kept() =~= Map::<u32, bool>::empty());
    }

    /// A solver for `clauses` over `num_vars` variables.
    pub fn new(num_vars: usize, clauses: Vec<Vec<Lit>>) -> (s: Solver)
        requires
            num_vars <= u32::MAX,
            2 * num_vars <= usize::MAX,
            forall|i: int, k: int|
                0 <= i < clauses@.len() && 0 <= k < clauses@[i]@.len() ==> (
                #[trigger] clauses@[i]@[k]).var < num_vars,
        ensures
            s.ready(),
            s.decisions_so_far() == 0,
            s.kept() == Map::<u32, bool>::empty(),
            s.vars() == num_vars,
            s.formula() == clause_views(clauses@),
    {
        let ghost formula = clause_views(clauses@);
        let num_original: usize = clauses.len();
        let watches: Vec<Vec<usize>> = vec![Vec::new(); 2 * num_vars];
        let third: usize = num_original / 3;
        let max_learnt: usize = if third > MIN_LEARNT_LIMIT { third } else { MIN_LEARNT_LIMIT };
        let mut s = Solver {
            num_vars,
            clauses,
            watches,
            assign: vec![None; num_vars],
            level: vec![0; num_vars],
            reason: vec![None; num_vars],
            trail: Vec::new(),
            trail_lim: Vec::new(),
            prop_queue: Vec::new(),
            seen: vec![false; num_vars],
            activity: vec![0; num_vars],
            var_inc: FIRST_INCREMENT,
            num_original,
            lbd: vec![0; num_original],
            pace: Pace {
                conflicts_since_restart: 0,
                luby_u: 1,
                luby_v: 1,
                restarts: 0,
                max_learnt,
                reductions: 0,
            },
            effort: Effort { decisions: 0, ticks: 0, readings: Vec::new() },
            formula: Ghost(formula),
            history: Ghost((0, 0)),
        };
        proof {
            assert forall|m: Seq<bool>, ci: int|
                m.len() == num_vars && #[trigger] satisfies(m, formula) && 0 <= ci
                    < s.clauses@.len() implies clause_true(m, (#[trigger] s.clauses@[ci])@) by {
                assert(clause_true(m, formula[ci]));
            }
        }
        let mut ci: usize = 0;
        while ci < num_original
            invariant
                ci <= num_original,
                num_original == s.clauses@.len(),
                s.coherent(),
                s.quiet(),
                watch_upto(s.num_vars as int, s.clauses@, s.watches@, ci as int),
                s.trail@.len() == 0,
                s.trail_lim@.len() == 0,
                s.prop_queue@.len() == 0,
                s.pace.conflicts_since_restart == 0,
                s.pace.restarts == 0,
                s.pace.reductions == 0,
                s.pace.luby_u == 1,
                s.pace.luby_v == 1,
                s.num_vars == num_vars,
                s.formula@ == formula,
                s.history@ == (0int, 0int),
                formula.len() == num_original,
            decreases num_original - ci,
        {
            s.watch_clause(ci);
            ci += 1;
        }
        proof {
            s.lemma_fresh();
        }
        s
    }

    /// The number of restarts made so far.
    pub closed spec fn restart_count(&self) -> u64 {
        self.pace.restarts
    }

    /// The number of times learnt clauses were dropped.
    pub closed spec fn reduction_count(&self) -> u64 {
        self.pace.reductions
    }

    /// The number of restarts made so far.
    pub fn restarts(&self) -> (n: u64)
        ensures
            n == self.restart_count(),
    {
        self.pace.restarts
    }

    /// The number of times learnt clauses were dropped.
    pub fn reductions(&self) -> (n: u64)
        ensures
            n == self.reduction_count(),
    {
        self.pace.reductions
    }

    /// The number of decisions that the search made.
    pub closed spec fn decision_count(&self) -> u64 {
        self.effort.decisions
    }

    /// The number of ticks of the search.
    pub closed spec fn tick_count(&self) -> u128 {
        self.effort.ticks
    }

    /// What the readings of the clock showed, in nanoseconds since the search began.
    pub closed spec fn clock_readings(&self) -> Seq<u128> {
        self.effort.readings@
    }

    /// The number of decisions that the search made.
    pub fn decisions(&self) -> (n: u64)
        ensures
            n == self.decision_count(),
    {
        self.effort.decisions
    }

    /// The number of ticks of the search: one for each decision and for each conflict above
    /// level 0.
    pub fn ticks(&self) -> (n: u128)
        ensures
            n == self.tick_count(),
    {
        self.effort.ticks
    }

    /// What the readings of the clock showed, in nanoseconds since the search began.
    pub fn readings(&self) -> (r: &Vec<u128>)
        ensures
            r@ == self.clock_readings(),
    {
        &self.effort.readings
    }

    /// The unassigned variable of greatest activity, the lowest among equals; `None`
    /// when every variable is assigned.
    fn pick_branch(&self) -> (best: Option<u32>)
        requires
            self.coherent(),
        ensures
            match best {
                None => forall|v: int|
                    0 <= v < self.num_vars ==> (#[trigger] self.assign@[v]).is_some(),
                Some(b) => {
                    &&& b < self.num_vars
                    &&& self.assign@[b as int].is_none()
                    &&& forall|v: int|
                        0 <= v < self.num_vars && (#[trigger] self.assign@[v]).is_none()
                            ==> self.activity@[v] < self.activity@[b as int] || (
                        self.activity@[v] == self.activity@[b as int] && b <= v)
                },
            },
    {
        let mut best: Option<u32> = None;
        let mut best_act: u64 = 0;
        let mut v: usize = 0;
        while v < self.num_vars
            invariant
                v <= self.num_vars,
                self.coherent(),
                match best {
                    None => forall|u: int| 0 <= u < v ==> (#[trigger] self.assign@[u]).is_some(),
                    Some(b) => {
                        &&& b < v
                        &&& self.assign@[b as int].is_none()
                        &&& best_act == self.activity@[b as int]
                        &&& forall|u: int|
                            0 <= u < v && (#[trigger] self.assign@[u]).is_none()
                                ==> self.activity@[u] < best_act || (self.activity@[u] == best_act
                                && b <= u)
                    },
                },
            decreases self.num_vars - v,
        {
            if self.assign[v].is_none() && (best.is_none() || self.activity[v] > best_act) {
                best_act = self.activity[v];
                best = Some(v as u32);
            }
            v += 1;
        }
        best
    }

    /// The assignment as a total one, with unassigned variables false.
    fn model(&self) -> (m: Vec<bool>)
        requires
            self.coherent(),
        ensures
            m@.len() == self.num_vars,
            forall|v: int|
                0 <= v < self.num_vars ==> #[trigger] m@[v] == (self.assign@[v] == Some(true)),
    {
        let mut m: Vec<bool> = Vec::new();
        let mut v: usize = 0;
        while v < self.num_vars
            invariant
                v <= self.num_vars,
                self.coherent(),
                m@.len() == v,
                forall|u: int| 0 <= u < v ==> #[trigger] m@[u] == (self.assign@[u] == Some(true)),
            decreases self.num_vars - v,
        {
            let b: bool = match self.assign[v] {
                Some(b) => b,
                None => false,
            };
            m.push(b);
            v += 1;
        }
        m
    }

    /// Store a clause that follows from the formula.
    fn add_learnt(&mut self, learnt: Vec<Lit>, lbd: u32) -> (ci: usize)
        requires
            old(self).coherent(),
            watch_inv(old(self).num_vars as int, old(self).clauses@, old(self).watches@),
            lits_below(learnt@, old(self).num_vars as int),
            forall|m: Seq<bool>|
                m.len() == old(self).num_vars && #[trigger] satisfies(m, old(self).formula@)
                    ==> clause_true(m, learnt@),
        ensures
            ci == old(self).clauses@.len(),
            final(self).coherent(),
            watch_inv(final(self).num_vars as int, final(self).clauses@, final(self).watches@),
            final(self).clauses@ == old(self).clauses@.push(learnt),
            final(self).lbd@ == old(self).lbd@.push(lbd),
            final(self).same_assignment(old(self)),
            final(self).num_vars == old(self).num_vars,
            final(self).trail_lim == old(self).trail_lim,
            final(self).seen == old(self).seen,
            final(self).num_original == old(self).num_original,
            final(self).pace == old(self).pace,
            final(self).formula == old(self).formula,
    {
        let ci: usize = self.clauses.len();
        self.clauses.push(learnt);
        self.lbd.push(lbd);
        proof {
            let before = old(self).clauses@;
            assert forall|i: int| 0 <= i < self.trail@.len() implies match self.reason@[(
            #[trigger] self.trail@[i]) as int] {
                Some(r) => r < self.clauses@.len() && forces(
                    self.trail@,
                    self.assign@,
                    i,
                    self.clauses@[r as int]@,
                ),
                None => self.level@[self.trail@[i] as int] > 0 && i
                    == self.trail_lim@[self.level@[self.trail@[i] as int] - 1],
            } by {
                if let Some(r) = old(self).reason@[old(self).trail@[i] as int] {
                    assert(self.clauses@[r as int] == before[r as int]);
                }
            }
            assert forall|c: int| 0 <= c < self.clauses@.len() implies lits_below(
                (#[trigger] self.clauses@[c])@,
                self.num_vars as int,
            ) by {
                if c < before.len() {
                    assert(lits_below(before[c]@, self.num_vars as int));
                }
            }
            assert forall|m: Seq<bool>, c: int|
                m.len() == self.num_vars && #[trigger] satisfies(m, self.formula@) && 0 <= c
                    < self.clauses@.len() implies clause_true(m, (#[trigger] self.clauses@[c])@) by {
                if c < before.len() {
                    assert(clause_true(m, before[c]@));
                }
            }
            assert forall|x: int, c: int|
                0 <= x < self.watches@.len() && 0 <= c < ci implies #[trigger] occurrences(
                self.watches@[x]@,
                c,
            ) == wanted(self.clauses@[c]@, x) by {
                assert(occurrences(old(self).watches@[x]@, c) == wanted(before[c]@, x));
            }
        }
        self.watch_clause(ci);
        ci
    }

    /// Go back to level `btlevel`, store the learnt clause, and assert its first
    /// literal there.
    fn learn(&mut self, learnt: Vec<Lit>, btlevel: u32, lbd: u32)
        requires
            old(self).coherent(),
            old(self).asserting(learnt@, btlevel as int),
            watch_inv(old(self).num_vars as int, old(self).clauses@, old(self).watches@),
            watch_sound_below(
                old(self).assign@,
                old(self).level@,
                old(self).clauses@,
                old(self).trail_lim@.len() as int,
            ),
        ensures
            final(self).coherent(),
            watch_inv(final(self).num_vars as int, final(self).clauses@, final(self).watches@),
            watch_sound(
                final(self).assign@,
                final(self).level@,
                final(self).prop_queue@,
                final(self).clauses@,
            ),
            final(self).trail_lim@ == old(self).trail_lim@.take(btlevel as int),
            final(self).trail@.len() == old(self).trail_lim@[btlevel as int] + 1,
            final(self).num_vars == old(self).num_vars,
            final(self).seen == old(self).seen,
            final(self).num_original == old(self).num_original,
            final(self).pace == old(self).pace,
            final(self).formula == old(self).formula,
            forall|v: int|
                0 <= v < old(self).num_vars && (#[trigger] old(self).assign@[v]).is_some() && old(
                    self).level@[v] == 0 ==> final(self).assign@[v] == old(self).assign@[v]
                    && final(self).level@[v] == 0,
    {
        let first = learnt[0];
        let ghost lits = learnt@;
        self.backtrack_to(btlevel);
        let ghost cut = *self;
        let ci = self.add_learnt(learnt, lbd);
        proof {
            assert(self.clauses@[ci as int]@ == lits);
            assert(lits.contains(lits[0]));
            assert forall|l: Lit| #[trigger] lits.contains(l) implies l == first || is_false(
                self.assign@,
                l,
            ) by {
                let k = choose|k: int| 0 <= k < lits.len() && lits[k] == l;
                if k >= 1 {
                    assert(is_false(old(self).assign@, lits[k]));
                }
            }
            assert(is_false(old(self).assign@, lits[0]));
            assert(self.assign@[first.var as int].is_none());
            if repeated(lits, first) {
                let (a, b) = choose|a: int, b: int|
                    0 <= a < b < lits.len() && lits[a] == first && lits[b] == first;
                assert(old(self).level@[lits[b].var as int] <= btlevel);
            }
        }
        self.enqueue(first, ci);
        proof {
            let cls = self.clauses@;
            assert forall|c: int, i: int|
                0 <= c < cls.len() && cls[c]@.len() >= 2 && 0 <= i < 2 && is_false(
                    self.assign@,
                    #[trigger] cls[c]@[i],
                ) && !self.prop_queue@.contains(cls[c]@[i].var) implies guarded(
                self.assign@,
                self.level@,
                cls[c]@,
                i,
            ) by {
                assert(lits_below(cls[c]@, self.num_vars as int));
                assert(cls[c]@[i].var < self.num_vars && cls[c]@[1 - i].var < self.num_vars);
                assert(self.prop_queue@[self.prop_queue@.len() - 1] == first.var);
                assert(cls[c]@[i].var != first.var);
                if c < ci {
                    assert(cls[c] == cut.clauses@[c]);
                    assert(is_false(cut.assign@, cut.clauses@[c]@[i]));
                    assert(guarded(cut.assign@, cut.level@, cut.clauses@[c]@, i));
                } else {
                    assert(cls[c]@ == lits);
                    assert(i == 1);
                }
            }
        }
    }
}

/// The literal sequences of stored clauses.
pub open spec fn clause_views(clauses: Seq<Vec<Lit>>) -> Seq<Seq<Lit>> {
    Seq::new(clauses.len(), |i: int| clauses[i]@)
}

/// Literal `l` follows by unit propagation in at most `n` steps: some clause holds it
/// at a place beside which every literal is refuted in fewer steps.
pub open spec fn unit_derived(f: Seq<Seq<Lit>>, l: Lit, n: nat) -> bool
    decreases n,
{
    n > 0 && exists|i: int, k: int|
        0 <= i < f.len() && 0 <= k < f[i].len() && #[trigger] f[i][k] == l && forall|j: int|
            0 <= j < f[i].len() && j != k ==> unit_derived(
                f,
                Lit { var: (#[trigger] f[i][j]).var, neg: !f[i][j].neg },
                (n - 1) as nat,
            )
}

proof fn lemma_unit_derived_later(f: Seq<Seq<Lit>>, l: Lit, n: nat, m: nat)
    requires
        unit_derived(f, l, n),
        n <= m,
    ensures
        unit_derived(f, l, m),
    decreases n,
{
    let (i, k) = choose|i: int, k: int|
        0 <= i < f.len() && 0 <= k < f[i].len() && #[trigger] f[i][k] == l && forall|j: int|
            0 <= j < f[i].len() && j != k ==> unit_derived(
                f,
                Lit { var: (#[trigger] f[i][j]).var, neg: !f[i][j].neg },
                (n - 1) as nat,
            );
    assert forall|j: int| 0 <= j < f[i].len() && j != k implies unit_derived(
        f,
        Lit { var: (#[trigger] f[i][j]).var, neg: !f[i][j].neg },
        (m - 1) as nat,
    ) by {
        lemma_unit_derived_later(
            f,
            Lit { var: f[i][j].var, neg: !f[i][j].neg },
            (n - 1) as nat,
            (m - 1) as nat,
        );
    }
    assert(f[i][k] == l);
}

/// Unit propagation alone fixes neither value of `v`.
pub open spec fn open_var(f: Seq<Seq<Lit>>, v: u32) -> bool {
    &&& forall|n: nat| !unit_derived(f, Lit { var: v, neg: false }, n)
    &&& forall|n: nat| !unit_derived(f, Lit { var: v, neg: true }, n)
}

/// One of the variables is open.
pub open spec fn some_open(vars: nat, f: Seq<Seq<Lit>>) -> bool {
    exists|v: u32| v < vars && #[trigger] open_var(f, v)
}

/// The complement of a literal.
pub open spec fn opposite(l: Lit) -> Lit {
    Lit { var: l.var, neg: !l.neg }
}

/// Unit propagation alone makes `l` false.
pub open spec fn unit_false(f: Seq<Seq<Lit>>, l: Lit) -> bool {
    exists|n: nat| #[trigger] unit_derived(f, opposite(l), n)
}

/// Unit propagation alone falsifies clause `i`.
pub open spec fn unit_falsified(f: Seq<Seq<Lit>>, i: int) -> bool {
    forall|j: int| 0 <= j < f[i].len() ==> unit_false(f, #[trigger] f[i][j])
}

/// Unit propagation alone falsifies a clause.
pub open spec fn unit_refuted(f: Seq<Seq<Lit>>) -> bool {
    exists|i: int| 0 <= i < f.len() && #[trigger] unit_falsified(f, i)
}

/// The last reading of the clock shows that the time is up.
pub open spec fn late(readings: Seq<u128>) -> bool {
    readings.len() > 0 && readings.last() > 250_000_000
}

/// The values of variables.
pub open spec fn assigned_values(a: Seq<Option<bool>>) -> Map<u32, bool> {
    Map::new(
        |v: u32| v < a.len() && a[v as int] is Some,
        |v: u32| a[v as int]->0,
    )
}

/// Neither unit propagation nor an earlier search gives a variable a value.
pub open spec fn some_free(vars: nat, f: Seq<Seq<Lit>>, kept: Map<u32, bool>) -> bool {
    exists|v: u32| v < vars && #[trigger] open_var(f, v) && !kept.contains_key(v)
}

/// The values are those of a model.
pub open spec fn keeps_model(kept: Map<u32, bool>, m: Seq<bool>) -> bool {
    forall|v: u32| v < m.len() ==> #[trigger] kept.contains_key(v) && kept[v] == m[v as int]
}

/// A model gives variables the values that they have.
pub open spec fn agrees_with(m: Seq<bool>, kept: Map<u32, bool>) -> bool {
    forall|v: u32| #[trigger] kept.contains_key(v) ==> v < m.len() && m[v as int] == kept[v]
}

/// The values that were kept are still there.
spec fn as_kept(a: Seq<Option<bool>>, kept: Map<u32, bool>) -> bool {
    forall|v: u32| #[trigger]
        kept.contains_key(v) ==> v < a.len() && a[v as int] == Some(kept[v])
}

/// What a search with a budget answers, the decisions and ticks that it takes, and what the
/// readings of the clock showed. `kept` are the values that variables have from earlier
/// searches; there are none in the first one.
///
/// A model satisfies every clause, and a refutation means that there is none. What unit
/// propagation decides is decided, and where every variable has a value the model is given
/// back without a decision. The search gives up only where a variable is free, and there if
/// the time is up or the budget is spent. The clock is read on every 8192nd tick, and the
/// ticks are bounded by the number of variables.
pub open spec fn searched(
    vars: nat,
    f: Seq<Seq<Lit>>,
    kept: Map<u32, bool>,
    budget: int,
    r: SatResult,
    decisions: int,
    ticks: int,
    readings: Seq<u128>,
) -> bool {
    &&& match r {
        SatResult::Sat(m) => m@.len() == vars && satisfies(m@, f),
        SatResult::Unsat => unsatisfiable(vars, f),
        SatResult::Unknown => !unit_refuted(f) && some_free(vars, f, kept) && (late(readings)
            || decisions == budget),
    }
    &&& unit_refuted(f) ==> r is Unsat
    &&& !unit_refuted(f) && !some_free(vars, f, kept) ==> r is Sat && decisions == 0
        && agrees_with(r->Sat_0@, kept)
    &&& !unit_refuted(f) && some_free(vars, f, kept) && budget == 0 ==> r is Unknown
    &&& late(readings) ==> r is Unknown
    &&& 0 <= decisions <= budget
    &&& decisions <= ticks <= search_bound(vars)
    &&& readings.len() == ticks / 8192
    &&& forall|i: int| 0 <= i < readings.len() - 1 ==> #[trigger] readings[i] <= 250_000_000
}

/// `clauses` over `vars` variables have no model.
pub open spec fn unsatisfiable(vars: nat, clauses: Seq<Seq<Lit>>) -> bool {
    forall|m: Seq<bool>| m.len() == vars ==> !satisfies(m, clauses)
}

/// A point in time, as the standard library measures it.
#[verifier::external_type_specification]
#[verifier::external_body]
pub struct ExInstant(std::time::Instant);

/// `std::time::Instant::now`: the current time. Nothing is claimed of it.
pub assume_specification[ std::time::Instant::now ]() -> std::time::Instant
;

/// `std::time::Instant::elapsed`: the time since the instant. Nothing is claimed of it.
pub assume_specification[ std::time::Instant::elapsed ](
    start: &std::time::Instant,
) -> std::time::Duration
;

/// `std::time::Duration::as_nanos`: the duration in nanoseconds. Nothing is claimed of it,
/// since it is only asked of times that passed.
pub assume_specification[ std::time::Duration::as_nanos ](d: &std::time::Duration) -> u128
;

/// Whether a solve that took `nanos` nanoseconds so far is to be given up.
pub fn over_time_budget(nanos: u128) -> (over: bool)
    ensures
        over == (nanos > 250_000_000),
{
    nanos > SOLVE_TIME_BUDGET
}

/// The clock of a search: that of the machine from a start on, or readings that are given.
struct Clock<'a> {
    start: Option<std::time::Instant>,
    given: &'a Vec<u128>,
    ticks: u128,
    readings: Vec<u128>,
}

/// Reading `k` of a clock whose readings are given; it shows nothing after the last one.
pub open spec fn given_reading(given: Seq<u128>, k: int) -> u128 {
    if 0 <= k < given.len() {
        given[k]
    } else {
        0
    }
}

/// The readings are those that are given.
pub open spec fn as_given(readings: Seq<u128>, given: Seq<u128>) -> bool {
    forall|k: int|
        0 <= k < readings.len() ==> #[trigger] readings[k] == given_reading(given, k)
}

impl<'a> Clock<'a> {
    /// The clock was read on every 8192nd tick.
    spec fn regular(&self) -> bool {
        &&& self.readings@.len() == self.ticks / 8192
        &&& self.start is None ==> as_given(self.readings@, self.given@)
    }

    /// No reading so far shows that the time is up.
    spec fn in_time(&self) -> bool {
        forall|k: int| 0 <= k < self.readings@.len() ==> #[trigger] self.readings@[k]
            <= 250_000_000
    }

    fn reading(&self) -> (nanos: u128)
        ensures
            self.start is None ==> nanos == given_reading(
                self.given@,
                self.readings@.len() as int,
            ),
    {
        match &self.start {
            Some(start) => start.elapsed().as_nanos(),
            None => if self.readings.len() < self.given.len() {
                self.given[self.readings.len()]
            } else {
                0
            },
        }
    }

    /// Count a tick; on every 8192nd, read the clock and tell whether the time is up.
    fn timed_out(&mut self) -> (over: bool)
        requires
            old(self).regular(),
            old(self).in_time(),
            old(self).ticks < u128::MAX,
        ensures
            final(self).regular(),
            final(self).start == old(self).start,
            final(self).given == old(self).given,
            final(self).ticks == old(self).ticks + 1,
            over == late(final(self).readings@),
            !over ==> final(self).in_time(),
            forall|k: int|
                0 <= k < final(self).readings@.len() - 1 ==> #[trigger] final(self).readings@[k]
                    <= 250_000_000,
    {
        self.ticks = self.ticks + 1;
        if self.ticks % TICKS_PER_READING == 0 {
            let nanos = self.reading();
            self.readings.push(nanos);
            return over_time_budget(nanos);
        }
        false
    }
}

/// The lowest bit set in `u`.
pub open spec fn low_bit(u: u64) -> u64 {
    u & ((!u + 1) as u64)
}

/// The state of Knuth's reluctant doubling: a positive count, and a power of two that
/// divides it.
spec fn doubling(u: u64, v: u64) -> bool {
    &&& u != 0
    &&& v != 0
    &&& v & ((v - 1) as u64) == 0
    &&& u & ((v - 1) as u64) == 0
}

proof fn lemma_doubling(u: u64, v: u64)
    requires
        doubling(u, v),
    ensures
        v <= u,
        low_bit(u) != v ==> 2 * v <= u && doubling(u, (2 * v) as u64),
        u < u64::MAX ==> doubling((u + 1) as u64, 1),
{
    let p = (v - 1) as u64;
    assert(v <= u) by (bit_vector)
        requires
            u != 0,
            v != 0,
            v & p == 0,
            u & p == 0,
            p == (v - 1) as u64,
    ;
    if low_bit(u) != v {
        let w = (v + v) as u64;
        let q = (w - 1) as u64;
        assert(w != 0 && w & q == 0 && u & q == 0 && v <= 0x7fff_ffff_ffff_ffff && w <= u)
            by (bit_vector)
            requires
                u != 0,
                v != 0,
                v & p == 0,
                u & p == 0,
                p == (v - 1) as u64,
                u & ((!u + 1) as u64) != v,
                w == (v + v) as u64,
                q == (w - 1) as u64,
        ;
        assert(w == 2 * v);
        assert(q == ((2 * v) as u64 - 1) as u64);
    }
    let one: u64 = 1;
    assert(one & 0 == 0) by (bit_vector);
    if u < u64::MAX {
        let next = (u + 1) as u64;
        assert(next & 0 == 0) by (bit_vector);
    }
}

impl Solver {
    /// Advance the restart sequence by one term.
    fn advance_luby(&mut self)
        requires
            doubling(old(self).pace.luby_u, old(self).pace.luby_v),
            old(self).pace.luby_u < u64::MAX,
        ensures
            doubling(final(self).pace.luby_u, final(self).pace.luby_v),
            final(self).pace.luby_u <= old(self).pace.luby_u + 1,
            ({
                let u = old(self).pace.luby_u;
                let v = old(self).pace.luby_v;
                *final(self) == if low_bit(u) == v {
                    Solver {
                        pace: Pace { luby_u: (u + 1) as u64, luby_v: 1, ..old(self).pace },
                        ..*old(self)
                    }
                } else {
                    Solver {
                        pace: Pace { luby_v: (2 * v) as u64, ..old(self).pace },
                        ..*old(self)
                    }
                }
            }),
    {
        proof {
            lemma_doubling(self.pace.luby_u, self.pace.luby_v);
        }
        let u: u64 = self.pace.luby_u;
        assert(!u < 0xffff_ffff_ffff_ffff) by (bit_vector)
            requires
                u != 0,
        ;
        if u & (!u + 1) == self.pace.luby_v {
            self.pace.luby_u = u + 1;
            self.pace.luby_v = 1;
        } else {
            self.pace.luby_v = self.pace.luby_v * 2;
        }
    }

    /// Every clause of one literal holds at level 0, and no clause is empty.
    spec fn units_hold(&self) -> bool {
        forall|i: int|
            0 <= i < self.formula@.len() ==> (#[trigger] self.formula@[i]).len() > 0 && (
            self.formula@[i].len() == 1 ==> is_true(self.assign@, self.formula@[i][0])
                && self.level@[self.formula@[i][0].var as int] == 0)
    }

    /// Between two decisions: everything propagated, no conflict.
    spec fn settled(&self) -> bool {
        &&& self.coherent()
        &&& self.quiet()
        &&& watch_inv(self.num_vars as int, self.clauses@, self.watches@)
        &&& watch_sound(self.assign@, self.level@, self.prop_queue@, self.clauses@)
        &&& self.prop_queue@.len() == 0
        &&& self.units_hold()
    }

    /// The restart state after `used` decisions.
    spec fn paced(&self, used: int) -> bool {
        &&& doubling(self.pace.luby_u, self.pace.luby_v)
        &&& self.pace.luby_u <= self.pace.restarts + 1
        &&& self.pace.reductions <= self.pace.restarts
        &&& 50 * self.pace.restarts + self.pace.conflicts_since_restart + self.trail_lim@.len()
            <= used
    }

    /// What unit propagation derives is true once everything is propagated.
    proof fn lemma_derived_true(&self, l: Lit, n: nat)
        requires
            self.settled(),
            unit_derived(self.formula@, l, n),
        ensures
            is_true(self.assign@, l),
            l.var < self.num_vars,
        decreases n,
    {
        let f = self.formula@;
        let (i, k) = choose|i: int, k: int|
            0 <= i < f.len() && 0 <= k < f[i].len() && #[trigger] f[i][k] == l && forall|j: int|
                0 <= j < f[i].len() && j != k ==> unit_derived(
                    f,
                    Lit { var: (#[trigger] f[i][j]).var, neg: !f[i][j].neg },
                    (n - 1) as nat,
                );
        let c = self.clauses@[i]@;
        assert(same_lits(f[i], c));
        assert forall|j: int| 0 <= j < f[i].len() && j != k implies is_false(
            self.assign@,
            #[trigger] f[i][j],
        ) by {
            self.lemma_derived_true(
                Lit { var: f[i][j].var, neg: !f[i][j].neg },
                (n - 1) as nat,
            );
        }
        assert(c.contains(l)) by {
            assert(f[i].contains(f[i][k]));
        }
        assert(lits_below(c, self.num_vars as int));
        let p = choose|p: int| 0 <= p < c.len() && c[p] == l;
        assert(c[p].var < self.num_vars);
        if f[i].len() >= 2 {
            assert forall|q: int| 0 <= q < c.len() && !is_false(
                self.assign@,
                #[trigger] c[q],
            ) implies c[q] == l by {
                assert(c.contains(c[q]));
                assert(f[i].contains(c[q]));
                let j = choose|j: int| 0 <= j < f[i].len() && f[i][j] == c[q];
                if j != k {
                    assert(is_false(self.assign@, f[i][j]));
                }
            }
            if !is_false(self.assign@, c[0]) && !is_false(self.assign@, c[1]) {
                assert(c[0] == l && c[1] == l);
                assert(repeated(c, l));
                assert(repeated(f[i], l));
                let (a, b) = choose|a: int, b: int|
                    0 <= a < b < f[i].len() && f[i][a] == l && f[i][b] == l;
                if a != k {
                    assert(is_false(self.assign@, f[i][a]));
                } else {
                    assert(is_false(self.assign@, f[i][b]));
                }
            } else if is_false(self.assign@, c[0]) {
                assert(self.clauses@[i]@[0] == c[0]);
                assert(guarded(self.assign@, self.level@, self.clauses@[i]@, 0));
                assert(c[1] == l);
            } else {
                assert(self.clauses@[i]@[1] == c[1]);
                assert(guarded(self.assign@, self.level@, self.clauses@[i]@, 1));
                assert(c[0] == l);
            }
        } else {
            assert(f[i].len() == 1);
        }
    }

    /// A full assignment with everything propagated satisfies the formula.
    proof fn lemma_full_is_model(&self, m: Seq<bool>)
        requires
            self.settled(),
            m.len() == self.num_vars,
            forall|v: int| 0 <= v < self.num_vars ==> (#[trigger] self.assign@[v]).is_some(),
            forall|v: int|
                0 <= v < self.num_vars ==> #[trigger] m[v] == (self.assign@[v] == Some(true)),
        ensures
            satisfies(m, self.formula@),
    {
        let f = self.formula@;
        assert forall|i: int| 0 <= i < f.len() implies clause_true(m, #[trigger] f[i]) by {
            let c = self.clauses@[i]@;
            assert(same_lits(f[i], c));
            assert(lits_below(c, self.num_vars as int));
            if f[i].len() == 1 {
                assert(f[i].contains(f[i][0]));
                assert(c.contains(f[i][0]));
                assert(lit_true(m, f[i][0]));
            } else {
                assert(c[0].var < self.num_vars && c[1].var < self.num_vars);
                assert(self.assign@[c[0].var as int].is_some());
                assert(self.assign@[c[1].var as int].is_some());
                if is_false(self.assign@, self.clauses@[i]@[0]) {
                    assert(guarded(self.assign@, self.level@, self.clauses@[i]@, 0));
                    assert(c.contains(c[1]) && lit_true(m, c[1]));
                } else {
                    assert(m[c[0].var as int] == (self.assign@[c[0].var as int] == Some(true)));
                    let b = self.assign@[c[0].var as int]->0;
                    assert(self.assign@[c[0].var as int] == Some(b));
                    assert(b != c[0].neg);
                    assert(m[c[0].var as int] == b);
                    assert(c.contains(c[0]));
                }
                logic::lemma_same_lits_true(m, f[i], c);
            }
        }
    }

    /// Assert the clauses of one literal and propagate; `false` when the formula is
    /// refuted already.
    fn assert_units(&mut self) -> (ok: bool)
        requires
            old(self).fresh() || old(self).settled(),
        ensures
            final(self).formula == old(self).formula,
            final(self).num_vars == old(self).num_vars,
            old(self).settled() ==> ok && *final(self) == *old(self),
            old(self).fresh() && ok ==> final(self).settled() && final(self).paced(0) && final(self).trail_lim@.len()
                == 0 && final(self).clauses@.len() == final(self).formula@.len()
                && final(self).pace == old(self).pace,
            !ok ==> unsatisfiable(old(self).num_vars as nat, old(self).formula@) && unit_refuted(
                old(self).formula@,
            ),
    {
        let n: usize = self.num_original;
        let mut ci: usize = 0;
        let ghost again = self.settled();
        proof {
            if !again {
                assert forall|v: int| 0 <= v < self.num_vars implies (
                #[trigger] self.assign@[v]).is_none() by {
                    if self.assign@[v].is_some() {
                        assert(self.trail@.contains(v as u32));
                    }
                }
            }
            let one: u64 = 1;
            assert(one & 0 == 0) by (bit_vector);
        }
        while ci < n
            invariant
                ci <= n <= self.clauses@.len(),
                n == self.formula@.len(),
                again == old(self).settled(),
                again ==> *self == *old(self),
                !again ==> self.trail_lim@.len() == 0 && n == self.clauses@.len(),
                self.coherent(),
                self.quiet(),
                self.same_rest(old(self)),
                watch_inv(self.num_vars as int, self.clauses@, self.watches@),
                watch_sound(self.assign@, self.level@, self.prop_queue@, self.clauses@),
                forall|i: int|
                    0 <= i < ci ==> (#[trigger] self.formula@[i]).len() > 0 && (
                    self.formula@[i].len() == 1 ==> is_true(self.assign@, self.formula@[i][0])
                        && self.level@[self.formula@[i][0].var as int] == 0),
            decreases n - ci,
        {
            assert(same_lits(self.formula@[ci as int], self.clauses@[ci as int]@));
            let len: usize = self.clauses[ci].len();
            proof {
                if again {
                    assert(self.units_hold());
                    assert(self.formula@[ci as int].len() > 0);
                }
            }
            if len == 0 {
                proof {
                    lemma_level_zero_conflict(
                        self.num_vars as int,
                        self.formula@,
                        self.trail@,
                        self.trail_lim@,
                        self.assign@,
                        self.level@,
                        self.reason@,
                        self.clauses@,
                        ci as int,
                    );
                    self.lemma_falsified_by_units(ci as int);
                }
                return false;
            }
            if len == 1 {
                let lit = self.clauses[ci][0];
                let ghost before = *self;
                proof {
                    let c = self.clauses@[ci as int]@;
                    assert(lits_below(c, self.num_vars as int));
                    assert(c.contains(c[0]));
                    assert(self.formula@[ci as int].contains(lit));
                    assert forall|l: Lit| #[trigger] c.contains(l) implies l == lit by {}
                }
                if !self.enqueue(lit, ci) {
                    proof {
                        lemma_level_zero_conflict(
                            self.num_vars as int,
                            self.formula@,
                            self.trail@,
                            self.trail_lim@,
                            self.assign@,
                            self.level@,
                            self.reason@,
                            self.clauses@,
                            ci as int,
                        );
                        self.lemma_falsified_by_units(ci as int);
                    }
                    return false;
                }
                proof {
                    self.lemma_enqueued_sound(&before, lit, ci);
                    if !again {
                        self.lemma_zero_level(lit.var);
                    }
                    assert forall|i: int| 0 <= i < ci + 1 implies (
                    #[trigger] self.formula@[i]).len() > 0 && (self.formula@[i].len() == 1
                        ==> is_true(self.assign@, self.formula@[i][0])
                        && self.level@[self.formula@[i][0].var as int] == 0) by {
                        if i < ci && self.formula@[i].len() == 1 {
                            assert(same_lits(self.formula@[i], self.clauses@[i]@));
                            assert(self.formula@[i].contains(self.formula@[i][0]));
                            assert(lits_below(self.clauses@[i]@, self.num_vars as int));
                            assert(before.assign@[self.formula@[i][0].var as int].is_some());
                        }
                    }
                }
            }
            ci += 1;
        }
        let ghost before = *self;
        match self.propagate() {
            Some(c) => {
                proof {
                    lemma_level_zero_conflict(
                        self.num_vars as int,
                        self.formula@,
                        self.trail@,
                        self.trail_lim@,
                        self.assign@,
                        self.level@,
                        self.reason@,
                        self.clauses@,
                        c as int,
                    );
                    self.lemma_falsified_by_units(c as int);
                }
                false
            },
            None => {
                proof {
                    self.lemma_units_kept(&before);
                }
                true
            },
        }
    }

    /// What is assigned before any decision follows by unit propagation.
    proof fn lemma_trail_derived(&self, i: int)
        requires
            self.coherent(),
            self.trail_lim@.len() == 0,
            self.clauses@.len() == self.formula@.len(),
            0 <= i < self.trail@.len(),
        ensures
            unit_derived(
                self.formula@,
                true_lit(self.assign@, self.trail@[i]),
                (i + 1) as nat,
            ),
        decreases i,
    {
        let f = self.formula@;
        let v = self.trail@[i];
        let l = true_lit(self.assign@, v);
        assert(level_at(self.trail_lim@, self.level@[v as int] as int, i));
        let r = self.reason@[v as int]->0 as int;
        let c = self.clauses@[r]@;
        assert(forces(self.trail@, self.assign@, i, c));
        assert(same_lits(f[r], c));
        assert(f[r].contains(l));
        let k = choose|k: int| 0 <= k < f[r].len() && f[r][k] == l;
        assert forall|j: int| 0 <= j < f[r].len() && j != k implies unit_derived(
            f,
            Lit { var: (#[trigger] f[r][j]).var, neg: !f[r][j].neg },
            i as nat,
        ) by {
            let o = f[r][j];
            assert(f[r].contains(o));
            assert(c.contains(o));
            if o == l {
                if j < k {
                    assert(repeated(f[r], l));
                } else {
                    assert(repeated(f[r], l));
                }
                assert(repeated(c, l));
            }
            if o.var == v {
                assert(is_true(self.assign@, o));
                assert(o == l);
            }
            let p = choose|p: int| 0 <= p < i && self.trail@[p] == o.var;
            self.lemma_trail_derived(p);
            assert(true_lit(self.assign@, o.var) == (Lit { var: o.var, neg: !o.neg }));
            lemma_unit_derived_later(f, true_lit(self.assign@, o.var), (p + 1) as nat, i as nat);
        }
        assert(f[r][k] == l);
    }

    /// A clause that is false before any decision is falsified by unit propagation.
    proof fn lemma_falsified_by_units(&self, ci: int)
        requires
            self.coherent(),
            self.trail_lim@.len() == 0,
            self.clauses@.len() == self.formula@.len(),
            0 <= ci < self.clauses@.len(),
            forall|l: Lit| #[trigger] self.clauses@[ci]@.contains(l) ==> is_false(self.assign@, l),
        ensures
            unit_refuted(self.formula@),
    {
        let f = self.formula@;
        let c = self.clauses@[ci]@;
        assert(same_lits(f[ci], c));
        assert(lits_below(c, self.num_vars as int));
        assert forall|j: int| 0 <= j < f[ci].len() implies unit_false(f, #[trigger] f[ci][j]) by {
            let l = f[ci][j];
            assert(f[ci].contains(l));
            assert(c.contains(l));
            let q = choose|q: int| 0 <= q < c.len() && c[q] == l;
            assert(c[q].var < self.num_vars);
            assert(self.assign@[l.var as int].is_some());
            assert(self.trail@.contains(l.var));
            let i = choose|i: int| 0 <= i < self.trail@.len() && self.trail@[i] == l.var;
            self.lemma_trail_derived(i);
            assert(true_lit(self.assign@, l.var) == opposite(l));
            assert(unit_derived(f, opposite(l), (i + 1) as nat));
        }
        assert(unit_falsified(f, ci));
    }

    /// Where everything is propagated without a conflict, unit propagation falsifies nothing.
    proof fn lemma_not_refuted(&self)
        requires
            self.settled(),
        ensures
            !unit_refuted(self.formula@),
    {
        let f = self.formula@;
        if unit_refuted(f) {
            let i = choose|i: int| 0 <= i < f.len() && #[trigger] unit_falsified(f, i);
            let c = self.clauses@[i]@;
            assert(same_lits(f[i], c));
            assert forall|j: int| 0 <= j < f[i].len() implies is_false(
                self.assign@,
                #[trigger] f[i][j],
            ) by {
                let l = f[i][j];
                assert(unit_false(f, l));
                let n = choose|n: nat| #[trigger] unit_derived(f, opposite(l), n);
                self.lemma_derived_true(opposite(l), n);
            }
            if f[i].len() == 1 {
                assert(is_false(self.assign@, f[i][0]));
            } else {
                assert(c.contains(c[0]) && c.contains(c[1]));
                assert(f[i].contains(c[0]) && f[i].contains(c[1]));
                assert(is_false(self.assign@, self.clauses@[i]@[0]));
                assert(guarded(self.assign@, self.level@, self.clauses@[i]@, 0));
            }
        }
    }

    /// Before any decision, the open variables are those without a value.
    proof fn lemma_open_unassigned(&self, v: u32)
        requires
            self.settled(),
            self.trail_lim@.len() == 0,
            self.clauses@.len() == self.formula@.len(),
            v < self.num_vars,
        ensures
            open_var(self.formula@, v) == self.assign@[v as int].is_none(),
    {
        if self.assign@[v as int].is_none() {
            self.lemma_unassigned_open(v);
        } else {
            assert(self.trail@.contains(v));
            let i = choose|i: int| 0 <= i < self.trail@.len() && self.trail@[i] == v;
            self.lemma_trail_derived(i);
            let l = true_lit(self.assign@, v);
            assert(unit_derived(self.formula@, l, (i + 1) as nat));
            assert(l == (Lit { var: v, neg: false }) || l == (Lit { var: v, neg: true }));
        }
    }

    /// What held of the one-literal clauses still holds where level 0 was kept.
    proof fn lemma_units_kept(&self, o: &Solver)
        requires
            o.coherent(),
            o.units_hold(),
            self.formula == o.formula,
            self.num_vars == o.num_vars,
            forall|v: int|
                0 <= v < o.num_vars && (#[trigger] o.assign@[v]).is_some() && o.level@[v] == 0
                    ==> self.assign@[v] == o.assign@[v] && self.level@[v] == 0,
        ensures
            self.units_hold(),
    {
        assert forall|i: int| 0 <= i < self.formula@.len() implies (
        #[trigger] self.formula@[i]).len() > 0 && (self.formula@[i].len() == 1 ==> is_true(
            self.assign@,
            self.formula@[i][0],
        ) && self.level@[self.formula@[i][0].var as int] == 0) by {
            if self.formula@[i].len() == 1 {
                assert(same_lits(o.formula@[i], o.clauses@[i]@));
                assert(o.formula@[i].contains(o.formula@[i][0]));
                assert(lits_below(o.clauses@[i]@, o.num_vars as int));
                assert(o.assign@[o.formula@[i][0].var as int].is_some());
            }
        }
    }

    proof fn lemma_zero_level(&self, v: u32)
        requires
            self.coherent(),
            self.trail_lim@.len() == 0,
            v < self.num_vars,
            self.assign@[v as int].is_some(),
        ensures
            self.level@[v as int] == 0,
    {
        assert(self.trail@.contains(v));
        let i = choose|i: int| 0 <= i < self.trail@.len() && self.trail@[i] == v;
        assert(level_at(self.trail_lim@, self.level@[self.trail@[i] as int] as int, i));
    }

    proof fn lemma_enqueued_sound(&self, o: &Solver, lit: Lit, reason: usize)
        requires
            o.coherent(),
            self.coherent(),
            lit.var < o.num_vars,
            self.same_rest(o),
            self.clauses == o.clauses,
            self.same_assignment(o) || self.assigned(o, lit, Some(reason)),
            self.grown(o),
            watch_sound(o.assign@, o.level@, o.prop_queue@, o.clauses@),
        ensures
            watch_sound(self.assign@, self.level@, self.prop_queue@, self.clauses@),
    {
        let cls = self.clauses@;
        assert forall|c: int, i: int|
            0 <= c < cls.len() && cls[c]@.len() >= 2 && 0 <= i < 2 && is_false(
                self.assign@,
                #[trigger] cls[c]@[i],
            ) && !self.prop_queue@.contains(cls[c]@[i].var) implies guarded(
            self.assign@,
            self.level@,
            cls[c]@,
            i,
        ) by {
            assert(lits_below(cls[c]@, self.num_vars as int));
            assert(cls[c]@[i].var < self.num_vars && cls[c]@[1 - i].var < self.num_vars);
            if !self.same_assignment(o) {
                assert(self.prop_queue@[self.prop_queue@.len() - 1] == lit.var);
                assert(cls[c]@[i].var != lit.var);
                if o.prop_queue@.contains(cls[c]@[i].var) {
                    let k = choose|k: int|
                        0 <= k < o.prop_queue@.len() && o.prop_queue@[k] == cls[c]@[i].var;
                    assert(self.prop_queue@[k] == cls[c]@[i].var);
                }
            }
            assert(guarded(o.assign@, o.level@, o.clauses@[c]@, i));
            assert(o.assign@[o.clauses@[c]@[1 - i].var as int].is_some());
        }
    }

    /// Return to level 0 when enough conflicts have passed, and forget learnt clauses
    /// when there are too many.
    fn restart_if_due(&mut self, Ghost(used): Ghost<int>)
        requires
            old(self).settled(),
            old(self).paced(used),
            used <= u64::MAX,
        ensures
            final(self).settled(),
            final(self).paced(used),
            final(self).formula == old(self).formula,
            final(self).num_vars == old(self).num_vars,
            !old(self).due() ==> *final(self) == *old(self),
            !final(self).due(),
            *final(self) == *old(self) || (final(self).pace.restarts == old(self).pace.restarts + 1
                && final(self).pace.conflicts_since_restart == 0 && final(self).trail_lim@.len()
                == 0),
            few(old(self).num_vars as nat, old(self).pace)
                && old(self).pace.conflicts_since_restart <= pow2(old(self).num_vars as nat) - 1
                ==> few(final(self).num_vars as nat, final(self).pace),
    {
        let due: bool = match RESTART_UNIT.checked_mul(self.pace.luby_v) {
            Some(limit) => self.pace.conflicts_since_restart >= limit,
            None => false,
        };
        if self.decision_level() > 0 && due {
            let ghost before = *self;
            proof {
                self.lemma_settled_below();
            }
            self.backtrack_to(0);
            proof {
                self.lemma_units_kept(&before);
                lemma_doubling(before.pace.luby_u, before.pace.luby_v);
            }
            self.pace.conflicts_since_restart = 0;
            self.pace.restarts = self.pace.restarts + 1;
            self.advance_luby();
            proof {
                let n = self.num_vars as nat;
                if few(n, before.pace) && before.pace.conflicts_since_restart <= pow2(n) - 1 {
                    lemma_few_kept(n, before.pace, self.pace);
                }
            }
            let ghost moved = self.pace;
            if self.clauses.len() - self.num_original > self.pace.max_learnt {
                let ghost mid = *self;
                self.reduce_db();
                proof {
                    self.lemma_units_kept(&mid);
                }
                self.pace.max_learnt = match self.pace.max_learnt.checked_add(
                    self.pace.max_learnt / 2,
                ) {
                    Some(m) => m,
                    None => usize::MAX,
                };
            }
            proof {
                if few(self.num_vars as nat, moved) {
                    lemma_few_alike(self.num_vars as nat, moved, self.pace);
                }
            }
        }
    }

    proof fn lemma_settled_below(&self)
        requires
            self.settled(),
        ensures
            watch_sound_below(
                self.assign@,
                self.level@,
                self.clauses@,
                self.trail_lim@.len() as int,
            ),
    {
        let cls = self.clauses@;
        assert forall|c: int, i: int|
            0 <= c < cls.len() && cls[c]@.len() >= 2 && 0 <= i < 2 && is_false(
                self.assign@,
                #[trigger] cls[c]@[i],
            ) && self.level@[cls[c]@[i].var as int] < self.trail_lim@.len() implies guarded(
            self.assign@,
            self.level@,
            cls[c]@,
            i,
        ) by {
            assert(!self.prop_queue@.contains(cls[c]@[i].var));
        }
    }

    /// The restarts are few, and the conflicts since the last one add to the weight of the
    /// trail.
    spec fn bounded(&self) -> bool {
        &&& few(self.num_vars as nat, self.pace)
        &&& self.pace.conflicts_since_restart <= weight(
            self.num_vars as int,
            self.trail_lim@,
            self.trail@.len() as int,
        )
    }

    /// The conflicts and decisions are bounded by the restarts, the conflicts since the last
    /// one and the level.
    spec fn spent(&self, conflicts: int, decisions: int) -> bool {
        let n = self.num_vars as nat;
        &&& 0 <= conflicts <= self.pace.restarts * (pow2(n) - 1)
            + self.pace.conflicts_since_restart
        &&& decisions <= n * (conflicts + self.pace.restarts) + self.trail_lim@.len()
        &&& conflicts + self.trail_lim@.len() <= decisions
    }

    proof fn lemma_within_bound(&self, conflicts: int, decisions: int)
        requires
            self.coherent(),
            self.bounded(),
            self.spent(conflicts, decisions),
        ensures
            decisions + conflicts + 1 <= search_bound(self.num_vars as nat),
            self.pace.conflicts_since_restart <= pow2(self.num_vars as nat) - 1,
            self.trail_lim@.len() <= self.trail@.len() <= self.num_vars,
    {
        let n = self.num_vars as nat;
        lemma_trail_bounds(
            n as int,
            self.trail@,
            self.trail_lim@,
            self.assign@,
            self.level@,
        );
        lemma_weight_bound(n as int, self.trail_lim@, self.trail@.len() as int);
        lemma_few_bound(n, self.pace);
        lemma_effort(
            n,
            self.pace.restarts as int,
            conflicts,
            self.pace.conflicts_since_restart as int,
            decisions,
            self.trail_lim@.len() as int,
        );
    }

    proof fn lemma_restarted(&self, o: &Solver, conflicts: int, decisions: int)
        requires
            o.coherent(),
            o.bounded(),
            o.spent(conflicts, decisions),
            self.coherent(),
            self.num_vars == o.num_vars,
            few(self.num_vars as nat, self.pace),
            self.pace.restarts == o.pace.restarts + 1,
            self.pace.conflicts_since_restart == 0,
            self.trail_lim@.len() == 0,
        ensures
            self.bounded(),
            self.spent(conflicts, decisions),
    {
        let n = self.num_vars as nat;
        o.lemma_within_bound(conflicts, decisions);
        lemma_trail_bounds(n as int, self.trail@, self.trail_lim@, self.assign@, self.level@);
        lemma_weight_bound(n as int, self.trail_lim@, self.trail@.len() as int);
        let p = pow2(n) as int;
        let r = o.pace.restarts as int;
        assert((r + 1) * (p - 1) == r * (p - 1) + (p - 1)) by (nonlinear_arith);
        assert(n * (conflicts + (r + 1)) == n * (conflicts + r) + n) by (nonlinear_arith);
    }

    /// Search for a model, with a clock.
    fn search(&mut self, budget: u64, clock: &mut Clock) -> (r: (SatResult, u64))
        requires
            old(self).ready(),
            old(self).history@.0 + budget <= u64::MAX,
            old(clock).ticks == 0,
            old(clock).readings@.len() == 0,
        ensures
            final(self).formula == old(self).formula,
            final(self).num_vars == old(self).num_vars,
            searched(
                old(self).num_vars as nat,
                old(self).formula@,
                old(self).kept(),
                budget as int,
                r.0,
                r.1 as int,
                final(clock).ticks as int,
                final(clock).readings@,
            ),
            final(clock).regular(),
            final(clock).start == old(clock).start,
            final(clock).given == old(clock).given,
            final(self).history@.0 == old(self).history@.0 + r.1,
            r.0 is Sat || (r.0 is Unknown && !late(final(clock).readings@))
                ==> final(self).resumable(),
            r.0 matches SatResult::Sat(m) ==> keeps_model(final(self).kept(), m@),
    {
        let ghost n = self.num_vars as nat;
        let ghost f = self.formula@;
        let ghost kept = self.kept();
        let ghost (made, met) = self.history@;
        let ghost again = self.resumable();
        proof {
            if !again {
                lemma_few_start(n, self.pace);
                self.lemma_fresh();
            }
        }
        let ok = self.assert_units();
        if !ok {
            self.history = Ghost((made, met));
            return (SatResult::Unsat, 0);
        }
        let mut budget_left: u64 = budget;
        let ghost mut conflicts: int = met;
        let ghost first = *self;
        proof {
            self.lemma_not_refuted();
            lemma_trail_bounds(n as int, self.trail@, self.trail_lim@, self.assign@, self.level@);
            lemma_weight_bound(n as int, self.trail_lim@, self.trail@.len() as int);
            assert forall|v: u32| v < n implies (#[trigger] open_var(f, v)
                && !kept.contains_key(v)) == self.assign@[v as int].is_none() by {
                if again {
                    if self.assign@[v as int].is_none() {
                        self.lemma_unassigned_open(v);
                    }
                } else {
                    self.lemma_open_unassigned(v);
                }
            }
            assert(as_kept(self.assign@, kept));
            if !again {
                assert(self.pace.restarts * (pow2(n) - 1) == 0) by (nonlinear_arith)
                    requires
                        self.pace.restarts == 0,
                ;
            }
            if !some_free(n, f, kept) {
                assert forall|v: int| 0 <= v < n implies (#[trigger] self.assign@[v]).is_some() by {
                    assert(!(open_var(f, v as u32) && !kept.contains_key(v as u32)));
                }
            }
        }
        loop
            invariant
                self.settled(),
                self.paced(made + (budget - budget_left)),
                self.bounded(),
                self.spent(conflicts, made + (budget - budget_left)),
                budget_left <= budget,
                n == self.num_vars,
                f == self.formula@,
                self.formula == old(self).formula,
                self.num_vars == old(self).num_vars,
                clock.regular(),
                clock.in_time(),
                clock.start == old(clock).start,
                clock.given == old(clock).given,
                clock.ticks == (budget - budget_left) + (conflicts - met),
                !unit_refuted(f),
                made + budget <= u64::MAX,
                0 <= met <= conflicts,
                0 <= made,
                kept == old(self).kept(),
                (made, met) == old(self).history@,
                some_free(n, f, kept) || (budget_left == budget && forall|v: int|
                    0 <= v < n ==> (#[trigger] self.assign@[v]).is_some()),
                budget_left == budget ==> !self.due() && self.assign == first.assign,
                as_kept(first.assign@, kept),
                n == first.assign@.len(),
                forall|v: u32|
                    v < n ==> (#[trigger] open_var(f, v) && !kept.contains_key(v))
                        == first.assign@[v as int].is_none(),
            decreases budget_left,
        {
            let ghost before = *self;
            proof {
                self.lemma_within_bound(conflicts, made + (budget - budget_left));
            }
            self.restart_if_due(Ghost(made + (budget - budget_left)));
            proof {
                if *self != before {
                    self.lemma_restarted(&before, conflicts, made + (budget - budget_left));
                }
                self.lemma_within_bound(conflicts, made + (budget - budget_left));
            }
            let v: u32 = match self.pick_branch() {
                None => {
                    let m = self.model();
                    proof {
                        self.lemma_full_is_model(m@);
                        if budget == 0 && some_free(n, f, kept) {
                            let w = choose|w: u32|
                                w < n && #[trigger] open_var(f, w) && !kept.contains_key(w);
                            assert(self.assign@[w as int].is_none());
                        }
                    }
                    self.history = Ghost((made + (budget - budget_left), conflicts));
                    return (SatResult::Sat(m), budget - budget_left);
                },
                Some(v) => v,
            };
            assert(self.assign@[v as int].is_none());
            if budget_left == 0 {
                self.history = Ghost((made + (budget - budget_left), conflicts));
                return (SatResult::Unknown, budget);
            }
            budget_left = budget_left - 1;
            if clock.timed_out() {
                self.history = Ghost((made + (budget - budget_left), conflicts));
                return (SatResult::Unknown, budget - budget_left);
            }
            let ghost chosen = *self;
            self.decide(v);
            proof {
                self.lemma_units_kept(&chosen);
                lemma_weight_opened(n as int, chosen.trail_lim@, chosen.trail@.len() as usize);
            }
            let ghost decided = *self;
            let mut conflict = self.propagate();
            proof {
                self.lemma_units_kept(&decided);
                self.lemma_weight_kept(&decided);
            }
            while conflict.is_some()
                invariant
                    self.coherent(),
                    self.quiet(),
                    self.units_hold(),
                    watch_inv(self.num_vars as int, self.clauses@, self.watches@),
                    self.paced(made + (budget - budget_left)),
                    self.bounded(),
                    self.spent(conflicts, made + (budget - budget_left)),
                    budget_left < budget,
                    n == self.num_vars,
                    f == self.formula@,
                    self.formula == old(self).formula,
                    self.num_vars == old(self).num_vars,
                    clock.regular(),
                    clock.in_time(),
                    clock.start == old(clock).start,
                    clock.given == old(clock).given,
                    clock.ticks == (budget - budget_left) + (conflicts - met),
                    !unit_refuted(f),
                    some_free(n, f, kept),
                    made + budget <= u64::MAX,
                    0 <= met <= conflicts,
                    0 <= made,
                    kept == old(self).kept(),
                    (made, met) == old(self).history@,
                    match conflict {
                        None => {
                            &&& self.prop_queue@.len() == 0
                            &&& watch_sound(
                                self.assign@,
                                self.level@,
                                self.prop_queue@,
                                self.clauses@,
                            )
                        },
                        Some(ci) => {
                            &&& self.falsified(ci as int)
                            &&& watch_sound_below(
                                self.assign@,
                                self.level@,
                                self.clauses@,
                                self.trail_lim@.len() as int,
                            )
                        },
                    },
                decreases self.trail_lim@.len() + if conflict.is_some() { 1int } else { 0int },
            {
                if let Some(ci) = conflict {
                    proof {
                        self.lemma_within_bound(conflicts, made + (budget - budget_left));
                    }
                    if self.trail_lim.len() == 0 {
                        proof {
                            lemma_level_zero_conflict(
                                self.num_vars as int,
                                self.formula@,
                                self.trail@,
                                self.trail_lim@,
                                self.assign@,
                                self.level@,
                                self.reason@,
                                self.clauses@,
                                ci as int,
                            );
                        }
                        self.history = Ghost((made + (budget - budget_left), conflicts));
                        return (SatResult::Unsat, budget - budget_left);
                    }
                    if clock.timed_out() {
                        self.history = Ghost((made + (budget - budget_left), conflicts));
                        return (SatResult::Unknown, budget - budget_left);
                    }
                    let (learnt, btlevel, lbd) = self.analyze(ci);
                    let ghost analyzed = *self;
                    self.learn(learnt, btlevel, lbd);
                    proof {
                        self.lemma_units_kept(&analyzed);
                        lemma_weight_learnt(
                            n as int,
                            analyzed.trail_lim@,
                            analyzed.trail@.len() as int,
                            btlevel as int,
                        );
                        lemma_conflict_effort(
                            n as int,
                            conflicts,
                            self.pace.restarts as int,
                            made + (budget - budget_left),
                            analyzed.trail_lim@.len() as int,
                            btlevel as int,
                        );
                        conflicts = conflicts + 1;
                    }
                    self.pace.conflicts_since_restart = self.pace.conflicts_since_restart + 1;
                    let ghost learned = *self;
                    proof {
                        lemma_few_alike(n, analyzed.pace, self.pace);
                    }
                    conflict = self.propagate();
                    proof {
                        self.lemma_units_kept(&learned);
                        self.lemma_weight_kept(&learned);
                    }
                }
            }
        }
    }

    /// Propagation takes nothing from the weight of the trail.
    proof fn lemma_weight_kept(&self, o: &Solver)
        requires
            self.coherent(),
            self.same_rest(o),
            self.grown(o),
            o.bounded(),
        ensures
            self.bounded(),
    {
        let n = self.num_vars as int;
        lemma_trail_bounds(n, self.trail@, self.trail_lim@, self.assign@, self.level@);
        lemma_weight_grows(n, self.trail_lim@, o.trail@.len() as int, self.trail@.len() as int);
    }

    /// Decide the formula, spending at most `budget` decisions and a quarter of a second.
    pub fn solve(&mut self, budget: u64) -> (r: SatResult)
        requires
            old(self).ready(),
            old(self).decisions_so_far() + budget <= u64::MAX,
        ensures
            final(self).formula() == old(self).formula(),
            final(self).vars() == old(self).vars(),
            searched(
                old(self).vars(),
                old(self).formula(),
                old(self).kept(),
                budget as int,
                r,
                final(self).decision_count() as int,
                final(self).tick_count() as int,
                final(self).clock_readings(),
            ),
            old(self).vars() <= 6 && DEFAULT_BUDGET <= budget ==> !(r is Unknown),
            final(self).decisions_so_far() == old(self).decisions_so_far()
                + final(self).decision_count(),
            r is Sat || (r is Unknown && !late(final(self).clock_readings()))
                ==> final(self).ready(),
            r matches SatResult::Sat(m) ==> keeps_model(final(self).kept(), m@),
    {
        let none: Vec<u128> = Vec::new();
        let mut clock = Clock {
            start: Some(std::time::Instant::now()),
            given: &none,
            ticks: 0,
            readings: Vec::new(),
        };
        let (r, decisions) = self.search(budget, &mut clock);
        self.effort = Effort { decisions, ticks: clock.ticks, readings: clock.readings };
        proof {
            if self.vars() <= 6 && DEFAULT_BUDGET <= budget {
                small_formulas_are_decided(
                    self.vars(),
                    self.formula(),
                    old(self).kept(),
                    budget as int,
                    r,
                    decisions as int,
                    self.tick_count() as int,
                    self.clock_readings(),
                );
            }
        }
        r
    }

    /// Decide the formula like `solve`, where the readings of the clock are given.
    pub fn solve_timed(&mut self, budget: u64, clock: &Vec<u128>) -> (r: SatResult)
        requires
            old(self).ready(),
            old(self).decisions_so_far() + budget <= u64::MAX,
        ensures
            final(self).formula() == old(self).formula(),
            final(self).vars() == old(self).vars(),
            searched(
                old(self).vars(),
                old(self).formula(),
                old(self).kept(),
                budget as int,
                r,
                final(self).decision_count() as int,
                final(self).tick_count() as int,
                final(self).clock_readings(),
            ),
            as_given(final(self).clock_readings(), clock@),
            old(self).vars() <= 6 && DEFAULT_BUDGET <= budget ==> !(r is Unknown),
            final(self).decisions_so_far() == old(self).decisions_so_far()
                + final(self).decision_count(),
            r is Sat || (r is Unknown && !late(final(self).clock_readings()))
                ==> final(self).ready(),
            r matches SatResult::Sat(m) ==> keeps_model(final(self).kept(), m@),
    {
        let mut own = Clock { start: None, given: clock, ticks: 0, readings: Vec::new() };
        let (r, decisions) = self.search(budget, &mut own);
        self.effort = Effort { decisions, ticks: own.ticks, readings: own.readings };
        proof {
            if self.vars() <= 6 && DEFAULT_BUDGET <= budget {
                small_formulas_are_decided(
                    self.vars(),
                    self.formula(),
                    old(self).kept(),
                    budget as int,
                    r,
                    decisions as int,
                    self.tick_count() as int,
                    self.clock_readings(),
                );
            }
        }
        r
    }

    proof fn lemma_unassigned_open(&self, v: u32)
        requires
            self.settled(),
            v < self.num_vars,
            self.assign@[v as int].is_none(),
        ensures
            open_var(self.formula@, v),
    {
        assert forall|n: nat| !unit_derived(self.formula@, Lit { var: v, neg: false }, n) by {
            if unit_derived(self.formula@, Lit { var: v, neg: false }, n) {
                self.lemma_derived_true(Lit { var: v, neg: false }, n);
            }
        }
        assert forall|n: nat| !unit_derived(self.formula@, Lit { var: v, neg: true }, n) by {
            if unit_derived(self.formula@, Lit { var: v, neg: true }, n) {
                self.lemma_derived_true(Lit { var: v, neg: true }, n);
            }
        }
    }
}

// ---- laws ----

/// A budget above the bound decides, where the bound leaves no time to read the clock.
pub proof fn enough_budget_decides(
    vars: nat,
    f: Seq<Seq<Lit>>,
    kept: Map<u32, bool>,
    budget: int,
    r: SatResult,
    decisions: int,
    ticks: int,
    readings: Seq<u128>,
)
    requires
        searched(vars, f, kept, budget, r, decisions, ticks, readings),
        search_bound(vars) < budget,
        search_bound(vars) < 8192,
    ensures
        !(r is Unknown),
{
}

/// Formulas over at most six variables are decided with the default budget or a larger one.
pub proof fn small_formulas_are_decided(
    vars: nat,
    f: Seq<Seq<Lit>>,
    kept: Map<u32, bool>,
    budget: int,
    r: SatResult,
    decisions: int,
    ticks: int,
    readings: Seq<u128>,
)
    requires
        searched(vars, f, kept, budget, r, decisions, ticks, readings),
        DEFAULT_BUDGET <= budget,
        vars <= 6,
    ensures
        !(r is Unknown),
        r is Unsat <==> unsatisfiable(vars, f),
{
    vstd::arithmetic::power2::lemma2_to64();
    assert(search_bound(0) == (0 + 1) * (1 * 1));
    assert(search_bound(1) == (0 + 1) * (2 * 2));
    assert(search_bound(2) == (0 + 1) * (3 * 4));
    assert(search_bound(3) == (0 + 1) * (4 * 8));
    assert(search_bound(4) == (0 + 1) * (5 * 16));
    assert(search_bound(5) == (1 * 1 + 1) * (6 * 32));
    assert(search_bound(6) == (2 * 2 + 1) * (7 * 64));
    enough_budget_decides(vars, f, kept, budget, r, decisions, ticks, readings);
}

/// A model that was found is found again, without a decision.
pub proof fn a_second_search_keeps_the_model(
    vars: nat,
    f: Seq<Seq<Lit>>,
    m: Seq<bool>,
    kept: Map<u32, bool>,
    budget: int,
    r: SatResult,
    decisions: int,
    ticks: int,
    readings: Seq<u128>,
)
    requires
        m.len() == vars,
        vars <= u32::MAX,
        satisfies(m, f),
        keeps_model(kept, m),
        searched(vars, f, kept, budget, r, decisions, ticks, readings),
    ensures
        r is Sat,
        r->Sat_0@ == m,
        decisions == 0,
{
    assert(!(r is Unsat));
    assert(!some_free(vars, f, kept));
    let n = r->Sat_0@;
    assert forall|v: int| 0 <= v < vars implies n[v] == m[v] by {
        assert(kept.contains_key(v as u32));
    }
    assert(n =~= m);
}

} // verus!
