//! The bookkeeping of an exploration: fresh variables, questions to a solver, and what
//! was decided.
//!
//! An exploration is a function of the answers to its questions. Where it needs an answer
//! that it was not given, it notes the question; what it does after that does not count.

use crate::exec::value::{premises, PathState, PathView};
use crate::expr::{
    conj, goal_has_param, goal_is_genuine, is_param, mentions, mk_bool, mk_conj, mk_not, negation,
    not_genuine, truth, Ex, Expr, Symbol,
};
use crate::ir::{Assumption, BlockId, SafetyProperty};
use std::rc::Rc;
use vstd::prelude::*;

verus! {

/// How a goal was proved.
#[derive(Debug, Clone, Copy, PartialEq, Eq, Structural)]
pub enum ProofMethod {
    /// Exactly, for every machine value.
    BitPrecise,
    /// Over unbounded integers, under the assumption that nothing overflows.
    Linear,
}

/// A model that a solver found, by its number.
#[derive(Debug, Clone, Copy, PartialEq, Eq, Structural)]
pub struct ModelId(pub u32);

/// What is asked.
#[derive(Debug, Clone, Copy, PartialEq, Eq, Structural)]
pub enum QueryKind {
    /// How the premises imply the goal, if that can be shown.
    Method,
    /// Whether the premises imply the goal for every machine value.
    Exact,
    /// A model of the premises in which the goal is false.
    Witness,
    /// Whether the time is up.
    Clock,
}

/// A question.
#[derive(Debug)]
pub struct Query {
    pub kind: QueryKind,
    pub premises: Vec<Ex>,
    pub goal: Ex,
}

/// A question as a mathematical value.
pub struct QueryView {
    pub kind: QueryKind,
    pub premises: Seq<Ex>,
    pub goal: Ex,
}

impl View for Query {
    type V = QueryView;

    open spec fn view(&self) -> QueryView {
        QueryView { kind: self.kind, premises: self.premises@, goal: self.goal }
    }
}

/// An answer.
#[derive(Debug, Clone, Copy, PartialEq, Eq, Structural)]
pub enum Answer {
    Method(Option<ProofMethod>),
    Exact(bool),
    Witness(Option<ModelId>),
    Clock(bool),
}

/// The outcome of deciding a goal on one path.
#[derive(Debug, Clone, Copy, PartialEq, Eq, Structural)]
pub enum Decision {
    Proven,
    Unknown,
    Refuted(ModelId),
}

/// When a goal may be refuted.
#[derive(Debug, Clone, Copy, PartialEq, Eq, Structural)]
pub enum RefuteMode {
    Off,
    /// Where it is violated by every input that reaches it.
    Definite,
    /// Where it is violated by some input that reaches it.
    Possible,
}

/// A memory obligation: the instruction and the property.
#[derive(Debug, Clone, Copy, PartialEq, Eq, Structural)]
pub struct Site {
    pub block: BlockId,
    pub index: usize,
    pub prop: SafetyProperty,
}

/// An explicit check: the instruction.
#[derive(Debug, Clone, Copy, PartialEq, Eq, Structural)]
pub struct Check {
    pub block: BlockId,
    pub index: usize,
}

/// What is known of a memory obligation over all paths so far.
#[derive(Debug, Clone, Copy)]
pub struct MemAgg {
    pub all_proven: bool,
    pub refutation: Option<ModelId>,
    /// What is shown.
    pub predicate: &'static str,
    /// Why it is not shown.
    pub residual: &'static str,
}

/// What is known of an explicit check over all paths so far.
#[derive(Debug, Clone, Copy)]
pub struct ScalarAgg {
    pub all_proven: bool,
    pub refutation: Option<ModelId>,
}

/// The last entry of each key.
pub open spec fn assoc<K, V>(s: Seq<(K, V)>) -> Map<K, V>
    decreases s.len(),
{
    if s.len() == 0 {
        Map::empty()
    } else {
        assoc(s.drop_last()).insert(s.last().0, s.last().1)
    }
}

/// What a table says of a key.
pub open spec fn of<K, V>(m: Map<K, V>, k: K) -> Option<V> {
    if m.contains_key(k) {
        Some(m[k])
    } else {
        None
    }
}

/// Adding an entry replaces what stood under its key.
pub proof fn lemma_assoc_push<K, V>(s: Seq<(K, V)>, e: (K, V))
    ensures
        assoc(s.push(e)) == assoc(s).insert(e.0, e.1),
{
    assert(s.push(e).drop_last() =~= s);
}

/// What is decided: a memory obligation or an explicit check.
pub enum Owed {
    Memory(Site),
    Explicit(Check),
}

/// What a decision on a path rests on: the premises of the path, and the goals that were to be
/// shown from them. There are no goals where the state of the path decides.
#[verifier::ext_equal]
pub struct Grounds {
    pub premises: Seq<Ex>,
    pub goals: Seq<Ex>,
}

/// The decision of an obligation on one path.
#[verifier::ext_equal]
pub struct Visit {
    pub owed: Owed,
    pub grounds: Grounds,
    pub proven: bool,
    /// The model that refutes it.
    pub witness: Option<ModelId>,
}

/// Goals on a path.
pub open spec fn grounds(s: PathView, goals: Seq<Ex>) -> Grounds {
    Grounds { premises: premises(s), goals }
}

/// The state of the path decides.
pub open spec fn no_goals() -> Grounds {
    Grounds { premises: Seq::empty(), goals: Seq::empty() }
}

/// The state of the path is a violation: nothing would do but that the path has no execution.
pub open spec fn violation(s: PathView) -> Grounds {
    grounds(s, seq![truth(false)])
}

/// The model that a decision refutes with.
pub open spec fn witness_of(d: Decision) -> Option<ModelId> {
    match d {
        Decision::Refuted(w) => Some(w),
        _ => None,
    }
}

/// The state of an exploration.
pub struct Machine<'a> {
    pub fresh: u64,
    pub answers: &'a Vec<Answer>,
    pub used: usize,
    pub pending: Option<Query>,
    pub scalar: Vec<(Check, ScalarAgg)>,
    pub mem: Vec<(Site, MemAgg)>,
    pub assumed: Vec<Assumption>,
    pub fields: Vec<((usize, u32), u64)>,
    pub frontier: Vec<(usize, u64)>,
    pub truncated: bool,
    pub bug_finding: bool,
    pub exported: bool,
    pub dialogue: Ghost<Seq<(QueryView, Answer)>>,
    pub visits: Ghost<Seq<Visit>>,
}

/// The state of an exploration as a mathematical value.
#[verifier::ext_equal]
pub struct MachineView {
    /// The number of the next fresh variable.
    pub fresh: u64,
    pub answers: Seq<Answer>,
    /// How many answers were used.
    pub used: int,
    /// The question that was not answered.
    pub pending: Option<QueryView>,
    pub scalar: Map<Check, ScalarAgg>,
    pub mem: Map<Site, MemAgg>,
    pub assumed: Set<Assumption>,
    /// The offset of each field of each region.
    pub fields: Map<(usize, u32), u64>,
    /// The end of the fields of each region.
    pub frontier: Map<usize, u64>,
    pub truncated: bool,
    pub bug_finding: bool,
    pub exported: bool,
    /// The questions that were answered, with their answers.
    pub dialogue: Seq<(QueryView, Answer)>,
    /// The decisions of obligations, in the order in which they were made.
    pub visits: Seq<Visit>,
}

impl<'a> View for Machine<'a> {
    type V = MachineView;

    open spec fn view(&self) -> MachineView {
        MachineView {
            fresh: self.fresh,
            answers: self.answers@,
            used: self.used as int,
            pending: match self.pending {
                Some(q) => Some(q@),
                None => None,
            },
            scalar: assoc(self.scalar@),
            mem: assoc(self.mem@),
            assumed: self.assumed@.to_set(),
            fields: assoc(self.fields@),
            frontier: assoc(self.frontier@),
            truncated: self.truncated,
            bug_finding: self.bug_finding,
            exported: self.exported,
            dialogue: self.dialogue@,
            visits: self.visits@,
        }
    }
}

// ---- fresh variables ----

/// After one more variable; where no number is left, the exploration is cut short.
pub open spec fn after_fresh(m: MachineView) -> MachineView {
    if m.fresh < u64::MAX {
        MachineView { fresh: (m.fresh + 1) as u64, ..m }
    } else {
        MachineView { truncated: true, ..m }
    }
}

/// A variable.
pub open spec fn symbol(name: Symbol, width: u32) -> Ex {
    Rc::new(Expr::Sym { name, width })
}

/// A variable of which nothing is known.
pub open spec fn fresh_scalar(m: MachineView, width: u32) -> (MachineView, Ex) {
    (after_fresh(m), symbol(Symbol::Fresh(m.fresh), width))
}

/// A variable for a counter that takes every value its loop guard admits.
pub open spec fn fresh_induction(m: MachineView, width: u32) -> (MachineView, Ex) {
    (after_fresh(m), symbol(Symbol::Ind(m.fresh), width))
}

/// A variable for untrusted user data.
pub open spec fn fresh_genuine(m: MachineView, width: u32) -> (MachineView, Ex) {
    (after_fresh(m), symbol(Symbol::User(m.fresh), width))
}

// ---- questions ----

/// After a question, and its answer where there is one.
pub open spec fn asked(m: MachineView, q: QueryView) -> (MachineView, Option<Answer>) {
    if m.used < m.answers.len() {
        (
            MachineView {
                used: m.used + 1,
                dialogue: m.dialogue.push((q, m.answers[m.used])),
                ..m
            },
            Some(m.answers[m.used]),
        )
    } else {
        (
            MachineView {
                pending: match m.pending {
                    Some(p) => Some(p),
                    None => Some(q),
                },
                ..m
            },
            None,
        )
    }
}

/// After noting what a proof rests on.
pub open spec fn assuming(m: MachineView, a: Assumption) -> MachineView {
    MachineView { assumed: m.assumed.insert(a), ..m }
}

/// After an attempt to prove a goal on a path, and whether it was proved. A proof over
/// unbounded integers rests on their not overflowing.
pub open spec fn proving(m: MachineView, s: PathView, goal: Ex) -> (MachineView, bool) {
    let (m1, a) = asked(
        m,
        QueryView { kind: QueryKind::Method, premises: premises(s), goal },
    );
    match a {
        Some(Answer::Method(Some(ProofMethod::BitPrecise))) => (m1, true),
        Some(Answer::Method(Some(ProofMethod::Linear))) => (
            assuming(m1, Assumption::LinearNoOverflow),
            true,
        ),
        _ => (m1, false),
    }
}

/// After an attempt to prove goals from the one at `i` on, up to the first that is not
/// proved.
pub open spec fn proving_all(m: MachineView, s: PathView, goals: Seq<Ex>, i: int) -> (
    MachineView,
    bool,
)
    decreases goals.len() - i,
{
    if i < 0 || i >= goals.len() {
        (m, true)
    } else {
        let (m1, ok) = proving(m, s, goals[i]);
        if ok {
            proving_all(m1, s, goals, i + 1)
        } else {
            (m1, false)
        }
    }
}

/// Whether the premises of a path imply a goal for every machine value.
pub open spec fn implied(m: MachineView, premises: Seq<Ex>, goal: Ex) -> (MachineView, bool) {
    let (m1, a) = asked(m, QueryView { kind: QueryKind::Exact, premises, goal });
    (m1, a == Some(Answer::Exact(true)))
}

/// A model of premises in which a goal is false.
pub open spec fn counterexample(m: MachineView, premises: Seq<Ex>, goal: Ex) -> (
    MachineView,
    Option<ModelId>,
) {
    let (m1, a) = asked(m, QueryView { kind: QueryKind::Witness, premises, goal });
    match a {
        Some(Answer::Witness(w)) => (m1, w),
        _ => (m1, None),
    }
}

/// Whether the branch under a condition has no execution on a path.
pub open spec fn infeasible(m: MachineView, s: PathView, cond: Ex) -> (MachineView, bool) {
    implied(m, premises(s), negation(cond))
}

/// Whether the time is up.
pub open spec fn time_up(m: MachineView) -> (MachineView, bool) {
    let (m1, a) = asked(
        m,
        QueryView { kind: QueryKind::Clock, premises: Seq::empty(), goal: truth(true) },
    );
    (m1, a == Some(Answer::Clock(true)))
}

/// A model in which goals are violated; for a definite violation only where they can never
/// hold.
pub open spec fn refuting(
    m: MachineView,
    s: PathView,
    goals: Seq<Ex>,
    mode: RefuteMode,
    extra: Seq<Ex>,
) -> (MachineView, Option<ModelId>) {
    let ps = premises(s) + extra;
    if mode == RefuteMode::Definite {
        let (m1, never) = implied(m, ps, negation(conj(goals)));
        if never {
            counterexample(m1, ps, conj(goals))
        } else {
            (m1, None)
        }
    } else {
        counterexample(m, ps, conj(goals))
    }
}

/// Some goal depends on a parameter.
pub open spec fn some_param(goals: Seq<Ex>) -> bool {
    exists|i: int| 0 <= i < goals.len() && mentions(#[trigger] goals[i], |s: Symbol| is_param(s))
}

/// Every goal depends on genuine inputs alone.
pub open spec fn all_genuine(goals: Seq<Ex>, exported: bool) -> bool {
    forall|i: int|
        0 <= i < goals.len() ==> !mentions(
            #[trigger] goals[i],
            |s: Symbol| not_genuine(s, exported),
        )
}

/// Goals may be refuted: on an exact path, unless an internal function's parameter could
/// be chosen freely; or when looking for bugs, where only genuine inputs matter.
pub open spec fn may_refute(m: MachineView, s: PathView, goals: Seq<Ex>, mode: RefuteMode) -> bool {
    mode != RefuteMode::Off && ((s.exact && (m.exported || !some_param(goals))) || (m.bug_finding
        && mode == RefuteMode::Possible && all_genuine(goals, m.exported)))
}

/// Whether goals hold on a path. `extra` are premises for a refutation alone.
pub open spec fn deciding(
    m: MachineView,
    s: PathView,
    goals: Seq<Ex>,
    mode: RefuteMode,
    extra: Seq<Ex>,
) -> (MachineView, Decision) {
    let (m1, ok) = proving_all(m, s, goals, 0);
    if ok {
        (m1, Decision::Proven)
    } else if may_refute(m1, s, goals, mode) {
        match refuting(m1, s, goals, mode, extra) {
            (m2, Some(w)) => (m2, Decision::Refuted(w)),
            (m2, None) => (m2, Decision::Unknown),
        }
    } else {
        (m1, Decision::Unknown)
    }
}

/// A model that reaches the end of a path.
pub open spec fn reaching(m: MachineView, s: PathView) -> (MachineView, Option<ModelId>) {
    if !s.exact && !m.bug_finding {
        (m, None)
    } else {
        counterexample(m, premises(s), truth(false))
    }
}

// ---- records ----

/// A memory obligation before it was decided on any path.
pub open spec fn undecided(predicate: &'static str, residual: &'static str) -> MemAgg {
    MemAgg { all_proven: true, refutation: None, predicate, residual }
}

/// What is known of an obligation, or the given start.
pub open spec fn known(m: MachineView, site: Site, start: MemAgg) -> MemAgg {
    match of(m.mem, site) {
        Some(a) => a,
        None => start,
    }
}

/// After an obligation is proved or left open on a path.
pub open spec fn recorded(
    m: MachineView,
    site: Site,
    proven: bool,
    predicate: &'static str,
    residual: &'static str,
) -> MachineView {
    let a = known(m, site, undecided(predicate, residual));
    MachineView {
        mem: m.mem.insert(site, MemAgg { all_proven: a.all_proven && proven, ..a }),
        visits: m.visits.push(
            Visit { owed: Owed::Memory(site), grounds: no_goals(), proven, witness: None },
        ),
        ..m
    }
}

/// The first refutation counts.
pub open spec fn first_of(a: Option<ModelId>, w: ModelId) -> Option<ModelId> {
    match a {
        Some(x) => Some(x),
        None => Some(w),
    }
}

/// What is known of an obligation after a decision on one more path.
pub open spec fn decided_on(a: MemAgg, d: Decision) -> MemAgg {
    match d {
        Decision::Proven => a,
        Decision::Unknown => MemAgg { all_proven: false, ..a },
        Decision::Refuted(w) => MemAgg {
            all_proven: false,
            refutation: first_of(a.refutation, w),
            ..a
        },
    }
}

/// After an obligation is decided on a path.
pub open spec fn recorded_mem(
    m: MachineView,
    g: Grounds,
    site: Site,
    d: Decision,
    predicate: &'static str,
    residual: &'static str,
) -> MachineView {
    let a = known(m, site, undecided(predicate, residual));
    MachineView {
        mem: m.mem.insert(site, decided_on(a, d)),
        visits: m.visits.push(
            Visit {
                owed: Owed::Memory(site),
                grounds: g,
                proven: d is Proven,
                witness: witness_of(d),
            },
        ),
        ..m
    }
}

/// After a temporal obligation: a violation is refuted where the path is reached.
pub open spec fn recorded_temporal(
    m: MachineView,
    s: PathView,
    site: Site,
    violated: bool,
    predicate: &'static str,
    residual: &'static str,
) -> MachineView {
    if !violated {
        recorded(m, site, true, predicate, residual)
    } else {
        match reaching(m, s) {
            (m1, Some(w)) => recorded_mem(
                m1,
                violation(s),
                site,
                Decision::Refuted(w),
                predicate,
                residual,
            ),
            (m1, None) => recorded(m1, site, false, predicate, residual),
        }
    }
}

/// After a read of memory that was never written, on a path that is reached.
pub open spec fn recorded_uninit(m: MachineView, g: Grounds, site: Site, w: ModelId) -> MachineView {
    let a = known(m, site, undecided("", ""));
    MachineView {
        mem: m.mem.insert(
            site,
            MemAgg {
                all_proven: false,
                refutation: first_of(a.refutation, w),
                predicate: "reads initialized memory",
                residual: "reads uninitialized (never-written) freshly-allocated memory",
            },
        ),
        visits: m.visits.push(
            Visit { owed: Owed::Memory(site), grounds: g, proven: false, witness: Some(w) },
        ),
        ..m
    }
}

/// What is known of an explicit check after a decision on one more path.
pub open spec fn scalar_decided(a: ScalarAgg, d: Decision) -> ScalarAgg {
    match d {
        Decision::Proven => a,
        Decision::Unknown => ScalarAgg { all_proven: false, ..a },
        Decision::Refuted(w) => ScalarAgg {
            all_proven: false,
            refutation: first_of(a.refutation, w),
        },
    }
}

/// After an explicit check is decided on a path.
pub open spec fn recorded_scalar(m: MachineView, g: Grounds, c: Check, d: Decision) -> MachineView {
    let a = match of(m.scalar, c) {
        Some(a) => a,
        None => ScalarAgg { all_proven: true, refutation: None },
    };
    MachineView {
        scalar: m.scalar.insert(c, scalar_decided(a, d)),
        visits: m.visits.push(
            Visit {
                owed: Owed::Explicit(c),
                grounds: g,
                proven: d is Proven,
                witness: witness_of(d),
            },
        ),
        ..m
    }
}

// ---- fields ----

/// The offset of a field of a region: the one it has, or the end of the fields so far.
/// Where the offsets are exhausted, the exploration is cut short.
pub open spec fn field_offset(m: MachineView, region: usize, field: u32, size: u64) -> (
    MachineView,
    u64,
) {
    match of(m.fields, (region, field)) {
        Some(o) => (m, o),
        None => {
            let off = match of(m.frontier, region) {
                Some(o) => o,
                None => 0,
            };
            let step = if size > 1 {
                size
            } else {
                1
            };
            if off + step <= u64::MAX {
                (
                    MachineView {
                        fields: m.fields.insert((region, field), off),
                        frontier: m.frontier.insert(region, (off + step) as u64),
                        ..m
                    },
                    off,
                )
            } else {
                (MachineView { truncated: true, ..m }, off)
            }
        },
    }
}

// ---- the machine at work ----

fn find_mem(s: &Vec<(Site, MemAgg)>, k: Site) -> (r: Option<MemAgg>)
    ensures
        r == of(assoc(s@), k),
{
    let mut i: usize = s.len();
    assert(s@.take(i as int) =~= s@);
    while i > 0
        invariant
            i <= s@.len(),
            of(assoc(s@), k) == of(assoc(s@.take(i as int)), k),
        decreases i,
    {
        i -= 1;
        assert(s@.take(i + 1).drop_last() =~= s@.take(i as int));
        if s[i].0 == k {
            return Some(s[i].1);
        }
    }
    None
}

fn find_check(s: &Vec<(Check, ScalarAgg)>, k: Check) -> (r: Option<ScalarAgg>)
    ensures
        r == of(assoc(s@), k),
{
    let mut i: usize = s.len();
    assert(s@.take(i as int) =~= s@);
    while i > 0
        invariant
            i <= s@.len(),
            of(assoc(s@), k) == of(assoc(s@.take(i as int)), k),
        decreases i,
    {
        i -= 1;
        assert(s@.take(i + 1).drop_last() =~= s@.take(i as int));
        if s[i].0 == k {
            return Some(s[i].1);
        }
    }
    None
}

fn find_field(s: &Vec<((usize, u32), u64)>, region: usize, field: u32) -> (r: Option<u64>)
    ensures
        r == of(assoc(s@), (region, field)),
{
    let mut i: usize = s.len();
    assert(s@.take(i as int) =~= s@);
    while i > 0
        invariant
            i <= s@.len(),
            of(assoc(s@), (region, field)) == of(assoc(s@.take(i as int)), (region, field)),
        decreases i,
    {
        i -= 1;
        assert(s@.take(i + 1).drop_last() =~= s@.take(i as int));
        if (s[i].0).0 == region && (s[i].0).1 == field {
            return Some(s[i].1);
        }
    }
    None
}

fn find_frontier(s: &Vec<(usize, u64)>, region: usize) -> (r: Option<u64>)
    ensures
        r == of(assoc(s@), region),
{
    let mut i: usize = s.len();
    assert(s@.take(i as int) =~= s@);
    while i > 0
        invariant
            i <= s@.len(),
            of(assoc(s@), region) == of(assoc(s@.take(i as int)), region),
        decreases i,
    {
        i -= 1;
        assert(s@.take(i + 1).drop_last() =~= s@.take(i as int));
        if s[i].0 == region {
            return Some(s[i].1);
        }
    }
    None
}

impl<'a> Machine<'a> {
    /// A machine that has done nothing yet.
    pub fn new(answers: &'a Vec<Answer>, bug_finding: bool, exported: bool) -> (m: Machine<'a>)
        ensures
            m@ == started(answers@, bug_finding, exported),
    {
        let m = Machine {
            fresh: 0,
            answers,
            used: 0,
            pending: None,
            scalar: Vec::new(),
            mem: Vec::new(),
            assumed: Vec::new(),
            fields: Vec::new(),
            frontier: Vec::new(),
            truncated: false,
            bug_finding,
            exported,
            dialogue: Ghost(Seq::empty()),
            visits: Ghost(Seq::empty()),
        };
        assert(m.assumed@.to_set() =~= Set::<Assumption>::empty());
        m
    }

    fn advance(&mut self)
        ensures
            final(self)@ == after_fresh(old(self)@),
    {
        if self.fresh < u64::MAX {
            self.fresh = self.fresh + 1;
        } else {
            self.truncated = true;
        }
    }

    /// A variable of which nothing is known.
    pub fn fresh_scalar(&mut self, width: u32) -> (e: Ex)
        ensures
            (final(self)@, e) == fresh_scalar(old(self)@, width),
    {
        let e = Rc::new(Expr::Sym { name: Symbol::Fresh(self.fresh), width });
        self.advance();
        e
    }

    /// A variable for a counter that takes every value its loop guard admits.
    pub fn fresh_induction_scalar(&mut self, width: u32) -> (e: Ex)
        ensures
            (final(self)@, e) == fresh_induction(old(self)@, width),
    {
        let e = Rc::new(Expr::Sym { name: Symbol::Ind(self.fresh), width });
        self.advance();
        e
    }

    /// A variable for untrusted user data.
    pub fn fresh_genuine_scalar(&mut self, width: u32) -> (e: Ex)
        ensures
            (final(self)@, e) == fresh_genuine(old(self)@, width),
    {
        let e = Rc::new(Expr::Sym { name: Symbol::User(self.fresh), width });
        self.advance();
        e
    }

    /// Ask a question.
    pub fn ask(&mut self, kind: QueryKind, premises: Vec<Ex>, goal: Ex) -> (a: Option<Answer>)
        ensures
            (final(self)@, a) == asked(old(self)@, QueryView { kind, premises: premises@, goal }),
    {
        if self.used < self.answers.len() {
            let a = self.answers[self.used];
            self.used = self.used + 1;
            self.dialogue = Ghost(
                self.dialogue@.push((QueryView { kind, premises: premises@, goal }, a)),
            );
            Some(a)
        } else {
            if self.pending.is_none() {
                self.pending = Some(Query { kind, premises, goal });
            }
            None
        }
    }

    /// Note what a proof rests on.
    pub fn assume_that(&mut self, a: Assumption)
        ensures
            final(self)@ == assuming(old(self)@, a),
    {
        let mut i: usize = 0;
        while i < self.assumed.len()
            invariant
                i <= self.assumed@.len(),
                *self == *old(self),
            decreases self.assumed@.len() - i,
        {
            if self.assumed[i] == a {
                assert(self.assumed@.contains(a));
                assert(self.assumed@.to_set().insert(a) =~= self.assumed@.to_set());
                return;
            }
            i += 1;
        }
        let ghost before = self.assumed@;
        self.assumed.push(a);
        proof {
            assert forall|x: Assumption| #[trigger]
                self.assumed@.to_set().contains(x) <==> before.to_set().insert(a).contains(x) by {
                if before.to_set().contains(x) {
                    let k = choose|k: int| 0 <= k < before.len() && before[k] == x;
                    assert(self.assumed@[k] == x);
                }
                if x == a {
                    assert(self.assumed@[before.len() as int] == a);
                }
                if self.assumed@.contains(x) {
                    let k = choose|k: int| 0 <= k < self.assumed@.len() && self.assumed@[k] == x;
                    if k < before.len() {
                        assert(before[k] == x);
                    }
                }
            }
            assert(self.assumed@.to_set() =~= before.to_set().insert(a));
        }
    }

    /// Try to prove a goal on a path.
    pub fn prove(&mut self, goal: &Ex, s: &PathState) -> (ok: bool)
        ensures
            (final(self)@, ok) == proving(old(self)@, s@, *goal),
    {
        let none: Vec<Ex> = Vec::new();
        let ps = s.premises_and(&none);
        assert(ps@ =~= premises(s@));
        match self.ask(QueryKind::Method, ps, goal.clone()) {
            Some(Answer::Method(Some(ProofMethod::BitPrecise))) => true,
            Some(Answer::Method(Some(ProofMethod::Linear))) => {
                self.assume_that(Assumption::LinearNoOverflow);
                true
            },
            _ => false,
        }
    }

    /// Try to prove goals on a path, up to the first that is not proved.
    pub fn prove_all(&mut self, goals: &Vec<Ex>, s: &PathState) -> (ok: bool)
        ensures
            (final(self)@, ok) == proving_all(old(self)@, s@, goals@, 0),
    {
        let mut i: usize = 0;
        while i < goals.len()
            invariant
                i <= goals@.len(),
                proving_all(old(self)@, s@, goals@, 0) == proving_all(
                    self@,
                    s@,
                    goals@,
                    i as int,
                ),
            decreases goals@.len() - i,
        {
            if !self.prove(&goals[i], s) {
                return false;
            }
            i += 1;
        }
        true
    }

    /// Whether premises imply a goal for every machine value.
    fn prove_implies(&mut self, premises: Vec<Ex>, goal: Ex) -> (r: bool)
        ensures
            (final(self)@, r) == implied(old(self)@, premises@, goal),
    {
        match self.ask(QueryKind::Exact, premises, goal) {
            Some(Answer::Exact(true)) => true,
            _ => false,
        }
    }

    /// A model of premises in which a goal is false.
    fn find_counterexample(&mut self, premises: Vec<Ex>, goal: Ex) -> (r: Option<ModelId>)
        ensures
            (final(self)@, r) == counterexample(old(self)@, premises@, goal),
    {
        match self.ask(QueryKind::Witness, premises, goal) {
            Some(Answer::Witness(w)) => w,
            _ => None,
        }
    }

    /// Whether the branch under a condition has no execution on a path.
    pub fn branch_infeasible(&mut self, cond: &Ex, s: &PathState) -> (r: bool)
        ensures
            (final(self)@, r) == infeasible(old(self)@, s@, *cond),
    {
        let none: Vec<Ex> = Vec::new();
        let ps = s.premises_and(&none);
        assert(ps@ =~= premises(s@));
        self.prove_implies(ps, mk_not(cond))
    }

    /// Whether the time is up.
    pub fn out_of_time(&mut self) -> (r: bool)
        ensures
            (final(self)@, r) == time_up(old(self)@),
    {
        let none: Vec<Ex> = Vec::new();
        assert(none@ =~= Seq::<Ex>::empty());
        match self.ask(QueryKind::Clock, none, mk_bool(true)) {
            Some(Answer::Clock(true)) => true,
            _ => false,
        }
    }

    /// A model in which goals are violated.
    fn try_refute(
        &mut self,
        goals: &Vec<Ex>,
        s: &PathState,
        mode: RefuteMode,
        extra: &Vec<Ex>,
    ) -> (r: Option<ModelId>)
        ensures
            (final(self)@, r) == refuting(old(self)@, s@, goals@, mode, extra@),
    {
        let goal = mk_conj(goals);
        if mode == RefuteMode::Definite {
            let ps = s.premises_and(extra);
            if !self.prove_implies(ps, mk_not(&goal)) {
                return None;
            }
        }
        let ps = s.premises_and(extra);
        self.find_counterexample(ps, goal)
    }

    /// Whether goals hold on a path. `extra` are premises for a refutation alone.
    pub fn decide(
        &mut self,
        goals: &Vec<Ex>,
        s: &PathState,
        mode: RefuteMode,
        extra: &Vec<Ex>,
    ) -> (d: Decision)
        ensures
            (final(self)@, d) == deciding(old(self)@, s@, goals@, mode, extra@),
    {
        if self.prove_all(goals, s) {
            return Decision::Proven;
        }
        let strict = s.exact && (self.exported || !has_param(goals));
        let gate = strict || (self.bug_finding && mode == RefuteMode::Possible && genuine(
            goals,
            self.exported,
        ));
        if mode != RefuteMode::Off && gate {
            if let Some(w) = self.try_refute(goals, s, mode, extra) {
                return Decision::Refuted(w);
            }
        }
        Decision::Unknown
    }

    /// A model that reaches the end of a path.
    pub fn feasibility_witness(&mut self, s: &PathState) -> (r: Option<ModelId>)
        ensures
            (final(self)@, r) == reaching(old(self)@, s@),
    {
        if !s.exact && !self.bug_finding {
            return None;
        }
        let none: Vec<Ex> = Vec::new();
        let ps = s.premises_and(&none);
        assert(ps@ =~= premises(s@));
        self.find_counterexample(ps, mk_bool(false))
    }

    fn put_mem(&mut self, site: Site, a: MemAgg, Ghost(g): Ghost<Grounds>, Ghost(d): Ghost<Decision>)
        ensures
            final(self)@ == (MachineView {
                mem: old(self)@.mem.insert(site, a),
                visits: old(self)@.visits.push(
                    Visit {
                        owed: Owed::Memory(site),
                        grounds: g,
                        proven: d is Proven,
                        witness: witness_of(d),
                    },
                ),
                ..old(self)@
            }),
    {
        proof {
            lemma_assoc_push(self.mem@, (site, a));
        }
        self.mem.push((site, a));
        self.visits = Ghost(
            self.visits@.push(
                Visit {
                    owed: Owed::Memory(site),
                    grounds: g,
                    proven: d is Proven,
                    witness: witness_of(d),
                },
            ),
        );
    }

    fn known_of(&self, site: Site, start: MemAgg) -> (a: MemAgg)
        ensures
            a == known(self@, site, start),
    {
        match find_mem(&self.mem, site) {
            Some(a) => a,
            None => start,
        }
    }

    /// Record that an obligation is proved or left open on a path.
    pub fn record(
        &mut self,
        site: Site,
        proven: bool,
        predicate: &'static str,
        residual: &'static str,
    )
        ensures
            final(self)@ == recorded(old(self)@, site, proven, predicate, residual),
    {
        let a = self.known_of(
            site,
            MemAgg { all_proven: true, refutation: None, predicate, residual },
        );
        self.put_mem(
            site,
            MemAgg { all_proven: a.all_proven && proven, ..a },
            Ghost(no_goals()),
            Ghost(
                if proven {
                    Decision::Proven
                } else {
                    Decision::Unknown
                },
            ),
        );
    }

    /// Record the decision of an obligation on a path.
    pub fn record_mem(
        &mut self,
        Ghost(g): Ghost<Grounds>,
        site: Site,
        d: Decision,
        predicate: &'static str,
        residual: &'static str,
    )
        ensures
            final(self)@ == recorded_mem(old(self)@, g, site, d, predicate, residual),
    {
        let a = self.known_of(
            site,
            MemAgg { all_proven: true, refutation: None, predicate, residual },
        );
        let b = match d {
            Decision::Proven => a,
            Decision::Unknown => MemAgg { all_proven: false, ..a },
            Decision::Refuted(w) => MemAgg {
                all_proven: false,
                refutation: keep_first(a.refutation, w),
                ..a
            },
        };
        self.put_mem(site, b, Ghost(g), Ghost(d));
    }

    /// Record a temporal obligation on a path.
    pub fn record_temporal(
        &mut self,
        site: Site,
        violated: bool,
        s: &PathState,
        predicate: &'static str,
        residual: &'static str,
    )
        ensures
            final(self)@ == recorded_temporal(
                old(self)@,
                s@,
                site,
                violated,
                predicate,
                residual,
            ),
    {
        if !violated {
            self.record(site, true, predicate, residual);
            return;
        }
        match self.feasibility_witness(s) {
            Some(w) => {
                self.record_mem(
                    Ghost(violation(s@)),
                    site,
                    Decision::Refuted(w),
                    predicate,
                    residual,
                );
            },
            None => {
                self.record(site, false, predicate, residual);
            },
        }
    }

    /// Record a read of memory that was never written.
    pub fn record_uninit_read(&mut self, Ghost(g): Ghost<Grounds>, site: Site, w: ModelId)
        ensures
            final(self)@ == recorded_uninit(old(self)@, g, site, w),
    {
        let a = self.known_of(
            site,
            MemAgg { all_proven: true, refutation: None, predicate: "", residual: "" },
        );
        self.put_mem(
            site,
            MemAgg {
                all_proven: false,
                refutation: keep_first(a.refutation, w),
                predicate: "reads initialized memory",
                residual: "reads uninitialized (never-written) freshly-allocated memory",
            },
            Ghost(g),
            Ghost(Decision::Refuted(w)),
        );
    }

    /// Record the decision of an explicit check on a path.
    pub fn record_scalar(&mut self, Ghost(g): Ghost<Grounds>, c: Check, d: Decision)
        ensures
            final(self)@ == recorded_scalar(old(self)@, g, c, d),
    {
        let a = match find_check(&self.scalar, c) {
            Some(a) => a,
            None => ScalarAgg { all_proven: true, refutation: None },
        };
        let b = match d {
            Decision::Proven => a,
            Decision::Unknown => ScalarAgg { all_proven: false, ..a },
            Decision::Refuted(w) => ScalarAgg {
                all_proven: false,
                refutation: keep_first(a.refutation, w),
            },
        };
        proof {
            lemma_assoc_push(self.scalar@, (c, b));
        }
        self.scalar.push((c, b));
        self.visits = Ghost(
            self.visits@.push(
                Visit {
                    owed: Owed::Explicit(c),
                    grounds: g,
                    proven: d is Proven,
                    witness: witness_of(d),
                },
            ),
        );
    }

    /// The offset of a field of a region.
    pub fn field_offset(&mut self, region: usize, field: u32, size: u64) -> (off: u64)
        ensures
            (final(self)@, off) == field_offset(old(self)@, region, field, size),
    {
        if let Some(o) = find_field(&self.fields, region, field) {
            return o;
        }
        let off: u64 = match find_frontier(&self.frontier, region) {
            Some(o) => o,
            None => 0,
        };
        let step: u64 = if size > 1 {
            size
        } else {
            1
        };
        match off.checked_add(step) {
            Some(end) => {
                proof {
                    lemma_assoc_push(self.fields@, ((region, field), off));
                    lemma_assoc_push(self.frontier@, (region, end));
                }
                self.fields.push(((region, field), off));
                self.frontier.push((region, end));
            },
            None => {
                self.truncated = true;
            },
        }
        off
    }
}

fn keep_first(a: Option<ModelId>, w: ModelId) -> (r: Option<ModelId>)
    ensures
        r == first_of(a, w),
{
    match a {
        Some(x) => Some(x),
        None => Some(w),
    }
}

fn has_param(goals: &Vec<Ex>) -> (r: bool)
    ensures
        r == some_param(goals@),
{
    let mut i: usize = 0;
    while i < goals.len()
        invariant
            i <= goals@.len(),
            forall|k: int|
                0 <= k < i ==> !mentions(#[trigger] goals@[k], |s: Symbol| is_param(s)),
        decreases goals@.len() - i,
    {
        if goal_has_param(&goals[i]) {
            assert(mentions(goals@[i as int], |s: Symbol| is_param(s)));
            return true;
        }
        i += 1;
    }
    false
}

fn genuine(goals: &Vec<Ex>, exported: bool) -> (r: bool)
    ensures
        r == all_genuine(goals@, exported),
{
    let mut i: usize = 0;
    while i < goals.len()
        invariant
            i <= goals@.len(),
            forall|k: int|
                0 <= k < i ==> !mentions(
                    #[trigger] goals@[k],
                    |s: Symbol| not_genuine(s, exported),
                ),
        decreases goals@.len() - i,
    {
        if !goal_is_genuine(&goals[i], exported) {
            assert(mentions(goals@[i as int], |s: Symbol| not_genuine(s, exported)));
            return false;
        }
        i += 1;
    }
    true
}

/// A machine that has done nothing yet.
pub open spec fn started(answers: Seq<Answer>, bug_finding: bool, exported: bool) -> MachineView {
    MachineView {
        fresh: 0,
        answers,
        used: 0,
        pending: None,
        scalar: Map::empty(),
        mem: Map::empty(),
        assumed: Set::empty(),
        fields: Map::empty(),
        frontier: Map::empty(),
        truncated: false,
        bug_finding,
        exported,
        dialogue: Seq::empty(),
        visits: Seq::empty(),
    }
}

} // verus!
