//! Summaries of a module, and of a program whose modules are read one at a time.

use crate::ir::{copy_operands, Callee, FuncId, Function, Inst, Module, Operand};
use crate::names::{lookup, table};
use crate::summary::fixpoint::{edge_views, Edge, EdgeView};
use crate::summary::perfn::{
    derefs, flat_observable, observable_insts, param_aliases, ptr_param_of, summarize_fn,
};
use crate::summary::{
    gathered, own_summary_is_unique, own_view, settle, spread, FuncFacts, Summary, SummaryView,
};
use std::collections::HashMap;
use vstd::prelude::*;

verus! {

broadcast use vstd::std_specs::hash::group_hash_axioms;

/// The ids of a module's functions.
pub open spec fn ids_of(m: Module) -> Seq<FuncId> {
    Seq::new(m.functions@.len(), |i: int| m.functions@[i].id)
}

/// The last position of `id`.
#[verifier::opaque]
pub open spec fn id_index(ids: Seq<FuncId>, id: FuncId) -> Option<int> {
    if exists|k: int| 0 <= k < ids.len() && #[trigger] ids[k] == id {
        Some(
            choose|k: int|
                0 <= k < ids.len() && #[trigger] ids[k] == id && forall|j: int|
                    k < j < ids.len() ==> #[trigger] ids[j] != id,
        )
    } else {
        None
    }
}

/// The callee name under which register-only inline assembly appears.
pub open spec fn harmless_asm() -> Seq<char> {
    "<inline asm nomem>"@
}

/// The instruction is a call that may do anything.
pub open spec fn opaque_call(inst: Inst) -> bool {
    match inst {
        Inst::Call { callee: Callee::Direct(_), .. } => false,
        Inst::Call { callee: Callee::Symbol(n), .. } => n@ != harmless_asm(),
        Inst::Call { callee: Callee::Indirect(_), .. } => true,
        _ => false,
    }
}

/// One of the instructions is a call that may do anything.
pub open spec fn calls_opaquely(insts: Seq<Inst>) -> bool {
    exists|i: int| 0 <= i < insts.len() && opaque_call(#[trigger] insts[i])
}

/// The call that an instruction makes to one of the functions.
pub open spec fn site_of(inst: Inst, ids: Seq<FuncId>) -> Option<EdgeView> {
    match inst {
        Inst::Call { callee: Callee::Direct(g), args, .. } => match id_index(ids, g) {
            Some(k) => Some(EdgeView { target: k, args: args@ }),
            None => None,
        },
        _ => None,
    }
}

/// The calls among the instructions that go to one of the functions.
pub open spec fn call_sites(insts: Seq<Inst>, ids: Seq<FuncId>) -> Seq<EdgeView>
    decreases insts.len(),
{
    if insts.len() == 0 {
        Seq::empty()
    } else {
        let prior = call_sites(insts.drop_last(), ids);
        match site_of(insts.last(), ids) {
            Some(e) => prior.push(e),
            None => prior,
        }
    }
}

/// What is known of each function of a module.
pub open spec fn module_facts(m: Module) -> Seq<FuncFacts> {
    Seq::new(
        m.functions@.len(),
        |i: int|
            FuncFacts {
                own: own_view(m.functions@[i]),
                aliases: param_aliases(m.functions@[i]),
                opaque: calls_opaquely(flat_observable(m.functions@[i].blocks@)),
                edges: call_sites(flat_observable(m.functions@[i].blocks@), ids_of(m)),
            },
    )
}

fn find_id(fs: &Vec<Function>, id: FuncId, Ghost(ids): Ghost<Seq<FuncId>>) -> (r: Option<usize>)
    requires
        ids == Seq::new(fs@.len(), |i: int| fs@[i].id),
    ensures
        match r {
            Some(k) => k < fs@.len() && id_index(ids, id) == Some(k as int),
            None => id_index(ids, id) is None,
        },
{
    reveal(id_index);
    let mut k: usize = fs.len();
    while k > 0
        invariant
            k <= fs@.len(),
            ids == Seq::new(fs@.len(), |i: int| fs@[i].id),
            forall|j: int| k <= j < ids.len() ==> #[trigger] ids[j] != id,
        decreases k,
    {
        k -= 1;
        if fs[k].id == id {
            proof {
                reveal(id_index);
                assert(ids[k as int] == id);
                let c = id_index(ids, id)->0;
                assert(0 <= c < ids.len() && ids[c] == id && forall|j: int|
                    c < j < ids.len() ==> #[trigger] ids[j] != id);
                if c < k {
                    assert(ids[k as int] != id);
                }
                if k < c {
                    assert(ids[c] != id);
                }
            }
            return Some(k);
        }
    }
    None
}

fn is_harmless_asm(name: &String) -> (r: bool)
    ensures
        r == (name@ == harmless_asm()),
{
    let harmless = "<inline asm nomem>".to_owned();
    *name == harmless
}

/// The call that an instruction makes to a function of the module.
fn edge_of(inst: &Inst, fs: &Vec<Function>, Ghost(ids): Ghost<Seq<FuncId>>) -> (r: Option<Edge>)
    requires
        ids == Seq::new(fs@.len(), |i: int| fs@[i].id),
    ensures
        match r {
            Some(e) => site_of(*inst, ids) == Some(e@) && e.target < fs@.len(),
            None => site_of(*inst, ids) is None,
        },
{
    match inst {
        Inst::Call { callee, args, .. } => match callee {
            Callee::Direct(g) => match find_id(fs, *g, Ghost(ids)) {
                Some(k) => Some(Edge { target: k, args: copy_operands(args) }),
                None => None,
            },
            _ => None,
        },
        _ => None,
    }
}

/// Whether an instruction is a call that may do anything.
fn is_opaque_call(inst: &Inst) -> (r: bool)
    ensures
        r == opaque_call(*inst),
{
    match inst {
        Inst::Call { callee, .. } => match callee {
            Callee::Direct(_) => false,
            Callee::Symbol(n) => !is_harmless_asm(n),
            Callee::Indirect(_) => true,
        },
        _ => false,
    }
}

/// The calls as mathematical values.
pub open spec fn edges_view(edges: Seq<Edge>) -> Seq<EdgeView> {
    Seq::new(edges.len(), |k: int| edges[k]@)
}

/// The calls of a function's observable blocks: those to functions of the module, and
/// whether one may do anything.
fn local_calls(f: &Function, fs: &Vec<Function>, Ghost(ids): Ghost<Seq<FuncId>>) -> (r: (
    Vec<Edge>,
    bool,
))
    requires
        ids == Seq::new(fs@.len(), |i: int| fs@[i].id),
    ensures
        edges_view(r.0@) == call_sites(flat_observable(f.blocks@), ids),
        r.1 == calls_opaquely(flat_observable(f.blocks@)),
        forall|k: int| 0 <= k < r.0@.len() ==> (#[trigger] r.0@[k]).target < fs@.len(),
{
    let insts = observable_insts(f);
    let ghost all = flat_observable(f.blocks@);
    let mut edges: Vec<Edge> = Vec::new();
    let mut opaque = false;
    let mut i: usize = 0;
    assert(all.take(0) =~= Seq::<Inst>::empty());
    assert(edges_view(edges@) =~= Seq::empty());
    while i < insts.len()
        invariant
            i <= insts@.len(),
            derefs(insts@) == all,
            ids == Seq::new(fs@.len(), |j: int| fs@[j].id),
            edges_view(edges@) == call_sites(all.take(i as int), ids),
            opaque <==> exists|j: int| 0 <= j < i && opaque_call(#[trigger] all[j]),
            forall|k: int| 0 <= k < edges@.len() ==> (#[trigger] edges@[k]).target < fs@.len(),
        decreases insts@.len() - i,
    {
        let inst: &Inst = insts[i];
        assert(*inst == all[i as int]);
        assert(all.take(i + 1).drop_last() =~= all.take(i as int));
        assert(all.take(i + 1).last() == all[i as int]);
        let ghost before = edges_view(edges@);
        if let Some(e) = edge_of(inst, fs, Ghost(ids)) {
            let ghost ev = e@;
            edges.push(e);
            assert(edges_view(edges@) =~= before.push(ev));
        }
        if is_opaque_call(inst) {
            opaque = true;
            assert(opaque_call(all[i as int]));
        }
        i += 1;
    }
    assert(all.take(all.len() as int) =~= all);
    (edges, opaque)
}

/// Summarize every function of a module, by id.
pub fn summarize_module(module: &Module) -> (map: HashMap<u32, Summary>)
    requires
        module.ids_distinct(),
    ensures
        forall|id: u32| #[trigger]
            map@.contains_key(id) <==> ids_of(*module).contains(FuncId(id)),
        forall|i: int|
            0 <= i < module.functions@.len() ==> (#[trigger] map@[module.functions@[i].id.0])@
                == spread(module_facts(*module), i),
{
    let ghost ids = ids_of(*module);
    let n: usize = module.functions.len();
    let mut summ: Vec<Summary> = Vec::new();
    let mut aliases: Vec<HashMap<u32, usize>> = Vec::new();
    let mut opaque: Vec<bool> = Vec::new();
    let mut calls: Vec<Vec<Edge>> = Vec::new();
    let mut i: usize = 0;
    while i < n
        invariant
            i <= n,
            n == module.functions@.len(),
            ids == ids_of(*module),
            summ@.len() == i,
            aliases@.len() == i,
            opaque@.len() == i,
            calls@.len() == i,
            forall|k: int|
                0 <= k < i ==> crate::summary::perfn::own_summary(
                    module.functions@[k],
                    #[trigger] summ@[k],
                ),
            forall|k: int|
                0 <= k < i ==> (#[trigger] aliases@[k])@ == param_aliases(module.functions@[k]),
            forall|k: int|
                0 <= k < i ==> #[trigger] opaque@[k] == calls_opaquely(
                    flat_observable(module.functions@[k].blocks@),
                ),
            forall|k: int|
                0 <= k < i ==> #[trigger] edge_views(calls@)[k] == call_sites(
                    flat_observable(module.functions@[k].blocks@),
                    ids,
                ),
            forall|k: int, j: int|
                0 <= k < i && 0 <= j < calls@[k]@.len() ==> (#[trigger] calls@[k]@[j]).target < n,
        decreases n - i,
    {
        let f = &module.functions[i];
        summ.push(summarize_fn(f));
        aliases.push(ptr_param_of(f));
        let ghost before = calls@;
        let (edges, op) = local_calls(f, &module.functions, Ghost(ids));
        let ghost ev = edges_view(edges@);
        calls.push(edges);
        opaque.push(op);
        proof {
            assert forall|k: int| 0 <= k < i + 1 implies #[trigger] edge_views(calls@)[k]
                == call_sites(flat_observable(module.functions@[k].blocks@), ids) by {
                if k < i {
                    assert(calls@[k] == before[k]);
                    assert(edge_views(before)[k] == edge_views(calls@)[k]);
                } else {
                    assert(edge_views(calls@)[k] =~= ev);
                }
            }
        }
        i += 1;
    }
    proof {
        assert forall|k: int, j: int|
            0 <= k < edge_views(calls@).len() && 0 <= j < edge_views(calls@)[k].len() implies 0 <= (
        #[trigger] edge_views(calls@)[k][j]).target < n by {
            assert(calls@[k]@[j].target < n);
        }
        assert forall|k: int| 0 <= k < n implies (#[trigger] summ@[k])@ == own_view(
            module.functions@[k],
        ) by {
            own_summary_is_unique(module.functions@[k], summ@[k]);
        }
        let g = gathered(summ@, opaque@, aliases@, calls@);
        let facts = module_facts(*module);
        assert forall|k: int| 0 <= k < n implies g[k] == facts[k] by {
            assert(summ@[k]@ == own_view(module.functions@[k]));
            assert(aliases@[k]@ == param_aliases(module.functions@[k]));
            assert(edge_views(calls@)[k] == call_sites(
                flat_observable(module.functions@[k].blocks@),
                ids,
            ));
        }
        assert(g =~= facts);
    }
    settle(&mut summ, &opaque, &aliases, &calls);
    let mut map: HashMap<u32, Summary> = HashMap::new();
    let mut k: usize = n;
    while k > 0
        invariant
            k <= n,
            n == module.functions@.len(),
            module.ids_distinct(),
            ids == ids_of(*module),
            summ@.len() == k,
            forall|j: int| 0 <= j < k ==> (#[trigger] summ@[j])@ == spread(module_facts(*module), j),
            forall|id: u32| #[trigger]
                map@.contains_key(id) ==> exists|j: int|
                    k <= j < n && (#[trigger] module.functions@[j]).id.0 == id,
            forall|j: int|
                k <= j < n ==> map@.contains_key((#[trigger] module.functions@[j]).id.0)
                    && map@[module.functions@[j].id.0]@ == spread(module_facts(*module), j),
        decreases k,
    {
        k -= 1;
        let ghost before = map@;
        let id: u32 = module.functions[k].id.0;
        if let Some(s) = summ.pop() {
            map.insert(id, s);
        }
        proof {
            assert forall|j: int| k < j < n implies module.functions@[j].id.0 != id by {
                assert(module.functions@[k as int].id != module.functions@[j].id);
            }
            assert forall|x: u32| #[trigger] map@.contains_key(x) implies exists|j: int|
                k <= j < n && (#[trigger] module.functions@[j]).id.0 == x by {
                if x == id {
                    assert(module.functions@[k as int].id.0 == x);
                } else {
                    assert(before.contains_key(x));
                    let j = choose|j: int|
                        k + 1 <= j < n && (#[trigger] module.functions@[j]).id.0 == x;
                    assert(module.functions@[j].id.0 == x);
                }
            }
            assert forall|j: int| k <= j < n implies map@.contains_key(
                (#[trigger] module.functions@[j]).id.0,
            ) && map@[module.functions@[j].id.0]@ == spread(module_facts(*module), j) by {
                if j > k {
                    assert(before.contains_key(module.functions@[j].id.0));
                }
            }
        }
    }
    proof {
        assert forall|id: u32| #[trigger]
            map@.contains_key(id) <==> ids_of(*module).contains(FuncId(id)) by {
            if map@.contains_key(id) {
                let j = choose|j: int|
                    0 <= j < n && (#[trigger] module.functions@[j]).id.0 == id;
                assert(ids[j] == FuncId(id));
            }
            if ids.contains(FuncId(id)) {
                let j = choose|j: int| 0 <= j < ids.len() && ids[j] == FuncId(id);
                assert(module.functions@[j].id.0 == id);
                assert(map@.contains_key(module.functions@[j].id.0));
            }
        }
        assert forall|j: int| 0 <= j < n implies (#[trigger] map@[module.functions@[j].id.0])@
            == spread(module_facts(*module), j) by {
            assert(map@.contains_key(module.functions@[j].id.0));
        }
    }
    map
}

// ---- programs ----

/// A call's callee before names are resolved across modules.
pub enum CalleeRef {
    /// A function of the program, by number.
    Id(u32),
    /// A name to be resolved.
    Name(String),
    /// Anything.
    Indirect,
}

/// A callee as a mathematical value.
pub enum RefView {
    Id(int),
    Name(Seq<char>),
    Indirect,
}

impl View for CalleeRef {
    type V = RefView;

    open spec fn view(&self) -> RefView {
        match self {
            CalleeRef::Id(g) => RefView::Id(*g as int),
            CalleeRef::Name(n) => RefView::Name(n@),
            CalleeRef::Indirect => RefView::Indirect,
        }
    }
}

/// A call before names are resolved.
pub struct Site {
    pub callee: CalleeRef,
    pub args: Vec<Operand>,
}

/// A call before names are resolved, as a mathematical value.
pub struct SiteView {
    pub callee: RefView,
    pub args: Seq<Operand>,
}

impl View for Site {
    type V = SiteView;

    open spec fn view(&self) -> SiteView {
        SiteView { callee: self.callee@, args: self.args@ }
    }
}

/// What is kept of a function: its own summary, its parameter aliases and its calls.
pub struct RowView {
    pub own: SummaryView,
    pub aliases: Map<u32, usize>,
    pub calls: Seq<SiteView>,
}

/// The facts of the modules read so far: the function that each external name means,
/// and what is kept of each function.
pub struct FactsView {
    pub names: Map<Seq<char>, u32>,
    pub rows: Seq<RowView>,
}

/// Body-free facts for whole-program summaries, built module by module.
pub struct SummaryFacts {
    names: Vec<(String, u32)>,
    base: Vec<Summary>,
    param_of: Vec<HashMap<u32, usize>>,
    calls: Vec<Vec<Site>>,
}

/// The calls as mathematical values.
pub open spec fn sites_view(sites: Seq<Site>) -> Seq<SiteView> {
    Seq::new(sites.len(), |k: int| sites[k]@)
}

fn find_name(names: &Vec<(String, u32)>, name: &String) -> (r: Option<u32>)
    ensures
        match r {
            Some(id) => table(names@).contains_key(name@) && table(names@)[name@] == id,
            None => !table(names@).contains_key(name@),
        },
{
    match lookup(names, name) {
        Some(id) => Some(*id),
        None => None,
    }
}

/// The callee of a call in a module whose functions are numbered from `base` on.
pub open spec fn ref_of(callee: Callee, ids: Seq<FuncId>, base: int) -> RefView {
    match callee {
        Callee::Direct(g) => match id_index(ids, g) {
            Some(k) => RefView::Id(base + k),
            None => RefView::Indirect,
        },
        Callee::Symbol(n) => RefView::Name(n@),
        Callee::Indirect(_) => RefView::Indirect,
    }
}

/// The call that an instruction makes.
pub open spec fn any_site(inst: Inst, ids: Seq<FuncId>, base: int) -> Option<SiteView> {
    match inst {
        Inst::Call { callee, args, .. } => Some(
            SiteView { callee: ref_of(callee, ids, base), args: args@ },
        ),
        _ => None,
    }
}

/// The calls among the instructions.
pub open spec fn all_sites(insts: Seq<Inst>, ids: Seq<FuncId>, base: int) -> Seq<SiteView>
    decreases insts.len(),
{
    if insts.len() == 0 {
        Seq::empty()
    } else {
        let prior = all_sites(insts.drop_last(), ids, base);
        match any_site(insts.last(), ids, base) {
            Some(s) => prior.push(s),
            None => prior,
        }
    }
}

/// What is kept of a function of a module whose functions are numbered from `base` on.
pub open spec fn row_of(f: Function, ids: Seq<FuncId>, base: int) -> RowView {
    RowView {
        own: own_view(f),
        aliases: param_aliases(f),
        calls: all_sites(flat_observable(f.blocks@), ids, base),
    }
}

/// The names after the first `n` functions of a module: an external definition takes a
/// name that has none yet, for the last function with its id.
pub open spec fn names_with(
    names: Map<Seq<char>, u32>,
    m: Module,
    base: int,
    n: nat,
) -> Map<Seq<char>, u32>
    decreases n,
{
    if n == 0 {
        names
    } else {
        let prior = names_with(names, m, base, (n - 1) as nat);
        let f = m.functions@[n - 1];
        if !m.internal@.contains(f.id) && !prior.contains_key(f.name@) {
            prior.insert(f.name@, (base + id_index(ids_of(m), f.id)->0) as u32)
        } else {
            prior
        }
    }
}

/// The facts after one more module.
pub open spec fn pushed(facts: FactsView, m: Module) -> FactsView {
    let base = facts.rows.len() as int;
    FactsView {
        names: names_with(facts.names, m, base, m.functions@.len()),
        rows: facts.rows + Seq::new(
            m.functions@.len(),
            |i: int| row_of(m.functions@[i], ids_of(m), base),
        ),
    }
}

/// No facts.
pub open spec fn no_facts() -> FactsView {
    FactsView { names: Map::empty(), rows: Seq::empty() }
}

/// The facts of some modules, read in order.
pub open spec fn facts_of(mods: Seq<Module>) -> FactsView
    decreases mods.len(),
{
    if mods.len() == 0 {
        no_facts()
    } else {
        pushed(facts_of(mods.drop_last()), mods.last())
    }
}

/// A call with the numbers of known functions moved up by `off`.
pub open spec fn site_up(s: SiteView, off: int) -> SiteView {
    SiteView {
        callee: match s.callee {
            RefView::Id(g) => RefView::Id(g + off),
            c => c,
        },
        args: s.args,
    }
}

/// A row with the numbers of known functions moved up by `off`.
pub open spec fn row_up(r: RowView, off: int) -> RowView {
    RowView { calls: Seq::new(r.calls.len(), |k: int| site_up(r.calls[k], off)), ..r }
}

/// The facts of `a` followed by those of `b`.
pub open spec fn merged(a: FactsView, b: FactsView) -> FactsView {
    let off = a.rows.len() as int;
    FactsView {
        names: Map::new(
            |n: Seq<char>| a.names.contains_key(n) || b.names.contains_key(n),
            |n: Seq<char>|
                if a.names.contains_key(n) {
                    a.names[n]
                } else {
                    (b.names[n] + off) as u32
                },
        ),
        rows: a.rows + Seq::new(b.rows.len(), |i: int| row_up(b.rows[i], off)),
    }
}

/// A callee that is a known function has a number below `n`.
pub open spec fn refers_below(callee: RefView, n: int) -> bool {
    match callee {
        RefView::Id(g) => 0 <= g < n,
        _ => true,
    }
}

/// Each name means a function with a number below `n`.
pub open spec fn names_below(names: Map<Seq<char>, u32>, n: int) -> bool {
    forall|x: Seq<char>| #[trigger] names.contains_key(x) ==> names[x] < n
}

impl FactsView {
    /// Names and calls refer to functions that are there.
    pub open spec fn wf(self) -> bool {
        &&& self.rows.len() <= u32::MAX
        &&& names_below(self.names, self.rows.len() as int)
        &&& forall|i: int, k: int|
            0 <= i < self.rows.len() && 0 <= k < self.rows[i].calls.len() ==> refers_below(
                (#[trigger] self.rows[i].calls[k]).callee,
                self.rows.len() as int,
            )
    }
}

/// The known function that a callee means.
pub open spec fn resolve(callee: RefView, names: Map<Seq<char>, u32>) -> Option<int> {
    match callee {
        RefView::Id(g) => Some(g),
        RefView::Name(n) => if n != harmless_asm() && names.contains_key(n) {
            Some(names[n] as int)
        } else {
            None
        },
        RefView::Indirect => None,
    }
}

/// The callee may do anything.
pub open spec fn unresolved(callee: RefView, names: Map<Seq<char>, u32>) -> bool {
    match callee {
        RefView::Id(g) => false,
        RefView::Name(n) => n != harmless_asm() && !names.contains_key(n),
        RefView::Indirect => true,
    }
}

/// The calls to known functions.
pub open spec fn resolved_edges(
    calls: Seq<SiteView>,
    names: Map<Seq<char>, u32>,
) -> Seq<EdgeView>
    decreases calls.len(),
{
    if calls.len() == 0 {
        Seq::empty()
    } else {
        let prior = resolved_edges(calls.drop_last(), names);
        match resolve(calls.last().callee, names) {
            Some(g) => prior.push(EdgeView { target: g, args: calls.last().args }),
            None => prior,
        }
    }
}

/// One of the calls may do anything.
pub open spec fn some_unresolved(calls: Seq<SiteView>, names: Map<Seq<char>, u32>) -> bool {
    exists|k: int| 0 <= k < calls.len() && unresolved((#[trigger] calls[k]).callee, names)
}

/// What is known of each function of the program once names are resolved.
pub open spec fn program_facts(facts: FactsView) -> Seq<FuncFacts> {
    Seq::new(
        facts.rows.len(),
        |i: int|
            FuncFacts {
                own: facts.rows[i].own,
                aliases: facts.rows[i].aliases,
                opaque: some_unresolved(facts.rows[i].calls, facts.names),
                edges: resolved_edges(facts.rows[i].calls, facts.names),
            },
    )
}

/// The call that an instruction makes.
fn site_from(
    inst: &Inst,
    fs: &Vec<Function>,
    base: u32,
    Ghost(ids): Ghost<Seq<FuncId>>,
) -> (r: Option<Site>)
    requires
        ids == Seq::new(fs@.len(), |i: int| fs@[i].id),
        base + fs@.len() <= u32::MAX,
    ensures
        match r {
            Some(s) => any_site(*inst, ids, base as int) == Some(s@) && refers_below(
                s@.callee,
                base + fs@.len(),
            ),
            None => any_site(*inst, ids, base as int) is None,
        },
{
    match inst {
        Inst::Call { callee, args, .. } => {
            let cr = match callee {
                Callee::Direct(g) => match find_id(fs, *g, Ghost(ids)) {
                    Some(k) => CalleeRef::Id(base + k as u32),
                    None => CalleeRef::Indirect,
                },
                Callee::Symbol(n) => CalleeRef::Name(n.clone()),
                Callee::Indirect(_) => CalleeRef::Indirect,
            };
            Some(Site { callee: cr, args: copy_operands(args) })
        },
        _ => None,
    }
}

/// The calls of a function's observable blocks.
fn sites_from(
    f: &Function,
    fs: &Vec<Function>,
    base: u32,
    Ghost(ids): Ghost<Seq<FuncId>>,
) -> (r: Vec<Site>)
    requires
        ids == Seq::new(fs@.len(), |i: int| fs@[i].id),
        base + fs@.len() <= u32::MAX,
    ensures
        sites_view(r@) == all_sites(flat_observable(f.blocks@), ids, base as int),
        forall|k: int|
            0 <= k < r@.len() ==> refers_below((#[trigger] r@[k])@.callee, base + fs@.len()),
{
    let insts = observable_insts(f);
    let ghost all = flat_observable(f.blocks@);
    let mut sites: Vec<Site> = Vec::new();
    let mut i: usize = 0;
    assert(all.take(0) =~= Seq::<Inst>::empty());
    assert(sites_view(sites@) =~= Seq::empty());
    while i < insts.len()
        invariant
            i <= insts@.len(),
            derefs(insts@) == all,
            ids == Seq::new(fs@.len(), |j: int| fs@[j].id),
            base + fs@.len() <= u32::MAX,
            sites_view(sites@) == all_sites(all.take(i as int), ids, base as int),
            forall|k: int|
                0 <= k < sites@.len() ==> refers_below(
                    (#[trigger] sites@[k])@.callee,
                    base + fs@.len(),
                ),
        decreases insts@.len() - i,
    {
        let inst: &Inst = insts[i];
        assert(*inst == all[i as int]);
        assert(all.take(i + 1).drop_last() =~= all.take(i as int));
        assert(all.take(i + 1).last() == all[i as int]);
        let ghost before = sites_view(sites@);
        if let Some(s) = site_from(inst, fs, base, Ghost(ids)) {
            let ghost sv = s@;
            sites.push(s);
            assert(sites_view(sites@) =~= before.push(sv));
        }
        i += 1;
    }
    assert(all.take(all.len() as int) =~= all);
    sites
}

fn listed(ids: &Vec<FuncId>, id: FuncId) -> (r: bool)
    ensures
        r == ids@.contains(id),
{
    let mut k: usize = 0;
    while k < ids.len()
        invariant
            k <= ids@.len(),
            forall|j: int| 0 <= j < k ==> #[trigger] ids@[j] != id,
        decreases ids@.len() - k,
    {
        if ids[k] == id {
            assert(ids@[k as int] == id);
            return true;
        }
        k += 1;
    }
    false
}

/// Each name stands once.
spec fn names_once(names: Seq<(String, u32)>) -> bool {
    forall|i: int, j: int| 0 <= i < j < names.len() ==> names[i].0@ != names[j].0@
}

proof fn lemma_names_map(names: Seq<(String, u32)>)
    requires
        names_once(names),
    ensures
        forall|k: int|
            0 <= k < names.len() ==> table(names).contains_key((#[trigger] names[k]).0@)
                && table(names)[names[k].0@] == names[k].1,
        forall|n: Seq<char>| #[trigger]
            table(names).contains_key(n) ==> exists|k: int|
                0 <= k < names.len() && (#[trigger] names[k]).0@ == n,
    decreases names.len(),
{
    if names.len() > 0 {
        let head = names.drop_last();
        assert(names_once(head));
        lemma_names_map(head);
        assert forall|k: int| 0 <= k < names.len() implies #[trigger] table(
            names,
        ).contains_key(names[k].0@) && table(names)[names[k].0@] == names[k].1 by {
            if k < head.len() {
                assert(table(head).contains_key(head[k].0@));
                assert(names[k].0@ != names[names.len() - 1].0@);
            }
        }
        assert forall|n: Seq<char>| #[trigger] table(names).contains_key(n) implies exists|
            k: int,
        |
            0 <= k < names.len() && (#[trigger] names[k]).0@ == n by {
            if n == names.last().0@ {
                assert(names[names.len() - 1].0@ == n);
            } else {
                assert(table(head).contains_key(n));
                let k = choose|k: int| 0 <= k < head.len() && (#[trigger] head[k]).0@ == n;
                assert(names[k].0@ == n);
            }
        }
    }
}

proof fn lemma_names_once_push(names: Seq<(String, u32)>, e: (String, u32))
    requires
        names_once(names),
        !table(names).contains_key(e.0@),
    ensures
        names_once(names.push(e)),
        table(names.push(e)) == table(names).insert(e.0@, e.1),
{
    lemma_names_map(names);
    assert(names.push(e).drop_last() =~= names);
    assert forall|i: int, j: int| 0 <= i < j < names.len() + 1 implies names.push(e)[i].0@
        != names.push(e)[j].0@ by {
        if j == names.len() {
            assert(table(names).contains_key(names[i].0@));
        }
    }
}

impl View for SummaryFacts {
    type V = FactsView;

    closed spec fn view(&self) -> FactsView {
        FactsView {
            names: table(self.names@),
            rows: Seq::new(
                self.base@.len(),
                |i: int|
                    RowView {
                        own: self.base@[i]@,
                        aliases: self.param_of@[i]@,
                        calls: sites_view(self.calls@[i]@),
                    },
            ),
        }
    }
}

impl SummaryFacts {
    /// The parts fit together.
    pub closed spec fn wf(&self) -> bool {
        &&& self.param_of@.len() == self.base@.len()
        &&& self.calls@.len() == self.base@.len()
        &&& names_once(self.names@)
        &&& self@.wf()
        &&& forall|i: int| 0 <= i < self.base@.len() ==> in_order(#[trigger] self.base@[i])
    }

    /// A fresh, empty fact set.
    pub fn new() -> (s: SummaryFacts)
        ensures
            s.wf(),
            s@ == no_facts(),
    {
        let s = SummaryFacts {
            names: Vec::new(),
            base: Vec::new(),
            param_of: Vec::new(),
            calls: Vec::new(),
        };
        assert(s@.rows =~= Seq::empty());
        s
    }

    /// The external definitions: each name once, with the number of its first definition.
    pub fn name_to_id(&self) -> (names: &Vec<(String, u32)>)
        requires
            self.wf(),
        ensures
            forall|k: int|
                0 <= k < names@.len() ==> self@.names.contains_key((#[trigger] names@[k]).0@)
                    && self@.names[names@[k].0@] == names@[k].1,
            forall|n: Seq<char>| #[trigger]
                self@.names.contains_key(n) ==> exists|k: int|
                    0 <= k < names@.len() && (#[trigger] names@[k]).0@ == n,
            forall|i: int, j: int| 0 <= i < j < names@.len() ==> names@[i].0@ != names@[j].0@,
    {
        proof {
            lemma_names_map(self.names@);
        }
        &self.names
    }

    /// Read one module: its functions are numbered after those read before.
    pub fn push_module(&mut self, m: &Module)
        requires
            old(self).wf(),
            old(self)@.rows.len() + m.functions@.len() <= u32::MAX,
        ensures
            final(self).wf(),
            final(self)@ == pushed(old(self)@, *m),
    {
        let ghost start = self@;
        let ghost ids = ids_of(*m);
        let base: u32 = self.base.len() as u32;
        let n: usize = m.functions.len();
        let mut i: usize = 0;
        assert(self@.names == table(self.names@));
        assert(self@.rows.len() == base);
        assert(self@.rows =~= start.rows + Seq::new(
            0,
            |k: int| row_of(m.functions@[k], ids, base as int),
        ));
        while i < n
            invariant
                i <= n,
                n == m.functions@.len(),
                base + n <= u32::MAX,
                base == start.rows.len(),
                ids == ids_of(*m),
                start.wf(),
                self.base@.len() == base + i,
                self.param_of@.len() == self.base@.len(),
                self.calls@.len() == self.base@.len(),
                names_once(self.names@),
                table(self.names@) == names_with(start.names, *m, base as int, i as nat),
                names_below(table(self.names@), base + n),
                forall|k: int| 0 <= k < self.base@.len() ==> in_order(#[trigger] self.base@[k]),
                self@.rows == start.rows + Seq::new(
                    i as nat,
                    |k: int| row_of(m.functions@[k], ids, base as int),
                ),
                forall|a: int, b: int|
                    0 <= a < self@.rows.len() && 0 <= b < self@.rows[a].calls.len()
                        ==> refers_below((#[trigger] self@.rows[a].calls[b]).callee, base + n),
            decreases n - i,
        {
            let f = &m.functions[i];
            let ghost before = *self;
            let internal = listed(&m.internal, f.id);
            if !internal {
                if find_name(&self.names, &f.name).is_none() {
                    let last: usize = match find_id(&m.functions, f.id, Ghost(ids)) {
                        Some(k) => k,
                        None => {
                            proof {
                                reveal(id_index);
                                assert(ids[i as int] == f.id);
                            }
                            i
                        },
                    };
                    let e: (String, u32) = (f.name.clone(), base + last as u32);
                    proof {
                        lemma_names_once_push(self.names@, e);
                    }
                    self.names.push(e);
                }
            }
            let s = summarize_fn(f);
            proof {
                own_summary_is_unique(*f, s);
            }
            self.base.push(s);
            self.param_of.push(ptr_param_of(f));
            let sites = sites_from(f, &m.functions, base, Ghost(ids));
            let ghost sv = sites@;
            self.calls.push(sites);
            proof {
                let row = row_of(*f, ids, base as int);
                assert(self@.rows.len() == before@.rows.len() + 1);
                assert forall|k: int| 0 <= k < self@.rows.len() implies self@.rows[k] == if k
                    < before@.rows.len() {
                    before@.rows[k]
                } else {
                    row
                } by {
                    if k < before@.rows.len() {
                        assert(self.base@[k] == before.base@[k]);
                        assert(self.param_of@[k] == before.param_of@[k]);
                        assert(self.calls@[k] == before.calls@[k]);
                    }
                }
                assert(self@.rows =~= before@.rows.push(row));
                assert(self@.rows =~= start.rows + Seq::new(
                    (i + 1) as nat,
                    |k: int| row_of(m.functions@[k], ids, base as int),
                ));
                assert forall|a: int, b: int|
                    0 <= a < self@.rows.len() && 0 <= b < self@.rows[a].calls.len()
                        implies refers_below((#[trigger] self@.rows[a].calls[b]).callee, base + n) by {
                    if a < before@.rows.len() {
                        assert(self@.rows[a] == before@.rows[a]);
                        assert(refers_below(before@.rows[a].calls[b].callee, base + n));
                    } else {
                        assert(self@.rows[a].calls == sites_view(sv));
                        assert(refers_below(sv[b]@.callee, base + n));
                    }
                }
            }
            i += 1;
        }
        assert(self@.rows.len() == base + n);
    }

    /// Absorb another fact set as if its modules had been read after these.
    pub fn merge(&mut self, other: SummaryFacts)
        requires
            old(self).wf(),
            other.wf(),
            old(self)@.rows.len() + other@.rows.len() <= u32::MAX,
        ensures
            final(self).wf(),
            final(self)@ == merged(old(self)@, other@),
    {
        let ghost a = self@;
        let ghost b = other@;
        let off: u32 = self.base.len() as u32;
        let SummaryFacts { names, base, param_of, calls } = other;
        let ghost mine = self.names@;
        let mut k: usize = 0;
        proof {
            lemma_names_map(names@);
            lemma_names_map(self.names@);
        }
        while k < names.len()
            invariant
                k <= names@.len(),
                names_once(names@),
                names_once(self.names@),
                names_once(mine),
                off == a.rows.len(),
                a.names == table(mine),
                b.names == table(names@),
                off + b.rows.len() <= u32::MAX,
                b.wf(),
                self.base == old(self).base,
                self.param_of == old(self).param_of,
                self.calls == old(self).calls,
                forall|j: int|
                    0 <= j < names@.len() ==> #[trigger] table(names@).contains_key(
                        names@[j].0@,
                    ) && table(names@)[names@[j].0@] == names@[j].1,
                forall|x: Seq<char>| #[trigger]
                    table(self.names@).contains_key(x) <==> a.names.contains_key(x) || exists|
                        j: int,
                    |
                        0 <= j < k && (#[trigger] names@[j]).0@ == x,
                forall|x: Seq<char>| #[trigger]
                    table(self.names@).contains_key(x) ==> table(self.names@)[x]
                        == if a.names.contains_key(x) {
                        a.names[x]
                    } else {
                        (b.names[x] + off) as u32
                    },
            decreases names@.len() - k,
        {
            let ghost before = table(self.names@);
            assert(table(names@).contains_key(names@[k as int].0@));
            let have: bool = find_name(&self.names, &names[k].0).is_some();
            if !have {
                let e: (String, u32) = (names[k].0.clone(), names[k].1 + off);
                proof {
                    lemma_names_once_push(self.names@, e);
                }
                self.names.push(e);
            }
            proof {
                let key = names@[k as int].0@;
                assert forall|x: Seq<char>| #[trigger]
                    table(self.names@).contains_key(x) <==> a.names.contains_key(x) || exists|
                        j: int,
                    |
                        0 <= j < k + 1 && (#[trigger] names@[j]).0@ == x by {
                    assert(before.contains_key(x) <==> a.names.contains_key(x) || exists|j: int|
                        0 <= j < k && (#[trigger] names@[j]).0@ == x);
                    if x == key {
                        assert(names@[k as int].0@ == x);
                    }
                }
            }
            k += 1;
        }
        proof {
            let m = merged(a, b);
            assert(table(self.names@) =~= m.names) by {
                assert forall|x: Seq<char>| table(self.names@).contains_key(x)
                    <==> m.names.contains_key(x) by {
                    if b.names.contains_key(x) {
                        let j = choose|j: int|
                            0 <= j < names@.len() && (#[trigger] names@[j]).0@ == x;
                    }
                    if exists|j: int| 0 <= j < names@.len() && (#[trigger] names@[j]).0@ == x {
                        let j = choose|j: int|
                            0 <= j < names@.len() && (#[trigger] names@[j]).0@ == x;
                        assert(table(names@).contains_key(names@[j].0@));
                    }
                }
            }
        }
        let ghost my_base = self.base@;
        let ghost my_param = self.param_of@;
        let ghost my_calls = self.calls@;
        append_all(&mut self.base, base);
        append_all(&mut self.param_of, param_of);
        proof {
            assert forall|i: int, k: int|
                0 <= i < calls@.len() && 0 <= k < calls@[i]@.len() implies refers_below(
                (#[trigger] calls@[i]@[k])@.callee,
                u32::MAX - off,
            ) by {
                assert(b.rows[i].calls == sites_view(calls@[i]@));
                assert(refers_below(b.rows[i].calls[k].callee, b.rows.len() as int));
            }
        }
        let moved = sites_up(calls, off);
        let ghost mv = moved@;
        append_all(&mut self.calls, moved);
        proof {
            let m = merged(a, b);
            assert(self@.rows.len() == m.rows.len());
            assert forall|i: int| 0 <= i < self@.rows.len() implies self@.rows[i] == m.rows[i] by {
                if i < a.rows.len() {
                    assert(a.rows[i].own == my_base[i]@);
                    assert(self.base@[i] == my_base[i]);
                    assert(self.param_of@[i] == my_param[i]);
                    assert(self.calls@[i] == my_calls[i]);
                } else {
                    let j = i - a.rows.len();
                    assert(self.base@[i] == base@[j]);
                    assert(self.param_of@[i] == param_of@[j]);
                    assert(self.calls@[i] == mv[j]);
                    assert(b.rows[j].own == base@[j]@);
                    assert(sites_view(mv[j]@) =~= row_up(b.rows[j], off as int).calls) by {
                        assert(b.rows[j].calls == sites_view(calls@[j]@));
                        assert forall|q: int| 0 <= q < mv[j]@.len() implies sites_view(mv[j]@)[q]
                            == row_up(b.rows[j], off as int).calls[q] by {
                            assert(mv[j]@[q]@ == site_up(calls@[j]@[q]@, off as int));
                        }
                    }
                }
            }
            assert(self@.rows =~= m.rows);
            assert(self@ == m);
            lemma_merged_wf(a, b);
            assert forall|i: int| 0 <= i < self.base@.len() implies in_order(
                #[trigger] self.base@[i],
            ) by {
                if i < my_base.len() {
                    assert(self.base@[i] == my_base[i]);
                } else {
                    assert(self.base@[i] == base@[i - my_base.len()]);
                }
            }
        }
    }
}

proof fn lemma_merged_wf(a: FactsView, b: FactsView)
    requires
        a.wf(),
        b.wf(),
        a.rows.len() + b.rows.len() <= u32::MAX,
    ensures
        merged(a, b).wf(),
{
    let m = merged(a, b);
    let off = a.rows.len() as int;
    assert forall|i: int, k: int|
        0 <= i < m.rows.len() && 0 <= k < m.rows[i].calls.len() implies refers_below(
        (#[trigger] m.rows[i].calls[k]).callee,
        m.rows.len() as int,
    ) by {
        if i < off {
            assert(m.rows[i] == a.rows[i]);
            assert(refers_below(a.rows[i].calls[k].callee, off));
        } else {
            let j = i - off;
            assert(m.rows[i] == row_up(b.rows[j], off));
            assert(refers_below(b.rows[j].calls[k].callee, b.rows.len() as int));
        }
    }
}

/// The lists of a summary are in order.
pub open spec fn in_order(s: Summary) -> bool {
    &&& crate::summary::lists::sorted_pairs(s.prov.transfers@)
    &&& crate::summary::lists::sorted_labels(s.prov.labels@)
    &&& crate::summary::lists::sorted_counts(s.refcount_effect@)
}

/// Append the elements of `b` to `a`.
fn append_all<T>(a: &mut Vec<T>, b: Vec<T>)
    ensures
        final(a)@ == old(a)@ + b@,
{
    let mut b = b;
    a.append(&mut b);
}

/// The calls with the numbers of known functions moved up by `off`.
fn sites_up(calls: Vec<Vec<Site>>, off: u32) -> (r: Vec<Vec<Site>>)
    requires
        forall|i: int, k: int|
            0 <= i < calls@.len() && 0 <= k < calls@[i]@.len() ==> refers_below(
                (#[trigger] calls@[i]@[k])@.callee,
                u32::MAX - off,
            ),
    ensures
        r@.len() == calls@.len(),
        forall|i: int|
            0 <= i < calls@.len() ==> (#[trigger] r@[i])@.len() == calls@[i]@.len(),
        forall|i: int, k: int|
            0 <= i < calls@.len() && 0 <= k < calls@[i]@.len() ==> (#[trigger] r@[i]@[k])@
                == site_up(calls@[i]@[k]@, off as int),
{
    let mut r: Vec<Vec<Site>> = Vec::new();
    let mut i: usize = 0;
    while i < calls.len()
        invariant
            i <= calls@.len(),
            r@.len() == i,
            forall|j: int, k: int|
                0 <= j < calls@.len() && 0 <= k < calls@[j]@.len() ==> refers_below(
                    (#[trigger] calls@[j]@[k])@.callee,
                    u32::MAX - off,
                ),
            forall|j: int| 0 <= j < i ==> (#[trigger] r@[j])@.len() == calls@[j]@.len(),
            forall|j: int, k: int|
                0 <= j < i && 0 <= k < calls@[j]@.len() ==> (#[trigger] r@[j]@[k])@ == site_up(
                    calls@[j]@[k]@,
                    off as int,
                ),
        decreases calls@.len() - i,
    {
        let list = &calls[i];
        let mut out: Vec<Site> = Vec::new();
        let mut k: usize = 0;
        while k < list.len()
            invariant
                k <= list@.len(),
                i < calls@.len(),
                list@ == calls@[i as int]@,
                out@.len() == k,
                forall|j: int, q: int|
                    0 <= j < calls@.len() && 0 <= q < calls@[j]@.len() ==> refers_below(
                        (#[trigger] calls@[j]@[q])@.callee,
                        u32::MAX - off,
                    ),
                forall|q: int|
                    0 <= q < k ==> (#[trigger] out@[q])@ == site_up(list@[q]@, off as int),
            decreases list@.len() - k,
        {
            assert(refers_below(calls@[i as int]@[k as int]@.callee, u32::MAX - off));
            let callee = match &list[k].callee {
                CalleeRef::Id(g) => CalleeRef::Id(*g + off),
                CalleeRef::Name(n) => CalleeRef::Name(n.clone()),
                CalleeRef::Indirect => CalleeRef::Indirect,
            };
            out.push(Site { callee, args: copy_operands(&list[k].args) });
            k += 1;
        }
        let ghost before = r@;
        r.push(out);
        proof {
            assert forall|j: int, q: int|
                0 <= j < i + 1 && 0 <= q < calls@[j]@.len() implies (#[trigger] r@[j]@[q])@
                == site_up(calls@[j]@[q]@, off as int) by {
                if j < i {
                    assert(r@[j] == before[j]);
                }
            }
        }
        i += 1;
    }
    r
}

/// The known functions that a function's calls go to, and whether one may do anything.
fn resolve_calls(calls: &Vec<Site>, names: &Vec<(String, u32)>) -> (r: (Vec<Edge>, bool))
    ensures
        edges_view(r.0@) == resolved_edges(sites_view(calls@), table(names@)),
        r.1 == some_unresolved(sites_view(calls@), table(names@)),
{
    let ghost sv = sites_view(calls@);
    let ghost nm = table(names@);
    let mut edges: Vec<Edge> = Vec::new();
    let mut opaque = false;
    let mut k: usize = 0;
    assert(sv.take(0) =~= Seq::<SiteView>::empty());
    assert(edges_view(edges@) =~= Seq::empty());
    while k < calls.len()
        invariant
            k <= calls@.len(),
            sv == sites_view(calls@),
            nm == table(names@),
            edges_view(edges@) == resolved_edges(sv.take(k as int), nm),
            opaque <==> exists|j: int| 0 <= j < k && unresolved((#[trigger] sv[j]).callee, nm),
        decreases calls@.len() - k,
    {
        let site = &calls[k];
        assert(sv[k as int] == site@);
        assert(sv.take(k + 1).drop_last() =~= sv.take(k as int));
        assert(sv.take(k + 1).last() == sv[k as int]);
        let ghost before = edges_view(edges@);
        let target: Option<u32> = match &site.callee {
            CalleeRef::Id(g) => Some(*g),
            CalleeRef::Name(n) => if is_harmless_asm(n) {
                None
            } else {
                match find_name(names, n) {
                    Some(g) => Some(g),
                    None => {
                        opaque = true;
                        None
                    },
                }
            },
            CalleeRef::Indirect => {
                opaque = true;
                None
            },
        };
        proof {
            if unresolved(sv[k as int].callee, nm) {
                assert(opaque);
            }
        }
        if let Some(g) = target {
            let e = Edge { target: g as usize, args: copy_operands(&site.args) };
            let ghost ev = e@;
            edges.push(e);
            assert(edges_view(edges@) =~= before.push(ev));
        }
        k += 1;
    }
    assert(sv.take(sv.len() as int) =~= sv);
    (edges, opaque)
}

proof fn lemma_resolved_below(calls: Seq<SiteView>, names: Map<Seq<char>, u32>, n: int)
    requires
        forall|k: int| 0 <= k < calls.len() ==> refers_below((#[trigger] calls[k]).callee, n),
        forall|x: Seq<char>| #[trigger] names.contains_key(x) ==> names[x] < n,
    ensures
        forall|k: int|
            0 <= k < resolved_edges(calls, names).len() ==> 0 <= (#[trigger] resolved_edges(
                calls,
                names,
            )[k]).target < n,
    decreases calls.len(),
{
    if calls.len() > 0 {
        let head = calls.drop_last();
        assert forall|k: int| 0 <= k < head.len() implies refers_below(
            (#[trigger] head[k]).callee,
            n,
        ) by {
            assert(refers_below(calls[k].callee, n));
        }
        lemma_resolved_below(head, names, n);
        assert(refers_below(calls[calls.len() - 1].callee, n));
        let prior = resolved_edges(head, names);
        let all = resolved_edges(calls, names);
        assert forall|k: int| 0 <= k < all.len() implies 0 <= (#[trigger] all[k]).target < n by {
            if k < prior.len() {
                assert(all[k] == prior[k]);
            }
        }
    }
}

impl SummaryFacts {
    /// Resolve names across modules and consider every call: the summary of each function
    /// by its number.
    pub fn finalize(self) -> (map: HashMap<u32, Summary>)
        requires
            self.wf(),
        ensures
            forall|i: u32| #[trigger] map@.contains_key(i) <==> i < self@.rows.len(),
            forall|i: u32|
                i < self@.rows.len() ==> (#[trigger] map@[i])@ == spread(
                    program_facts(self@),
                    i as int,
                ),
    {
        let ghost view = self@;
        let SummaryFacts { names, base, param_of, calls } = self;
        let n: usize = base.len();
        let mut summ: Vec<Summary> = base;
        let mut edges: Vec<Vec<Edge>> = Vec::new();
        let mut opaque: Vec<bool> = Vec::new();
        let mut i: usize = 0;
        while i < n
            invariant
                i <= n,
                n == calls@.len(),
                n == view.rows.len(),
                view.wf(),
                view.names == table(names@),
                forall|k: int| 0 <= k < n ==> (#[trigger] view.rows[k]).calls == sites_view(calls@[k]@),
                edges@.len() == i,
                opaque@.len() == i,
                forall|k: int|
                    0 <= k < i ==> #[trigger] edges_view(edges@[k]@) == resolved_edges(
                        view.rows[k].calls,
                        view.names,
                    ),
                forall|k: int|
                    0 <= k < i ==> #[trigger] opaque@[k] == some_unresolved(
                        view.rows[k].calls,
                        view.names,
                    ),
            decreases n - i,
        {
            let (e, o) = resolve_calls(&calls[i], &names);
            assert(view.rows[i as int].calls == sites_view(calls@[i as int]@));
            edges.push(e);
            opaque.push(o);
            i += 1;
        }
        let ghost facts = program_facts(view);
        proof {
            assert forall|k: int, j: int|
                0 <= k < edge_views(edges@).len() && 0 <= j < edge_views(edges@)[k].len()
                    implies 0 <= (#[trigger] edge_views(edges@)[k][j]).target < n by {
                assert(edge_views(edges@)[k] =~= edges_view(edges@[k]@));
                assert forall|q: int| 0 <= q < view.rows[k].calls.len() implies refers_below(
                    (#[trigger] view.rows[k].calls[q]).callee,
                    n as int,
                ) by {}
                lemma_resolved_below(view.rows[k].calls, view.names, n as int);
            }
            let g = gathered(summ@, opaque@, param_of@, edges@);
            assert forall|k: int| 0 <= k < n implies g[k] == facts[k] by {
                assert(view.rows[k].own == summ@[k]@);
                assert(edge_views(edges@)[k] =~= edges_view(edges@[k]@));
            }
            assert(g =~= facts);
            assert forall|k: int| 0 <= k < n implies in_order(#[trigger] summ@[k]) by {}
        }
        settle(&mut summ, &opaque, &param_of, &edges);
        let mut map: HashMap<u32, Summary> = HashMap::new();
        let mut k: usize = n;
        while k > 0
            invariant
                k <= n,
                n <= u32::MAX,
                summ@.len() == k,
                forall|j: int| 0 <= j < k ==> (#[trigger] summ@[j])@ == spread(facts, j),
                forall|j: u32| #[trigger] map@.contains_key(j) <==> k <= j < n,
                forall|j: u32| k <= j < n ==> (#[trigger] map@[j])@ == spread(facts, j as int),
            decreases k,
        {
            k -= 1;
            if let Some(s) = summ.pop() {
                map.insert(k as u32, s);
            }
        }
        map
    }
}

/// The modules that references refer to.
pub open spec fn modules(mods: Seq<&Module>) -> Seq<Module> {
    Seq::new(mods.len(), |i: int| *mods[i])
}

/// Whole-program summaries without linking: each module is read once.
pub fn summarize_program(mods: &[&Module]) -> (map: HashMap<u32, Summary>)
    requires
        facts_of(modules(mods@)).rows.len() <= u32::MAX,
    ensures
        forall|i: u32| #[trigger]
            map@.contains_key(i) <==> i < facts_of(modules(mods@)).rows.len(),
        forall|i: u32|
            i < facts_of(modules(mods@)).rows.len() ==> (#[trigger] map@[i])@ == spread(
                program_facts(facts_of(modules(mods@))),
                i as int,
            ),
{
    let ghost all = modules(mods@);
    let mut facts = SummaryFacts::new();
    let mut k: usize = 0;
    assert(all.take(0) =~= Seq::<Module>::empty());
    while k < mods.len()
        invariant
            k <= mods@.len(),
            all == modules(mods@),
            facts.wf(),
            facts@ == facts_of(all.take(k as int)),
            facts_of(all).rows.len() <= u32::MAX,
        decreases mods@.len() - k,
    {
        proof {
            assert(all.take(k + 1).drop_last() =~= all.take(k as int));
            assert(all.take(k + 1).last() == *mods@[k as int]);
            lemma_facts_grow(all, k + 1);
        }
        facts.push_module(mods[k]);
        k += 1;
    }
    assert(all.take(all.len() as int) =~= all);
    facts.finalize()
}

proof fn lemma_facts_grow(mods: Seq<Module>, k: int)
    requires
        0 <= k <= mods.len(),
    ensures
        facts_of(mods.take(k)).rows.len() <= facts_of(mods).rows.len(),
    decreases mods.len(),
{
    if k == mods.len() {
        assert(mods.take(k) =~= mods);
    } else {
        lemma_facts_grow(mods.drop_last(), k);
        assert(mods.drop_last().take(k) =~= mods.take(k));
    }
}

} // verus!
