//! Function summaries for interprocedural analysis.
//!
//! A summary says what a caller needs to know of a call without looking into the
//! callee: whether it writes or frees memory that the caller can see, what it
//! returns in terms of its parameters, how it moves provenance between its pointer
//! arguments, and what it does to reference counts.

use crate::affine::{Affine, AffineView};
use crate::ir::Function;
use fixpoint::{
    copy_counts, copy_labels, copy_pairs, count_list, count_rounds, count_views, edge_views, effect,
    label_spreads, label_views, map_views, pair_spreads, pair_views, spread_counts, spread_flags,
    spread_labels, spread_pairs, targets_below, Edge, EdgeView,
};
use lists::{
    counts_unique, sorted_counts, sorted_labels, sorted_labels_unique, sorted_pairs,
    sorted_pairs_unique,
};
use perfn::{
    certain_free, own_counts, own_frees, own_labels, own_summary, own_transfers, own_writes,
};
use ret::ret_summary;
use std::collections::HashMap;
use vstd::prelude::*;

pub mod effects;
pub mod fixpoint;
pub mod laws;
pub mod lists;
pub mod perfn;
pub mod program;
pub mod ret;
pub mod runs;

verus! {

broadcast use vstd::std_specs::hash::group_hash_axioms;

/// What a function returns, in parameter-relative terms.
#[derive(Debug, Clone, PartialEq, Eq)]
pub enum RetSummary {
    /// Not characterized: the caller must assume any result.
    Unknown,
    /// A scalar that is an affine function of the parameters.
    Scalar(Affine),
    /// A pointer derived from parameter `arg`, offset by an affine function of the
    /// parameters, with the provenance of `arg`.
    PtrFromArg {
        /// Index of the source pointer parameter.
        arg: usize,
        /// Byte offset added to that parameter's pointer.
        offset: Affine,
    },
}

/// A return summary as a mathematical value.
pub enum RetView {
    Unknown,
    Scalar(AffineView),
    PtrFromArg(usize, AffineView),
}

impl View for RetSummary {
    type V = RetView;

    open spec fn view(&self) -> RetView {
        match self {
            RetSummary::Unknown => RetView::Unknown,
            RetSummary::Scalar(a) => RetView::Scalar(a@),
            RetSummary::PtrFromArg { arg, offset } => RetView::PtrFromArg(*arg, offset@),
        }
    }
}

/// How a call moves provenance labels between its pointer arguments. Only definite
/// aliasing of parameters is recorded.
#[derive(Debug, Clone, PartialEq, Eq)]
pub struct ProvTransfer {
    /// `(dst_arg, src_arg)`: a call adds `src_arg`'s labels to `dst_arg`'s.
    pub transfers: Vec<(usize, usize)>,
    /// `(arg, label)`: a call adds provenance label `label` to `arg`'s region.
    pub labels: Vec<(usize, u32)>,
}

impl Default for ProvTransfer {
    fn default() -> (p: ProvTransfer)
        ensures
            p.transfers@.len() == 0,
            p.labels@.len() == 0,
    {
        ProvTransfer { transfers: Vec::new(), labels: Vec::new() }
    }
}

/// A function's interprocedural summary.
#[derive(Debug, Clone, PartialEq, Eq)]
pub struct Summary {
    /// The return-value characterization.
    pub ret: RetSummary,
    /// Whether the function may write to memory.
    pub writes: bool,
    /// Whether the function may free memory.
    pub frees: bool,
    /// The parameter that the function frees on every path, where that is certain.
    pub frees_arg: Option<usize>,
    /// How a call moves provenance labels between its pointer arguments.
    pub prov: ProvTransfer,
    /// The net change to the reference count of each pointer parameter's object, per
    /// protocol: `(param index, protocol id, delta)`.
    pub refcount_effect: Vec<(usize, u32, i64)>,
}

impl Summary {
    /// Whether the function is free of caller-visible memory effects.
    pub fn is_pure(&self) -> (pure: bool)
        ensures
            pure == (!self.writes && !self.frees),
    {
        !self.writes && !self.frees
    }
}

/// A summary as a mathematical value.
pub struct SummaryView {
    pub ret: RetView,
    pub writes: bool,
    pub frees: bool,
    pub frees_arg: Option<usize>,
    pub transfers: Seq<(usize, usize)>,
    pub labels: Seq<(usize, u32)>,
    pub counts: Seq<(usize, u32, i64)>,
}

impl View for Summary {
    type V = SummaryView;

    open spec fn view(&self) -> SummaryView {
        SummaryView {
            ret: self.ret@,
            writes: self.writes,
            frees: self.frees,
            frees_arg: self.frees_arg,
            transfers: self.prov.transfers@,
            labels: self.prov.labels@,
            counts: self.refcount_effect@,
        }
    }
}

/// The sorted list of the pairs with `p`.
pub open spec fn pair_list(p: spec_fn((usize, usize)) -> bool) -> Seq<(usize, usize)> {
    choose|s: Seq<(usize, usize)>|
        sorted_pairs(s) && forall|x: (usize, usize)| #[trigger] s.contains(x) <==> p(x)
}

/// The sorted list of the labels with `p`.
pub open spec fn label_list(p: spec_fn((usize, u32)) -> bool) -> Seq<(usize, u32)> {
    choose|s: Seq<(usize, u32)>|
        sorted_labels(s) && forall|x: (usize, u32)| #[trigger] s.contains(x) <==> p(x)
}

proof fn lemma_pair_list(s: Seq<(usize, usize)>, p: spec_fn((usize, usize)) -> bool)
    requires
        sorted_pairs(s),
        forall|x: (usize, usize)| #[trigger] s.contains(x) <==> p(x),
    ensures
        s == pair_list(p),
{
    let t = pair_list(p);
    assert(sorted_pairs(t) && forall|x: (usize, usize)| #[trigger] t.contains(x) <==> p(x));
    assert forall|x: (usize, usize)| #[trigger] s.contains(x) <==> t.contains(x) by {}
    sorted_pairs_unique(s, t);
}

proof fn lemma_label_list(s: Seq<(usize, u32)>, p: spec_fn((usize, u32)) -> bool)
    requires
        sorted_labels(s),
        forall|x: (usize, u32)| #[trigger] s.contains(x) <==> p(x),
    ensures
        s == label_list(p),
{
    let t = label_list(p);
    assert(sorted_labels(t) && forall|x: (usize, u32)| #[trigger] t.contains(x) <==> p(x));
    assert forall|x: (usize, u32)| #[trigger] s.contains(x) <==> t.contains(x) by {}
    sorted_labels_unique(s, t);
}

/// The parameter that a function certainly frees.
pub open spec fn freed_param(f: Function) -> Option<usize> {
    if exists|k: usize| certain_free(f, k) {
        Some(choose|k: usize| certain_free(f, k))
    } else {
        None
    }
}

/// What a function's own body does, before its calls are considered.
pub open spec fn own_view(f: Function) -> SummaryView {
    SummaryView {
        ret: ret_summary(f),
        writes: own_writes(f),
        frees: own_frees(f),
        frees_arg: freed_param(f),
        transfers: pair_list(|x: (usize, usize)| own_transfers(f, x)),
        labels: label_list(|x: (usize, u32)| own_labels(f, x)),
        counts: count_list(own_counts(f)),
    }
}

pub proof fn lemma_certain_free_unique(f: Function, a: usize, b: usize)
    requires
        certain_free(f, a),
        certain_free(f, b),
    ensures
        a == b,
{
    let insts = f.blocks@[0].insts@;
    let i = choose|i: int|
        0 <= i < insts.len() && #[trigger] perfn::freeing(f.params@, insts[i]) == Some(Some(a))
            && forall|j: int|
            0 <= j < insts.len() && j != i ==> #[trigger] perfn::freeing(
                f.params@,
                insts[j],
            ) is None;
    let k = choose|k: int|
        0 <= k < insts.len() && #[trigger] perfn::freeing(f.params@, insts[k]) == Some(Some(b))
            && forall|j: int|
            0 <= j < insts.len() && j != k ==> #[trigger] perfn::freeing(
                f.params@,
                insts[j],
            ) is None;
    assert(i == k);
}

/// A summary of a function's own body is the one that `own_view` describes.
pub proof fn own_summary_is_unique(f: Function, s: Summary)
    requires
        own_summary(f, s),
    ensures
        s@ == own_view(f),
{
    lemma_pair_list(s.prov.transfers@, |x: (usize, usize)| own_transfers(f, x));
    lemma_label_list(s.prov.labels@, |x: (usize, u32)| own_labels(f, x));
    counts_unique(s.refcount_effect@, count_list(own_counts(f)), own_counts(f));
    if let Some(k) = s.frees_arg {
        lemma_certain_free_unique(f, k, freed_param(f)->0);
    }
}

// ---- spreading summaries along calls ----

/// What is known of a function before its calls are considered: its own summary, the
/// registers that alias its parameters, whether it makes a call that may do anything,
/// and its calls to known functions.
pub struct FuncFacts {
    pub own: SummaryView,
    pub aliases: Map<u32, usize>,
    pub opaque: bool,
    pub edges: Seq<EdgeView>,
}

/// The calls of each function.
pub open spec fn edges_of(facts: Seq<FuncFacts>) -> Seq<Seq<EdgeView>> {
    Seq::new(facts.len(), |i: int| facts[i].edges)
}

/// The parameter aliases of each function.
pub open spec fn aliases_of(facts: Seq<FuncFacts>) -> Seq<Map<u32, usize>> {
    Seq::new(facts.len(), |i: int| facts[i].aliases)
}

/// Whether each function writes, by its own body or by an unknown call.
pub open spec fn writes_of(facts: Seq<FuncFacts>) -> Seq<bool> {
    Seq::new(facts.len(), |i: int| facts[i].own.writes || facts[i].opaque)
}

/// Whether each function frees, by its own body or by an unknown call.
pub open spec fn frees_of(facts: Seq<FuncFacts>) -> Seq<bool> {
    Seq::new(facts.len(), |i: int| facts[i].own.frees || facts[i].opaque)
}

pub open spec fn transfers_of(facts: Seq<FuncFacts>) -> Seq<Seq<(usize, usize)>> {
    Seq::new(facts.len(), |i: int| facts[i].own.transfers)
}

pub open spec fn labels_of(facts: Seq<FuncFacts>) -> Seq<Seq<(usize, u32)>> {
    Seq::new(facts.len(), |i: int| facts[i].own.labels)
}

pub open spec fn counts_of(facts: Seq<FuncFacts>) -> Seq<Seq<(usize, u32, i64)>> {
    Seq::new(facts.len(), |i: int| facts[i].own.counts)
}

/// The summary of function `i` with its calls considered: it writes or frees where a
/// function that it reaches does, moves the provenance that they move, and changes the
/// counts that eight rounds of composition give.
pub open spec fn spread(facts: Seq<FuncFacts>, i: int) -> SummaryView {
    let calls = edges_of(facts);
    let aliases = aliases_of(facts);
    SummaryView {
        ret: facts[i].own.ret,
        writes: effect(calls, writes_of(facts), i),
        frees: effect(calls, frees_of(facts), i),
        frees_arg: facts[i].own.frees_arg,
        transfers: pair_list(
            |x: (usize, usize)| pair_spreads(transfers_of(facts), aliases, calls, i, x),
        ),
        labels: label_list(
            |x: (usize, u32)| label_spreads(labels_of(facts), aliases, calls, i, x),
        ),
        counts: count_rounds(counts_of(facts), aliases, calls, counts_of(facts), 8)[i],
    }
}

/// The facts that the parts hold.
pub open spec fn gathered(
    summ: Seq<Summary>,
    opaque: Seq<bool>,
    aliases: Seq<HashMap<u32, usize>>,
    calls: Seq<Vec<Edge>>,
) -> Seq<FuncFacts> {
    Seq::new(
        summ.len(),
        |i: int|
            FuncFacts {
                own: summ[i]@,
                aliases: aliases[i]@,
                opaque: opaque[i],
                edges: edge_views(calls)[i],
            },
    )
}

/// Consider the calls: spread effects, provenance and counts.
fn settle(
    summ: &mut Vec<Summary>,
    opaque: &Vec<bool>,
    aliases: &Vec<HashMap<u32, usize>>,
    calls: &Vec<Vec<Edge>>,
)
    requires
        opaque@.len() == old(summ)@.len(),
        aliases@.len() == old(summ)@.len(),
        calls@.len() == old(summ)@.len(),
        targets_below(edge_views(calls@), calls@.len() as int),
        forall|i: int|
            0 <= i < old(summ)@.len() ==> sorted_pairs(
                (#[trigger] old(summ)@[i]).prov.transfers@,
            ) && sorted_labels(old(summ)@[i].prov.labels@) && sorted_counts(
                old(summ)@[i].refcount_effect@,
            ),
    ensures
        final(summ)@.len() == old(summ)@.len(),
        forall|i: int|
            0 <= i < final(summ)@.len() ==> (#[trigger] final(summ)@[i])@ == spread(
                gathered(old(summ)@, opaque@, aliases@, calls@),
                i,
            ),
{
    let ghost facts = gathered(summ@, opaque@, aliases@, calls@);
    let n: usize = summ.len();
    let mut writes: Vec<bool> = Vec::new();
    let mut frees: Vec<bool> = Vec::new();
    let mut transfers: Vec<Vec<(usize, usize)>> = Vec::new();
    let mut labels: Vec<Vec<(usize, u32)>> = Vec::new();
    let mut counts: Vec<Vec<(usize, u32, i64)>> = Vec::new();
    let mut i: usize = 0;
    while i < n
        invariant
            i <= n,
            n == summ@.len(),
            summ@ == old(summ)@,
            opaque@.len() == n,
            facts == gathered(summ@, opaque@, aliases@, calls@),
            writes@.len() == i,
            frees@.len() == i,
            transfers@.len() == i,
            labels@.len() == i,
            counts@.len() == i,
            forall|k: int| 0 <= k < i ==> #[trigger] writes@[k] == writes_of(facts)[k],
            forall|k: int| 0 <= k < i ==> #[trigger] frees@[k] == frees_of(facts)[k],
            forall|k: int| 0 <= k < i ==> (#[trigger] transfers@[k])@ == summ@[k].prov.transfers@,
            forall|k: int| 0 <= k < i ==> (#[trigger] labels@[k])@ == summ@[k].prov.labels@,
            forall|k: int| 0 <= k < i ==> (#[trigger] counts@[k])@ == summ@[k].refcount_effect@,
        decreases n - i,
    {
        writes.push(summ[i].writes || opaque[i]);
        frees.push(summ[i].frees || opaque[i]);
        transfers.push(copy_pairs(&summ[i].prov.transfers));
        labels.push(copy_labels(&summ[i].prov.labels));
        counts.push(copy_counts(&summ[i].refcount_effect));
        i += 1;
    }
    proof {
        assert(edge_views(calls@) =~= edges_of(facts));
        assert(map_views(aliases@) =~= aliases_of(facts));
        assert(writes@ =~= writes_of(facts));
        assert(frees@ =~= frees_of(facts));
        assert(pair_views(transfers@) =~= transfers_of(facts));
        assert(label_views(labels@) =~= labels_of(facts));
        assert(count_views(counts@) =~= counts_of(facts));
    }
    spread_flags(&mut writes, calls);
    spread_flags(&mut frees, calls);
    spread_pairs(&mut transfers, aliases, calls);
    spread_labels(&mut labels, aliases, calls);
    spread_counts(&mut counts, aliases, calls);
    let ghost end = count_rounds(
        counts_of(facts),
        aliases_of(facts),
        edges_of(facts),
        counts_of(facts),
        8,
    );
    assert(count_views(counts@) == end);
    assert(count_views(counts@).len() == counts@.len());
    let ghost t = transfers@;
    let ghost l = labels@;
    proof {
        lemma_rounds_len(
            counts_of(facts),
            aliases_of(facts),
            edges_of(facts),
            counts_of(facts),
            8,
        );
    }
    let mut k: usize = 0;
    while k < n
        invariant
            k <= n,
            n == summ@.len(),
            n == old(summ)@.len(),
            n == facts.len(),
            facts == gathered(old(summ)@, opaque@, aliases@, calls@),
            edge_views(calls@) == edges_of(facts),
            map_views(aliases@) == aliases_of(facts),
            calls@.len() == n,
            writes@.len() == n,
            frees@.len() == n,
            t.len() == n,
            l.len() == n,
            transfers@.len() == n,
            labels@.len() == n,
            counts@.len() == n,
            end.len() == n,
            end == count_rounds(
                counts_of(facts),
                aliases_of(facts),
                edges_of(facts),
                counts_of(facts),
                8,
            ),
            forall|j: int|
                0 <= j < n ==> #[trigger] writes@[j] == effect(edges_of(facts), writes_of(facts), j),
            forall|j: int|
                0 <= j < n ==> #[trigger] frees@[j] == effect(edges_of(facts), frees_of(facts), j),
            forall|j: int| 0 <= j < n ==> sorted_pairs((#[trigger] t[j])@),
            forall|j: int| 0 <= j < n ==> sorted_labels((#[trigger] l[j])@),
            forall|j: int, x: (usize, usize)|
                0 <= j < n ==> (#[trigger] t[j]@.contains(x) <==> pair_spreads(
                    transfers_of(facts),
                    aliases_of(facts),
                    edges_of(facts),
                    j,
                    x,
                )),
            forall|j: int, x: (usize, u32)|
                0 <= j < n ==> (#[trigger] l[j]@.contains(x) <==> label_spreads(
                    labels_of(facts),
                    aliases_of(facts),
                    edges_of(facts),
                    j,
                    x,
                )),
            forall|j: int| k <= j < n ==> #[trigger] transfers@[j] == t[j],
            forall|j: int| k <= j < n ==> #[trigger] labels@[j] == l[j],
            forall|j: int| k <= j < n ==> (#[trigger] counts@[j])@ == end[j],
            forall|j: int| k <= j < n ==> #[trigger] summ@[j] == old(summ)@[j],
            forall|j: int| 0 <= j < k ==> (#[trigger] summ@[j])@ == spread(facts, j),
        decreases n - k,
    {
        let mut tr: Vec<(usize, usize)> = Vec::new();
        let mut la: Vec<(usize, u32)> = Vec::new();
        let mut co: Vec<(usize, u32, i64)> = Vec::new();
        std::mem::swap(&mut tr, &mut transfers[k]);
        std::mem::swap(&mut la, &mut labels[k]);
        std::mem::swap(&mut co, &mut counts[k]);
        proof {
            lemma_pair_list(
                tr@,
                |x: (usize, usize)|
                    pair_spreads(
                        transfers_of(facts),
                        aliases_of(facts),
                        edges_of(facts),
                        k as int,
                        x,
                    ),
            );
            lemma_label_list(
                la@,
                |x: (usize, u32)|
                    label_spreads(
                        labels_of(facts),
                        aliases_of(facts),
                        edges_of(facts),
                        k as int,
                        x,
                    ),
            );
        }
        summ[k].writes = writes[k];
        summ[k].frees = frees[k];
        summ[k].prov.transfers = tr;
        summ[k].prov.labels = la;
        summ[k].refcount_effect = co;
        assert(summ@[k as int]@ == spread(facts, k as int));
        k += 1;
    }
}

proof fn lemma_rounds_len(
    base: Seq<Seq<(usize, u32, i64)>>,
    aliases: Seq<Map<u32, usize>>,
    calls: Seq<Seq<EdgeView>>,
    lists: Seq<Seq<(usize, u32, i64)>>,
    rounds: nat,
)
    requires
        lists.len() == base.len(),
    ensures
        count_rounds(base, aliases, calls, lists, rounds).len() == base.len(),
    decreases rounds,
{
    if rounds > 0 && fixpoint::next_round(base, aliases, calls, lists) != lists {
        lemma_rounds_len(
            base,
            aliases,
            calls,
            fixpoint::next_round(base, aliases, calls, lists),
            (rounds - 1) as nat,
        );
    }
}

} // verus!
