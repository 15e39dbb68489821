//! Spreading facts along call edges until nothing changes.

use crate::ir::Operand;
use crate::summary::lists::{
    bump, count_at, counts_unique, insert_label, insert_pair, lists_counts, nonzero, pair_before,
    sorted_counts, sorted_labels, sorted_pairs, wrap64,
};
use crate::summary::perfn::{aliased, aliased_param};
use std::collections::HashMap;
use vstd::prelude::*;

verus! {

broadcast use vstd::std_specs::hash::group_hash_axioms;

/// A call to a known function: its number and the arguments.
pub struct Edge {
    pub target: usize,
    pub args: Vec<Operand>,
}

/// A call to a known function as a mathematical value.
pub struct EdgeView {
    pub target: int,
    pub args: Seq<Operand>,
}

impl View for Edge {
    type V = EdgeView;

    open spec fn view(&self) -> EdgeView {
        EdgeView { target: self.target as int, args: self.args@ }
    }
}

/// The calls of each function.
pub open spec fn edge_views(calls: Seq<Vec<Edge>>) -> Seq<Seq<EdgeView>> {
    Seq::new(calls.len(), |i: int| Seq::new(calls[i]@.len(), |k: int| calls[i]@[k]@))
}

/// Every call goes to one of `n` functions.
pub open spec fn targets_below(calls: Seq<Seq<EdgeView>>, n: int) -> bool {
    forall|i: int, k: int|
        0 <= i < calls.len() && 0 <= k < calls[i].len() ==> 0 <= (#[trigger] calls[i][k]).target < n
}

// ---- flags ----

/// Function `i` reaches one with the flag over at most `n` calls.
pub open spec fn reaches(calls: Seq<Seq<EdgeView>>, base: Seq<bool>, i: int, n: nat) -> bool
    decreases n,
{
    base[i] || (n > 0 && calls_one(calls[i], |g: int| reaches(calls, base, g, (n - 1) as nat)))
}

/// One of the calls goes to a function with `p`.
pub open spec fn calls_one(edges: Seq<EdgeView>, p: spec_fn(int) -> bool) -> bool {
    exists|k: int| 0 <= k < edges.len() && p((#[trigger] edges[k]).target)
}

/// Function `i` reaches one with the flag over calls.
pub open spec fn effect(calls: Seq<Seq<EdgeView>>, base: Seq<bool>, i: int) -> bool {
    exists|n: nat| reaches(calls, base, i, n)
}

proof fn lemma_effect_step(calls: Seq<Seq<EdgeView>>, base: Seq<bool>, i: int, k: int)
    requires
        0 <= k < calls[i].len(),
        effect(calls, base, calls[i][k].target),
    ensures
        effect(calls, base, i),
{
    let g = calls[i][k].target;
    let n = choose|n: nat| reaches(calls, base, g, n);
    let p = |x: int| reaches(calls, base, x, ((n + 1) - 1) as nat);
    assert(p(calls[i][k].target));
    assert(calls_one(calls[i], p));
    assert(reaches(calls, base, i, n + 1));
}

proof fn lemma_effect_closed(
    calls: Seq<Seq<EdgeView>>,
    base: Seq<bool>,
    flags: Seq<bool>,
    i: int,
    n: nat,
)
    requires
        calls.len() == base.len(),
        flags.len() == base.len(),
        targets_below(calls, base.len() as int),
        0 <= i < base.len(),
        forall|j: int| 0 <= j < base.len() && #[trigger] base[j] ==> flags[j],
        forall|j: int, k: int|
            0 <= j < calls.len() && 0 <= k < calls[j].len() && flags[(
            #[trigger] calls[j][k]).target] ==> flags[j],
        reaches(calls, base, i, n),
    ensures
        flags[i],
    decreases n,
{
    if !base[i] {
        let p = |x: int| reaches(calls, base, x, (n - 1) as nat);
        assert(calls_one(calls[i], p));
        let k = choose|k: int| 0 <= k < calls[i].len() && p((#[trigger] calls[i][k]).target);
        lemma_effect_closed(calls, base, flags, calls[i][k].target, (n - 1) as nat);
    }
}

/// How many flags are not set.
spec fn unset(flags: Seq<bool>) -> nat
    decreases flags.len(),
{
    if flags.len() == 0 {
        0
    } else {
        unset(flags.drop_last()) + if flags.last() { 0nat } else { 1nat }
    }
}

proof fn lemma_unset_update(flags: Seq<bool>, k: int)
    requires
        0 <= k < flags.len(),
        !flags[k],
    ensures
        unset(flags.update(k, true)) + 1 == unset(flags),
    decreases flags.len(),
{
    let g = flags.update(k, true);
    if k == flags.len() - 1 {
        assert(g.drop_last() =~= flags.drop_last());
    } else {
        lemma_unset_update(flags.drop_last(), k);
        assert(g.drop_last() =~= flags.drop_last().update(k, true));
    }
}

/// Set the flag of each function that reaches one with the flag.
pub fn spread_flags(flags: &mut Vec<bool>, calls: &Vec<Vec<Edge>>)
    requires
        old(flags)@.len() == calls@.len(),
        targets_below(edge_views(calls@), calls@.len() as int),
    ensures
        final(flags)@.len() == old(flags)@.len(),
        forall|i: int|
            0 <= i < calls@.len() ==> #[trigger] final(flags)@[i] == effect(
                edge_views(calls@),
                old(flags)@,
                i,
            ),
{
    let ghost base = flags@;
    let ghost ev = edge_views(calls@);
    let mut changed = true;
    proof {
        assert forall|i: int| 0 <= i < base.len() && #[trigger] base[i] implies effect(
            ev,
            base,
            i,
        ) by {
            assert(reaches(ev, base, i, 0));
        }
    }
    while changed
        invariant
            ev == edge_views(calls@),
            flags@.len() == base.len(),
            base.len() == calls@.len(),
            targets_below(ev, calls@.len() as int),
            forall|i: int| 0 <= i < base.len() && #[trigger] base[i] ==> flags@[i],
            forall|i: int| 0 <= i < base.len() && #[trigger] flags@[i] ==> effect(ev, base, i),
            !changed ==> forall|j: int, k: int|
                0 <= j < ev.len() && 0 <= k < ev[j].len() && flags@[(#[trigger] ev[j][k]).target]
                    ==> flags@[j],
        decreases
            unset(flags@),
            (if changed {
                1int
            } else {
                0int
            }),
    {
        changed = false;
        let ghost start = flags@;
        let mut i: usize = 0;
        while i < calls.len()
            invariant
                i <= calls@.len(),
                ev == edge_views(calls@),
                flags@.len() == base.len(),
                base.len() == calls@.len(),
                targets_below(ev, calls@.len() as int),
                forall|j: int| 0 <= j < base.len() && #[trigger] base[j] ==> flags@[j],
                forall|j: int| 0 <= j < base.len() && #[trigger] flags@[j] ==> effect(ev, base, j),
                !changed ==> flags@ == start,
                changed ==> unset(flags@) < unset(start),
                !changed ==> forall|j: int, k: int|
                    0 <= j < i && 0 <= k < ev[j].len() && flags@[(#[trigger] ev[j][k]).target]
                        ==> flags@[j],
            decreases calls@.len() - i,
        {
            let mut flag: bool = flags[i];
            let mut k: usize = 0;
            while k < calls[i].len()
                invariant
                    k <= calls@[i as int]@.len(),
                    i < calls@.len(),
                    ev == edge_views(calls@),
                    flags@.len() == base.len(),
                    base.len() == calls@.len(),
                    targets_below(ev, calls@.len() as int),
                    forall|j: int|
                        0 <= j < base.len() && #[trigger] flags@[j] ==> effect(ev, base, j),
                    flags@[i as int] ==> flag,
                    flag ==> effect(ev, base, i as int),
                    forall|p: int|
                        0 <= p < k && flags@[(#[trigger] ev[i as int][p]).target] ==> flag,
                    !flag ==> !flags@[i as int],
                decreases calls@[i as int]@.len() - k,
            {
                let g: usize = calls[i][k].target;
                assert(ev[i as int][k as int].target == g);
                if flags[g] {
                    flag = true;
                    proof {
                        lemma_effect_step(ev, base, i as int, k as int);
                    }
                }
                k += 1;
            }
            if flag && !flags[i] {
                proof {
                    lemma_unset_update(flags@, i as int);
                }
                flags.set(i, true);
                changed = true;
            }
            i += 1;
        }
    }
    proof {
        assert forall|i: int| 0 <= i < calls@.len() implies #[trigger] flags@[i] == effect(
            ev,
            base,
            i,
        ) by {
            if effect(ev, base, i) {
                let n = choose|n: nat| reaches(ev, base, i, n);
                lemma_effect_closed(ev, base, flags@, i, n);
            }
        }
    }
}

// ---- pairs ----

/// A call with `args` turns the callee's pair `y` into the caller's pair `x`.
pub open spec fn passes_pair(
    m: Map<u32, usize>,
    args: Seq<Operand>,
    y: (usize, usize),
    x: (usize, usize),
) -> bool {
    &&& y.0 < args.len()
    &&& y.1 < args.len()
    &&& aliased(m, args[y.0 as int]) == Some(x.0)
    &&& aliased(m, args[y.1 as int]) == Some(x.1)
}

/// One of the calls passes a pair with `p` on as `x`.
pub open spec fn calls_pass_pair(
    edges: Seq<EdgeView>,
    m: Map<u32, usize>,
    x: (usize, usize),
    p: spec_fn(int, (usize, usize)) -> bool,
) -> bool {
    exists|k: int, y: (usize, usize)|
        0 <= k < edges.len() && #[trigger] passes_pair(m, edges[k].args, y, x) && p(
            edges[k].target,
            y,
        )
}

/// Function `i` has pair `x`, by its own body or over at most `n` calls.
pub open spec fn has_pair(
    base: Seq<Seq<(usize, usize)>>,
    aliases: Seq<Map<u32, usize>>,
    calls: Seq<Seq<EdgeView>>,
    i: int,
    x: (usize, usize),
    n: nat,
) -> bool
    decreases n,
{
    base[i].contains(x) || (n > 0 && calls_pass_pair(
        calls[i],
        aliases[i],
        x,
        |g: int, y: (usize, usize)| has_pair(base, aliases, calls, g, y, (n - 1) as nat),
    ))
}

/// Function `i` has pair `x`, by its own body or over calls.
pub open spec fn pair_spreads(
    base: Seq<Seq<(usize, usize)>>,
    aliases: Seq<Map<u32, usize>>,
    calls: Seq<Seq<EdgeView>>,
    i: int,
    x: (usize, usize),
) -> bool {
    exists|n: nat| has_pair(base, aliases, calls, i, x, n)
}

proof fn lemma_pair_step(
    base: Seq<Seq<(usize, usize)>>,
    aliases: Seq<Map<u32, usize>>,
    calls: Seq<Seq<EdgeView>>,
    i: int,
    k: int,
    y: (usize, usize),
    x: (usize, usize),
)
    requires
        0 <= k < calls[i].len(),
        passes_pair(aliases[i], calls[i][k].args, y, x),
        pair_spreads(base, aliases, calls, calls[i][k].target, y),
    ensures
        pair_spreads(base, aliases, calls, i, x),
{
    let n = choose|n: nat| has_pair(base, aliases, calls, calls[i][k].target, y, n);
    let p = |g: int, z: (usize, usize)| has_pair(base, aliases, calls, g, z, ((n + 1) - 1) as nat);
    assert(p(calls[i][k].target, y));
    assert(calls_pass_pair(calls[i], aliases[i], x, p));
    assert(has_pair(base, aliases, calls, i, x, n + 1));
}

/// `lists` holds what every call passes on.
spec fn pairs_closed(
    lists: Seq<Vec<(usize, usize)>>,
    aliases: Seq<Map<u32, usize>>,
    calls: Seq<Seq<EdgeView>>,
    upto: int,
) -> bool {
    forall|j: int, k: int, y: (usize, usize), x: (usize, usize)|
        0 <= j < upto && 0 <= k < calls[j].len() && #[trigger] passes_pair(
            aliases[j],
            calls[j][k].args,
            y,
            x,
        ) && lists[calls[j][k].target]@.contains(y) ==> lists[j]@.contains(x)
}

proof fn lemma_pairs_closed(
    lists: Seq<Vec<(usize, usize)>>,
    base: Seq<Seq<(usize, usize)>>,
    aliases: Seq<Map<u32, usize>>,
    calls: Seq<Seq<EdgeView>>,
    i: int,
    x: (usize, usize),
    n: nat,
)
    requires
        lists.len() == base.len(),
        calls.len() == base.len(),
        targets_below(calls, base.len() as int),
        0 <= i < base.len(),
        forall|j: int, z: (usize, usize)|
            0 <= j < base.len() && #[trigger] base[j].contains(z) ==> lists[j]@.contains(z),
        pairs_closed(lists, aliases, calls, base.len() as int),
        has_pair(base, aliases, calls, i, x, n),
    ensures
        lists[i]@.contains(x),
    decreases n,
{
    if !base[i].contains(x) {
        let p = |g: int, z: (usize, usize)| has_pair(base, aliases, calls, g, z, (n - 1) as nat);
        assert(calls_pass_pair(calls[i], aliases[i], x, p));
        let (k, y) = choose|k: int, y: (usize, usize)|
            0 <= k < calls[i].len() && #[trigger] passes_pair(aliases[i], calls[i][k].args, y, x)
                && p(calls[i][k].target, y);
        assert(0 <= calls[i][k].target < base.len());
        lemma_pairs_closed(lists, base, aliases, calls, calls[i][k].target, y, (n - 1) as nat);
    }
}

/// One more than the largest position.
spec fn positions() -> int {
    usize::MAX + 1
}

/// How many pairs the lists could still take in.
spec fn pair_room(lists: Seq<Vec<(usize, usize)>>) -> int
    decreases lists.len(),
{
    if lists.len() == 0 {
        0
    } else {
        pair_room(lists.drop_last()) + positions() * positions() - lists.last()@.len()
    }
}

proof fn lemma_sorted_pairs_len(s: Seq<(usize, usize)>)
    requires
        sorted_pairs(s),
    ensures
        s.len() <= positions() * positions(),
{
    lemma_sorted_rank(s, s.len() as int);
}

proof fn lemma_sorted_rank(s: Seq<(usize, usize)>, k: int)
    requires
        sorted_pairs(s),
        0 <= k <= s.len(),
    ensures
        k > 0 ==> s[k - 1].0 * positions() + s[k - 1].1 >= k - 1,
        k <= positions() * positions(),
    decreases k,
{
    let p = positions();
    assert(p * p >= 0) by (nonlinear_arith)
        requires
            p > 0,
    ;
    if k > 0 {
        lemma_sorted_rank(s, k - 1);
        let b = s[k - 1];
        if k > 1 {
            let a = s[k - 2];
            assert(pair_before(
                (s[k - 2].0 as int, s[k - 2].1 as int),
                (s[k - 1].0 as int, s[k - 1].1 as int),
            ));
            assert(b.0 * p + b.1 > a.0 * p + a.1) by (nonlinear_arith)
                requires
                    a.0 < b.0 || (a.0 == b.0 && a.1 < b.1),
                    a.1 < p,
                    0 <= b.1,
                    p > 0,
            ;
        } else {
            assert(b.0 * p + b.1 >= 0) by (nonlinear_arith)
                requires
                    b.0 >= 0,
                    b.1 >= 0,
                    p > 0,
            ;
        }
        assert(b.0 * p + b.1 < p * p) by (nonlinear_arith)
            requires
                b.0 < p,
                b.1 < p,
                b.0 >= 0,
        ;
    }
}

proof fn lemma_pair_room_nonneg(lists: Seq<Vec<(usize, usize)>>)
    requires
        forall|j: int| 0 <= j < lists.len() ==> sorted_pairs((#[trigger] lists[j])@),
    ensures
        pair_room(lists) >= 0,
    decreases lists.len(),
{
    if lists.len() > 0 {
        lemma_pair_room_nonneg(lists.drop_last());
        lemma_sorted_pairs_len(lists.last()@);
    }
}

proof fn lemma_pair_room_update(lists: Seq<Vec<(usize, usize)>>, k: int, v: Vec<(usize, usize)>)
    requires
        0 <= k < lists.len(),
    ensures
        pair_room(lists.update(k, v)) == pair_room(lists) + lists[k]@.len() - v@.len(),
    decreases lists.len(),
{
    let g = lists.update(k, v);
    if k == lists.len() - 1 {
        assert(g.drop_last() =~= lists.drop_last());
    } else {
        lemma_pair_room_update(lists.drop_last(), k, v);
        assert(g.drop_last() =~= lists.drop_last().update(k, v));
    }
}

/// The maps' contents.
pub open spec fn map_views(maps: Seq<HashMap<u32, usize>>) -> Seq<Map<u32, usize>> {
    Seq::new(maps.len(), |i: int| maps[i]@)
}

/// The lists' contents.
pub open spec fn pair_views(lists: Seq<Vec<(usize, usize)>>) -> Seq<Seq<(usize, usize)>> {
    Seq::new(lists.len(), |i: int| lists[i]@)
}

/// What calls of function `i` pass on from the lists, added to `own`; whether that was new.
fn pass_pairs(
    lists: &Vec<Vec<(usize, usize)>>,
    own: &mut Vec<(usize, usize)>,
    m: &HashMap<u32, usize>,
    calls: &Vec<Edge>,
) -> (new: bool)
    requires
        sorted_pairs(old(own)@),
        forall|k: int| 0 <= k < calls@.len() ==> (#[trigger] calls@[k]).target < lists@.len(),
    ensures
        sorted_pairs(final(own)@),
        new == (final(own)@ != old(own)@),
        new ==> final(own)@.len() > old(own)@.len(),
        forall|x: (usize, usize)| #[trigger]
            final(own)@.contains(x) <==> old(own)@.contains(x) || exists|k: int, y: (usize, usize)|
                0 <= k < calls@.len() && #[trigger] passes_pair(m@, calls@[k].args@, y, x)
                    && lists@[calls@[k].target as int]@.contains(y),
{
    let mut new = false;
    let ghost start = own@;
    let mut k: usize = 0;
    while k < calls.len()
        invariant
            k <= calls@.len(),
            sorted_pairs(own@),
            forall|q: int| 0 <= q < calls@.len() ==> (#[trigger] calls@[q]).target < lists@.len(),
            new == (own@ != start),
            new ==> own@.len() > start.len(),
            forall|x: (usize, usize)| #[trigger]
                own@.contains(x) <==> start.contains(x) || exists|q: int, y: (usize, usize)|
                    0 <= q < k && #[trigger] passes_pair(m@, calls@[q].args@, y, x)
                        && lists@[calls@[q].target as int]@.contains(y),
        decreases calls@.len() - k,
    {
        let edge = &calls[k];
        assert(calls@[k as int].target < lists@.len());
        let list = &lists[edge.target];
        let ghost before = own@;
        let mut t: usize = 0;
        while t < list.len()
            invariant
                t <= list@.len(),
                k < calls@.len(),
                edge == calls@[k as int],
                list@ == lists@[edge.target as int]@,
                sorted_pairs(own@),
                new == (own@ != start),
                new ==> own@.len() > start.len(),
                forall|x: (usize, usize)| #[trigger]
                    own@.contains(x) <==> before.contains(x) || exists|s: int|
                        0 <= s < t && passes_pair(m@, edge.args@, #[trigger] list@[s], x),
            decreases list@.len() - t,
        {
            let (d, s) = list[t];
            let ghost prior = own@;
            if d < edge.args.len() && s < edge.args.len() {
                if let Some(pd) = aliased_param(m, &edge.args[d]) {
                    if let Some(ps) = aliased_param(m, &edge.args[s]) {
                        if insert_pair(own, (pd, ps)) {
                            new = true;
                        } else {
                            proof {
                                crate::summary::lists::sorted_pairs_unique(own@, prior);
                            }
                        }
                    }
                }
            }
            proof {
                assert forall|x: (usize, usize)| #[trigger]
                    own@.contains(x) <==> before.contains(x) || exists|s2: int|
                        0 <= s2 < t + 1 && passes_pair(m@, edge.args@, #[trigger] list@[s2], x) by {
                    assert(prior.contains(x) <==> before.contains(x) || exists|s2: int|
                        0 <= s2 < t && passes_pair(m@, edge.args@, #[trigger] list@[s2], x));
                    if passes_pair(m@, edge.args@, list@[t as int], x) {
                        assert(own@.contains(x));
                    }
                }
            }
            t += 1;
        }
        proof {
            assert forall|x: (usize, usize)| #[trigger]
                own@.contains(x) <==> start.contains(x) || exists|q: int, y: (usize, usize)|
                    0 <= q < k + 1 && #[trigger] passes_pair(m@, calls@[q].args@, y, x)
                        && lists@[calls@[q].target as int]@.contains(y) by {
                assert(before.contains(x) <==> start.contains(x) || exists|q: int, y: (
                    usize,
                    usize,
                )|
                    0 <= q < k && #[trigger] passes_pair(m@, calls@[q].args@, y, x)
                        && lists@[calls@[q].target as int]@.contains(y));
                if own@.contains(x) && !before.contains(x) {
                    let s = choose|s: int|
                        0 <= s < list@.len() && passes_pair(m@, edge.args@, #[trigger] list@[s], x);
                    assert(lists@[calls@[k as int].target as int]@.contains(list@[s]));
                    assert(passes_pair(m@, calls@[k as int].args@, list@[s], x));
                }
                if exists|q: int, y: (usize, usize)|
                    0 <= q < k + 1 && #[trigger] passes_pair(m@, calls@[q].args@, y, x)
                        && lists@[calls@[q].target as int]@.contains(y) {
                    let (q, y) = choose|q: int, y: (usize, usize)|
                        0 <= q < k + 1 && #[trigger] passes_pair(m@, calls@[q].args@, y, x)
                            && lists@[calls@[q].target as int]@.contains(y);
                    if q == k {
                        let s = choose|s: int| 0 <= s < list@.len() && list@[s] == y;
                        assert(passes_pair(m@, edge.args@, list@[s], x));
                        assert(own@.contains(x));
                    }
                }
            }
        }
        k += 1;
    }
    new
}

/// Add to each function's pairs what its calls pass on, until nothing is new.
pub fn spread_pairs(
    lists: &mut Vec<Vec<(usize, usize)>>,
    aliases: &Vec<HashMap<u32, usize>>,
    calls: &Vec<Vec<Edge>>,
)
    requires
        old(lists)@.len() == calls@.len(),
        aliases@.len() == calls@.len(),
        targets_below(edge_views(calls@), calls@.len() as int),
        forall|j: int| 0 <= j < old(lists)@.len() ==> sorted_pairs((#[trigger] old(lists)@[j])@),
    ensures
        final(lists)@.len() == old(lists)@.len(),
        forall|j: int| 0 <= j < final(lists)@.len() ==> sorted_pairs((#[trigger] final(lists)@[j])@),
        forall|i: int, x: (usize, usize)|
            0 <= i < calls@.len() ==> (#[trigger] final(lists)@[i]@.contains(x) <==> pair_spreads(
                pair_views(old(lists)@),
                map_views(aliases@),
                edge_views(calls@),
                i,
                x,
            )),
{
    let ghost base = pair_views(lists@);
    let ghost maps = map_views(aliases@);
    let ghost ev = edge_views(calls@);
    let mut changed = true;
    proof {
        assert forall|i: int, x: (usize, usize)|
            0 <= i < base.len() && #[trigger] lists@[i]@.contains(x) implies pair_spreads(
            base,
            maps,
            ev,
            i,
            x,
        ) by {
            assert(has_pair(base, maps, ev, i, x, 0));
        }
        lemma_pair_room_nonneg(lists@);
    }
    while changed
        invariant
            ev == edge_views(calls@),
            maps == map_views(aliases@),
            lists@.len() == base.len(),
            base.len() == calls@.len(),
            aliases@.len() == calls@.len(),
            targets_below(ev, calls@.len() as int),
            forall|j: int| 0 <= j < lists@.len() ==> sorted_pairs((#[trigger] lists@[j])@),
            forall|j: int, z: (usize, usize)|
                0 <= j < base.len() && #[trigger] base[j].contains(z) ==> lists@[j]@.contains(z),
            forall|i: int, x: (usize, usize)|
                0 <= i < base.len() && #[trigger] lists@[i]@.contains(x) ==> pair_spreads(
                    base,
                    maps,
                    ev,
                    i,
                    x,
                ),
            !changed ==> pairs_closed(lists@, maps, ev, base.len() as int),
            pair_room(lists@) >= 0,
        decreases
            pair_room(lists@),
            (if changed {
                1int
            } else {
                0int
            }),
    {
        changed = false;
        let ghost start = lists@;
        let mut i: usize = 0;
        while i < calls.len()
            invariant
                i <= calls@.len(),
                ev == edge_views(calls@),
                maps == map_views(aliases@),
                lists@.len() == base.len(),
                base.len() == calls@.len(),
                aliases@.len() == calls@.len(),
                targets_below(ev, calls@.len() as int),
                forall|j: int| 0 <= j < lists@.len() ==> sorted_pairs((#[trigger] lists@[j])@),
                forall|j: int, z: (usize, usize)|
                    0 <= j < base.len() && #[trigger] base[j].contains(z) ==> lists@[j]@.contains(
                        z,
                    ),
                forall|j: int, x: (usize, usize)|
                    0 <= j < base.len() && #[trigger] lists@[j]@.contains(x) ==> pair_spreads(
                        base,
                        maps,
                        ev,
                        j,
                        x,
                    ),
                !changed ==> pair_views(lists@) == pair_views(start) && pair_room(lists@)
                    == pair_room(start),
                changed ==> pair_room(lists@) < pair_room(start),
                !changed ==> pairs_closed(lists@, maps, ev, i as int),
            decreases calls@.len() - i,
        {
            let mut own: Vec<(usize, usize)> = copy_pairs(&lists[i]);
            assert forall|k: int| 0 <= k < calls@[i as int]@.len() implies (
            #[trigger] calls@[i as int]@[k]).target < lists@.len() by {
                assert(ev[i as int][k].target == calls@[i as int]@[k].target);
            }
            let new = pass_pairs(lists, &mut own, &aliases[i], &calls[i]);
            let ghost before = lists@;
            proof {
                lemma_pair_room_update(before, i as int, own);
                assert forall|x: (usize, usize)| #[trigger] own@.contains(x) implies pair_spreads(
                    base,
                    maps,
                    ev,
                    i as int,
                    x,
                ) by {
                    if !before[i as int]@.contains(x) {
                        let (k, y) = choose|k: int, y: (usize, usize)|
                            0 <= k < calls@[i as int]@.len() && #[trigger] passes_pair(
                                aliases@[i as int]@,
                                calls@[i as int]@[k].args@,
                                y,
                                x,
                            ) && before[calls@[i as int]@[k].target as int]@.contains(y);
                        assert(ev[i as int][k] == calls@[i as int]@[k]@);
                        assert(maps[i as int] == aliases@[i as int]@);
                        lemma_pair_step(base, maps, ev, i as int, k, y, x);
                    }
                }
            }
            if new {
                changed = true;
            }
            lists[i] = own;
            proof {
                assert(lists@ =~= before.update(i as int, own));
                if !changed {
                    assert(pair_views(lists@) =~= pair_views(before));
                    lemma_pairs_kept(before, lists@, maps, ev, i as int);
                    assert forall|k: int, y: (usize, usize), x: (usize, usize)|
                        0 <= k < ev[i as int].len() && #[trigger] passes_pair(
                            maps[i as int],
                            ev[i as int][k].args,
                            y,
                            x,
                        ) && lists@[ev[i as int][k].target]@.contains(y) implies lists@[i as int]@.contains(
                    x) by {
                        assert(ev[i as int][k] == calls@[i as int]@[k]@);
                        assert(maps[i as int] == aliases@[i as int]@);
                        assert(pair_views(lists@)[ev[i as int][k].target] == pair_views(
                            before,
                        )[ev[i as int][k].target]);
                        assert(passes_pair(
                            aliases@[i as int]@,
                            calls@[i as int]@[k].args@,
                            y,
                            x,
                        ));
                        assert(own@.contains(x));
                    }
                }
                lemma_pair_room_nonneg(lists@);
            }
            i += 1;
        }
        proof {
            lemma_pair_room_nonneg(lists@);
        }
    }
    proof {
        assert forall|i: int, x: (usize, usize)| 0 <= i < calls@.len() implies (
        #[trigger] lists@[i]@.contains(x) <==> pair_spreads(base, maps, ev, i, x)) by {
            if pair_spreads(base, maps, ev, i, x) {
                let n = choose|n: nat| has_pair(base, maps, ev, i, x, n);
                lemma_pairs_closed(lists@, base, maps, ev, i, x, n);
            }
        }
    }
}

proof fn lemma_pairs_kept(
    before: Seq<Vec<(usize, usize)>>,
    after: Seq<Vec<(usize, usize)>>,
    maps: Seq<Map<u32, usize>>,
    ev: Seq<Seq<EdgeView>>,
    upto: int,
)
    requires
        pairs_closed(before, maps, ev, upto),
        pair_views(before) == pair_views(after),
        0 <= upto <= ev.len(),
        before.len() == ev.len(),
        targets_below(ev, ev.len() as int),
    ensures
        pairs_closed(after, maps, ev, upto),
{
    assert(pair_views(before).len() == before.len());
    assert(pair_views(after).len() == after.len());
    assert forall|j: int, k: int, y: (usize, usize), x: (usize, usize)|
        0 <= j < upto && 0 <= k < ev[j].len() && #[trigger] passes_pair(
            maps[j],
            ev[j][k].args,
            y,
            x,
        ) && after[ev[j][k].target]@.contains(y) implies after[j]@.contains(x) by {
        assert(0 <= ev[j][k].target < ev.len());
        assert(pair_views(before)[j] == pair_views(after)[j]);
        assert(pair_views(before)[ev[j][k].target] == pair_views(after)[ev[j][k].target]);
        assert(before[ev[j][k].target]@.contains(y));
        assert(before[j]@.contains(x));
    }
}

/// A copy of a list of pairs.
pub fn copy_pairs(v: &Vec<(usize, usize)>) -> (r: Vec<(usize, usize)>)
    ensures
        r@ == v@,
{
    let mut r: Vec<(usize, usize)> = Vec::new();
    let mut i: usize = 0;
    while i < v.len()
        invariant
            i <= v@.len(),
            r@ == v@.take(i as int),
        decreases v@.len() - i,
    {
        r.push(v[i]);
        i += 1;
        assert(r@ =~= v@.take(i as int));
    }
    assert(v@.take(v@.len() as int) =~= v@);
    r
}

// ---- labels ----

/// A call with `args` turns the callee's label `y` into the caller's label `x`.
pub open spec fn passes_label(
    m: Map<u32, usize>,
    args: Seq<Operand>,
    y: (usize, u32),
    x: (usize, u32),
) -> bool {
    &&& y.0 < args.len()
    &&& aliased(m, args[y.0 as int]) == Some(x.0)
    &&& y.1 == x.1
}

/// One of the calls passes a label with `p` on as `x`.
pub open spec fn calls_pass_label(
    edges: Seq<EdgeView>,
    m: Map<u32, usize>,
    x: (usize, u32),
    p: spec_fn(int, (usize, u32)) -> bool,
) -> bool {
    exists|k: int, y: (usize, u32)|
        0 <= k < edges.len() && #[trigger] passes_label(m, edges[k].args, y, x) && p(
            edges[k].target,
            y,
        )
}

/// Function `i` has label `x`, by its own body or over at most `n` calls.
pub open spec fn has_label(
    base: Seq<Seq<(usize, u32)>>,
    aliases: Seq<Map<u32, usize>>,
    calls: Seq<Seq<EdgeView>>,
    i: int,
    x: (usize, u32),
    n: nat,
) -> bool
    decreases n,
{
    base[i].contains(x) || (n > 0 && calls_pass_label(
        calls[i],
        aliases[i],
        x,
        |g: int, y: (usize, u32)| has_label(base, aliases, calls, g, y, (n - 1) as nat),
    ))
}

/// Function `i` has label `x`, by its own body or over calls.
pub open spec fn label_spreads(
    base: Seq<Seq<(usize, u32)>>,
    aliases: Seq<Map<u32, usize>>,
    calls: Seq<Seq<EdgeView>>,
    i: int,
    x: (usize, u32),
) -> bool {
    exists|n: nat| has_label(base, aliases, calls, i, x, n)
}

proof fn lemma_label_step(
    base: Seq<Seq<(usize, u32)>>,
    aliases: Seq<Map<u32, usize>>,
    calls: Seq<Seq<EdgeView>>,
    i: int,
    k: int,
    y: (usize, u32),
    x: (usize, u32),
)
    requires
        0 <= k < calls[i].len(),
        passes_label(aliases[i], calls[i][k].args, y, x),
        label_spreads(base, aliases, calls, calls[i][k].target, y),
    ensures
        label_spreads(base, aliases, calls, i, x),
{
    let n = choose|n: nat| has_label(base, aliases, calls, calls[i][k].target, y, n);
    let p = |g: int, z: (usize, u32)| has_label(base, aliases, calls, g, z, ((n + 1) - 1) as nat);
    assert(p(calls[i][k].target, y));
    assert(calls_pass_label(calls[i], aliases[i], x, p));
    assert(has_label(base, aliases, calls, i, x, n + 1));
}

/// `lists` holds what every call passes on.
spec fn labels_closed(
    lists: Seq<Vec<(usize, u32)>>,
    aliases: Seq<Map<u32, usize>>,
    calls: Seq<Seq<EdgeView>>,
    upto: int,
) -> bool {
    forall|j: int, k: int, y: (usize, u32), x: (usize, u32)|
        0 <= j < upto && 0 <= k < calls[j].len() && #[trigger] passes_label(
            aliases[j],
            calls[j][k].args,
            y,
            x,
        ) && lists[calls[j][k].target]@.contains(y) ==> lists[j]@.contains(x)
}

proof fn lemma_labels_closed(
    lists: Seq<Vec<(usize, u32)>>,
    base: Seq<Seq<(usize, u32)>>,
    aliases: Seq<Map<u32, usize>>,
    calls: Seq<Seq<EdgeView>>,
    i: int,
    x: (usize, u32),
    n: nat,
)
    requires
        lists.len() == base.len(),
        calls.len() == base.len(),
        targets_below(calls, base.len() as int),
        0 <= i < base.len(),
        forall|j: int, z: (usize, u32)|
            0 <= j < base.len() && #[trigger] base[j].contains(z) ==> lists[j]@.contains(z),
        labels_closed(lists, aliases, calls, base.len() as int),
        has_label(base, aliases, calls, i, x, n),
    ensures
        lists[i]@.contains(x),
    decreases n,
{
    if !base[i].contains(x) {
        let p = |g: int, z: (usize, u32)| has_label(base, aliases, calls, g, z, (n - 1) as nat);
        assert(calls_pass_label(calls[i], aliases[i], x, p));
        let (k, y) = choose|k: int, y: (usize, u32)|
            0 <= k < calls[i].len() && #[trigger] passes_label(aliases[i], calls[i][k].args, y, x)
                && p(calls[i][k].target, y);
        assert(0 <= calls[i][k].target < base.len());
        lemma_labels_closed(lists, base, aliases, calls, calls[i][k].target, y, (n - 1) as nat);
    }
}

/// How many labels the lists could still take in.
spec fn label_room(lists: Seq<Vec<(usize, u32)>>) -> int
    decreases lists.len(),
{
    if lists.len() == 0 {
        0
    } else {
        label_room(lists.drop_last()) + positions() * 0x1_0000_0000 - lists.last()@.len()
    }
}

proof fn lemma_sorted_labels_len(s: Seq<(usize, u32)>)
    requires
        sorted_labels(s),
    ensures
        s.len() <= positions() * 0x1_0000_0000,
{
    lemma_label_rank(s, s.len() as int);
}

proof fn lemma_label_rank(s: Seq<(usize, u32)>, k: int)
    requires
        sorted_labels(s),
        0 <= k <= s.len(),
    ensures
        k > 0 ==> s[k - 1].0 * 0x1_0000_0000 + s[k - 1].1 >= k - 1,
        k <= positions() * 0x1_0000_0000,
    decreases k,
{
    if k > 0 {
        lemma_label_rank(s, k - 1);
        if k > 1 {
            assert(pair_before(
                (s[k - 2].0 as int, s[k - 2].1 as int),
                (s[k - 1].0 as int, s[k - 1].1 as int),
            ));
        }
    }
}

proof fn lemma_label_room_nonneg(lists: Seq<Vec<(usize, u32)>>)
    requires
        forall|j: int| 0 <= j < lists.len() ==> sorted_labels((#[trigger] lists[j])@),
    ensures
        label_room(lists) >= 0,
    decreases lists.len(),
{
    if lists.len() > 0 {
        lemma_label_room_nonneg(lists.drop_last());
        lemma_sorted_labels_len(lists.last()@);
    }
}

proof fn lemma_label_room_update(lists: Seq<Vec<(usize, u32)>>, k: int, v: Vec<(usize, u32)>)
    requires
        0 <= k < lists.len(),
    ensures
        label_room(lists.update(k, v)) == label_room(lists) + lists[k]@.len() - v@.len(),
    decreases lists.len(),
{
    let g = lists.update(k, v);
    if k == lists.len() - 1 {
        assert(g.drop_last() =~= lists.drop_last());
    } else {
        lemma_label_room_update(lists.drop_last(), k, v);
        assert(g.drop_last() =~= lists.drop_last().update(k, v));
    }
}

/// The lists' contents.
pub open spec fn label_views(lists: Seq<Vec<(usize, u32)>>) -> Seq<Seq<(usize, u32)>> {
    Seq::new(lists.len(), |i: int| lists[i]@)
}

/// What calls of function `i` pass on from the lists, added to `own`; whether that was new.
fn pass_labels(
    lists: &Vec<Vec<(usize, u32)>>,
    own: &mut Vec<(usize, u32)>,
    m: &HashMap<u32, usize>,
    calls: &Vec<Edge>,
) -> (new: bool)
    requires
        sorted_labels(old(own)@),
        forall|k: int| 0 <= k < calls@.len() ==> (#[trigger] calls@[k]).target < lists@.len(),
    ensures
        sorted_labels(final(own)@),
        new == (final(own)@ != old(own)@),
        new ==> final(own)@.len() > old(own)@.len(),
        forall|x: (usize, u32)| #[trigger]
            final(own)@.contains(x) <==> old(own)@.contains(x) || exists|k: int, y: (usize, u32)|
                0 <= k < calls@.len() && #[trigger] passes_label(m@, calls@[k].args@, y, x)
                    && lists@[calls@[k].target as int]@.contains(y),
{
    let mut new = false;
    let ghost start = own@;
    let mut k: usize = 0;
    while k < calls.len()
        invariant
            k <= calls@.len(),
            sorted_labels(own@),
            forall|q: int| 0 <= q < calls@.len() ==> (#[trigger] calls@[q]).target < lists@.len(),
            new == (own@ != start),
            new ==> own@.len() > start.len(),
            forall|x: (usize, u32)| #[trigger]
                own@.contains(x) <==> start.contains(x) || exists|q: int, y: (usize, u32)|
                    0 <= q < k && #[trigger] passes_label(m@, calls@[q].args@, y, x)
                        && lists@[calls@[q].target as int]@.contains(y),
        decreases calls@.len() - k,
    {
        let edge = &calls[k];
        assert(calls@[k as int].target < lists@.len());
        let list = &lists[edge.target];
        let ghost before = own@;
        let mut t: usize = 0;
        while t < list.len()
            invariant
                t <= list@.len(),
                k < calls@.len(),
                edge == calls@[k as int],
                list@ == lists@[edge.target as int]@,
                sorted_labels(own@),
                new == (own@ != start),
                new ==> own@.len() > start.len(),
                forall|x: (usize, u32)| #[trigger]
                    own@.contains(x) <==> before.contains(x) || exists|s: int|
                        0 <= s < t && passes_label(m@, edge.args@, #[trigger] list@[s], x),
            decreases list@.len() - t,
        {
            let (a, label) = list[t];
            let ghost prior = own@;
            if a < edge.args.len() {
                if let Some(pa) = aliased_param(m, &edge.args[a]) {
                    if insert_label(own, (pa, label)) {
                        new = true;
                    } else {
                        proof {
                            crate::summary::lists::sorted_labels_unique(own@, prior);
                        }
                    }
                }
            }
            proof {
                assert forall|x: (usize, u32)| #[trigger]
                    own@.contains(x) <==> before.contains(x) || exists|s2: int|
                        0 <= s2 < t + 1 && passes_label(m@, edge.args@, #[trigger] list@[s2], x) by {
                    assert(prior.contains(x) <==> before.contains(x) || exists|s2: int|
                        0 <= s2 < t && passes_label(m@, edge.args@, #[trigger] list@[s2], x));
                    if passes_label(m@, edge.args@, list@[t as int], x) {
                        assert(own@.contains(x));
                    }
                }
            }
            t += 1;
        }
        proof {
            assert forall|x: (usize, u32)| #[trigger]
                own@.contains(x) <==> start.contains(x) || exists|q: int, y: (usize, u32)|
                    0 <= q < k + 1 && #[trigger] passes_label(m@, calls@[q].args@, y, x)
                        && lists@[calls@[q].target as int]@.contains(y) by {
                assert(before.contains(x) <==> start.contains(x) || exists|q: int, y: (
                    usize,
                    u32,
                )|
                    0 <= q < k && #[trigger] passes_label(m@, calls@[q].args@, y, x)
                        && lists@[calls@[q].target as int]@.contains(y));
                if own@.contains(x) && !before.contains(x) {
                    let s = choose|s: int|
                        0 <= s < list@.len() && passes_label(m@, edge.args@, #[trigger] list@[s], x);
                    assert(lists@[calls@[k as int].target as int]@.contains(list@[s]));
                    assert(passes_label(m@, calls@[k as int].args@, list@[s], x));
                }
                if exists|q: int, y: (usize, u32)|
                    0 <= q < k + 1 && #[trigger] passes_label(m@, calls@[q].args@, y, x)
                        && lists@[calls@[q].target as int]@.contains(y) {
                    let (q, y) = choose|q: int, y: (usize, u32)|
                        0 <= q < k + 1 && #[trigger] passes_label(m@, calls@[q].args@, y, x)
                            && lists@[calls@[q].target as int]@.contains(y);
                    if q == k {
                        let s = choose|s: int| 0 <= s < list@.len() && list@[s] == y;
                        assert(passes_label(m@, edge.args@, list@[s], x));
                        assert(own@.contains(x));
                    }
                }
            }
        }
        k += 1;
    }
    new
}

/// Add to each function's labels what its calls pass on, until nothing is new.
pub fn spread_labels(
    lists: &mut Vec<Vec<(usize, u32)>>,
    aliases: &Vec<HashMap<u32, usize>>,
    calls: &Vec<Vec<Edge>>,
)
    requires
        old(lists)@.len() == calls@.len(),
        aliases@.len() == calls@.len(),
        targets_below(edge_views(calls@), calls@.len() as int),
        forall|j: int| 0 <= j < old(lists)@.len() ==> sorted_labels((#[trigger] old(lists)@[j])@),
    ensures
        final(lists)@.len() == old(lists)@.len(),
        forall|j: int| 0 <= j < final(lists)@.len() ==> sorted_labels((#[trigger] final(lists)@[j])@),
        forall|i: int, x: (usize, u32)|
            0 <= i < calls@.len() ==> (#[trigger] final(lists)@[i]@.contains(x) <==> label_spreads(
                label_views(old(lists)@),
                map_views(aliases@),
                edge_views(calls@),
                i,
                x,
            )),
{
    let ghost base = label_views(lists@);
    let ghost maps = map_views(aliases@);
    let ghost ev = edge_views(calls@);
    let mut changed = true;
    proof {
        assert forall|i: int, x: (usize, u32)|
            0 <= i < base.len() && #[trigger] lists@[i]@.contains(x) implies label_spreads(
            base,
            maps,
            ev,
            i,
            x,
        ) by {
            assert(has_label(base, maps, ev, i, x, 0));
        }
        lemma_label_room_nonneg(lists@);
    }
    while changed
        invariant
            ev == edge_views(calls@),
            maps == map_views(aliases@),
            lists@.len() == base.len(),
            base.len() == calls@.len(),
            aliases@.len() == calls@.len(),
            targets_below(ev, calls@.len() as int),
            forall|j: int| 0 <= j < lists@.len() ==> sorted_labels((#[trigger] lists@[j])@),
            forall|j: int, z: (usize, u32)|
                0 <= j < base.len() && #[trigger] base[j].contains(z) ==> lists@[j]@.contains(z),
            forall|i: int, x: (usize, u32)|
                0 <= i < base.len() && #[trigger] lists@[i]@.contains(x) ==> label_spreads(
                    base,
                    maps,
                    ev,
                    i,
                    x,
                ),
            !changed ==> labels_closed(lists@, maps, ev, base.len() as int),
            label_room(lists@) >= 0,
        decreases
            label_room(lists@),
            (if changed {
                1int
            } else {
                0int
            }),
    {
        changed = false;
        let ghost start = lists@;
        let mut i: usize = 0;
        while i < calls.len()
            invariant
                i <= calls@.len(),
                ev == edge_views(calls@),
                maps == map_views(aliases@),
                lists@.len() == base.len(),
                base.len() == calls@.len(),
                aliases@.len() == calls@.len(),
                targets_below(ev, calls@.len() as int),
                forall|j: int| 0 <= j < lists@.len() ==> sorted_labels((#[trigger] lists@[j])@),
                forall|j: int, z: (usize, u32)|
                    0 <= j < base.len() && #[trigger] base[j].contains(z) ==> lists@[j]@.contains(
                        z,
                    ),
                forall|j: int, x: (usize, u32)|
                    0 <= j < base.len() && #[trigger] lists@[j]@.contains(x) ==> label_spreads(
                        base,
                        maps,
                        ev,
                        j,
                        x,
                    ),
                !changed ==> label_views(lists@) == label_views(start) && label_room(lists@)
                    == label_room(start),
                changed ==> label_room(lists@) < label_room(start),
                !changed ==> labels_closed(lists@, maps, ev, i as int),
            decreases calls@.len() - i,
        {
            let mut own: Vec<(usize, u32)> = copy_labels(&lists[i]);
            assert forall|k: int| 0 <= k < calls@[i as int]@.len() implies (
            #[trigger] calls@[i as int]@[k]).target < lists@.len() by {
                assert(ev[i as int][k].target == calls@[i as int]@[k].target);
            }
            let new = pass_labels(lists, &mut own, &aliases[i], &calls[i]);
            let ghost before = lists@;
            proof {
                lemma_label_room_update(before, i as int, own);
                assert forall|x: (usize, u32)| #[trigger] own@.contains(x) implies label_spreads(
                    base,
                    maps,
                    ev,
                    i as int,
                    x,
                ) by {
                    if !before[i as int]@.contains(x) {
                        let (k, y) = choose|k: int, y: (usize, u32)|
                            0 <= k < calls@[i as int]@.len() && #[trigger] passes_label(
                                aliases@[i as int]@,
                                calls@[i as int]@[k].args@,
                                y,
                                x,
                            ) && before[calls@[i as int]@[k].target as int]@.contains(y);
                        assert(ev[i as int][k] == calls@[i as int]@[k]@);
                        assert(maps[i as int] == aliases@[i as int]@);
                        lemma_label_step(base, maps, ev, i as int, k, y, x);
                    }
                }
            }
            if new {
                changed = true;
            }
            lists[i] = own;
            proof {
                assert(lists@ =~= before.update(i as int, own));
                if !changed {
                    assert(label_views(lists@) =~= label_views(before));
                    lemma_labels_kept(before, lists@, maps, ev, i as int);
                    assert forall|k: int, y: (usize, u32), x: (usize, u32)|
                        0 <= k < ev[i as int].len() && #[trigger] passes_label(
                            maps[i as int],
                            ev[i as int][k].args,
                            y,
                            x,
                        ) && lists@[ev[i as int][k].target]@.contains(y) implies lists@[i as int]@.contains(
                    x) by {
                        assert(ev[i as int][k] == calls@[i as int]@[k]@);
                        assert(maps[i as int] == aliases@[i as int]@);
                        assert(label_views(lists@)[ev[i as int][k].target] == label_views(
                            before,
                        )[ev[i as int][k].target]);
                        assert(passes_label(
                            aliases@[i as int]@,
                            calls@[i as int]@[k].args@,
                            y,
                            x,
                        ));
                        assert(own@.contains(x));
                    }
                }
                lemma_label_room_nonneg(lists@);
            }
            i += 1;
        }
        proof {
            lemma_label_room_nonneg(lists@);
        }
    }
    proof {
        assert forall|i: int, x: (usize, u32)| 0 <= i < calls@.len() implies (
        #[trigger] lists@[i]@.contains(x) <==> label_spreads(base, maps, ev, i, x)) by {
            if label_spreads(base, maps, ev, i, x) {
                let n = choose|n: nat| has_label(base, maps, ev, i, x, n);
                lemma_labels_closed(lists@, base, maps, ev, i, x, n);
            }
        }
    }
}

proof fn lemma_labels_kept(
    before: Seq<Vec<(usize, u32)>>,
    after: Seq<Vec<(usize, u32)>>,
    maps: Seq<Map<u32, usize>>,
    ev: Seq<Seq<EdgeView>>,
    upto: int,
)
    requires
        labels_closed(before, maps, ev, upto),
        label_views(before) == label_views(after),
        0 <= upto <= ev.len(),
        before.len() == ev.len(),
        targets_below(ev, ev.len() as int),
    ensures
        labels_closed(after, maps, ev, upto),
{
    assert(label_views(before).len() == before.len());
    assert(label_views(after).len() == after.len());
    assert forall|j: int, k: int, y: (usize, u32), x: (usize, u32)|
        0 <= j < upto && 0 <= k < ev[j].len() && #[trigger] passes_label(
            maps[j],
            ev[j][k].args,
            y,
            x,
        ) && after[ev[j][k].target]@.contains(y) implies after[j]@.contains(x) by {
        assert(0 <= ev[j][k].target < ev.len());
        assert(label_views(before)[j] == label_views(after)[j]);
        assert(label_views(before)[ev[j][k].target] == label_views(after)[ev[j][k].target]);
        assert(before[ev[j][k].target]@.contains(y));
        assert(before[j]@.contains(x));
    }
}

/// A copy of a list of labels.
pub fn copy_labels(v: &Vec<(usize, u32)>) -> (r: Vec<(usize, u32)>)
    ensures
        r@ == v@,
{
    let mut r: Vec<(usize, u32)> = Vec::new();
    let mut i: usize = 0;
    while i < v.len()
        invariant
            i <= v@.len(),
            r@ == v@.take(i as int),
        decreases v@.len() - i,
    {
        r.push(v[i]);
        i += 1;
        assert(r@ =~= v@.take(i as int));
    }
    assert(v@.take(v@.len() as int) =~= v@);
    r
}

// ---- reference counts ----

/// What the callee's counters add to counter `(p, q)` of the caller, starting from `x`.
pub open spec fn add_entries(
    x: i64,
    entries: Seq<(usize, u32, i64)>,
    args: Seq<Operand>,
    m: Map<u32, usize>,
    p: usize,
    q: u32,
) -> i64
    decreases entries.len(),
{
    if entries.len() == 0 {
        x
    } else {
        let e = entries.last();
        let prior = add_entries(x, entries.drop_last(), args, m, p, q);
        if e.1 == q && e.0 < args.len() && aliased(m, args[e.0 as int]) == Some(p) {
            wrap64(prior + e.2)
        } else {
            prior
        }
    }
}

/// What the calls add to counter `(p, q)`, starting from `x`.
pub open spec fn add_calls(
    x: i64,
    edges: Seq<EdgeView>,
    lists: Seq<Seq<(usize, u32, i64)>>,
    m: Map<u32, usize>,
    p: usize,
    q: u32,
) -> i64
    decreases edges.len(),
{
    if edges.len() == 0 {
        x
    } else {
        add_entries(
            add_calls(x, edges.drop_last(), lists, m, p, q),
            lists[edges.last().target],
            edges.last().args,
            m,
            p,
            q,
        )
    }
}

/// Function `i`'s counters after one round: its own, plus what its calls add.
pub open spec fn next_counts(
    base: Seq<Seq<(usize, u32, i64)>>,
    aliases: Seq<Map<u32, usize>>,
    calls: Seq<Seq<EdgeView>>,
    lists: Seq<Seq<(usize, u32, i64)>>,
    i: int,
) -> spec_fn(usize, u32) -> i64 {
    |p: usize, q: u32|
        add_calls(count_at(base[i], p, q), calls[i], lists, aliases[i], p, q)
}

/// The sorted list of the nonzero counters.
pub open spec fn count_list(net: spec_fn(usize, u32) -> i64) -> Seq<(usize, u32, i64)> {
    choose|s: Seq<(usize, u32, i64)>| lists_counts(s, net)
}

/// Every function's counters after one round.
pub open spec fn next_round(
    base: Seq<Seq<(usize, u32, i64)>>,
    aliases: Seq<Map<u32, usize>>,
    calls: Seq<Seq<EdgeView>>,
    lists: Seq<Seq<(usize, u32, i64)>>,
) -> Seq<Seq<(usize, u32, i64)>> {
    Seq::new(base.len(), |i: int| count_list(next_counts(base, aliases, calls, lists, i)))
}

/// Every function's counters after at most `rounds` rounds, or once a round changes none.
pub open spec fn count_rounds(
    base: Seq<Seq<(usize, u32, i64)>>,
    aliases: Seq<Map<u32, usize>>,
    calls: Seq<Seq<EdgeView>>,
    lists: Seq<Seq<(usize, u32, i64)>>,
    rounds: nat,
) -> Seq<Seq<(usize, u32, i64)>>
    decreases rounds,
{
    if rounds == 0 || next_round(base, aliases, calls, lists) == lists {
        lists
    } else {
        count_rounds(
            base,
            aliases,
            calls,
            next_round(base, aliases, calls, lists),
            (rounds - 1) as nat,
        )
    }
}

/// The lists' contents.
pub open spec fn count_views(lists: Seq<Vec<(usize, u32, i64)>>) -> Seq<Seq<(usize, u32, i64)>> {
    Seq::new(lists.len(), |i: int| lists[i]@)
}

/// One function's counters after one round.
fn compose_counts(
    own: &Vec<(usize, u32, i64)>,
    m: &HashMap<u32, usize>,
    calls: &Vec<Edge>,
    lists: &Vec<Vec<(usize, u32, i64)>>,
    Ghost(edges): Ghost<Seq<EdgeView>>,
) -> (r: Vec<(usize, u32, i64)>)
    requires
        sorted_counts(own@),
        edges == Seq::new(calls@.len(), |k: int| calls@[k]@),
        forall|k: int| 0 <= k < calls@.len() ==> (#[trigger] calls@[k]).target < lists@.len(),
    ensures
        lists_counts(
            r@,
            |p: usize, q: u32|
                add_calls(count_at(own@, p, q), edges, count_views(lists@), m@, p, q),
        ),
{
    let ghost lv = count_views(lists@);
    let mut acc: Vec<(usize, u32, i64)> = copy_counts(own);
    let mut k: usize = 0;
    assert(edges.take(0) =~= Seq::<EdgeView>::empty());
    while k < calls.len()
        invariant
            k <= calls@.len(),
            lv == count_views(lists@),
            edges == Seq::new(calls@.len(), |j: int| calls@[j]@),
            forall|j: int| 0 <= j < calls@.len() ==> (#[trigger] calls@[j]).target < lists@.len(),
            sorted_counts(acc@),
            forall|p: usize, q: u32| #[trigger]
                count_at(acc@, p, q) == add_calls(
                    count_at(own@, p, q),
                    edges.take(k as int),
                    lv,
                    m@,
                    p,
                    q,
                ),
        decreases calls@.len() - k,
    {
        let edge = &calls[k];
        assert(calls@[k as int].target < lists@.len());
        let list = &lists[edge.target];
        let ghost before = acc@;
        let mut t: usize = 0;
        assert(list@.take(0) =~= Seq::<(usize, u32, i64)>::empty());
        while t < list.len()
            invariant
                t <= list@.len(),
                sorted_counts(acc@),
                forall|p: usize, q: u32| #[trigger]
                    count_at(acc@, p, q) == add_entries(
                        count_at(before, p, q),
                        list@.take(t as int),
                        edge.args@,
                        m@,
                        p,
                        q,
                    ),
            decreases list@.len() - t,
        {
            let (a, proto, d) = list[t];
            let ghost prior = acc@;
            assert(list@.take(t + 1).drop_last() =~= list@.take(t as int));
            assert(list@.take(t + 1).last() == list@[t as int]);
            if a < edge.args.len() {
                if let Some(p) = aliased_param(m, &edge.args[a]) {
                    bump(&mut acc, p, proto, d);
                }
            }
            proof {
                assert forall|p: usize, q: u32| #[trigger]
                    count_at(acc@, p, q) == add_entries(
                        count_at(before, p, q),
                        list@.take(t + 1),
                        edge.args@,
                        m@,
                        p,
                        q,
                    ) by {
                    assert(count_at(prior, p, q) == add_entries(
                        count_at(before, p, q),
                        list@.take(t as int),
                        edge.args@,
                        m@,
                        p,
                        q,
                    ));
                }
            }
            t += 1;
        }
        proof {
            assert(list@.take(list@.len() as int) =~= list@);
            assert(edges.take(k + 1).drop_last() =~= edges.take(k as int));
            assert(edges.take(k + 1).last() == calls@[k as int]@);
            assert(lv[edge.target as int] == list@);
            assert forall|p: usize, q: u32| #[trigger]
                count_at(acc@, p, q) == add_calls(
                    count_at(own@, p, q),
                    edges.take(k + 1),
                    lv,
                    m@,
                    p,
                    q,
                ) by {
                assert(count_at(before, p, q) == add_calls(
                    count_at(own@, p, q),
                    edges.take(k as int),
                    lv,
                    m@,
                    p,
                    q,
                ));
            }
        }
        k += 1;
    }
    assert(edges.take(edges.len() as int) =~= edges);
    let r = nonzero(&acc);
    proof {
        let net = |p: usize, q: u32| add_calls(count_at(own@, p, q), edges, lv, m@, p, q);
        assert forall|p: usize, q: u32| #[trigger] count_at(r@, p, q) == net(p, q) by {
            assert(count_at(r@, p, q) == count_at(acc@, p, q));
        }
    }
    r
}

/// A copy of a list of counters.
pub fn copy_counts(v: &Vec<(usize, u32, i64)>) -> (r: Vec<(usize, u32, i64)>)
    ensures
        r@ == v@,
{
    let mut r: Vec<(usize, u32, i64)> = Vec::new();
    let mut i: usize = 0;
    while i < v.len()
        invariant
            i <= v@.len(),
            r@ == v@.take(i as int),
        decreases v@.len() - i,
    {
        r.push(v[i]);
        i += 1;
        assert(r@ =~= v@.take(i as int));
    }
    assert(v@.take(v@.len() as int) =~= v@);
    r
}

/// Whether two lists of counters are equal.
fn counts_equal(a: &Vec<(usize, u32, i64)>, b: &Vec<(usize, u32, i64)>) -> (r: bool)
    ensures
        r == (a@ == b@),
{
    if a.len() != b.len() {
        return false;
    }
    let mut i: usize = 0;
    while i < a.len()
        invariant
            i <= a@.len(),
            a@.len() == b@.len(),
            forall|j: int| 0 <= j < i ==> #[trigger] a@[j] == b@[j],
        decreases a@.len() - i,
    {
        if a[i].0 != b[i].0 || a[i].1 != b[i].1 || a[i].2 != b[i].2 {
            assert(a@[i as int] != b@[i as int]);
            return false;
        }
        i += 1;
    }
    assert(a@ =~= b@);
    true
}

/// Compose the counters over calls, for at most eight rounds.
pub fn spread_counts(
    lists: &mut Vec<Vec<(usize, u32, i64)>>,
    aliases: &Vec<HashMap<u32, usize>>,
    calls: &Vec<Vec<Edge>>,
)
    requires
        old(lists)@.len() == calls@.len(),
        aliases@.len() == calls@.len(),
        targets_below(edge_views(calls@), calls@.len() as int),
        forall|j: int| 0 <= j < old(lists)@.len() ==> sorted_counts((#[trigger] old(lists)@[j])@),
    ensures
        count_views(final(lists)@) == count_rounds(
            count_views(old(lists)@),
            map_views(aliases@),
            edge_views(calls@),
            count_views(old(lists)@),
            8,
        ),
{
    let ghost base = count_views(lists@);
    let ghost maps = map_views(aliases@);
    let ghost ev = edge_views(calls@);
    let mut own: Vec<Vec<(usize, u32, i64)>> = Vec::new();
    let mut j: usize = 0;
    while j < lists.len()
        invariant
            j <= lists@.len(),
            lists@ == old(lists)@,
            own@.len() == j,
            forall|k: int| 0 <= k < j ==> (#[trigger] own@[k])@ == lists@[k]@,
        decreases lists@.len() - j,
    {
        own.push(copy_counts(&lists[j]));
        j += 1;
    }
    assert(count_views(own@) =~= base);
    let mut left: u32 = 8;
    let mut changed = true;
    while left > 0 && changed
        invariant
            left <= 8,
            ev == edge_views(calls@),
            maps == map_views(aliases@),
            base == count_views(own@),
            own@.len() == calls@.len(),
            lists@.len() == calls@.len(),
            aliases@.len() == calls@.len(),
            targets_below(ev, calls@.len() as int),
            forall|k: int| 0 <= k < own@.len() ==> sorted_counts((#[trigger] own@[k])@),
            changed ==> count_rounds(base, maps, ev, base, 8) == count_rounds(
                base,
                maps,
                ev,
                count_views(lists@),
                left as nat,
            ),
            !changed ==> count_rounds(base, maps, ev, base, 8) == count_views(lists@),
        decreases left,
    {
        changed = false;
        let ghost lv = count_views(lists@);
        let mut next: Vec<Vec<(usize, u32, i64)>> = Vec::new();
        let mut i: usize = 0;
        while i < calls.len()
            invariant
                i <= calls@.len(),
                ev == edge_views(calls@),
                maps == map_views(aliases@),
                base == count_views(own@),
                lv == count_views(lists@),
                own@.len() == calls@.len(),
                lists@.len() == calls@.len(),
                aliases@.len() == calls@.len(),
                targets_below(ev, calls@.len() as int),
                forall|k: int| 0 <= k < own@.len() ==> sorted_counts((#[trigger] own@[k])@),
                next@.len() == i,
                forall|k: int|
                    0 <= k < i ==> (#[trigger] next@[k])@ == next_round(base, maps, ev, lv)[k],
                changed <==> exists|k: int|
                    0 <= k < i && (#[trigger] next@[k])@ != lists@[k]@,
            decreases calls@.len() - i,
        {
            assert forall|k: int| 0 <= k < calls@[i as int]@.len() implies (
            #[trigger] calls@[i as int]@[k]).target < lists@.len() by {
                assert(ev[i as int][k].target == calls@[i as int]@[k].target);
            }
            let r = compose_counts(&own[i], &aliases[i], &calls[i], lists, Ghost(ev[i as int]));
            proof {
                let net = next_counts(base, maps, ev, lv, i as int);
                let got = |p: usize, q: u32|
                    add_calls(
                        count_at(own@[i as int]@, p, q),
                        ev[i as int],
                        lv,
                        aliases@[i as int]@,
                        p,
                        q,
                    );
                assert forall|p: usize, q: u32| #[trigger] count_at(r@, p, q) == net(p, q) by {
                    assert(count_at(r@, p, q) == got(p, q));
                }
                assert(lists_counts(r@, net));
                counts_unique(r@, count_list(net), net);
                assert(r@ == next_round(base, maps, ev, lv)[i as int]);
            }
            let same = counts_equal(&r, &lists[i]);
            let ghost prior = next@;
            next.push(r);
            if !same {
                changed = true;
            }
            proof {
                assert forall|k: int| 0 <= k < i implies next@[k] == prior[k] by {}
                if !same {
                    assert(next@[i as int]@ != lists@[i as int]@);
                }
                if exists|k: int| 0 <= k < i && (#[trigger] prior[k])@ != lists@[k]@ {
                    let k = choose|k: int| 0 <= k < i && (#[trigger] prior[k])@ != lists@[k]@;
                    assert(next@[k]@ != lists@[k]@);
                }
            }
            i += 1;
        }
        proof {
            let nr = next_round(base, maps, ev, lv);
            assert(count_views(next@) =~= nr);
            if changed {
                let k = choose|k: int|
                    0 <= k < calls@.len() && (#[trigger] next@[k])@ != lists@[k]@;
                assert(nr[k] != lv[k]);
            } else {
                assert(nr =~= lv) by {
                    assert forall|k: int| 0 <= k < nr.len() implies nr[k] == lv[k] by {
                        assert(next@[k]@ == lists@[k]@);
                    }
                }
            }
        }
        *lists = next;
        left -= 1;
    }
}

} // verus!
