//! The logic behind the search: literals under an assignment, the trail, the
//! reasons, the watch lists, and what each of them guarantees.

use super::{clause_true, satisfies, Lit};
use vstd::prelude::*;

verus! {

/// `l` is false under the partial assignment.
pub open spec fn is_false(asg: Seq<Option<bool>>, l: Lit) -> bool {
    asg[l.var as int] == Some(l.neg)
}

/// `l` is true under the partial assignment.
pub open spec fn is_true(asg: Seq<Option<bool>>, l: Lit) -> bool {
    asg[l.var as int] == Some(!l.neg)
}

/// The value of a literal under a partial assignment.
pub open spec fn value_of(asg: Seq<Option<bool>>, l: Lit) -> Option<bool> {
    match asg[l.var as int] {
        Some(b) => Some(b != l.neg),
        None => None,
    }
}

/// `l` stands at two places of `c`.
pub open spec fn repeated(c: Seq<Lit>, l: Lit) -> bool {
    exists|i: int, j: int| 0 <= i < j < c.len() && c[i] == l && c[j] == l
}

/// Two clauses with the same literals, each as often, in any order.
pub open spec fn same_lits(a: Seq<Lit>, b: Seq<Lit>) -> bool {
    &&& a.len() == b.len()
    &&& a.to_multiset() == b.to_multiset()
    &&& forall|l: Lit| #![trigger repeated(a, l)] #![trigger repeated(b, l)]
        repeated(a, l) <==> repeated(b, l)
    &&& forall|l: Lit| #![trigger a.contains(l)] #![trigger b.contains(l)]
        a.contains(l) <==> b.contains(l)
}

/// Every literal names a variable below `n`.
pub open spec fn lits_below(c: Seq<Lit>, n: int) -> bool {
    forall|k: int| 0 <= k < c.len() ==> (#[trigger] c[k]).var < n
}

/// `c` with the literals at `i` and `j` exchanged.
pub open spec fn exchanged(c: Seq<Lit>, i: int, j: int) -> Seq<Lit> {
    c.update(i, c[j]).update(j, c[i])
}

proof fn lemma_exchanged_repeated(c: Seq<Lit>, i: int, j: int, l: Lit)
    requires
        0 <= i < c.len(),
        0 <= j < c.len(),
        repeated(c, l),
    ensures
        repeated(exchanged(c, i, j), l),
{
    let d = exchanged(c, i, j);
    let (p, q) = choose|p: int, q: int| 0 <= p < q < c.len() && c[p] == l && c[q] == l;
    let p2 = if p == i { j } else if p == j { i } else { p };
    let q2 = if q == i { j } else if q == j { i } else { q };
    assert(d[p2] == l && d[q2] == l && p2 != q2);
    if p2 < q2 {
        assert(d[p2] == l && d[q2] == l);
    } else {
        assert(d[q2] == l && d[p2] == l);
    }
}

proof fn lemma_update_multiset(c: Seq<Lit>, i: int, x: Lit)
    requires
        0 <= i < c.len(),
    ensures
        c.update(i, x).to_multiset() == c.to_multiset().remove(c[i]).insert(x),
{
    assert(c.update(i, x) =~= c.remove(i).insert(i, x));
    vstd::seq_lib::to_multiset_remove(c, i);
    vstd::seq_lib::to_multiset_insert(c.remove(i), i, x);
}

proof fn lemma_exchanged_multiset(c: Seq<Lit>, i: int, j: int)
    requires
        0 <= i < c.len(),
        0 <= j < c.len(),
    ensures
        exchanged(c, i, j).to_multiset() == c.to_multiset(),
{
    let m = c.to_multiset();
    if i == j {
        assert(exchanged(c, i, j) =~= c);
    } else {
        lemma_update_multiset(c, i, c[j]);
        lemma_update_multiset(c.update(i, c[j]), j, c[i]);
        vstd::seq_lib::to_multiset_contains(c, c[i]);
        assert(c.contains(c[i]));
        assert(m.remove(c[i]).insert(c[j]).remove(c[j]).insert(c[i]) =~= m);
    }
}

/// The clauses are the same ones, each with its literals in any order.
pub open spec fn kept_lits(before: Seq<Vec<Lit>>, after: Seq<Vec<Lit>>) -> bool {
    &&& before.len() == after.len()
    &&& forall|c: int| 0 <= c < before.len() ==> same_lits(before[c]@, #[trigger] after[c]@)
}

pub proof fn lemma_kept_lits_reordered(
    start: Seq<Vec<Lit>>,
    before: Seq<Vec<Lit>>,
    after: Seq<Vec<Lit>>,
    ci: int,
)
    requires
        kept_lits(start, before),
        reordered(before, after, ci),
        0 <= ci < before.len(),
    ensures
        kept_lits(start, after),
{
    assert forall|c: int| 0 <= c < start.len() implies same_lits(
        start[c]@,
        #[trigger] after[c]@,
    ) by {
        assert(same_lits(start[c]@, before[c]@));
        if c != ci {
            assert(after[c] == before[c]);
        }
    }
}

pub proof fn lemma_exchanged_same_lits(c: Seq<Lit>, i: int, j: int)
    requires
        0 <= i < c.len(),
        0 <= j < c.len(),
    ensures
        same_lits(c, exchanged(c, i, j)),
{
    let d = exchanged(c, i, j);
    lemma_exchanged_multiset(c, i, j);
    assert(exchanged(d, i, j) =~= c);
    assert forall|l: Lit| repeated(c, l) <==> repeated(d, l) by {
        if repeated(c, l) {
            lemma_exchanged_repeated(c, i, j, l);
        }
        if repeated(d, l) {
            lemma_exchanged_repeated(d, i, j, l);
        }
    }
    assert forall|l: Lit| c.contains(l) <==> d.contains(l) by {
        if c.contains(l) {
            let k = choose|k: int| 0 <= k < c.len() && c[k] == l;
            if k == i {
                assert(d[j] == l);
            } else if k == j {
                assert(d[i] == l);
            } else {
                assert(d[k] == l);
            }
        }
        if d.contains(l) {
            let k = choose|k: int| 0 <= k < d.len() && d[k] == l;
            if k == j {
                assert(c[i] == l);
            } else if k == i {
                assert(c[j] == l);
            } else {
                assert(c[k] == l);
            }
        }
    }
}

pub proof fn lemma_same_lits_below(a: Seq<Lit>, b: Seq<Lit>, n: int)
    requires
        same_lits(a, b),
        lits_below(a, n),
    ensures
        lits_below(b, n),
{
    assert forall|k: int| 0 <= k < b.len() implies (#[trigger] b[k]).var < n by {
        assert(b.contains(b[k]));
        let i = choose|i: int| 0 <= i < a.len() && a[i] == b[k];
        assert(a[i].var < n);
    }
}

pub proof fn lemma_same_lits_true(m: Seq<bool>, a: Seq<Lit>, b: Seq<Lit>)
    requires
        same_lits(a, b),
    ensures
        clause_true(m, a) == clause_true(m, b),
{
    if clause_true(m, a) {
        let l = choose|l: Lit| a.contains(l) && super::lit_true(m, l);
        assert(b.contains(l));
    }
    if clause_true(m, b) {
        let l = choose|l: Lit| b.contains(l) && super::lit_true(m, l);
        assert(a.contains(l));
    }
}

// ---- the trail ----

/// Variable `v` was assigned before position `i` of the trail.
pub open spec fn earlier(trail: Seq<u32>, i: int, v: u32) -> bool {
    exists|j: int| 0 <= j < i && trail[j] == v
}

/// Level `lv` is the level of trail position `i`.
pub open spec fn level_at(lim: Seq<usize>, lv: int, i: int) -> bool {
    &&& 0 <= lv <= lim.len()
    &&& lv > 0 ==> lim[lv - 1] <= i
    &&& lv < lim.len() ==> i < lim[lv]
}

/// The trail lists each assigned variable once, in levels cut by `lim`.
pub open spec fn trail_inv(
    n: int,
    trail: Seq<u32>,
    lim: Seq<usize>,
    asg: Seq<Option<bool>>,
    lev: Seq<u32>,
) -> bool {
    &&& asg.len() == n
    &&& lev.len() == n
    &&& trail.no_duplicates()
    &&& forall|i: int| 0 <= i < trail.len() ==> (#[trigger] trail[i]) < n
    &&& forall|i: int| 0 <= i < trail.len() ==> asg[(#[trigger] trail[i]) as int].is_some()
    &&& forall|i: int|
        0 <= i < trail.len() ==> level_at(lim, lev[(#[trigger] trail[i]) as int] as int, i)
    &&& forall|v: int| 0 <= v < n && (#[trigger] asg[v]).is_some() ==> trail.contains(v as u32)
    &&& forall|a: int, b: int| 0 <= a < b < lim.len() ==> lim[a] < lim[b]
    &&& forall|a: int| 0 <= a < lim.len() ==> (#[trigger] lim[a]) < trail.len()
}

/// Levels never fall along the trail.
pub proof fn lemma_levels_rise(
    n: int,
    trail: Seq<u32>,
    lim: Seq<usize>,
    asg: Seq<Option<bool>>,
    lev: Seq<u32>,
    i: int,
    j: int,
)
    requires
        trail_inv(n, trail, lim, asg, lev),
        0 <= i <= j < trail.len(),
    ensures
        lev[trail[i] as int] <= lev[trail[j] as int],
{
    let a = lev[trail[i] as int] as int;
    let b = lev[trail[j] as int] as int;
    assert(level_at(lim, a, i));
    assert(level_at(lim, b, j));
    if a > b {
        assert(j < lim[b]);
        assert(lim[a - 1] <= i);
        if b < a - 1 {
            assert(lim[b] < lim[a - 1]);
        }
    }
}

/// There are no more decisions than assigned variables, and no more assigned
/// variables than variables.
pub proof fn lemma_trail_bounds(
    n: int,
    trail: Seq<u32>,
    lim: Seq<usize>,
    asg: Seq<Option<bool>>,
    lev: Seq<u32>,
)
    requires
        trail_inv(n, trail, lim, asg, lev),
        0 <= n,
    ensures
        trail.len() <= n,
        lim.len() <= trail.len(),
{
    let s = trail.to_set();
    let all = vstd::set_lib::set_int_range(0, n);
    trail.unique_seq_to_set();
    vstd::set_lib::lemma_int_range(0, n);
    let t = s.map(|v: u32| v as int);
    assert(t.subset_of(all)) by {
        assert forall|x: int| t.contains(x) implies all.contains(x) by {
            let v = choose|v: u32| s.contains(v) && v as int == x;
            assert(trail.contains(v));
        }
    }
    vstd::set_lib::lemma_len_subset(t, all);
    vstd::set_lib::lemma_map_size(s, t, |v: u32| v as int);
    lemma_lim_rises(lim, trail.len() as int, lim.len() as int);
}

proof fn lemma_lim_rises(lim: Seq<usize>, len: int, k: int)
    requires
        forall|a: int, b: int| 0 <= a < b < lim.len() ==> lim[a] < lim[b],
        forall|a: int| 0 <= a < lim.len() ==> (#[trigger] lim[a]) < len,
        0 <= k <= lim.len(),
        0 <= len,
    ensures
        k > 0 ==> lim[k - 1] >= k - 1,
        k <= len,
    decreases k,
{
    if k > 1 {
        lemma_lim_rises(lim, len, k - 1);
        assert(lim[k - 2] < lim[k - 1]);
    }
    if k > 0 {
        assert(lim[k - 1] < len);
    }
}

// ---- reasons ----

/// The literal of `v` that the assignment makes true.
pub open spec fn true_lit(asg: Seq<Option<bool>>, v: u32) -> Lit {
    Lit { var: v, neg: asg[v as int] == Some(false) }
}

/// Clause `c` forces the variable at trail position `i`: it holds that
/// variable's true literal at one place, and its other literals were false before.
pub open spec fn forces(
    trail: Seq<u32>,
    asg: Seq<Option<bool>>,
    i: int,
    c: Seq<Lit>,
) -> bool {
    &&& c.contains(true_lit(asg, trail[i]))
    &&& !repeated(c, true_lit(asg, trail[i]))
    &&& forall|l: Lit| #[trigger]
        c.contains(l) ==> if l.var == trail[i] {
            is_true(asg, l)
        } else {
            is_false(asg, l) && earlier(trail, i, l.var)
        }
}

/// Each assigned variable was forced by its reason, or opens its level.
pub open spec fn reason_inv(
    trail: Seq<u32>,
    lim: Seq<usize>,
    asg: Seq<Option<bool>>,
    lev: Seq<u32>,
    rsn: Seq<Option<usize>>,
    cls: Seq<Vec<Lit>>,
) -> bool {
    &&& rsn.len() == asg.len()
    &&& forall|i: int|
        0 <= i < trail.len() ==> match rsn[(#[trigger] trail[i]) as int] {
            Some(r) => r < cls.len() && forces(trail, asg, i, cls[r as int]@),
            None => lev[trail[i] as int] > 0 && i == lim[lev[trail[i] as int] - 1],
        }
}

/// Every stored clause follows from the formula, and the first ones are the
/// formula's own clauses up to the order of their literals.
pub open spec fn logic_inv(n: int, formula: Seq<Seq<Lit>>, cls: Seq<Vec<Lit>>) -> bool {
    &&& formula.len() <= cls.len()
    &&& forall|ci: int| 0 <= ci < cls.len() ==> lits_below((#[trigger] cls[ci])@, n)
    &&& forall|i: int| 0 <= i < formula.len() ==> same_lits(#[trigger] formula[i], cls[i]@)
    &&& forall|m: Seq<bool>, ci: int|
        m.len() == n && #[trigger] satisfies(m, formula) && 0 <= ci < cls.len() ==> clause_true(
            m,
            (#[trigger] cls[ci])@,
        )
}

/// The variables waiting to be propagated are assigned at the current level.
pub open spec fn queue_inv(
    q: Seq<u32>,
    n: int,
    asg: Seq<Option<bool>>,
    lev: Seq<u32>,
    d: int,
) -> bool {
    &&& q.no_duplicates()
    &&& forall|k: int|
        0 <= k < q.len() ==> (#[trigger] q[k]) < n && asg[q[k] as int].is_some()
            && lev[q[k] as int] == d
}

/// Where `b` is clause `ci` of `after` and the rest is unchanged, and `b` has the
/// literals that the clause had before.
pub open spec fn reordered(before: Seq<Vec<Lit>>, after: Seq<Vec<Lit>>, ci: int) -> bool {
    &&& before.len() == after.len()
    &&& forall|k: int| 0 <= k < before.len() && k != ci ==> #[trigger] after[k] == before[k]
    &&& same_lits(before[ci]@, after[ci]@)
}

pub proof fn lemma_reordered_keeps(
    n: int,
    formula: Seq<Seq<Lit>>,
    trail: Seq<u32>,
    lim: Seq<usize>,
    asg: Seq<Option<bool>>,
    lev: Seq<u32>,
    rsn: Seq<Option<usize>>,
    before: Seq<Vec<Lit>>,
    after: Seq<Vec<Lit>>,
    ci: int,
)
    requires
        0 <= ci < before.len(),
        reordered(before, after, ci),
        logic_inv(n, formula, before),
        reason_inv(trail, lim, asg, lev, rsn, before),
    ensures
        logic_inv(n, formula, after),
        reason_inv(trail, lim, asg, lev, rsn, after),
{
    lemma_same_lits_below(before[ci]@, after[ci]@, n);
    assert forall|m: Seq<bool>, k: int|
        m.len() == n && #[trigger] satisfies(m, formula) && 0 <= k < after.len() implies clause_true(
        m,
        (#[trigger] after[k])@,
    ) by {
        assert(clause_true(m, before[k]@));
        if k == ci {
            lemma_same_lits_true(m, before[ci]@, after[ci]@);
        }
    }
    assert forall|ck: int| 0 <= ck < after.len() implies lits_below((#[trigger] after[ck])@, n) by {
        assert(lits_below(before[ck]@, n));
    }
    assert forall|i: int| 0 <= i < formula.len() implies same_lits(
        #[trigger] formula[i],
        after[i]@,
    ) by {
        assert(same_lits(formula[i], before[i]@));
    }
    assert forall|i: int| 0 <= i < trail.len() implies match rsn[(#[trigger] trail[i]) as int] {
        Some(r) => r < after.len() && forces(trail, asg, i, after[r as int]@),
        None => lev[trail[i] as int] > 0 && i == lim[lev[trail[i] as int] - 1],
    } by {
        if let Some(r) = rsn[trail[i] as int] {
            assert(forces(trail, asg, i, before[r as int]@));
            if r == ci {
                let b = before[ci]@;
                let a = after[ci]@;
                assert(a.contains(true_lit(asg, trail[i])));
                assert forall|l: Lit| #[trigger] a.contains(l) implies if l.var == trail[i] {
                    is_true(asg, l)
                } else {
                    is_false(asg, l) && earlier(trail, i, l.var)
                } by {
                    assert(b.contains(l));
                }
            }
        }
    }
}

// ---- entailment ----

/// The model agrees with the assignment on `v`.
pub open spec fn agrees(m: Seq<bool>, asg: Seq<Option<bool>>, v: int) -> bool {
    asg[v] == Some(m[v])
}

/// Every model of the formula agrees with what was assigned at level 0.
pub proof fn lemma_level_zero_entailed(
    n: int,
    formula: Seq<Seq<Lit>>,
    trail: Seq<u32>,
    lim: Seq<usize>,
    asg: Seq<Option<bool>>,
    lev: Seq<u32>,
    rsn: Seq<Option<usize>>,
    cls: Seq<Vec<Lit>>,
    m: Seq<bool>,
    i: int,
)
    requires
        trail_inv(n, trail, lim, asg, lev),
        reason_inv(trail, lim, asg, lev, rsn, cls),
        logic_inv(n, formula, cls),
        m.len() == n,
        satisfies(m, formula),
        0 <= i < trail.len(),
        lev[trail[i] as int] == 0,
    ensures
        agrees(m, asg, trail[i] as int),
    decreases i,
{
    let r = rsn[trail[i] as int]->0;
    let c = cls[r as int]@;
    assert(forces(trail, asg, i, c));
    assert(clause_true(m, cls[r as int]@));
    let l = choose|l: Lit| c.contains(l) && super::lit_true(m, l);
    if l.var != trail[i] {
        let j = choose|j: int| 0 <= j < i && trail[j] == l.var;
        lemma_levels_rise(n, trail, lim, asg, lev, j, i);
        lemma_level_zero_entailed(n, formula, trail, lim, asg, lev, rsn, cls, m, j);
        assert(is_false(asg, l));
        assert(false);
    }
}

/// A clause false under level-0 assignments alone leaves the formula no model.
pub proof fn lemma_level_zero_conflict(
    n: int,
    formula: Seq<Seq<Lit>>,
    trail: Seq<u32>,
    lim: Seq<usize>,
    asg: Seq<Option<bool>>,
    lev: Seq<u32>,
    rsn: Seq<Option<usize>>,
    cls: Seq<Vec<Lit>>,
    ci: int,
)
    requires
        trail_inv(n, trail, lim, asg, lev),
        reason_inv(trail, lim, asg, lev, rsn, cls),
        logic_inv(n, formula, cls),
        0 <= ci < cls.len(),
        forall|l: Lit| #[trigger] cls[ci]@.contains(l) ==> is_false(asg, l),
        lim.len() == 0,
    ensures
        forall|m: Seq<bool>| m.len() == n ==> !satisfies(m, formula),
{
    assert forall|m: Seq<bool>| m.len() == n implies !satisfies(m, formula) by {
        if satisfies(m, formula) {
            let c = cls[ci]@;
            assert(clause_true(m, cls[ci]@));
            let l = choose|l: Lit| c.contains(l) && super::lit_true(m, l);
            assert(lits_below(c, n));
            let k = choose|k: int| 0 <= k < c.len() && c[k] == l;
            assert(c[k].var < n);
            assert(asg[l.var as int].is_some());
            assert(trail.contains(l.var));
            let i = choose|i: int| 0 <= i < trail.len() && trail[i] == l.var;
            assert(level_at(lim, lev[trail[i] as int] as int, i));
            lemma_level_zero_entailed(n, formula, trail, lim, asg, lev, rsn, cls, m, i);
        }
    }
}

// ---- watch lists ----

/// The watch-list index of a literal.
pub open spec fn code_of(l: Lit) -> int {
    2 * l.var + if l.neg { 1int } else { 0int }
}

pub proof fn lemma_code_injective(a: Lit, b: Lit)
    ensures
        code_of(a) == code_of(b) <==> a == b,
{
}

/// How often `ci` occurs in `s`.
pub open spec fn occurrences(s: Seq<usize>, ci: int) -> int
    decreases s.len(),
{
    if s.len() == 0 {
        0
    } else {
        occurrences(s.drop_last(), ci) + if s.last() == ci { 1int } else { 0int }
    }
}

pub proof fn lemma_occurrences_push(s: Seq<usize>, x: usize, ci: int)
    ensures
        occurrences(s.push(x), ci) == occurrences(s, ci) + if x == ci { 1int } else { 0int },
{
    assert(s.push(x).drop_last() =~= s);
}

pub proof fn lemma_occurrences_prefix(s: Seq<usize>, j: int, ci: int)
    requires
        0 <= j <= s.len(),
    ensures
        0 <= occurrences(s.take(j), ci) <= occurrences(s, ci),
    decreases s.len(),
{
    if j == s.len() {
        assert(s.take(j) =~= s);
        if j > 0 {
            lemma_occurrences_prefix(s.drop_last(), j - 1, ci);
            assert(s.drop_last().take(j - 1) =~= s.drop_last());
        }
    } else {
        lemma_occurrences_prefix(s.drop_last(), j, ci);
        assert(s.drop_last().take(j) =~= s.take(j));
    }
}

pub proof fn lemma_occurrences_step(s: Seq<usize>, j: int, ci: int)
    requires
        0 <= j < s.len(),
    ensures
        occurrences(s.take(j + 1), ci) == occurrences(s.take(j), ci) + if s[j] == ci {
            1int
        } else {
            0int
        },
        occurrences(s.take(j + 1), ci) <= occurrences(s, ci),
{
    assert(s.take(j + 1) =~= s.take(j).push(s[j]));
    lemma_occurrences_push(s.take(j), s[j], ci);
    lemma_occurrences_prefix(s, j + 1, ci);
}

pub proof fn lemma_occurrences_absent(s: Seq<usize>, bound: int, ci: int)
    requires
        forall|p: int| 0 <= p < s.len() ==> (#[trigger] s[p]) < bound,
        bound <= ci,
    ensures
        occurrences(s, ci) == 0,
    decreases s.len(),
{
    if s.len() > 0 {
        lemma_occurrences_absent(s.drop_last(), bound, ci);
    }
}

/// How often clause `c` is listed under literal index `x`: once for each of its
/// first two literals with that index.
pub open spec fn wanted(c: Seq<Lit>, x: int) -> int {
    if c.len() < 2 {
        0
    } else {
        (if code_of(c[0]) == x { 1int } else { 0int }) + (if code_of(c[1]) == x { 1int } else { 0int })
    }
}

/// The entries of watch list `x` are clause numbers.
pub open spec fn list_below(w: Seq<usize>, bound: int) -> bool {
    forall|p: int| 0 <= p < w.len() ==> (#[trigger] w[p]) < bound
}

/// Each list names each clause as often as that clause wants it.
pub open spec fn watch_inv(n: int, cls: Seq<Vec<Lit>>, w: Seq<Vec<usize>>) -> bool {
    &&& w.len() == 2 * n
    &&& forall|x: int| 0 <= x < w.len() ==> list_below((#[trigger] w[x])@, cls.len() as int)
    &&& forall|x: int, ci: int|
        0 <= x < w.len() && 0 <= ci < cls.len() ==> #[trigger] occurrences(w[x]@, ci) == wanted(
            cls[ci]@,
            x,
        )
}

/// The literal watched beside literal `j` of `c` is true, from no later level.
pub open spec fn guarded(asg: Seq<Option<bool>>, lev: Seq<u32>, c: Seq<Lit>, j: int) -> bool {
    is_true(asg, c[1 - j]) && lev[c[1 - j].var as int] <= lev[c[j].var as int]
}

/// A watched literal that is false and not waiting has a true partner.
pub open spec fn watch_sound(
    asg: Seq<Option<bool>>,
    lev: Seq<u32>,
    q: Seq<u32>,
    cls: Seq<Vec<Lit>>,
) -> bool {
    forall|ci: int, j: int|
        0 <= ci < cls.len() && cls[ci]@.len() >= 2 && 0 <= j < 2 && is_false(
            asg,
            #[trigger] cls[ci]@[j],
        ) && !q.contains(cls[ci]@[j].var) ==> guarded(asg, lev, cls[ci]@, j)
}

/// The same for the watched literals that were falsified below level `d`.
pub open spec fn watch_sound_below(
    asg: Seq<Option<bool>>,
    lev: Seq<u32>,
    cls: Seq<Vec<Lit>>,
    d: int,
) -> bool {
    forall|ci: int, j: int|
        0 <= ci < cls.len() && cls[ci]@.len() >= 2 && 0 <= j < 2 && is_false(
            asg,
            #[trigger] cls[ci]@[j],
        ) && lev[cls[ci]@[j].var as int] < d ==> guarded(asg, lev, cls[ci]@, j)
}

/// The watch lists name the clauses below `k`, each as often as it wants.
pub open spec fn watch_upto(n: int, cls: Seq<Vec<Lit>>, w: Seq<Vec<usize>>, k: int) -> bool {
    &&& w.len() == 2 * n
    &&& 0 <= k <= cls.len()
    &&& forall|x: int| 0 <= x < w.len() ==> list_below((#[trigger] w[x])@, k)
    &&& forall|x: int, ci: int|
        0 <= x < w.len() && 0 <= ci < k ==> #[trigger] occurrences(w[x]@, ci) == wanted(
            cls[ci]@,
            x,
        )
}

} // verus!
