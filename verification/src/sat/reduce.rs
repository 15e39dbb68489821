//! Forgetting learnt clauses.

use super::logic::{
    exchanged, forces, guarded, is_false, is_true, kept_lits, lemma_kept_lits_reordered, level_at,
    lits_below, logic_inv, occurrences, reason_inv, reordered, same_lits, wanted, watch_inv, watch_sound, watch_upto,
};
use super::{clause_true, satisfies, Lit, Solver};
use vstd::prelude::*;

verus! {

/// Candidate `a` is dropped before candidate `b`: more levels, or as many and earlier.
pub open spec fn dropped_before(lbd: Seq<u32>, cand: Seq<usize>, a: int, b: int) -> bool {
    lbd[cand[a] as int] > lbd[cand[b] as int] || (lbd[cand[a] as int] == lbd[cand[b] as int] && a
        < b)
}

/// `c` is one of the clauses `all`.
pub open spec fn one_of(all: Seq<Vec<Lit>>, c: Vec<Lit>) -> bool {
    exists|o: int| 0 <= o < all.len() && #[trigger] all[o] == c
}

/// How many flags are set.
pub open spec fn count_set(flags: Seq<bool>) -> int
    decreases flags.len(),
{
    if flags.len() == 0 {
        0
    } else {
        count_set(flags.drop_last()) + if flags.last() { 1int } else { 0int }
    }
}

proof fn lemma_count_set_update(flags: Seq<bool>, k: int)
    requires
        0 <= k < flags.len(),
        !flags[k],
    ensures
        count_set(flags.update(k, true)) == count_set(flags) + 1,
    decreases flags.len(),
{
    let g = flags.update(k, true);
    if k == flags.len() - 1 {
        assert(g.drop_last() =~= flags.drop_last());
    } else {
        lemma_count_set_update(flags.drop_last(), k);
        assert(g.drop_last() =~= flags.drop_last().update(k, true));
    }
}

proof fn lemma_count_set_take(flags: Seq<bool>, k: int)
    requires
        0 <= k < flags.len(),
    ensures
        count_set(flags.take(k + 1)) == count_set(flags.take(k)) + if flags[k] { 1int } else { 0int },
        count_set(flags.take(k)) >= 0,
    decreases k,
{
    assert(flags.take(k + 1).drop_last() =~= flags.take(k));
    if k > 0 {
        lemma_count_set_take(flags, k - 1);
    }
}

proof fn lemma_count_set_none(flags: Seq<bool>)
    requires
        forall|k: int| 0 <= k < flags.len() ==> !(#[trigger] flags[k]),
    ensures
        count_set(flags) == 0,
    decreases flags.len(),
{
    if flags.len() > 0 {
        lemma_count_set_none(flags.drop_last());
    }
}

proof fn lemma_count_set_all(flags: Seq<bool>)
    requires
        forall|k: int| 0 <= k < flags.len() ==> #[trigger] flags[k],
    ensures
        count_set(flags) == flags.len(),
    decreases flags.len(),
{
    if flags.len() > 0 {
        lemma_count_set_all(flags.drop_last());
    }
}

/// Flag the worse half of the candidates, those with the most levels first.
fn worse_half(lbd: &Vec<u32>, cand: &Vec<usize>) -> (flags: Vec<bool>)
    requires
        forall|k: int| 0 <= k < cand@.len() ==> (#[trigger] cand@[k]) < lbd@.len(),
    ensures
        flags@.len() == cand@.len(),
        count_set(flags@) == cand@.len() / 2,
        forall|a: int, b: int|
            0 <= a < cand@.len() && 0 <= b < cand@.len() && #[trigger] flags@[a]
                && !(#[trigger] flags@[b]) ==> dropped_before(lbd@, cand@, a, b),
{
    let mut flags: Vec<bool> = vec![false; cand.len()];
    let half: usize = cand.len() / 2;
    let mut t: usize = 0;
    proof {
        lemma_count_set_none(flags@);
    }
    while t < half
        invariant
            t <= half,
            half == cand@.len() / 2,
            flags@.len() == cand@.len(),
            count_set(flags@) == t,
            forall|k: int| 0 <= k < cand@.len() ==> (#[trigger] cand@[k]) < lbd@.len(),
            forall|a: int, b: int|
                0 <= a < cand@.len() && 0 <= b < cand@.len() && #[trigger] flags@[a]
                    && !(#[trigger] flags@[b]) ==> dropped_before(lbd@, cand@, a, b),
        decreases half - t,
    {
        let mut best: Option<usize> = None;
        let mut k: usize = 0;
        while k < cand.len()
            invariant
                k <= cand@.len(),
                flags@.len() == cand@.len(),
                forall|p: int| 0 <= p < cand@.len() ==> (#[trigger] cand@[p]) < lbd@.len(),
                match best {
                    None => forall|p: int| 0 <= p < k ==> #[trigger] flags@[p],
                    Some(b) => {
                        &&& b < k
                        &&& !flags@[b as int]
                        &&& forall|p: int|
                            0 <= p < k && !(#[trigger] flags@[p]) && p != b ==> dropped_before(
                                lbd@,
                                cand@,
                                b as int,
                                p,
                            )
                    },
                },
            decreases cand@.len() - k,
        {
            if !flags[k] {
                match best {
                    None => {
                        best = Some(k);
                    },
                    Some(b) => {
                        if lbd[cand[k]] > lbd[cand[b]] {
                            best = Some(k);
                        }
                    },
                }
            }
            k += 1;
        }
        match best {
            Some(b) => {
                proof {
                    lemma_count_set_update(flags@, b as int);
                }
                flags.set(b, true);
            },
            None => {
                proof {
                    lemma_count_set_all(flags@);
                }
            },
        }
        t += 1;
    }
    flags
}

impl Solver {
    /// Clause `ci` is the reason of an assigned variable.
    pub(super) open spec fn locked(&self, ci: int) -> bool {
        exists|i: int|
            0 <= i < self.trail@.len() && self.reason@[(#[trigger] self.trail@[i]) as int] == Some(
                ci as usize,
            )
    }

    /// A learnt clause of more than two levels that is no reason.
    pub(super) open spec fn deletable(&self, ci: int) -> bool {
        self.num_original <= ci < self.clauses@.len() && self.lbd@[ci] > 2 && !self.locked(ci)
    }

    pub(super) open spec fn deletable_set(&self) -> Set<int> {
        Set::new(|ci: int| self.deletable(ci))
    }

    /// The clauses are those of `o` that `keep` numbers, in order, with their level counts:
    /// every one that is not deletable, and of the others those that come last by falling
    /// level count.
    pub(super) open spec fn reduced(&self, o: &Solver, keep: Seq<int>) -> bool {
        &&& keep.len() == self.clauses@.len()
        &&& self.lbd@.len() == self.clauses@.len()
        &&& forall|a: int, b: int| 0 <= a < b < keep.len() ==> keep[a] < keep[b]
        &&& forall|p: int|
            0 <= p < keep.len() ==> 0 <= #[trigger] keep[p] < o.clauses@.len() && same_lits(
                o.clauses@[keep[p]]@,
                self.clauses@[p]@,
            ) && self.lbd@[p] == o.lbd@[keep[p]]
        &&& forall|c: int|
            0 <= c < o.clauses@.len() && !(#[trigger] o.deletable(c)) ==> keep.contains(c)
        &&& forall|c: int, d: int| #[trigger]
            o.deletable(c) && !keep.contains(c) && #[trigger] o.deletable(d) && keep.contains(d)
                ==> o.lbd@[c] > o.lbd@[d] || (o.lbd@[c] == o.lbd@[d] && c < d)
    }

    /// The clauses that may be dropped, in order.
    fn deletable_clauses(&self) -> (cand: Vec<usize>)
        requires
            self.coherent(),
        ensures
            forall|k: int| 0 <= k < cand@.len() ==> self.deletable((#[trigger] cand@[k]) as int),
            forall|ci: int| self.deletable(ci) ==> cand@.contains(ci as usize),
            forall|a: int, b: int| 0 <= a < b < cand@.len() ==> cand@[a] < cand@[b],
            cand@.len() == self.deletable_set().len(),
    {
        let n: usize = self.clauses.len();
        let mut locked: Vec<bool> = vec![false; n];
        let mut i: usize = 0;
        while i < self.trail.len()
            invariant
                i <= self.trail@.len(),
                self.coherent(),
                n == self.clauses@.len(),
                locked@.len() == n,
                forall|c: int|
                    0 <= c < n ==> (#[trigger] locked@[c] <==> exists|j: int|
                        0 <= j < i && self.reason@[(#[trigger] self.trail@[j]) as int] == Some(
                            c as usize,
                        )),
            decreases self.trail@.len() - i,
        {
            let v: usize = self.trail[i] as usize;
            let ghost before = locked@;
            if let Some(r) = self.reason[v] {
                locked.set(r, true);
            }
            proof {
                assert forall|c: int| 0 <= c < n implies (#[trigger] locked@[c] <==> exists|j: int|
                    0 <= j < i + 1 && self.reason@[(#[trigger] self.trail@[j]) as int] == Some(
                        c as usize,
                    )) by {
                    if before[c] {
                        let j = choose|j: int|
                            0 <= j < i && self.reason@[(#[trigger] self.trail@[j]) as int] == Some(
                                c as usize,
                            );
                        assert(self.reason@[self.trail@[j] as int] == Some(c as usize));
                    }
                    if locked@[c] && !before[c] {
                        assert(self.reason@[self.trail@[i as int] as int] == Some(c as usize));
                    }
                }
            }
            i += 1;
        }
        let mut cand: Vec<usize> = Vec::new();
        let mut ci: usize = self.num_original;
        while ci < n
            invariant
                self.num_original <= ci <= n,
                self.coherent(),
                n == self.clauses@.len(),
                locked@.len() == n,
                forall|c: int| 0 <= c < n ==> (#[trigger] locked@[c] <==> self.locked(c)),
                forall|k: int|
                    0 <= k < cand@.len() ==> self.deletable((#[trigger] cand@[k]) as int)
                        && cand@[k] < ci,
                forall|c: int| #[trigger] self.deletable(c) && c < ci ==> cand@.contains(c as usize),
                forall|a: int, b: int| 0 <= a < b < cand@.len() ==> cand@[a] < cand@[b],
            decreases n - ci,
        {
            let ghost before = cand@;
            if self.lbd[ci] > 2 && !locked[ci] {
                cand.push(ci);
                assert(cand@[cand@.len() - 1] == ci);
            }
            proof {
                assert forall|c: int| #[trigger] self.deletable(c) && c < ci + 1 implies cand@.contains(
                    c as usize,
                ) by {
                    if c < ci {
                        assert(before.contains(c as usize));
                        let k = choose|k: int| 0 <= k < before.len() && before[k] == c as usize;
                        assert(cand@[k] == c as usize);
                    }
                }
            }
            ci += 1;
        }
        proof {
            let nums = Seq::new(cand@.len(), |k: int| cand@[k] as int);
            assert(nums.no_duplicates());
            nums.unique_seq_to_set();
            assert(nums.to_set() =~= self.deletable_set()) by {
                assert forall|c: int| nums.to_set().contains(c) <==> self.deletable_set().contains(
                    c,
                ) by {
                    if nums.contains(c) {
                        let k = choose|k: int| 0 <= k < nums.len() && nums[k] == c;
                        assert(self.deletable(cand@[k] as int));
                    }
                    if self.deletable(c) {
                        let k = choose|k: int| 0 <= k < cand@.len() && cand@[k] == c as usize;
                        assert(nums[k] == c);
                    }
                }
            }
        }
        cand
    }

    /// Drop the worse half of the deletable clauses and number the rest anew.
    pub(super) fn reduce_db(&mut self)
        requires
            old(self).coherent(),
            old(self).trail_lim@.len() == 0,
            old(self).prop_queue@.len() == 0,
            watch_inv(old(self).num_vars as int, old(self).clauses@, old(self).watches@),
            watch_sound(
                old(self).assign@,
                old(self).level@,
                old(self).prop_queue@,
                old(self).clauses@,
            ),
            old(self).pace.reductions < u64::MAX,
        ensures
            final(self).coherent(),
            watch_inv(final(self).num_vars as int, final(self).clauses@, final(self).watches@),
            watch_sound(
                final(self).assign@,
                final(self).level@,
                final(self).prop_queue@,
                final(self).clauses@,
            ),
            final(self).assign == old(self).assign,
            final(self).level == old(self).level,
            final(self).trail == old(self).trail,
            final(self).trail_lim == old(self).trail_lim,
            final(self).prop_queue == old(self).prop_queue,
            final(self).num_vars == old(self).num_vars,
            final(self).seen == old(self).seen,
            final(self).num_original == old(self).num_original,
            final(self).formula == old(self).formula,
            final(self).clauses@.len() == old(self).clauses@.len() - old(self).deletable_set().len()
                / 2,
            exists|keep: Seq<int>| #[trigger] final(self).reduced(old(self), keep),
            final(self).pace == if old(self).deletable_set().len() / 2 == 0 {
                old(self).pace
            } else {
                super::Pace {
                    reductions: (old(self).pace.reductions + 1) as u64,
                    ..old(self).pace
                }
            },
    {
        let n: usize = self.clauses.len();
        let cand = self.deletable_clauses();
        let flags = worse_half(&self.lbd, &cand);
        if cand.len() / 2 == 0 {
            assert(self.reduced(old(self), Seq::new(n as nat, |p: int| p))) by {
                let keep = Seq::new(n as nat, |p: int| p);
                assert forall|c: int| 0 <= c < n implies keep.contains(c) by {
                    assert(keep[c] == c);
                }
            }
            return ;
        }
        let mut remove: Vec<bool> = vec![false; n];
        let mut k: usize = 0;
        proof {
            lemma_count_set_none(remove@);
            assert(flags@.take(0) =~= Seq::<bool>::empty());
        }
        while k < cand.len()
            invariant
                k <= cand@.len(),
                flags@.len() == cand@.len(),
                remove@.len() == n,
                n == self.clauses@.len(),
                forall|p: int| 0 <= p < cand@.len() ==> self.deletable((#[trigger] cand@[p]) as int),
                forall|c: int| 0 <= c < n && #[trigger] remove@[c] ==> self.deletable(c),
                forall|a: int, b: int| 0 <= a < b < cand@.len() ==> cand@[a] < cand@[b],
                forall|c: int|
                    0 <= c < n && k < cand@.len() && cand@[k as int] <= c ==> !(
                    #[trigger] remove@[c]),
                count_set(remove@) == count_set(flags@.take(k as int)),
                forall|p: int|
                    0 <= p < k ==> remove@[(#[trigger] cand@[p]) as int] == flags@[p],
                *self == *old(self),
            decreases cand@.len() - k,
        {
            proof {
                lemma_count_set_take(flags@, k as int);
                assert(self.deletable(cand@[k as int] as int));
                if flags@[k as int] {
                    lemma_count_set_update(remove@, cand@[k as int] as int);
                }
            }
            if flags[k] {
                remove.set(cand[k], true);
            }
            k += 1;
        }
        proof {
            assert(flags@.take(cand@.len() as int) =~= flags@);
        }
        let mut stored: Vec<Vec<Lit>> = Vec::new();
        std::mem::swap(&mut stored, &mut self.clauses);
        let ghost all = stored@;
        let ghost mut keep: Seq<int> = Seq::empty();
        let mut map: Vec<usize> = vec![0; n];
        let mut kept: Vec<Vec<Lit>> = Vec::new();
        let mut kept_lbd: Vec<u32> = Vec::new();
        proof {
            assert(remove@.take(0) =~= Seq::<bool>::empty());
        }
        let mut ci: usize = 0;
        while ci < n
            invariant
                ci <= n,
                n == all.len(),
                all == old(self).clauses@,
                old(self).coherent(),
                self.lbd == old(self).lbd,
                self.lbd@.len() == n,
                self.num_original == old(self).num_original,
                stored@.len() == n,
                map@.len() == n,
                remove@.len() == n,
                forall|c: int| 0 <= c < n && #[trigger] remove@[c] ==> old(self).deletable(c),
                forall|c: int| ci <= c < n ==> #[trigger] stored@[c] == all[c],
                kept@.len() == kept_lbd@.len(),
                kept@.len() <= ci,
                ci <= self.num_original ==> kept@.len() == ci,
                self.num_original <= ci ==> kept@.len() >= self.num_original,
                forall|c: int|
                    0 <= c < ci && !(#[trigger] remove@[c]) ==> map@[c] < kept@.len()
                        && kept@[map@[c] as int] == all[c],
                forall|c: int| 0 <= c < ci && c < self.num_original ==> #[trigger] kept@[c]
                    == all[c],
                forall|p: int| 0 <= p < kept@.len() ==> one_of(all, #[trigger] kept@[p]),
                kept@.len() == ci - count_set(remove@.take(ci as int)),
                keep.len() == kept@.len(),
                forall|a: int, b: int| 0 <= a < b < keep.len() ==> keep[a] < keep[b],
                forall|p: int|
                    0 <= p < keep.len() ==> 0 <= #[trigger] keep[p] < ci && kept@[p]
                        == all[keep[p]] && kept_lbd@[p] == self.lbd@[keep[p]] && !remove@[keep[p]],
                forall|c: int| 0 <= c < ci && !(#[trigger] remove@[c]) ==> keep.contains(c),
            decreases n - ci,
        {
            if !remove[ci] {
                map.set(ci, kept.len());
                let mut c: Vec<Lit> = Vec::new();
                std::mem::swap(&mut c, &mut stored[ci]);
                let ghost before = kept@;
                assert(c == all[ci as int]);
                kept.push(c);
                kept_lbd.push(self.lbd[ci]);
                proof {
                    let was = keep;
                    keep = was.push(ci as int);
                    assert(keep[was.len() as int] == ci);
                    assert forall|d: int| 0 <= d < ci + 1 && !(#[trigger] remove@[d]) implies keep.contains(
                        d,
                    ) by {
                        if d < ci {
                            assert(was.contains(d));
                            let q = choose|q: int| 0 <= q < was.len() && was[q] == d;
                            assert(keep[q] == d);
                        }
                    }
                    assert forall|p: int| 0 <= p < kept@.len() implies one_of(
                        all,
                        #[trigger] kept@[p],
                    ) by {
                        if p < before.len() {
                            assert(one_of(all, before[p]));
                        } else {
                            assert(all[ci as int] == kept@[p]);
                        }
                    }
                }
            } else {
                assert(old(self).deletable(ci as int));
            }
            proof {
                lemma_count_set_take(remove@, ci as int);
            }
            ci += 1;
        }
        self.clauses = kept;
        self.lbd = kept_lbd;
        let mut v: usize = 0;
        while v < self.num_vars
            invariant
                v <= self.num_vars,
                old(self).coherent(),
                self.num_vars == old(self).num_vars,
                self.assign == old(self).assign,
                self.level == old(self).level,
                self.trail == old(self).trail,
                self.trail_lim == old(self).trail_lim,
                self.prop_queue == old(self).prop_queue,
                self.seen == old(self).seen,
                self.activity == old(self).activity,
                self.num_original == old(self).num_original,
                self.formula == old(self).formula,
                self.pace == old(self).pace,
                self.watches == old(self).watches,
                self.clauses == kept,
                self.lbd == kept_lbd,
                self.reason@.len() == self.num_vars,
                map@.len() == old(self).clauses@.len(),
                forall|u: int|
                    0 <= u < v && self.assign@[u].is_some() && old(self).reason@[u] is Some
                        ==> #[trigger] self.reason@[u] == Some(
                        map@[old(self).reason@[u]->0 as int],
                    ),
                forall|u: int|
                    0 <= u < v && self.assign@[u].is_some() && old(self).reason@[u] is None
                        ==> #[trigger] self.reason@[u] == None::<usize>,
                forall|u: int|
                    v <= u < self.num_vars ==> #[trigger] self.reason@[u] == old(self).reason@[u],
            decreases self.num_vars - v,
        {
            if let Some(r) = self.reason[v] {
                if self.assign[v].is_some() {
                    proof {
                        assert(self.trail@.contains(v as u32));
                        let i = choose|i: int|
                            0 <= i < self.trail@.len() && self.trail@[i] == v as u32;
                        assert(old(self).reason@[old(self).trail@[i] as int] == Some(r));
                    }
                    self.reason.set(v, Some(map[r]));
                }
            }
            v += 1;
        }
        proof {
            let cls = self.clauses@;
            assert forall|i: int| 0 <= i < self.trail@.len() implies match self.reason@[(
            #[trigger] self.trail@[i]) as int] {
                Some(r) => r < cls.len() && forces(self.trail@, self.assign@, i, cls[r as int]@),
                None => self.level@[self.trail@[i] as int] > 0 && i
                    == self.trail_lim@[self.level@[self.trail@[i] as int] - 1],
            } by {
                let u = old(self).trail@[i] as int;
                if let Some(r) = old(self).reason@[u] {
                    assert(forces(self.trail@, self.assign@, i, all[r as int]@));
                    assert(old(self).locked(r as int));
                    assert(!remove@[r as int]);
                    assert(self.reason@[u] == Some(map@[r as int]));
                } else {
                    assert(self.reason@[u] == None::<usize>);
                }
            }
            assert(reason_inv(
                self.trail@,
                self.trail_lim@,
                self.assign@,
                self.level@,
                self.reason@,
                cls,
            ));
            assert forall|c: int| 0 <= c < cls.len() implies lits_below(
                (#[trigger] cls[c])@,
                self.num_vars as int,
            ) by {
                assert(one_of(all, cls[c]));
                let o = choose|o: int| 0 <= o < all.len() && #[trigger] all[o] == cls[c];
                assert(lits_below(all[o]@, self.num_vars as int));
            }
            assert forall|m: Seq<bool>, c: int|
                m.len() == self.num_vars && #[trigger] satisfies(m, self.formula@) && 0 <= c
                    < cls.len() implies clause_true(m, (#[trigger] cls[c])@) by {
                assert(one_of(all, cls[c]));
                let o = choose|o: int| 0 <= o < all.len() && #[trigger] all[o] == cls[c];
                assert(clause_true(m, all[o]@));
            }
            assert forall|i: int| 0 <= i < self.formula@.len() implies same_lits(
                #[trigger] self.formula@[i],
                cls[i]@,
            ) by {
                assert(same_lits(old(self).formula@[i], all[i]@));
                assert(cls[i] == all[i]);
            }
            assert(logic_inv(self.num_vars as int, self.formula@, cls));
            assert forall|c: int, i: int|
                0 <= c < cls.len() && cls[c]@.len() >= 2 && 0 <= i < 2 && is_false(
                    self.assign@,
                    #[trigger] cls[c]@[i],
                ) && !self.prop_queue@.contains(cls[c]@[i].var) implies guarded(
                self.assign@,
                self.level@,
                cls[c]@,
                i,
            ) by {
                assert(one_of(all, cls[c]));
                let o = choose|o: int| 0 <= o < all.len() && #[trigger] all[o] == cls[c];
                assert(is_false(old(self).assign@, all[o]@[i]));
                assert(guarded(old(self).assign@, old(self).level@, all[o]@, i));
            }
        }
        assert(remove@.take(n as int) =~= remove@);
        let ghost sorted = *self;
        self.rebuild_watches();
        self.pace.reductions = self.pace.reductions + 1;
        assert(self.reduced(old(self), keep)) by {
            assert forall|p: int| 0 <= p < keep.len() implies 0 <= #[trigger] keep[p] < old(
                self,
            ).clauses@.len() && same_lits(old(self).clauses@[keep[p]]@, self.clauses@[p]@)
                && self.lbd@[p] == old(self).lbd@[keep[p]] by {
                assert(same_lits(sorted.clauses@[p]@, self.clauses@[p]@));
            }
            assert forall|c: int| 0 <= c < old(self).clauses@.len() && !(#[trigger] old(
                self,
            ).deletable(c)) implies keep.contains(c) by {
                assert(!remove@[c]);
            }
            assert forall|c: int, d: int| #[trigger]
                old(self).deletable(c) && !keep.contains(c) && #[trigger] old(self).deletable(d)
                    && keep.contains(d) implies old(self).lbd@[c] > old(self).lbd@[d] || (old(
                self,
            ).lbd@[c] == old(self).lbd@[d] && c < d) by {
                assert(remove@[c]);
                let a = choose|a: int| 0 <= a < cand@.len() && cand@[a] == c as usize;
                let b = choose|b: int| 0 <= b < cand@.len() && cand@[b] == d as usize;
                let q = choose|q: int| 0 <= q < keep.len() && keep[q] == d;
                assert(!remove@[keep[q]]);
                assert(remove@[cand@[a] as int] == flags@[a]);
                assert(remove@[cand@[b] as int] == flags@[b]);
                assert(dropped_before(old(self).lbd@, cand@, a, b));
                if a < b {
                    assert(cand@[a] < cand@[b]);
                }
            }
        }
    }

    /// Fill the watch lists from scratch.
    fn rebuild_watches(&mut self)
        requires
            old(self).coherent(),
            old(self).trail_lim@.len() == 0,
            old(self).prop_queue@.len() == 0,
            old(self).watches@.len() == 2 * old(self).num_vars,
            watch_sound(
                old(self).assign@,
                old(self).level@,
                old(self).prop_queue@,
                old(self).clauses@,
            ),
        ensures
            final(self).coherent(),
            final(self).same_assignment(old(self)),
            final(self).same_rest(old(self)),
            kept_lits(old(self).clauses@, final(self).clauses@),
            watch_inv(final(self).num_vars as int, final(self).clauses@, final(self).watches@),
            watch_sound(
                final(self).assign@,
                final(self).level@,
                final(self).prop_queue@,
                final(self).clauses@,
            ),
    {
        let mut x: usize = 0;
        while x < self.watches.len()
            invariant
                x <= self.watches@.len(),
                self.watches@.len() == 2 * self.num_vars,
                self.coherent(),
                self.same_assignment(old(self)),
                self.same_rest(old(self)),
                self.clauses == old(self).clauses,
                forall|y: int| 0 <= y < x ==> (#[trigger] self.watches@[y])@.len() == 0,
            decreases self.watches@.len() - x,
        {
            self.watches[x].clear();
            x += 1;
        }
        let mut ci: usize = 0;
        while ci < self.clauses.len()
            invariant
                ci <= self.clauses@.len(),
                kept_lits(old(self).clauses@, self.clauses@),
                self.coherent(),
                self.trail_lim@.len() == 0,
                self.prop_queue@.len() == 0,
                self.same_assignment(old(self)),
                self.same_rest(old(self)),
                watch_upto(self.num_vars as int, self.clauses@, self.watches@, ci as int),
                watch_sound(self.assign@, self.level@, self.prop_queue@, self.clauses@),
            decreases self.clauses@.len() - ci,
        {
            if self.clauses[ci].len() >= 2 {
                let ghost before = *self;
                self.reorder_watches(ci);
                proof {
                    lemma_kept_lits_reordered(
                        old(self).clauses@,
                        before.clauses@,
                        self.clauses@,
                        ci as int,
                    );
                    assert forall|y: int, c: int| 0 <= y < self.watches@.len() && 0 <= c
                        < ci implies #[trigger] occurrences(self.watches@[y]@, c) == wanted(
                        self.clauses@[c]@,
                        y,
                    ) by {
                        assert(occurrences(before.watches@[y]@, c) == wanted(
                            before.clauses@[c]@,
                            y,
                        ));
                        assert(self.clauses@[c] == before.clauses@[c]);
                    }
                }
            }
            self.watch_clause(ci);
            ci += 1;
        }
    }

    /// The first index from `from` on whose literal is not false.
    fn first_open(&self, ci: usize, from: usize) -> (k: Option<usize>)
        requires
            self.coherent(),
            ci < self.clauses@.len(),
            from <= self.clauses@[ci as int]@.len(),
        ensures
            match k {
                Some(k) => {
                    &&& from <= k < self.clauses@[ci as int]@.len()
                    &&& !is_false(self.assign@, self.clauses@[ci as int]@[k as int])
                    &&& forall|p: int|
                        from <= p < k ==> is_false(
                            self.assign@,
                            #[trigger] self.clauses@[ci as int]@[p],
                        )
                },
                None => forall|p: int|
                    from <= p < self.clauses@[ci as int]@.len() ==> is_false(
                        self.assign@,
                        #[trigger] self.clauses@[ci as int]@[p],
                    ),
            },
    {
        let len: usize = self.clauses[ci].len();
        let mut k: usize = from;
        while k < len
            invariant
                from <= k <= len,
                ci < self.clauses@.len(),
                len == self.clauses@[ci as int]@.len(),
                self.coherent(),
                forall|p: int|
                    from <= p < k ==> is_false(
                        self.assign@,
                        #[trigger] self.clauses@[ci as int]@[p],
                    ),
            decreases len - k,
        {
            assert(lits_below(self.clauses@[ci as int]@, self.num_vars as int));
            match self.lit_value(self.clauses[ci][k]) {
                Some(false) => {},
                _ => {
                    return Some(k);
                },
            }
            k += 1;
        }
        None
    }

    /// Bring two literals that are not false to the front of clause `ci`, as far as
    /// there are any.
    fn reorder_watches(&mut self, ci: usize)
        requires
            old(self).coherent(),
            old(self).trail_lim@.len() == 0,
            old(self).prop_queue@.len() == 0,
            ci < old(self).clauses@.len(),
            old(self).clauses@[ci as int]@.len() >= 2,
            watch_sound(
                old(self).assign@,
                old(self).level@,
                old(self).prop_queue@,
                old(self).clauses@,
            ),
        ensures
            final(self).coherent(),
            final(self).same_assignment(old(self)),
            final(self).same_rest(old(self)),
            final(self).watches == old(self).watches,
            reordered(old(self).clauses@, final(self).clauses@, ci as int),
            watch_sound(
                final(self).assign@,
                final(self).level@,
                final(self).prop_queue@,
                final(self).clauses@,
            ),
    {
        let ghost c0 = self.clauses@[ci as int]@;
        assert(lits_below(c0, self.num_vars as int));
        if let Some(k) = self.first_open(ci, 0) {
            self.swap_lits(ci, 0, k);
        }
        let ghost c1 = self.clauses@[ci as int]@;
        if let Some(k) = self.first_open(ci, 1) {
            self.swap_lits(ci, 1, k);
        }
        let ghost c2 = self.clauses@[ci as int]@;
        proof {
            let cls = self.clauses@;
            let asg = self.assign@;
            assert(is_false(asg, c0[0]) ==> guarded(asg, self.level@, old(self).clauses@[ci as int]@, 0)) by {
                assert(old(self).clauses@[ci as int]@[0] == c0[0]);
            }
            assert(is_false(asg, c0[1]) ==> guarded(asg, self.level@, old(self).clauses@[ci as int]@, 1)) by {
                assert(old(self).clauses@[ci as int]@[1] == c0[1]);
            }
            assert forall|c: int, i: int|
                0 <= c < cls.len() && cls[c]@.len() >= 2 && 0 <= i < 2 && is_false(
                    asg,
                    #[trigger] cls[c]@[i],
                ) && !self.prop_queue@.contains(cls[c]@[i].var) implies guarded(
                asg,
                self.level@,
                cls[c]@,
                i,
            ) by {
                assert(lits_below(cls[c]@, self.num_vars as int));
                assert(cls[c]@[i].var < self.num_vars && cls[c]@[1 - i].var < self.num_vars);
                if c == ci {
                    assert(is_true(asg, c2[1 - i])) by {
                        lemma_one_open_is_true(asg, c0, c1, c2, i);
                    }
                    self.lemma_all_level_zero(c2[i].var);
                    self.lemma_all_level_zero(c2[1 - i].var);
                } else {
                    assert(cls[c] == old(self).clauses@[c]);
                    assert(guarded(old(self).assign@, old(self).level@, old(self).clauses@[c]@, i));
                }
            }
        }
    }

    proof fn lemma_all_level_zero(&self, v: u32)
        requires
            self.coherent(),
            self.trail_lim@.len() == 0,
            v < self.num_vars,
            self.assign@[v as int].is_some(),
        ensures
            self.level@[v as int] == 0,
    {
        assert(self.trail@.contains(v));
        let i = choose|i: int| 0 <= i < self.trail@.len() && self.trail@[i] == v;
        assert(level_at(self.trail_lim@, self.level@[self.trail@[i] as int] as int, i));
    }
}

/// After two rounds of bringing open literals forward, a false literal in front
/// stands beside a true one.
proof fn lemma_one_open_is_true(
    asg: Seq<Option<bool>>,
    c0: Seq<Lit>,
    c1: Seq<Lit>,
    c2: Seq<Lit>,
    i: int,
)
    requires
        c0.len() >= 2,
        is_false(asg, c0[0]) ==> is_true(asg, c0[1]),
        is_false(asg, c0[1]) ==> is_true(asg, c0[0]),
        exists|k: int|
            0 <= k < c0.len() && !is_false(asg, c0[k]) && #[trigger] exchanged(c0, 0, k) == c1 && (
            forall|p: int| 0 <= p < k ==> is_false(asg, #[trigger] c0[p])),
        (c2 == c1 && forall|p: int| 1 <= p < c1.len() ==> is_false(asg, #[trigger] c1[p])) || (
        exists|k: int|
            1 <= k < c1.len() && !is_false(asg, c1[k]) && #[trigger] exchanged(c1, 1, k) == c2),
        0 <= i < 2,
        is_false(asg, c2[i]),
    ensures
        is_true(asg, c2[1 - i]),
{
    let k = choose|k: int|
        0 <= k < c0.len() && !is_false(asg, c0[k]) && #[trigger] exchanged(c0, 0, k) == c1 && (
        forall|p: int| 0 <= p < k ==> is_false(asg, #[trigger] c0[p]));
    assert(!is_false(asg, c1[0]));
    assert(c2[0] == c1[0]);
    assert(i == 1);
    assert(c2 == c1);
    if k == 0 {
        assert(c1[1] == c0[1]);
    } else {
        assert(k == 1) by {
            assert(is_false(asg, c0[0]));
            if k > 1 {
                assert(is_false(asg, c0[1]));
            }
        }
    }
}

} // verus!
