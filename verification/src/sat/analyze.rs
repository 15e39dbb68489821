//! Conflict analysis: from a falsified clause to the first unique implication
//! point, and the branching activities.

use super::logic::{
    agrees, earlier, forces, is_false, is_true, lemma_level_zero_entailed, lemma_levels_rise,
    lemma_trail_bounds, level_at, lits_below,
};
use super::{
    clause_true, lit_true, satisfies, Lit, Solver, ACTIVITY_RESCALE, ACTIVITY_RESCALE_LIMIT, GROWTH,
};
use vstd::prelude::*;

verus! {

/// The decision levels among `lits`.
pub open spec fn levels_of(lits: Seq<Lit>, lev: Seq<u32>) -> Set<int> {
    Set::new(|x: int| exists|k: int| 0 <= k < lits.len() && lev[(#[trigger] lits[k]).var as int] == x)
}

impl Solver {
    /// Everything but the marks is `o`'s.
    spec fn same_but_marks(&self, o: &Solver) -> bool {
        &&& self.same_assignment(o)
        &&& self.clauses == o.clauses
        &&& self.watches == o.watches
        &&& self.num_vars == o.num_vars
        &&& self.trail_lim == o.trail_lim
        &&& self.activity == o.activity
        &&& self.var_inc == o.var_inc
        &&& self.num_original == o.num_original
        &&& self.lbd == o.lbd
        &&& self.pace == o.pace
        &&& self.formula == o.formula
    }

    /// The marked variables of the current level.
    spec fn marked(&self) -> Set<int> {
        Set::new(
            |v: int|
                0 <= v < self.num_vars && self.seen@[v] && self.level@[v]
                    == self.trail_lim@.len(),
        )
    }

    proof fn lemma_marked_bound(&self)
        ensures
            self.marked().finite(),
            self.marked().len() <= self.num_vars,
    {
        let all = vstd::set_lib::set_int_range(0, self.num_vars as int);
        vstd::set_lib::lemma_int_range(0, self.num_vars as int);
        assert(self.marked().subset_of(all));
        vstd::set_lib::lemma_len_subset(self.marked(), all);
    }

    /// The clause being derived: its literals of lower levels are in `learnt` from
    /// index 1 on, those of this level are marked and lie before trail position `idx`.
    spec fn deriving(&self, learnt: Seq<Lit>, idx: int) -> bool {
        let d = self.trail_lim@.len();
        &&& learnt.len() >= 1
        &&& 0 <= idx <= self.trail@.len()
        &&& forall|k: int|
            1 <= k < learnt.len() ==> {
                &&& (#[trigger] learnt[k]).var < self.num_vars
                &&& self.seen@[learnt[k].var as int]
                &&& 0 < self.level@[learnt[k].var as int] < d
                &&& is_false(self.assign@, learnt[k])
            }
        &&& forall|v: int|
            0 <= v < self.num_vars && #[trigger] self.seen@[v] ==> {
                &&& self.assign@[v].is_some()
                &&& 0 < self.level@[v] <= d
                &&& self.level@[v] == d ==> earlier(self.trail@, idx, v as u32)
                &&& self.level@[v] < d ==> exists|k: int|
                    1 <= k < learnt.len() && (#[trigger] learnt[k]).var == v
            }
    }

    /// Model `m` departs from the assignment on a marked variable or on `extra`.
    spec fn departs(&self, m: Seq<bool>, extra: Option<u32>) -> bool {
        ||| exists|v: int|
            0 <= v < self.num_vars && #[trigger] self.seen@[v] && !agrees(m, self.assign@, v)
        ||| (extra is Some && !agrees(m, self.assign@, extra->0 as int))
    }

    spec fn all_depart(&self, extra: Option<u32>) -> bool {
        forall|m: Seq<bool>|
            m.len() == self.num_vars && #[trigger] satisfies(m, self.formula@) ==> self.departs(
                m,
                extra,
            )
    }

    /// Mark the literals of clause `ci` but for the one of `pivot`.
    fn mark(
        &mut self,
        ci: usize,
        pivot: Option<u32>,
        learnt: &mut Vec<Lit>,
        counter: &mut u32,
        idx: usize,
    )
        requires
            old(self).coherent(),
            ci < old(self).clauses@.len(),
            old(self).deriving(old(learnt)@, idx as int),
            *old(counter) == old(self).marked().len(),
            forall|l: Lit| #[trigger]
                old(self).clauses@[ci as int]@.contains(l) ==> if pivot == Some(l.var) {
                    is_true(old(self).assign@, l)
                } else {
                    is_false(old(self).assign@, l) && earlier(old(self).trail@, idx as int, l.var)
                },
            pivot is Some ==> old(self).all_depart(pivot),
        ensures
            final(self).coherent(),
            final(self).same_but_marks(old(self)),
            final(self).deriving(final(learnt)@, idx as int),
            *final(counter) == final(self).marked().len(),
            final(self).all_depart(None),
            forall|v: int|
                0 <= v < old(self).num_vars && #[trigger] old(self).seen@[v] ==> final(self).seen@[v],
            forall|l: Lit| #[trigger]
                old(self).clauses@[ci as int]@.contains(l) && pivot != Some(l.var) && old(self).level@[l.var as int] > 0 ==> final(self).seen@[l.var as int],
    {
        let d = self.decision_level();
        let len: usize = self.clauses[ci].len();
        let ghost c = self.clauses@[ci as int]@;
        let mut k: usize = 0;
        while k < len
            invariant
                k <= len,
                len == c.len(),
                ci < self.clauses@.len(),
                c == self.clauses@[ci as int]@,
                d == self.trail_lim@.len(),
                old(self).coherent(),
                self.coherent(),
                self.same_but_marks(old(self)),
                self.deriving(learnt@, idx as int),
                *counter == self.marked().len(),
                forall|l: Lit| #[trigger]
                    c.contains(l) ==> if pivot == Some(l.var) {
                        is_true(self.assign@, l)
                    } else {
                        is_false(self.assign@, l) && earlier(self.trail@, idx as int, l.var)
                    },
                forall|v: int|
                    0 <= v < old(self).num_vars && #[trigger] old(self).seen@[v] ==> self.seen@[v],
                forall|p: int|
                    0 <= p < k && pivot != Some((#[trigger] c[p]).var)
                        && self.level@[c[p].var as int] > 0 ==> self.seen@[c[p].var as int],
            decreases len - k,
        {
            let lit = self.clauses[ci][k];
            let v: usize = lit.var as usize;
            assert(lits_below(c, self.num_vars as int));
            assert(c[k as int].var < self.num_vars);
            assert(c.contains(c[k as int]));
            if pivot != Some(lit.var) && !self.seen[v] && self.level[v] > 0 {
                let ghost before = *self;
                let ghost kept = learnt@;
                proof {
                    before.lemma_marked_bound();
                    assert(earlier(self.trail@, idx as int, lit.var));
                    let j = choose|j: int| 0 <= j < idx && self.trail@[j] == lit.var;
                    assert(level_at(self.trail_lim@, self.level@[self.trail@[j] as int] as int, j));
                }
                self.seen.set(v, true);
                if self.level[v] == d {
                    proof {
                        assert(self.marked() =~= before.marked().insert(v as int));
                        self.lemma_marked_bound();
                    }
                    *counter = *counter + 1;
                } else {
                    learnt.push(lit);
                    proof {
                        assert(self.marked() =~= before.marked());
                        assert(learnt@[learnt@.len() - 1] == lit);
                    }
                }
                proof {
                    assert forall|w: int| 0 <= w < self.num_vars && #[trigger] self.seen@[w] implies {
                        &&& self.assign@[w].is_some()
                        &&& 0 < self.level@[w] <= d
                        &&& self.level@[w] == d ==> earlier(self.trail@, idx as int, w as u32)
                        &&& self.level@[w] < d ==> exists|k2: int|
                            1 <= k2 < learnt@.len() && (#[trigger] learnt@[k2]).var == w
                    } by {
                        if w != v {
                            assert(before.seen@[w]);
                            if self.level@[w] < d {
                                let k2 = choose|k2: int|
                                    1 <= k2 < kept.len() && (#[trigger] kept[k2]).var == w;
                                assert(learnt@[k2].var == w);
                            }
                        }
                    }
                }
            }
            k += 1;
        }
        proof {
            assert forall|l: Lit| #[trigger]
                c.contains(l) && pivot != Some(l.var) && self.level@[l.var as int]
                    > 0 implies self.seen@[l.var as int] by {
                let p = choose|p: int| 0 <= p < c.len() && c[p] == l;
                assert(self.seen@[c[p].var as int]);
            }
            assert forall|m: Seq<bool>|
                m.len() == self.num_vars && #[trigger] satisfies(
                    m,
                    self.formula@,
                ) implies self.departs(m, None) by {
                assert(clause_true(m, self.clauses@[ci as int]@));
                let l = choose|l: Lit| c.contains(l) && lit_true(m, l);
                assert(lits_below(c, self.num_vars as int));
                let p = choose|p: int| 0 <= p < c.len() && c[p] == l;
                assert(c[p].var < self.num_vars);
                if pivot == Some(l.var) {
                    assert(agrees(m, self.assign@, l.var as int));
                    assert(old(self).departs(m, pivot));
                    let v = choose|v: int|
                        0 <= v < old(self).num_vars && #[trigger] old(self).seen@[v] && !agrees(
                            m,
                            old(self).assign@,
                            v,
                        );
                    assert(self.seen@[v]);
                } else {
                    if self.level@[l.var as int] == 0 {
                        let j = choose|j: int| 0 <= j < idx && self.trail@[j] == l.var;
                        lemma_level_zero_entailed(
                            self.num_vars as int,
                            self.formula@,
                            self.trail@,
                            self.trail_lim@,
                            self.assign@,
                            self.level@,
                            self.reason@,
                            self.clauses@,
                            m,
                            j,
                        );
                        assert(false);
                    }
                    assert(self.seen@[l.var as int]);
                }
            }
        }
    }

    /// Unmark the last marked variable of the trail before position `idx`, and move
    /// `idx` there.
    fn unmark_last(&mut self, learnt: &Vec<Lit>, idx: &mut usize) -> (v: u32)
        requires
            old(self).coherent(),
            old(self).deriving(learnt@, *old(idx) as int),
            old(self).marked().len() > 0,
            old(self).all_depart(None),
        ensures
            final(self).coherent(),
            final(self).same_but_marks(old(self)),
            final(self).deriving(learnt@, *final(idx) as int),
            final(self).marked() == old(self).marked().remove(v as int),
            old(self).marked().contains(v as int),
            final(self).all_depart(Some(v)),
            *final(idx) < *old(idx),
            *final(idx) < old(self).trail@.len(),
            old(self).trail@[*final(idx) as int] == v,
            v < old(self).num_vars,
    {
        proof {
            self.lemma_marked_bound();
            let s = self.marked();
            assert(exists|x: int| s.contains(x)) by {
                if forall|x: int| !s.contains(x) {
                    assert(s =~= Set::empty());
                }
            }
        }
        let ghost x = choose|x: int| self.marked().contains(x);
        while !self.seen[self.trail[*idx - 1] as usize]
            invariant
                *self == *old(self),
                self.coherent(),
                self.deriving(learnt@, *idx as int),
                self.marked().contains(x),
                *idx <= *old(idx),
                1 <= *idx,
            decreases *idx,
        {
            proof {
                assert forall|w: int| 0 <= w < self.num_vars && #[trigger] self.seen@[w]
                    && self.level@[w] == self.trail_lim@.len() implies earlier(
                    self.trail@,
                    *idx - 1,
                    w as u32,
                ) by {
                    let j = choose|j: int| 0 <= j < *idx && self.trail@[j] == w as u32;
                    assert(j != *idx - 1);
                }
                assert(earlier(self.trail@, *idx - 1, x as u32));
            }
            *idx = *idx - 1;
        }
        *idx = *idx - 1;
        let v: u32 = self.trail[*idx];
        let ghost before = *self;
        proof {
            let j = choose|j: int| 0 <= j < *idx + 1 && self.trail@[j] == x as u32;
            lemma_levels_rise(
                self.num_vars as int,
                self.trail@,
                self.trail_lim@,
                self.assign@,
                self.level@,
                j,
                *idx as int,
            );
        }
        self.seen.set(v as usize, false);
        proof {
            assert(self.marked() =~= before.marked().remove(v as int));
            assert forall|w: int| 0 <= w < self.num_vars && #[trigger] self.seen@[w]
                && self.level@[w] == self.trail_lim@.len() implies earlier(
                self.trail@,
                *idx as int,
                w as u32,
            ) by {
                assert(before.seen@[w]);
                let j = choose|j: int| 0 <= j < *idx + 1 && self.trail@[j] == w as u32;
                assert(j != *idx);
            }
            assert forall|m: Seq<bool>|
                m.len() == self.num_vars && #[trigger] satisfies(
                    m,
                    self.formula@,
                ) implies self.departs(m, Some(v)) by {
                assert(before.departs(m, None));
                let w = choose|w: int|
                    0 <= w < before.num_vars && #[trigger] before.seen@[w] && !agrees(
                        m,
                        before.assign@,
                        w,
                    );
                if w != v {
                    assert(self.seen@[w]);
                }
            }
            assert forall|w: int| 0 <= w < self.num_vars && #[trigger] self.seen@[w] implies
                before.seen@[w] by {}
        }
        v
    }

    /// A learnt clause: it follows from the formula, is false, and has one literal of
    /// the current level, in front; the next literal is of the highest other level.
    pub(super) open spec fn asserting(&self, learnt: Seq<Lit>, btlevel: int) -> bool {
        let d = self.trail_lim@.len();
        &&& learnt.len() >= 1
        &&& lits_below(learnt, self.num_vars as int)
        &&& forall|k: int| 0 <= k < learnt.len() ==> is_false(self.assign@, #[trigger] learnt[k])
        &&& self.level@[learnt[0].var as int] == d
        &&& forall|k: int|
            1 <= k < learnt.len() ==> 0 < self.level@[(#[trigger] learnt[k]).var as int] <= btlevel
        &&& 0 <= btlevel < d
        &&& learnt.len() >= 2 ==> self.level@[learnt[1].var as int] == btlevel
        &&& learnt.len() == 1 ==> btlevel == 0
        &&& forall|m: Seq<bool>|
            m.len() == self.num_vars && #[trigger] satisfies(m, self.formula@) ==> clause_true(
                m,
                learnt,
            )
    }

    /// Derive a clause from falsified clause `confl` by resolving on the reasons of
    /// this level's literals until one is left, with the level to return to and the
    /// number of levels in the clause.
    pub(super) fn analyze(&mut self, confl: usize) -> (r: (Vec<Lit>, u32, u32))
        requires
            old(self).coherent(),
            old(self).quiet(),
            old(self).falsified(confl as int),
            old(self).trail_lim@.len() > 0,
        ensures
            final(self).coherent(),
            final(self).quiet(),
            final(self).same_assignment(old(self)),
            final(self).clauses == old(self).clauses,
            final(self).watches == old(self).watches,
            final(self).num_vars == old(self).num_vars,
            final(self).trail_lim == old(self).trail_lim,
            final(self).num_original == old(self).num_original,
            final(self).lbd == old(self).lbd,
            final(self).pace == old(self).pace,
            final(self).formula == old(self).formula,
            final(self).asserting(r.0@, r.1 as int),
            r.2 == levels_of(r.0@, final(self).level@).len(),
    {
        let mut learnt: Vec<Lit> = Vec::new();
        learnt.push(Lit::pos(0));
        let mut counter: u32 = 0;
        let mut idx: usize = self.trail.len();
        proof {
            assert(self.marked() =~= Set::empty());
            let c = self.clauses@[confl as int]@;
            assert forall|l: Lit| #[trigger] c.contains(l) implies is_false(self.assign@, l)
                && earlier(self.trail@, idx as int, l.var) && l.var < self.num_vars by {
                assert(lits_below(c, self.num_vars as int));
                let p = choose|p: int| 0 <= p < c.len() && c[p] == l;
                assert(c[p].var < self.num_vars);
                assert(self.assign@[l.var as int].is_some());
                assert(self.trail@.contains(l.var));
            }
        }
        self.mark(confl, None, &mut learnt, &mut counter, idx);
        proof {
            let l = choose|l: Lit|
                self.clauses@[confl as int]@.contains(l) && self.level@[l.var as int]
                    == self.trail_lim@.len();
            assert(self.seen@[l.var as int]);
            assert(self.marked().contains(l.var as int));
            self.lemma_marked_bound();
            assert(self.marked().len() > 0) by {
                if self.marked().len() == 0 {
                    assert(self.marked() =~= Set::empty());
                }
            }
        }
        let mut uip: u32 = self.unmark_last(&learnt, &mut idx);
        proof {
            self.lemma_marked_bound();
        }
        counter = counter - 1;
        while counter > 0
            invariant
                self.coherent(),
                self.same_but_marks(old(self)),
                self.deriving(learnt@, idx as int),
                counter == self.marked().len(),
                self.all_depart(Some(uip)),
                uip < self.num_vars,
                idx < self.trail@.len(),
                self.trail@[idx as int] == uip,
                self.level@[uip as int] == self.trail_lim@.len(),
            decreases idx,
        {
            proof {
                self.lemma_marked_bound();
                let s = self.marked();
                if forall|x: int| !s.contains(x) {
                    assert(s =~= Set::empty());
                }
                let x = choose|x: int| s.contains(x);
                let j = choose|j: int| 0 <= j < idx && self.trail@[j] == x as u32;
                assert(level_at(self.trail_lim@, self.level@[self.trail@[j] as int] as int, j));
                assert(self.reason@[self.trail@[idx as int] as int] is Some);
                let r = self.reason@[uip as int]->0;
                assert(forces(self.trail@, self.assign@, idx as int, self.clauses@[r as int]@));
            }
            if let Some(r) = self.reason[uip as usize] {
                let ghost before = *self;
                self.mark(r, Some(uip), &mut learnt, &mut counter, idx);
                proof {
                    self.lemma_marked_bound();
                    before.lemma_marked_bound();
                    assert(before.marked().subset_of(self.marked()));
                    vstd::set_lib::lemma_len_subset(before.marked(), self.marked());
                }
                uip = self.unmark_last(&learnt, &mut idx);
                counter = counter - 1;
            }
        }
        proof {
            self.lemma_marked_bound();
            assert(self.marked() =~= Set::empty());
        }
        let first = self.false_lit(uip);
        let ghost drawn = learnt@;
        learnt.set(0, first);
        let ghost derived = learnt@;
        proof {
            assert forall|k: int| 1 <= k < derived.len() implies (#[trigger] derived[k])
                == drawn[k] by {}
            assert forall|m: Seq<bool>|
                m.len() == self.num_vars && #[trigger] satisfies(
                    m,
                    self.formula@,
                ) implies clause_true(m, derived) by {
                assert(self.departs(m, Some(uip)));
                if !agrees(m, self.assign@, uip as int) {
                    assert(derived.contains(derived[0]));
                    assert(lit_true(m, derived[0]));
                } else {
                    let v = choose|v: int|
                        0 <= v < self.num_vars && #[trigger] self.seen@[v] && !agrees(
                            m,
                            self.assign@,
                            v,
                        );
                    assert(!self.marked().contains(v));
                    let k = choose|k: int| 1 <= k < drawn.len() && (#[trigger] drawn[k]).var == v;
                    assert(derived[k] == drawn[k]);
                    assert(derived.contains(derived[k]));
                    assert(lit_true(m, derived[k]));
                }
            }
        }
        let btlevel = self.raise_highest(&mut learnt);
        proof {
            assert forall|v: int| 0 <= v < self.num_vars && #[trigger] self.seen@[v] implies exists|
                p: int,
            |
                1 <= p < learnt@.len() && (#[trigger] learnt@[p]).var == v by {
                assert(!self.marked().contains(v));
                let k = choose|k: int| 1 <= k < drawn.len() && (#[trigger] drawn[k]).var == v;
                assert(derived[k] == drawn[k]);
                assert(derived.contains(derived[k]));
                assert(learnt@.contains(derived[k]));
                let p = choose|p: int| 0 <= p < learnt@.len() && learnt@[p] == derived[k];
                assert(p != 0);
                assert(learnt@[p].var == v);
            }
        }
        self.bump_all(&learnt);
        self.decay_var_inc();
        let mut k: usize = 1;
        while k < learnt.len()
            invariant
                1 <= k <= learnt@.len(),
                self.coherent(),
                self.same_assignment(old(self)),
                self.clauses == old(self).clauses,
                self.watches == old(self).watches,
                self.num_vars == old(self).num_vars,
                self.trail_lim == old(self).trail_lim,
                self.num_original == old(self).num_original,
                self.lbd == old(self).lbd,
                self.pace == old(self).pace,
                self.formula == old(self).formula,
                lits_below(learnt@, self.num_vars as int),
                forall|v: int|
                    0 <= v < self.num_vars && #[trigger] self.seen@[v] ==> exists|p: int|
                        k <= p < learnt@.len() && (#[trigger] learnt@[p]).var == v,
            decreases learnt@.len() - k,
        {
            let ghost before = self.seen@;
            let v: usize = learnt[k].var as usize;
            self.seen.set(v, false);
            proof {
                assert forall|w: int| 0 <= w < self.num_vars && #[trigger] self.seen@[w] implies
                    exists|p: int|
                    k + 1 <= p < learnt@.len() && (#[trigger] learnt@[p]).var == w by {
                    assert(before[w]);
                    let p = choose|p: int|
                        k <= p < learnt@.len() && (#[trigger] learnt@[p]).var == w;
                    assert(p != k);
                    assert(learnt@[p].var == w);
                }
            }
            k += 1;
        }
        let lbd = self.count_levels(&learnt);
        (learnt, btlevel, lbd)
    }

    /// Bring a literal of the highest level to index 1; its level, or 0 when there is
    /// no such literal.
    fn raise_highest(&self, learnt: &mut Vec<Lit>) -> (btlevel: u32)
        requires
            self.coherent(),
            self.trail_lim@.len() > 0,
            old(learnt)@.len() >= 1,
            lits_below(old(learnt)@, self.num_vars as int),
            forall|k: int|
                0 <= k < old(learnt)@.len() ==> is_false(
                    self.assign@,
                    #[trigger] old(learnt)@[k],
                ),
            forall|k: int|
                1 <= k < old(learnt)@.len() ==> 0 < self.level@[(
                #[trigger] old(learnt)@[k]).var as int] < self.trail_lim@.len(),
            self.level@[old(learnt)@[0].var as int] == self.trail_lim@.len(),
            forall|m: Seq<bool>|
                m.len() == self.num_vars && #[trigger] satisfies(m, self.formula@) ==> clause_true(
                    m,
                    old(learnt)@,
                ),
        ensures
            self.asserting(final(learnt)@, btlevel as int),
            final(learnt)@.len() == old(learnt)@.len(),
            final(learnt)@[0] == old(learnt)@[0],
            forall|l: Lit|
                #![trigger final(learnt)@.contains(l)]
                #![trigger old(learnt)@.contains(l)]
                final(learnt)@.contains(l) <==> old(learnt)@.contains(l),
    {
        if learnt.len() < 2 {
            return 0;
        }
        let mut max_i: usize = 1;
        let mut i: usize = 2;
        while i < learnt.len()
            invariant
                self.coherent(),
                learnt@ == old(learnt)@,
                lits_below(learnt@, self.num_vars as int),
                2 <= i <= learnt@.len(),
                1 <= max_i < i,
                forall|k: int|
                    1 <= k < i ==> self.level@[(#[trigger] learnt@[k]).var as int]
                        <= self.level@[learnt@[max_i as int].var as int],
            decreases learnt@.len() - i,
        {
            assert(learnt@[i as int].var < self.num_vars && learnt@[max_i as int].var
                < self.num_vars);
            if self.level[learnt[i].var as usize] > self.level[learnt[max_i].var as usize] {
                max_i = i;
            }
            i += 1;
        }
        let a = learnt[1];
        let b = learnt[max_i];
        learnt.set(1, b);
        learnt.set(max_i, a);
        proof {
            assert(learnt@ =~= super::logic::exchanged(old(learnt)@, 1, max_i as int));
            super::logic::lemma_exchanged_same_lits(old(learnt)@, 1, max_i as int);
            assert forall|m: Seq<bool>|
                m.len() == self.num_vars && #[trigger] satisfies(
                    m,
                    self.formula@,
                ) implies clause_true(m, learnt@) by {
                super::logic::lemma_same_lits_true(m, old(learnt)@, learnt@);
            }
            assert(old(learnt)@[max_i as int].var < self.num_vars);
        }
        self.level[b.var as usize]
    }

    fn bump_all(&mut self, lits: &Vec<Lit>)
        requires
            old(self).coherent(),
            lits_below(lits@, old(self).num_vars as int),
        ensures
            final(self).coherent(),
            final(self).same_but_activity(old(self)),
    {
        let mut k: usize = 0;
        while k < lits.len()
            invariant
                k <= lits@.len(),
                self.coherent(),
                self.same_but_activity(old(self)),
                lits_below(lits@, self.num_vars as int),
            decreases lits@.len() - k,
        {
            self.bump_var(lits[k].var as usize);
            k += 1;
        }
    }

    /// Everything but the activities is `o`'s.
    spec fn same_but_activity(&self, o: &Solver) -> bool {
        &&& self.same_assignment(o)
        &&& self.clauses == o.clauses
        &&& self.watches == o.watches
        &&& self.num_vars == o.num_vars
        &&& self.trail_lim == o.trail_lim
        &&& self.seen == o.seen
        &&& self.num_original == o.num_original
        &&& self.lbd == o.lbd
        &&& self.pace == o.pace
        &&& self.formula == o.formula
    }

    /// Add the increment to the activity of `v`; past the limit, scale every activity
    /// and the increment down alike.
    fn bump_var(&mut self, v: usize)
        requires
            old(self).coherent(),
            v < old(self).num_vars,
        ensures
            final(self).coherent(),
            final(self).same_but_activity(old(self)),
            ({
                let sum = old(self).activity@[v as int] + old(self).var_inc;
                let bumped = if sum > u64::MAX { u64::MAX } else { sum as u64 };
                let acts = old(self).activity@.update(v as int, bumped);
                if bumped <= ACTIVITY_RESCALE_LIMIT {
                    final(self).activity@ == acts && final(self).var_inc == old(self).var_inc
                } else {
                    &&& forall|u: int|
                        0 <= u < acts.len() ==> #[trigger] final(self).activity@[u] == acts[u]
                            / ACTIVITY_RESCALE
                    &&& final(self).var_inc == old(self).var_inc / ACTIVITY_RESCALE
                }
            }),
    {
        let bumped: u64 = match self.activity[v].checked_add(self.var_inc) {
            Some(s) => s,
            None => u64::MAX,
        };
        self.activity.set(v, bumped);
        if bumped > ACTIVITY_RESCALE_LIMIT {
            let ghost acts = self.activity@;
            let mut u: usize = 0;
            while u < self.activity.len()
                invariant
                    u <= self.activity@.len(),
                    self.activity@.len() == acts.len(),
                    acts.len() == self.num_vars,
                    self.same_but_activity(old(self)),
                    self.var_inc == old(self).var_inc,
                    forall|w: int|
                        0 <= w < u ==> #[trigger] self.activity@[w] == acts[w] / ACTIVITY_RESCALE,
                    forall|w: int| u <= w < acts.len() ==> #[trigger] self.activity@[w] == acts[w],
                decreases self.activity@.len() - u,
            {
                let scaled: u64 = self.activity[u] / ACTIVITY_RESCALE;
                self.activity.set(u, scaled);
                u += 1;
            }
            self.var_inc = self.var_inc / ACTIVITY_RESCALE;
        }
    }

    /// Let later bumps weigh more than earlier ones.
    fn decay_var_inc(&mut self)
        requires
            old(self).coherent(),
        ensures
            final(self).coherent(),
            final(self).same_but_activity(old(self)),
            final(self).activity == old(self).activity,
            ({
                let grown = old(self).var_inc + old(self).var_inc / GROWTH;
                final(self).var_inc == if grown > u64::MAX { u64::MAX as int } else { grown }
            }),
    {
        self.var_inc = match self.var_inc.checked_add(self.var_inc / GROWTH) {
            Some(s) => s,
            None => u64::MAX,
        };
    }

    /// The number of decision levels among the literals.
    fn count_levels(&self, lits: &Vec<Lit>) -> (count: u32)
        requires
            self.coherent(),
            lits_below(lits@, self.num_vars as int),
            forall|k: int|
                0 <= k < lits@.len() ==> self.assign@[(#[trigger] lits@[k]).var as int].is_some()
                    && self.level@[lits@[k].var as int] > 0,
        ensures
            count == levels_of(lits@, self.level@).len(),
    {
        let d: u32 = self.decision_level();
        proof {
            lemma_trail_bounds(
                self.num_vars as int,
                self.trail@,
                self.trail_lim@,
                self.assign@,
                self.level@,
            );
        }
        let mut met: Vec<bool> = Vec::new();
        let mut i: usize = 0;
        while i < d as usize + 1
            invariant
                i <= d + 1,
                d + 1 <= usize::MAX,
                met@.len() == i,
                forall|x: int| 0 <= x < i ==> !(#[trigger] met@[x]),
            decreases d + 1 - i,
        {
            met.push(false);
            i += 1;
        }
        let mut count: u32 = 0;
        let mut k: usize = 0;
        let ghost mut found: Set<int> = Set::empty();
        proof {
            assert(levels_of(lits@.take(0), self.level@) =~= Set::empty());
        }
        while k < lits.len()
            invariant
                k <= lits@.len(),
                self.coherent(),
                d == self.trail_lim@.len(),
                d <= self.num_vars,
                lits_below(lits@, self.num_vars as int),
                forall|p: int|
                    0 <= p < lits@.len() ==> self.assign@[(
                    #[trigger] lits@[p]).var as int].is_some() && self.level@[lits@[p].var as int]
                        > 0,
                met@.len() == d + 1,
                found == levels_of(lits@.take(k as int), self.level@),
                found.finite(),
                count == found.len(),
                forall|x: int| 0 <= x <= d ==> (#[trigger] met@[x] <==> found.contains(x)),
                forall|x: int| found.contains(x) ==> 1 <= x <= d,
            decreases lits@.len() - k,
        {
            let v: usize = lits[k].var as usize;
            assert(lits@[k as int].var < self.num_vars);
            proof {
                assert(self.trail@.contains(lits@[k as int].var));
                let j = choose|j: int|
                    0 <= j < self.trail@.len() && self.trail@[j] == lits@[k as int].var;
                assert(level_at(self.trail_lim@, self.level@[self.trail@[j] as int] as int, j));
            }
            let lv: usize = self.level[v] as usize;
            proof {
                let next = levels_of(lits@.take(k + 1), self.level@);
                assert(next =~= found.insert(lv as int)) by {
                    assert forall|x: int| next.contains(x) <==> found.insert(lv as int).contains(
                        x,
                    ) by {
                        if next.contains(x) {
                            let p = choose|p: int|
                                0 <= p < k + 1 && self.level@[(
                                #[trigger] lits@.take(k + 1)[p]).var as int] == x;
                            if p < k {
                                assert(lits@.take(k as int)[p] == lits@.take(k + 1)[p]);
                            }
                        }
                        if found.contains(x) {
                            let p = choose|p: int|
                                0 <= p < k && self.level@[(
                                #[trigger] lits@.take(k as int)[p]).var as int] == x;
                            assert(lits@.take(k as int)[p] == lits@.take(k + 1)[p]);
                        }
                        if x == lv {
                            assert(lits@.take(k + 1)[k as int] == lits@[k as int]);
                        }
                    }
                }
                let range = vstd::set_lib::set_int_range(1, d + 1);
                vstd::set_lib::lemma_int_range(1, d + 1);
                if !found.contains(lv as int) {
                    assert(found.subset_of(range.remove(lv as int)));
                    vstd::set_lib::lemma_len_subset(found, range.remove(lv as int));
                    assert(count < d);
                }
            }
            if !met[lv] {
                met.set(lv, true);
                count = count + 1;
            }
            proof {
                found = found.insert(lv as int);
            }
            k += 1;
        }
        assert(lits@.take(lits@.len() as int) =~= lits@);
        count
    }
}

} // verus!
