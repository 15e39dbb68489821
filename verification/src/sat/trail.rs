//! Decisions and backtracking.

use super::logic::{
    earlier, forces, guarded, is_false, is_true, lemma_trail_bounds, level_at, lits_below,
    trail_inv, true_lit, watch_sound, watch_sound_below,
};
use super::{Lit, Solver};
use vstd::prelude::*;

verus! {

impl Solver {
    /// Open a decision level with `v` true.
    pub(super) fn decide(&mut self, v: u32)
        requires
            old(self).coherent(),
            old(self).prop_queue@.len() == 0,
            v < old(self).num_vars,
            old(self).assign@[v as int].is_none(),
            watch_sound(
                old(self).assign@,
                old(self).level@,
                old(self).prop_queue@,
                old(self).clauses@,
            ),
        ensures
            final(self).coherent(),
            final(self).grown(old(self)),
            final(self).clauses == old(self).clauses,
            final(self).watches == old(self).watches,
            final(self).num_vars == old(self).num_vars,
            final(self).seen == old(self).seen,
            final(self).num_original == old(self).num_original,
            final(self).pace == old(self).pace,
            final(self).formula == old(self).formula,
            final(self).trail_lim@ == old(self).trail_lim@.push(old(self).trail@.len() as usize),
            final(self).trail@ == old(self).trail@.push(v),
            watch_sound(
                final(self).assign@,
                final(self).level@,
                final(self).prop_queue@,
                final(self).clauses@,
            ),
    {
        let start: usize = self.trail.len();
        proof {
            lemma_trail_bounds(
                self.num_vars as int,
                self.trail@,
                self.trail_lim@,
                self.assign@,
                self.level@,
            );
            assert(!self.trail@.contains(v));
            let grown = self.trail@.push(v);
            let a = self.assign@.update(v as int, Some(true));
            let lv = self.level@.update(v as int, (self.trail_lim@.len() + 1) as u32);
            self.lemma_room(v);
        }
        self.trail_lim.push(start);
        self.assign.set(v as usize, Some(true));
        let d: u32 = self.trail_lim.len() as u32;
        self.level.set(v as usize, d);
        self.reason.set(v as usize, None);
        self.trail.push(v);
        self.prop_queue.push(v);
        proof {
            self.lemma_decided(old(self), v);
        }
    }

    /// An unassigned variable leaves room on the trail.
    proof fn lemma_room(&self, v: u32)
        requires
            self.coherent(),
            v < self.num_vars,
            self.assign@[v as int].is_none(),
        ensures
            self.trail@.len() < self.num_vars,
            self.trail_lim@.len() < self.num_vars,
    {
        let n = self.num_vars as int;
        lemma_trail_bounds(n, self.trail@, self.trail_lim@, self.assign@, self.level@);
        let t = self.trail@.push(v);
        assert(!self.trail@.contains(v));
        let s = t.to_set();
        t.unique_seq_to_set();
        let all = vstd::set_lib::set_int_range(0, n);
        vstd::set_lib::lemma_int_range(0, n);
        let f = |x: u32| x as int;
        let image = s.map(f);
        assert(image.subset_of(all)) by {
            assert forall|x: int| image.contains(x) implies all.contains(x) by {
                let u = choose|u: u32| s.contains(u) && u as int == x;
                assert(t.contains(u));
                let i = choose|i: int| 0 <= i < t.len() && t[i] == u;
                if i < self.trail@.len() {
                    assert(self.trail@[i] < n);
                }
            }
        }
        vstd::set_lib::lemma_len_subset(image, all);
        vstd::set_lib::lemma_map_size(s, image, f);
    }

    proof fn lemma_decided(&self, o: &Solver, v: u32)
        requires
            o.coherent(),
            o.prop_queue@.len() == 0,
            v < o.num_vars,
            o.assign@[v as int].is_none(),
            o.trail_lim@.len() < o.num_vars,
            self.num_vars == o.num_vars,
            self.clauses == o.clauses,
            self.seen == o.seen,
            self.activity == o.activity,
            self.num_original == o.num_original,
            self.lbd == o.lbd,
            self.formula == o.formula,
            self.trail_lim@ == o.trail_lim@.push(o.trail@.len() as usize),
            o.trail@.len() <= o.num_vars,
            self.assign@ == o.assign@.update(v as int, Some(true)),
            self.level@ == o.level@.update(v as int, self.trail_lim@.len() as u32),
            self.reason@ == o.reason@.update(v as int, None),
            self.trail@ == o.trail@.push(v),
            self.prop_queue@ == o.prop_queue@.push(v),
            watch_sound(o.assign@, o.level@, o.prop_queue@, o.clauses@),
        ensures
            self.coherent(),
            self.grown(o),
            watch_sound(self.assign@, self.level@, self.prop_queue@, self.clauses@),
    {
        let t = self.trail@;
        let lim = self.trail_lim@;
        assert(!o.trail@.contains(v));
        assert forall|i: int| 0 <= i < t.len() implies level_at(
            lim,
            self.level@[(#[trigger] t[i]) as int] as int,
            i,
        ) by {
            if i < o.trail@.len() {
                assert(o.trail@[i] != v);
                assert(level_at(o.trail_lim@, o.level@[o.trail@[i] as int] as int, i));
            }
        }
        assert forall|w: int| 0 <= w < self.num_vars && (
        #[trigger] self.assign@[w]).is_some() implies t.contains(w as u32) by {
            if w == v {
                assert(t[t.len() - 1] == v);
            } else {
                assert(o.assign@[w].is_some());
                let i = choose|i: int| 0 <= i < o.trail@.len() && o.trail@[i] == w as u32;
                assert(t[i] == w as u32);
            }
        }
        assert(trail_inv(self.num_vars as int, t, lim, self.assign@, self.level@));
        assert forall|i: int| 0 <= i < t.len() implies match self.reason@[(
        #[trigger] t[i]) as int] {
            Some(r) => r < self.clauses@.len() && forces(
                t,
                self.assign@,
                i,
                self.clauses@[r as int]@,
            ),
            None => self.level@[t[i] as int] > 0 && i == lim[self.level@[t[i] as int] - 1],
        } by {
            if i < o.trail@.len() {
                assert(o.trail@[i] == t[i]);
                assert(t[i] != v);
                if let Some(r) = o.reason@[o.trail@[i] as int] {
                    let c = o.clauses@[r as int]@;
                    assert(forces(o.trail@, o.assign@, i, c));
                    assert(true_lit(self.assign@, t[i]) == true_lit(o.assign@, t[i]));
                    assert forall|l: Lit| #[trigger] c.contains(l) implies if l.var == t[i] {
                        is_true(self.assign@, l)
                    } else {
                        is_false(self.assign@, l) && earlier(t, i, l.var)
                    } by {
                        if l.var != t[i] {
                            let j = choose|j: int| 0 <= j < i && o.trail@[j] == l.var;
                            assert(t[j] == l.var);
                        }
                    }
                } else {
                    assert(level_at(o.trail_lim@, o.level@[o.trail@[i] as int] as int, i));
                }
            }
        }
        let cls = self.clauses@;
        assert forall|c: int, i: int|
            0 <= c < cls.len() && cls[c]@.len() >= 2 && 0 <= i < 2 && is_false(
                self.assign@,
                #[trigger] cls[c]@[i],
            ) && !self.prop_queue@.contains(cls[c]@[i].var) implies guarded(
            self.assign@,
            self.level@,
            cls[c]@,
            i,
        ) by {
            assert(lits_below(cls[c]@, self.num_vars as int));
            assert(cls[c]@[i].var < self.num_vars && cls[c]@[1 - i].var < self.num_vars);
            assert(self.prop_queue@[0] == v);
            assert(cls[c]@[i].var != v);
            assert(guarded(o.assign@, o.level@, o.clauses@[c]@, i));
        }
    }

    /// The state of `o` cut back to decision level `lv`.
    pub(super) open spec fn cut_back(&self, o: &Solver, lv: int) -> bool {
        &&& self.num_vars == o.num_vars
        &&& self.clauses == o.clauses
        &&& self.watches == o.watches
        &&& self.level == o.level
        &&& self.reason == o.reason
        &&& self.seen == o.seen
        &&& self.activity == o.activity
        &&& self.var_inc == o.var_inc
        &&& self.num_original == o.num_original
        &&& self.lbd == o.lbd
        &&& self.pace == o.pace
        &&& self.formula == o.formula
        &&& self.trail_lim@ == o.trail_lim@.take(lv)
        &&& self.trail@ == o.trail@.take(o.trail_lim@[lv] as int)
        &&& self.prop_queue@.len() == 0
        &&& self.assign@.len() == o.assign@.len()
        &&& forall|v: int|
            0 <= v < o.num_vars ==> #[trigger] self.assign@[v] == if o.assign@[v].is_some()
                && o.level@[v] <= lv {
                o.assign@[v]
            } else {
                None
            }
    }

    /// Undo every assignment above decision level `lv`.
    pub(super) fn backtrack_to(&mut self, lv: u32)
        requires
            old(self).coherent(),
        ensures
            final(self).coherent(),
            old(self).trail_lim@.len() <= lv ==> *final(self) == *old(self),
            old(self).trail_lim@.len() > lv ==> final(self).cut_back(old(self), lv as int),
            old(self).trail_lim@.len() > lv && watch_sound_below(
                old(self).assign@,
                old(self).level@,
                old(self).clauses@,
                old(self).trail_lim@.len() as int,
            ) ==> watch_sound(
                final(self).assign@,
                final(self).level@,
                final(self).prop_queue@,
                final(self).clauses@,
            ),
    {
        if self.decision_level() <= lv {
            return ;
        }
        let target: usize = self.trail_lim[lv as usize];
        while self.trail.len() > target
            invariant
                old(self).coherent(),
                lv < old(self).trail_lim@.len(),
                target == old(self).trail_lim@[lv as int],
                target <= self.trail@.len() <= old(self).trail@.len(),
                self.trail@ == old(self).trail@.take(self.trail@.len() as int),
                self.assign@.len() == self.num_vars,
                self.num_vars == old(self).num_vars,
                self.clauses == old(self).clauses,
                self.watches == old(self).watches,
                self.level == old(self).level,
                self.reason == old(self).reason,
                self.seen == old(self).seen,
                self.activity == old(self).activity,
                self.var_inc == old(self).var_inc,
                self.num_original == old(self).num_original,
                self.lbd == old(self).lbd,
                self.pace == old(self).pace,
                self.formula == old(self).formula,
                self.trail_lim == old(self).trail_lim,
                self.prop_queue == old(self).prop_queue,
                forall|i: int|
                    0 <= i < old(self).trail@.len() ==> self.assign@[(#[trigger] old(
                        self,
                    ).trail@[i]) as int] == if i < self.trail@.len() {
                        old(self).assign@[old(self).trail@[i] as int]
                    } else {
                        None
                    },
                forall|v: int|
                    0 <= v < self.num_vars && old(self).assign@[v].is_none()
                        ==> #[trigger] self.assign@[v] == None::<bool>,
            decreases self.trail@.len(),
        {
            let k: usize = self.trail.len() - 1;
            let v: u32 = self.trail[k];
            assert(old(self).trail@[k as int] == v);
            self.trail.pop();
            self.assign.set(v as usize, None);
            assert(self.trail@ =~= old(self).trail@.take(self.trail@.len() as int));
        }
        self.trail_lim.truncate(lv as usize);
        self.prop_queue.clear();
        proof {
            assert forall|v: int| 0 <= v < old(self).num_vars implies #[trigger] self.assign@[v]
                == if old(self).assign@[v].is_some() && old(self).level@[v] <= lv {
                old(self).assign@[v]
            } else {
                None
            } by {
                if old(self).assign@[v].is_some() {
                    assert(old(self).trail@.contains(v as u32));
                    let i = choose|i: int|
                        0 <= i < old(self).trail@.len() && old(self).trail@[i] == v as u32;
                    self.lemma_cut(old(self), lv as int, i);
                }
            }
            assert(self.trail_lim@ =~= old(self).trail_lim@.take(lv as int));
            self.lemma_cut_back(old(self), lv as int);
        }
    }

    /// Trail positions below the cut are those of levels up to `lv`.
    proof fn lemma_cut(&self, o: &Solver, lv: int, i: int)
        requires
            o.coherent(),
            0 <= lv < o.trail_lim@.len(),
            0 <= i < o.trail@.len(),
        ensures
            o.level@[o.trail@[i] as int] <= lv <==> i < o.trail_lim@[lv],
    {
        let l = o.level@[o.trail@[i] as int] as int;
        assert(level_at(o.trail_lim@, l, i));
        if l > lv && l - 1 > lv {
            assert(o.trail_lim@[lv] < o.trail_lim@[l - 1]);
        }
        if l < lv {
            assert(o.trail_lim@[l] < o.trail_lim@[lv]);
        }
    }

    proof fn lemma_cut_back(&self, o: &Solver, lv: int)
        requires
            o.coherent(),
            0 <= lv < o.trail_lim@.len(),
            self.cut_back(o, lv),
        ensures
            self.coherent(),
            watch_sound_below(o.assign@, o.level@, o.clauses@, o.trail_lim@.len() as int)
                ==> watch_sound(self.assign@, self.level@, self.prop_queue@, self.clauses@),
    {
        let t = self.trail@;
        let lim = self.trail_lim@;
        assert forall|i: int| 0 <= i < t.len() implies level_at(
            lim,
            self.level@[(#[trigger] t[i]) as int] as int,
            i,
        ) && self.assign@[t[i] as int] == o.assign@[t[i] as int] && self.assign@[t[i] as int].is_some() by {
            assert(t[i] == o.trail@[i]);
            assert(level_at(o.trail_lim@, o.level@[o.trail@[i] as int] as int, i));
            self.lemma_cut(o, lv, i);
        }
        assert forall|v: int| 0 <= v < self.num_vars && (
        #[trigger] self.assign@[v]).is_some() implies t.contains(v as u32) by {
            assert(o.assign@[v].is_some());
            let i = choose|i: int| 0 <= i < o.trail@.len() && o.trail@[i] == v as u32;
            self.lemma_cut(o, lv, i);
            assert(t[i] == v as u32);
        }
        assert forall|a: int| 0 <= a < lim.len() implies (#[trigger] lim[a]) < t.len() by {
            assert(o.trail_lim@[a] < o.trail_lim@[lv]);
        }
        assert(trail_inv(self.num_vars as int, t, lim, self.assign@, self.level@));
        assert forall|i: int| 0 <= i < t.len() implies match self.reason@[(
        #[trigger] t[i]) as int] {
            Some(r) => r < self.clauses@.len() && forces(
                t,
                self.assign@,
                i,
                self.clauses@[r as int]@,
            ),
            None => self.level@[t[i] as int] > 0 && i == lim[self.level@[t[i] as int] - 1],
        } by {
            assert(o.trail@[i] == t[i]);
            if let Some(r) = o.reason@[o.trail@[i] as int] {
                let c = o.clauses@[r as int]@;
                assert(forces(o.trail@, o.assign@, i, c));
                assert(true_lit(self.assign@, t[i]) == true_lit(o.assign@, t[i]));
                assert forall|l: Lit| #[trigger] c.contains(l) implies if l.var == t[i] {
                    is_true(self.assign@, l)
                } else {
                    is_false(self.assign@, l) && earlier(t, i, l.var)
                } by {
                    if l.var != t[i] {
                        let j = choose|j: int| 0 <= j < i && o.trail@[j] == l.var;
                        assert(t[j] == l.var);
                    }
                }
            } else {
                self.lemma_cut(o, lv, i);
            }
        }
        if watch_sound_below(o.assign@, o.level@, o.clauses@, o.trail_lim@.len() as int) {
            let cls = self.clauses@;
            assert forall|c: int, i: int|
                0 <= c < cls.len() && cls[c]@.len() >= 2 && 0 <= i < 2 && is_false(
                    self.assign@,
                    #[trigger] cls[c]@[i],
                ) && !self.prop_queue@.contains(cls[c]@[i].var) implies guarded(
                self.assign@,
                self.level@,
                cls[c]@,
                i,
            ) by {
                assert(lits_below(cls[c]@, self.num_vars as int));
                assert(cls[c]@[i].var < self.num_vars && cls[c]@[1 - i].var < self.num_vars);
                assert(guarded(o.assign@, o.level@, o.clauses@[c]@, i));
            }
        }
    }
}

} // verus!
