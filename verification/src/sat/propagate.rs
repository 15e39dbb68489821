//! Unit propagation with two watched literals, and backtracking.

use super::logic::{
    code_of, exchanged, guarded, is_false, is_true, kept_lits, lemma_code_injective,
    lemma_exchanged_same_lits, lemma_kept_lits_reordered,
    lemma_occurrences_prefix, lemma_occurrences_push, lemma_occurrences_step, lemma_reordered_keeps,
    lemma_trail_bounds, level_at, list_below, lits_below, occurrences, queue_inv, reordered,
    repeated, same_lits, wanted, watch_inv, watch_sound, watch_sound_below,
};
use super::{lit_code, Lit, Solver, Visit};
use vstd::prelude::*;

verus! {

impl Solver {
    /// Exchange two literals of clause `ci`.
    pub(super) fn swap_lits(&mut self, ci: usize, i: usize, j: usize)
        requires
            old(self).coherent(),
            ci < old(self).clauses@.len(),
            i < old(self).clauses@[ci as int]@.len(),
            j < old(self).clauses@[ci as int]@.len(),
        ensures
            final(self).coherent(),
            final(self).same_rest(old(self)),
            final(self).same_assignment(old(self)),
            final(self).watches == old(self).watches,
            reordered(old(self).clauses@, final(self).clauses@, ci as int),
            final(self).clauses@[ci as int]@ == exchanged(
                old(self).clauses@[ci as int]@,
                i as int,
                j as int,
            ),
    {
        let a = self.clauses[ci][i];
        let b = self.clauses[ci][j];
        self.clauses[ci][i] = b;
        self.clauses[ci][j] = a;
        proof {
            lemma_exchanged_same_lits(old(self).clauses@[ci as int]@, i as int, j as int);
            lemma_reordered_keeps(
                self.num_vars as int,
                self.formula@,
                self.trail@,
                self.trail_lim@,
                self.assign@,
                self.level@,
                self.reason@,
                old(self).clauses@,
                self.clauses@,
                ci as int,
            );
        }
    }

    /// Re-establish the watches of clause `ci` now that its watched literal
    /// `false_lit` is false: keep it where its partner is or becomes true, move the
    /// watch to a literal that is not false, or report the clause as falsified.
    pub(super) fn examine(&mut self, ci: usize, false_lit: Lit) -> (r: Visit)
        requires
            old(self).coherent(),
            old(self).watches@.len() == 2 * old(self).num_vars,
            ci < old(self).clauses@.len(),
            old(self).clauses@[ci as int]@.len() >= 2,
            old(self).clauses@[ci as int]@[0] == false_lit
                || old(self).clauses@[ci as int]@[1] == false_lit,
            is_false(old(self).assign@, false_lit),
        ensures
            final(self).coherent(),
            final(self).same_rest(old(self)),
            final(self).grown(old(self)),
            reordered(old(self).clauses@, final(self).clauses@, ci as int),
            final(self).clauses@[ci as int]@[0] == if old(self).clauses@[ci as int]@[0]
                == false_lit {
                old(self).clauses@[ci as int]@[1]
            } else {
                old(self).clauses@[ci as int]@[0]
            },
            final(self).watches@.len() == old(self).watches@.len(),
            match r {
                Visit::Keep => {
                    let c = final(self).clauses@[ci as int]@;
                    &&& c[1] == false_lit
                    &&& is_true(final(self).assign@, c[0])
                    &&& final(self).watches == old(self).watches
                    &&& (final(self).same_assignment(old(self)) || final(self).assigned(
                        old(self),
                        c[0],
                        Some(ci),
                    ))
                },
                Visit::Moved => {
                    let c = final(self).clauses@[ci as int]@;
                    &&& !is_false(final(self).assign@, c[1])
                    &&& final(self).same_assignment(old(self))
                    &&& forall|x: int|
                        0 <= x < old(self).watches@.len() && x != code_of(c[1])
                            ==> #[trigger] final(self).watches@[x] == old(self).watches@[x]
                    &&& final(self).watches@[code_of(c[1])]@ == old(
                        self,
                    ).watches@[code_of(c[1])]@.push(ci)
                },
                Visit::Conflict => {
                    let c = final(self).clauses@[ci as int]@;
                    &&& c[1] == false_lit
                    &&& final(self).watches == old(self).watches
                    &&& final(self).same_assignment(old(self))
                    &&& forall|l: Lit| #[trigger] c.contains(l) ==> is_false(final(self).assign@, l)
                },
            },
    {
        if self.clauses[ci][0] == false_lit {
            self.swap_lits(ci, 0, 1);
        }
        let ghost start = self.clauses@;
        assert(reordered(old(self).clauses@, start, ci as int));
        assert(lits_below(start[ci as int]@, self.num_vars as int));
        let other = self.clauses[ci][0];
        if self.lit_value(other) == Some(true) {
            return Visit::Keep;
        }
        let len: usize = self.clauses[ci].len();
        let mut k: usize = 2;
        while k < len && self.lit_value(self.clauses[ci][k]) == Some(false)
            invariant
                2 <= k <= len,
                len == self.clauses@[ci as int]@.len(),
                ci < self.clauses@.len(),
                self.assign@.len() == self.num_vars,
                lits_below(self.clauses@[ci as int]@, self.num_vars as int),
                forall|p: int|
                    2 <= p < k ==> is_false(
                        self.assign@,
                        #[trigger] self.clauses@[ci as int]@[p],
                    ),
            decreases len - k,
        {
            k += 1;
        }
        if k < len {
            self.swap_lits(ci, 1, k);
            let new_watch = self.clauses[ci][1];
            assert(lits_below(self.clauses@[ci as int]@, self.num_vars as int));
            assert(self.clauses@[ci as int]@[1].var < self.num_vars);
            self.watches[lit_code(new_watch)].push(ci);
            assert(same_lits(old(self).clauses@[ci as int]@, self.clauses@[ci as int]@));
            return Visit::Moved;
        }
        assert forall|l: Lit| #[trigger] self.clauses@[ci as int]@.contains(l) implies l == other
            || is_false(self.assign@, l) by {
            let c = self.clauses@[ci as int]@;
            let p = choose|p: int| 0 <= p < c.len() && c[p] == l;
            if p >= 2 {
                assert(is_false(self.assign@, c[p]));
            }
        }
        match self.lit_value(other) {
            Some(_) => {
                Visit::Conflict
            },
            None => {
                assert(self.clauses@[ci as int]@.contains(self.clauses@[ci as int]@[0]));
                proof {
                    let c = self.clauses@[ci as int]@;
                    if repeated(c, other) {
                        let (a, b) = choose|a: int, b: int|
                            0 <= a < b < c.len() && c[a] == other && c[b] == other;
                        if b >= 2 {
                            assert(is_false(self.assign@, c[b]));
                        }
                    }
                }
                self.enqueue(other, ci);
                Visit::Keep
            },
        }
    }

    /// The watch lists while list `fc` is being rewritten: `keep` holds what stays of
    /// the first `j` entries of `ws`.
    spec fn rewriting(&self, fc: int, keep: Seq<usize>, ws: Seq<usize>, j: int) -> bool {
        let cls = self.clauses@;
        &&& self.watches@.len() == 2 * self.num_vars
        &&& 0 <= fc < self.watches@.len()
        &&& list_below(keep, cls.len() as int)
        &&& list_below(ws, cls.len() as int)
        &&& forall|x: int|
            0 <= x < self.watches@.len() && x != fc ==> list_below(
                (#[trigger] self.watches@[x])@,
                cls.len() as int,
            )
        &&& forall|x: int, c: int|
            0 <= x < self.watches@.len() && x != fc && 0 <= c < cls.len()
                ==> #[trigger] occurrences(self.watches@[x]@, c) == wanted(cls[c]@, x)
        &&& forall|c: int|
            0 <= c < cls.len() ==> occurrences(keep, c) + occurrences(ws, c) - occurrences(
                ws.take(j),
                c,
            ) == #[trigger] wanted(cls[c]@, fc)
    }

    /// `watch_sound`, but for the watches on `fl` still ahead in `ws`.
    spec fn sound_so_far(&self, fl: Lit, ws: Seq<usize>, j: int) -> bool {
        let cls = self.clauses@;
        forall|c: int, i: int|
            0 <= c < cls.len() && cls[c]@.len() >= 2 && 0 <= i < 2 && is_false(
                self.assign@,
                #[trigger] cls[c]@[i],
            ) && !self.prop_queue@.contains(cls[c]@[i].var) && !(cls[c]@[i] == fl && occurrences(
                ws.take(j),
                c,
            ) < occurrences(ws, c)) ==> guarded(self.assign@, self.level@, cls[c]@, i)
    }

    /// The clauses kept so far start with a true literal.
    spec fn kept_true(&self, keep: Seq<usize>) -> bool {
        forall|c: int|
            0 <= c < self.clauses@.len() && #[trigger] occurrences(keep, c) > 0
                ==> self.clauses@[c]@.len() >= 2 && is_true(self.assign@, self.clauses@[c]@[0])
    }

    /// Clause `ci` is false, and its literal `fl` was falsified at this level.
    pub(super) open spec fn falsified(&self, ci: int) -> bool {
        &&& 0 <= ci < self.clauses@.len()
        &&& forall|l: Lit| #[trigger]
            self.clauses@[ci]@.contains(l) ==> is_false(self.assign@, l)
        &&& exists|l: Lit| #[trigger]
            self.clauses@[ci]@.contains(l) && self.level@[l.var as int] == self.trail_lim@.len()
    }

    /// Visit every clause that watches `fl`, which has just become false.
    fn visit_watchers(&mut self, fl: Lit, ws: &Vec<usize>) -> (r: (Vec<usize>, Option<usize>))
        requires
            old(self).coherent(),
            fl.var < old(self).num_vars,
            is_false(old(self).assign@, fl),
            old(self).level@[fl.var as int] == old(self).trail_lim@.len(),
            old(self).rewriting(code_of(fl), Seq::empty(), ws@, 0),
            old(self).sound_so_far(fl, ws@, 0),
        ensures
            final(self).coherent(),
            final(self).same_rest(old(self)),
            final(self).grown(old(self)),
            kept_lits(old(self).clauses@, final(self).clauses@),
            final(self).rewriting(code_of(fl), r.0@, ws@, ws@.len() as int),
            final(self).prop_queue@.len() - old(self).prop_queue@.len() == final(self).trail@.len()
                - old(self).trail@.len(),
            match r.1 {
                None => watch_sound(
                    final(self).assign@,
                    final(self).level@,
                    final(self).prop_queue@,
                    final(self).clauses@,
                ),
                Some(ci) => {
                    &&& final(self).falsified(ci as int)
                    &&& watch_sound_below(
                        final(self).assign@,
                        final(self).level@,
                        final(self).clauses@,
                        final(self).trail_lim@.len() as int,
                    )
                },
            },
    {
        let mut keep: Vec<usize> = Vec::new();
        let mut conflict: Option<usize> = None;
        let ghost fc = code_of(fl);
        let mut j: usize = 0;
        assert(keep@ =~= Seq::<usize>::empty());
        while j < ws.len()
            invariant
                fc == code_of(fl),
                j <= ws@.len(),
                self.coherent(),
                self.same_rest(old(self)),
                self.grown(old(self)),
                kept_lits(old(self).clauses@, self.clauses@),
                self.prop_queue@.len() - old(self).prop_queue@.len() == self.trail@.len() - old(
                    self,
                ).trail@.len(),
                fl.var < self.num_vars,
                is_false(self.assign@, fl),
                self.level@[fl.var as int] == self.trail_lim@.len(),
                self.rewriting(fc, keep@, ws@, j as int),
                match conflict {
                    None => self.sound_so_far(fl, ws@, j as int) && self.kept_true(keep@),
                    Some(ci) => {
                        &&& self.falsified(ci as int)
                        &&& watch_sound_below(
                            self.assign@,
                            self.level@,
                            self.clauses@,
                            self.trail_lim@.len() as int,
                        )
                    },
                },
            decreases ws@.len() - j,
        {
            let ci: usize = ws[j];
            let ghost before = *self;
            let ghost kept = keep@;
            proof {
                assert forall|c: int| 0 <= c < self.clauses@.len() implies #[trigger] occurrences(
                    ws@.take(j + 1),
                    c,
                ) == occurrences(ws@.take(j as int), c) + if ci == c { 1int } else { 0int }
                    && occurrences(ws@.take(j + 1), c) <= occurrences(ws@, c) by {
                    lemma_occurrences_step(ws@, j as int, c);
                }
                assert forall|c: int| #[trigger] occurrences(keep@.push(ci), c) == occurrences(
                    keep@,
                    c,
                ) + if ci == c { 1int } else { 0int } by {
                    lemma_occurrences_push(keep@, ci, c);
                }
                assert forall|c: int| #[trigger] occurrences(keep@, c) >= 0 by {
                    lemma_occurrences_prefix(keep@, keep@.len() as int, c);
                }
                assert(occurrences(ws@.take(j + 1), ci as int) <= occurrences(ws@, ci as int));
                assert(wanted(self.clauses@[ci as int]@, fc) >= 1);
            }
            if conflict.is_some() {
                keep.push(ci);
            } else {
                let ghost b = self.clauses@[ci as int]@;
                proof {
                    lemma_code_injective(b[0], fl);
                    lemma_code_injective(b[1], fl);
                }
                let r = self.examine(ci, fl);
                proof {
                    lemma_kept_lits_reordered(
                        old(self).clauses@,
                        before.clauses@,
                        self.clauses@,
                        ci as int,
                    );
                }
                let ghost a = self.clauses@[ci as int]@;
                proof {
                    lemma_code_injective(a[0], fl);
                    lemma_code_injective(a[1], fl);
                }
                match r {
                    Visit::Keep => {
                        keep.push(ci);
                        proof {
                            assert forall|x: int| #[trigger] wanted(a, x) == wanted(b, x) by {}
                            self.lemma_visited_keep(&before, fl, kept, ws@, j as int);
                        }
                    },
                    Visit::Conflict => {
                        keep.push(ci);
                        conflict = Some(ci);
                        proof {
                            assert forall|x: int| #[trigger] wanted(a, x) == wanted(b, x) by {}
                            assert(a.contains(a[1]));
                            assert(self.falsified(ci as int));
                            self.lemma_visited_conflict(&before, fl, ws@, j as int);
                        }
                    },
                    Visit::Moved => {
                        proof {
                            self.lemma_visited_moved(&before, fl, kept, ws@, j as int);
                        }
                    },
                }
            }
            j += 1;
        }
        assert(ws@.take(ws@.len() as int) =~= ws@);
        (keep, conflict)
    }

    proof fn lemma_visited_keep(
        &self,
        o: &Solver,
        fl: Lit,
        keep: Seq<usize>,
        ws: Seq<usize>,
        j: int,
    )
        requires
            0 <= j < ws.len(),
            ws[j] < o.clauses@.len(),
            o.coherent(),
            self.coherent(),
            self.same_rest(o),
            self.grown(o),
            reordered(o.clauses@, self.clauses@, ws[j] as int),
            o.clauses@[ws[j] as int]@.len() >= 2,
            self.clauses@[ws[j] as int]@[1] == fl,
            is_true(self.assign@, self.clauses@[ws[j] as int]@[0]),
            is_false(self.assign@, fl),
            self.level@[fl.var as int] == self.trail_lim@.len(),
            self.same_assignment(o) || self.assigned(
                o,
                self.clauses@[ws[j] as int]@[0],
                Some(ws[j]),
            ),
            o.sound_so_far(fl, ws, j),
            o.kept_true(keep),
        ensures
            self.sound_so_far(fl, ws, j + 1),
            self.kept_true(keep.push(ws[j])),
    {
        let cls = self.clauses@;
        let ci = ws[j] as int;
        assert forall|c: int, i: int|
            0 <= c < cls.len() && cls[c]@.len() >= 2 && 0 <= i < 2 && is_false(
                self.assign@,
                #[trigger] cls[c]@[i],
            ) && !self.prop_queue@.contains(cls[c]@[i].var) && !(cls[c]@[i] == fl && occurrences(
                ws.take(j + 1),
                c,
            ) < occurrences(ws, c)) implies guarded(self.assign@, self.level@, cls[c]@, i) by {
            assert(lits_below(cls[c]@, self.num_vars as int));
            assert(cls[c]@[i].var < self.num_vars && cls[c]@[1 - i].var < self.num_vars);
            lemma_occurrences_step(ws, j, c);
            if c == ci {
                if i == 1 {
                    assert(self.trail@.contains(cls[c]@[0].var));
                    let p = choose|p: int|
                        0 <= p < self.trail@.len() && self.trail@[p] == cls[c]@[0].var;
                    assert(level_at(
                        self.trail_lim@,
                        self.level@[self.trail@[p] as int] as int,
                        p,
                    ));
                }
            } else {
                assert(cls[c] == o.clauses@[c]);
                if !self.same_assignment(o) {
                    let lit = cls[ci]@[0];
                    assert(self.prop_queue@[self.prop_queue@.len() - 1] == lit.var);
                    assert(cls[c]@[i].var != lit.var);
                    assert(o.assign@[cls[c]@[i].var as int].is_some());
                    if o.prop_queue@.contains(cls[c]@[i].var) {
                        let k = choose|k: int|
                            0 <= k < o.prop_queue@.len() && o.prop_queue@[k] == cls[c]@[i].var;
                        assert(self.prop_queue@[k] == cls[c]@[i].var);
                    }
                }
                assert(guarded(o.assign@, o.level@, o.clauses@[c]@, i));
                assert(o.assign@[o.clauses@[c]@[1 - i].var as int].is_some());
            }
        }
        assert forall|c: int|
            0 <= c < cls.len() && #[trigger] occurrences(keep.push(ws[j]), c) > 0
                implies cls[c]@.len() >= 2 && is_true(self.assign@, cls[c]@[0]) by {
            lemma_occurrences_push(keep, ws[j], c);
            if c != ci {
                assert(occurrences(keep, c) > 0);
                assert(is_true(o.assign@, o.clauses@[c]@[0]));
                assert(lits_below(o.clauses@[c]@, o.num_vars as int));
                assert(o.clauses@[c]@[0].var < o.num_vars);
            }
        }
    }

    proof fn lemma_visited_moved(
        &self,
        o: &Solver,
        fl: Lit,
        keep: Seq<usize>,
        ws: Seq<usize>,
        j: int,
    )
        requires
            0 <= j < ws.len(),
            ws[j] < o.clauses@.len(),
            o.coherent(),
            self.coherent(),
            self.same_rest(o),
            self.same_assignment(o),
            reordered(o.clauses@, self.clauses@, ws[j] as int),
            o.clauses@[ws[j] as int]@.len() >= 2,
            fl.var < o.num_vars,
            is_false(o.assign@, fl),
            ({
                let b = o.clauses@[ws[j] as int]@;
                let a = self.clauses@[ws[j] as int]@;
                &&& b[0] == fl || b[1] == fl
                &&& a[0] == if b[0] == fl { b[1] } else { b[0] }
                &&& !is_false(self.assign@, a[1])
                &&& forall|x: int|
                    0 <= x < o.watches@.len() && x != code_of(a[1])
                        ==> #[trigger] self.watches@[x] == o.watches@[x]
                &&& self.watches@[code_of(a[1])]@ == o.watches@[code_of(a[1])]@.push(ws[j])
                &&& self.watches@.len() == o.watches@.len()
            }),
            o.rewriting(code_of(fl), keep, ws, j),
            o.sound_so_far(fl, ws, j),
            o.kept_true(keep),
        ensures
            self.rewriting(code_of(fl), keep, ws, j + 1),
            self.sound_so_far(fl, ws, j + 1),
            self.kept_true(keep),
    {
        let cls = self.clauses@;
        let ci = ws[j] as int;
        let fc = code_of(fl);
        let b = o.clauses@[ci]@;
        let a = cls[ci]@;
        assert(lits_below(a, self.num_vars as int));
        assert(a[1].var < self.num_vars);
        lemma_code_injective(a[0], fl);
        lemma_code_injective(a[1], fl);
        lemma_code_injective(b[0], fl);
        lemma_code_injective(b[1], fl);
        assert(wanted(a, fc) == wanted(b, fc) - 1);
        assert forall|x: int| x != fc implies #[trigger] wanted(a, x) == wanted(b, x) + if x
            == code_of(a[1]) {
            1int
        } else {
            0int
        } by {}
        assert(occurrences(keep, ci) == 0) by {
            lemma_occurrences_step(ws, j, ci);
            lemma_occurrences_prefix(keep, keep.len() as int, ci);
            assert(wanted(b, fc) == occurrences(keep, ci) + occurrences(ws, ci) - occurrences(
                ws.take(j),
                ci,
            ));
            if occurrences(keep, ci) > 0 {
                assert(is_true(o.assign@, b[0]));
            }
        }
        assert forall|x: int, c: int|
            0 <= x < self.watches@.len() && x != fc && 0 <= c < cls.len() implies #[trigger] occurrences(
            self.watches@[x]@,
            c,
        ) == wanted(cls[c]@, x) by {
            assert(occurrences(o.watches@[x]@, c) == wanted(o.clauses@[c]@, x));
            lemma_occurrences_push(o.watches@[x]@, ws[j], c);
            if c != ci {
                assert(cls[c] == o.clauses@[c]);
            }
        }
        assert forall|c: int| 0 <= c < cls.len() implies occurrences(keep, c) + occurrences(ws, c)
            - occurrences(ws.take(j + 1), c) == #[trigger] wanted(cls[c]@, fc) by {
            lemma_occurrences_step(ws, j, c);
            assert(occurrences(keep, c) + occurrences(ws, c) - occurrences(ws.take(j), c) == wanted(
                o.clauses@[c]@,
                fc,
            ));
            if c != ci {
                assert(cls[c] == o.clauses@[c]);
            }
        }
        assert forall|x: int| 0 <= x < self.watches@.len() && x != fc implies list_below(
            (#[trigger] self.watches@[x])@,
            cls.len() as int,
        ) by {
            assert(list_below(o.watches@[x]@, cls.len() as int));
        }
        assert forall|c: int, i: int|
            0 <= c < cls.len() && cls[c]@.len() >= 2 && 0 <= i < 2 && is_false(
                self.assign@,
                #[trigger] cls[c]@[i],
            ) && !self.prop_queue@.contains(cls[c]@[i].var) && !(cls[c]@[i] == fl && occurrences(
                ws.take(j + 1),
                c,
            ) < occurrences(ws, c)) implies guarded(self.assign@, self.level@, cls[c]@, i) by {
            lemma_occurrences_step(ws, j, c);
            if c == ci {
                assert(i == 0);
                if a[0] == fl {
                    assert(wanted(b, fc) == 2);
                    assert(false);
                } else {
                    let i0 = if b[0] == fl { 1int } else { 0int };
                    assert(o.clauses@[ci]@[i0] == a[0]);
                    assert(guarded(o.assign@, o.level@, b, i0));
                }
            } else {
                assert(cls[c] == o.clauses@[c]);
                assert(guarded(o.assign@, o.level@, o.clauses@[c]@, i));
            }
        }
        assert forall|c: int|
            0 <= c < cls.len() && #[trigger] occurrences(keep, c) > 0 implies cls[c]@.len() >= 2
            && is_true(self.assign@, cls[c]@[0]) by {
            assert(cls[c] == o.clauses@[c]);
        }
    }

    proof fn lemma_visited_conflict(&self, o: &Solver, fl: Lit, ws: Seq<usize>, j: int)
        requires
            0 <= j < ws.len(),
            ws[j] < o.clauses@.len(),
            o.coherent(),
            self.same_rest(o),
            self.same_assignment(o),
            reordered(o.clauses@, self.clauses@, ws[j] as int),
            o.clauses@[ws[j] as int]@.len() >= 2,
            is_false(o.assign@, fl),
            o.level@[fl.var as int] == o.trail_lim@.len(),
            ({
                let b = o.clauses@[ws[j] as int]@;
                let a = self.clauses@[ws[j] as int]@;
                &&& b[0] == fl || b[1] == fl
                &&& a[0] == if b[0] == fl { b[1] } else { b[0] }
                &&& a[1] == fl
            }),
            o.sound_so_far(fl, ws, j),
        ensures
            watch_sound_below(
                self.assign@,
                self.level@,
                self.clauses@,
                self.trail_lim@.len() as int,
            ),
    {
        let cls = self.clauses@;
        let ci = ws[j] as int;
        let d = self.trail_lim@.len();
        assert forall|c: int, i: int|
            0 <= c < cls.len() && cls[c]@.len() >= 2 && 0 <= i < 2 && is_false(
                self.assign@,
                #[trigger] cls[c]@[i],
            ) && self.level@[cls[c]@[i].var as int] < d implies guarded(
            self.assign@,
            self.level@,
            cls[c]@,
            i,
        ) by {
            let l = cls[c]@[i];
            if o.prop_queue@.contains(l.var) {
                let k = choose|k: int| 0 <= k < o.prop_queue@.len() && o.prop_queue@[k] == l.var;
                assert(o.level@[o.prop_queue@[k] as int] == d);
            }
            if c == ci {
                let b = o.clauses@[ci]@;
                let i0 = if b[0] == fl { 1int } else { 0int };
                assert(o.clauses@[ci]@[i0] == l);
                assert(guarded(o.assign@, o.level@, b, i0));
            } else {
                assert(cls[c] == o.clauses@[c]);
                assert(guarded(o.assign@, o.level@, o.clauses@[c]@, i));
            }
        }
    }

    /// Propagate every waiting assignment to a fixpoint; the number of a falsified
    /// clause, if one came up.
    pub(super) fn propagate(&mut self) -> (conflict: Option<usize>)
        requires
            old(self).coherent(),
            watch_inv(old(self).num_vars as int, old(self).clauses@, old(self).watches@),
            watch_sound(
                old(self).assign@,
                old(self).level@,
                old(self).prop_queue@,
                old(self).clauses@,
            ),
        ensures
            final(self).coherent(),
            final(self).same_rest(old(self)),
            final(self).grown(old(self)),
            kept_lits(old(self).clauses@, final(self).clauses@),
            watch_inv(final(self).num_vars as int, final(self).clauses@, final(self).watches@),
            old(self).prop_queue@.len() == 0 ==> conflict is None && *final(self) == *old(self),
            match conflict {
                None => {
                    &&& final(self).prop_queue@.len() == 0
                    &&& watch_sound(
                        final(self).assign@,
                        final(self).level@,
                        final(self).prop_queue@,
                        final(self).clauses@,
                    )
                },
                Some(ci) => {
                    &&& final(self).falsified(ci as int)
                    &&& watch_sound_below(
                        final(self).assign@,
                        final(self).level@,
                        final(self).clauses@,
                        final(self).trail_lim@.len() as int,
                    )
                },
            },
    {
        while self.prop_queue.len() > 0
            invariant
                self.coherent(),
                self.same_rest(old(self)),
                self.grown(old(self)),
                old(self).prop_queue@.len() == 0 ==> *self == *old(self),
                kept_lits(old(self).clauses@, self.clauses@),
                watch_inv(self.num_vars as int, self.clauses@, self.watches@),
                watch_sound(self.assign@, self.level@, self.prop_queue@, self.clauses@),
            decreases self.num_vars - self.trail@.len(), self.prop_queue@.len(),
        {
            let ghost start = *self;
            let k: usize = self.prop_queue.len() - 1;
            let v: u32 = self.prop_queue[k];
            self.prop_queue.pop();
            assert(start.prop_queue@[k as int] == v);
            assert(self.assign@[v as int].is_some());
            let fl = self.false_lit(v);
            let fc: usize = lit_code(fl);
            let mut ws: Vec<usize> = Vec::new();
            std::mem::swap(&mut ws, &mut self.watches[fc]);
            proof {
                assert(queue_inv(
                    self.prop_queue@,
                    self.num_vars as int,
                    self.assign@,
                    self.level@,
                    self.trail_lim@.len() as int,
                ));
                assert(ws@.take(0) =~= Seq::<usize>::empty());
                assert(self.rewriting(fc as int, Seq::empty(), ws@, 0)) by {
                    assert forall|c: int| 0 <= c < self.clauses@.len() implies occurrences(
                        Seq::<usize>::empty(),
                        c,
                    ) + occurrences(ws@, c) - occurrences(ws@.take(0), c) == #[trigger] wanted(
                        self.clauses@[c]@,
                        fc as int,
                    ) by {
                        assert(occurrences(start.watches@[fc as int]@, c) == wanted(
                            start.clauses@[c]@,
                            fc as int,
                        ));
                    }
                    assert forall|x: int, c: int|
                        0 <= x < self.watches@.len() && x != fc && 0 <= c < self.clauses@.len()
                            implies #[trigger] occurrences(self.watches@[x]@, c) == wanted(
                        self.clauses@[c]@,
                        x,
                    ) by {
                        assert(occurrences(start.watches@[x]@, c) == wanted(
                            start.clauses@[c]@,
                            x,
                        ));
                    }
                }
                self.lemma_popped(&start, fl, ws@);
            }
            let (keep, conflict) = self.visit_watchers(fl, &ws);
            assert(ws@.take(ws@.len() as int) =~= ws@);
            let ghost done = *self;
            self.watches[fc] = keep;
            proof {
                lemma_trail_bounds(
                    self.num_vars as int,
                    self.trail@,
                    self.trail_lim@,
                    self.assign@,
                    self.level@,
                );
                assert forall|x: int, c: int|
                    0 <= x < self.watches@.len() && 0 <= c < self.clauses@.len()
                        implies #[trigger] occurrences(self.watches@[x]@, c) == wanted(
                    self.clauses@[c]@,
                    x,
                ) by {
                    if x == fc {
                        assert(occurrences(keep@, c) + occurrences(ws@, c) - occurrences(
                            ws@.take(ws@.len() as int),
                            c,
                        ) == wanted(done.clauses@[c]@, fc as int));
                    } else {
                        assert(occurrences(done.watches@[x]@, c) == wanted(done.clauses@[c]@, x));
                    }
                }
                assert forall|x: int| 0 <= x < self.watches@.len() implies list_below(
                    (#[trigger] self.watches@[x])@,
                    self.clauses@.len() as int,
                ) by {
                    if x != fc {
                        assert(list_below(done.watches@[x]@, done.clauses@.len() as int));
                    }
                }
            }
            proof {
                assert forall|c: int| 0 <= c < self.clauses@.len() implies same_lits(
                    old(self).clauses@[c]@,
                    #[trigger] self.clauses@[c]@,
                ) by {
                    assert(same_lits(old(self).clauses@[c]@, start.clauses@[c]@));
                    assert(same_lits(start.clauses@[c]@, done.clauses@[c]@));
                }
            }
            if conflict.is_some() {
                return conflict;
            }
        }
        None
    }

    proof fn lemma_popped(&self, o: &Solver, fl: Lit, ws: Seq<usize>)
        requires
            o.coherent(),
            o.prop_queue@.len() > 0,
            self.assign == o.assign,
            self.level == o.level,
            self.clauses == o.clauses,
            self.prop_queue@ == o.prop_queue@.drop_last(),
            fl.var == o.prop_queue@.last(),
            is_false(o.assign@, fl),
            ws == o.watches@[code_of(fl)]@,
            watch_inv(o.num_vars as int, o.clauses@, o.watches@),
            watch_sound(o.assign@, o.level@, o.prop_queue@, o.clauses@),
        ensures
            self.sound_so_far(fl, ws, 0),
    {
        let cls = self.clauses@;
        assert(ws.take(0) =~= Seq::<usize>::empty());
        assert forall|c: int, i: int|
            0 <= c < cls.len() && cls[c]@.len() >= 2 && 0 <= i < 2 && is_false(
                self.assign@,
                #[trigger] cls[c]@[i],
            ) && !self.prop_queue@.contains(cls[c]@[i].var) && !(cls[c]@[i] == fl && occurrences(
                ws.take(0),
                c,
            ) < occurrences(ws, c)) implies guarded(self.assign@, self.level@, cls[c]@, i) by {
            let l = cls[c]@[i];
            if l.var == fl.var {
                assert(l == fl);
                assert(occurrences(o.watches@[code_of(fl)]@, c) == wanted(cls[c]@, code_of(fl)));
                assert(false);
            } else {
                if o.prop_queue@.contains(l.var) {
                    let k = choose|k: int|
                        0 <= k < o.prop_queue@.len() && o.prop_queue@[k] == l.var;
                    assert(self.prop_queue@[k] == l.var);
                }
            }
        }
    }
}

} // verus!
