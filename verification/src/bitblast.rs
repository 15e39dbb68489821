//! Boolean circuits as clauses: a formula in conjunctive normal form that grows by
//! gates, each of which defines a new literal without ruling out any assignment of
//! the old ones.
//!
//! Bit-vectors are sequences of literals, least significant bit first, and the
//! circuits over them compute modulo two to the width.

use crate::expr::{BvOp, CmpOp};
use crate::gates::{
    add_of, adder_of, and_of, falsity_of, full_adder_of, mul_of, mux_of, nothing, only_bit, or_of,
    powers_of_two_shift, product_of, products_of, shifted_left, truth_of, var_of, with_clause,
    xor_of, CnfView,
};
use crate::sat::{clause_true, clause_views, lit_true, satisfies, unsatisfiable, Lit};
use vstd::arithmetic::power2::{lemma2_to64, lemma_pow2_pos, lemma_pow2_unfold, pow2};
use vstd::prelude::*;

verus! {

/// The widest bit-vector that is turned into clauses.
pub const MAX_WIDTH: u32 = 64;

/// A formula under construction.
pub struct Cnf {
    /// Number of variables allocated.
    pub num_vars: usize,
    /// The accumulated clauses.
    pub clauses: Vec<Vec<Lit>>,
    /// A cached literal constrained to be always true.
    pub true_lit: Option<Lit>,
}

impl Default for Cnf {
    fn default() -> (c: Cnf)
        ensures
            c.wf(),
            c.num_vars == 0,
            c.clauses@.len() == 0,
            c@ == nothing(),
    {
        let c = Cnf { num_vars: 0, clauses: Vec::new(), true_lit: None };
        assert(clause_views(c.clauses@) =~= Seq::empty());
        c
    }
}

impl View for Cnf {
    type V = CnfView;

    open spec fn view(&self) -> CnfView {
        CnfView {
            vars: self.num_vars as int,
            clauses: clause_views(self.clauses@),
            constant: self.true_lit,
        }
    }
}

/// The complement of a literal.
pub open spec fn not_lit(l: Lit) -> Lit {
    Lit { var: l.var, neg: !l.neg }
}

/// Every literal of `c` names a variable below `n`.
pub open spec fn within(c: Seq<Lit>, n: int) -> bool {
    forall|k: int| 0 <= k < c.len() ==> (#[trigger] c[k]).var < n
}

/// The number that the literals spell under `m`.
pub open spec fn number(m: Seq<bool>, bits: Seq<Lit>) -> nat
    decreases bits.len(),
{
    if bits.len() == 0 {
        0
    } else {
        number(m, bits.drop_last()) + bit_at(m, bits.last(), pow2((bits.len() - 1) as nat))
    }
}

/// `weight` where `l` is true under `m`, else 0.
pub open spec fn bit_at(m: Seq<bool>, l: Lit, weight: nat) -> nat {
    if lit_true(m, l) {
        weight
    } else {
        0
    }
}

/// `x` modulo two to the `w`.
pub open spec fn wrapped(x: int, w: nat) -> int {
    x % (pow2(w) as int)
}

/// The two's-complement number that the literals spell under `m`.
pub open spec fn signed_number(m: Seq<bool>, bits: Seq<Lit>) -> int {
    number(m, bits) - bit_at(m, bits.last(), pow2(bits.len()))
}

impl Cnf {
    /// The assignment `m` satisfies every clause.
    pub open spec fn models(&self, m: Seq<bool>) -> bool {
        m.len() >= self.num_vars && satisfies(m, clause_views(self.clauses@))
    }

    /// The literals name allocated variables, and the cached constant is forced.
    pub open spec fn wf(&self) -> bool {
        &&& self.num_vars <= u32::MAX
        &&& forall|i: int|
            0 <= i < self.clauses@.len() ==> within(
                (#[trigger] self.clauses@[i])@,
                self.num_vars as int,
            )
        &&& self.true_lit matches Some(t) ==> t.var < self.num_vars && exists|i: int|
            0 <= i < self.clauses@.len() && (#[trigger] self.clauses@[i])@ == seq![t]
    }

    /// `k` more variables can be allocated.
    pub open spec fn room(&self, k: nat) -> bool {
        self.num_vars + k <= u32::MAX
    }

    /// This formula grew out of `o` without ruling out any of its models: each can be
    /// extended to the new variables.
    pub open spec fn grew(&self, o: &Cnf) -> bool {
        &&& o.num_vars <= self.num_vars
        &&& o.clauses@.len() <= self.clauses@.len()
        &&& forall|i: int| 0 <= i < o.clauses@.len() ==> #[trigger] self.clauses@[i] == o.clauses@[i]
        &&& forall|m: Seq<bool>|
            m.len() == o.num_vars && #[trigger] o.models(m) ==> exists|x: Seq<bool>|
                x.len() == self.num_vars && x.take(o.num_vars as int) == m && #[trigger] self.models(
                    x,
                )
    }

    /// A model of the grown formula is one of the formula that it grew from.
    pub proof fn lemma_grew_models(&self, o: &Cnf, m: Seq<bool>)
        requires
            self.grew(o),
            self.models(m),
        ensures
            o.models(m),
    {
        let new = clause_views(self.clauses@);
        let prior = clause_views(o.clauses@);
        assert forall|i: int| 0 <= i < prior.len() implies clause_true(m, #[trigger] prior[i]) by {
            assert(self.clauses@[i] == o.clauses@[i]);
            assert(clause_true(m, new[i]));
        }
    }

    /// Growing twice is growing.
    pub proof fn lemma_grew_trans(&self, b: &Cnf, a: &Cnf)
        requires
            self.grew(b),
            b.grew(a),
        ensures
            self.grew(a),
    {
        assert forall|i: int| 0 <= i < a.clauses@.len() implies #[trigger] self.clauses@[i]
            == a.clauses@[i] by {
            assert(b.clauses@[i] == a.clauses@[i]);
        }
        assert forall|m: Seq<bool>|
            m.len() == a.num_vars && #[trigger] a.models(m) implies exists|x: Seq<bool>|
            x.len() == self.num_vars && x.take(a.num_vars as int) == m && #[trigger] self.models(
                x,
            ) by {
            let y = choose|y: Seq<bool>|
                y.len() == b.num_vars && y.take(a.num_vars as int) == m && #[trigger] b.models(y);
            let x = choose|x: Seq<bool>|
                x.len() == self.num_vars && x.take(b.num_vars as int) == y && #[trigger] self.models(
                    x,
                );
            assert(x.take(a.num_vars as int) =~= y.take(a.num_vars as int));
        }
    }

    /// A formula has a model just where the formula that it grew from has one.
    pub proof fn equisatisfiable(&self, o: &Cnf)
        requires
            o.wf(),
            self.grew(o),
        ensures
            unsatisfiable(self.num_vars as nat, clause_views(self.clauses@)) <==> unsatisfiable(
                o.num_vars as nat,
                clause_views(o.clauses@),
            ),
    {
        let new = clause_views(self.clauses@);
        let prior = clause_views(o.clauses@);
        if !unsatisfiable(self.num_vars as nat, new) {
            let m = choose|m: Seq<bool>| m.len() == self.num_vars && satisfies(m, new);
            assert(self.models(m));
            self.lemma_grew_models(o, m);
            let cut = m.take(o.num_vars as int);
            assert forall|i: int| 0 <= i < prior.len() implies clause_true(cut, #[trigger] prior[i]) by {
                assert(clause_true(m, prior[i]));
                let l = choose|l: Lit| #[trigger] prior[i].contains(l) && lit_true(m, l);
                let k = choose|k: int| 0 <= k < prior[i].len() && prior[i][k] == l;
                assert(within(o.clauses@[i]@, o.num_vars as int));
                assert(o.clauses@[i]@[k].var < o.num_vars);
                assert(lit_true(cut, l));
            }
            assert(cut.len() == o.num_vars && satisfies(cut, prior));
            assert(!unsatisfiable(o.num_vars as nat, prior));
        }
        if !unsatisfiable(o.num_vars as nat, prior) {
            let m = choose|m: Seq<bool>| m.len() == o.num_vars && satisfies(m, prior);
            assert(o.models(m));
            let x = choose|x: Seq<bool>|
                x.len() == self.num_vars && x.take(o.num_vars as int) == m && #[trigger] self.models(
                    x,
                );
            assert(satisfies(x, new));
            assert(!unsatisfiable(self.num_vars as nat, new));
        }
    }

    /// Where the clauses together with literal `l` have no model, `l` is false in every
    /// model of the clauses.
    pub proof fn refuted_literal_is_false(&self, l: Lit, m: Seq<bool>)
        requires
            unsatisfiable(self.num_vars as nat, clause_views(self.clauses@).push(seq![l])),
            m.len() == self.num_vars,
            self.models(m),
        ensures
            !lit_true(m, l),
    {
        if lit_true(m, l) {
            let all = clause_views(self.clauses@).push(seq![l]);
            assert forall|i: int| 0 <= i < all.len() implies clause_true(m, #[trigger] all[i]) by {
                if i < self.clauses@.len() {
                    assert(clause_true(m, clause_views(self.clauses@)[i]));
                } else {
                    assert(all[i][0] == l);
                    assert(all[i].contains(l));
                }
            }
            assert(satisfies(m, all));
        }
    }

    /// A formula grew out of itself.
    pub proof fn lemma_grew_refl(&self)
        ensures
            self.grew(self),
    {
        assert forall|m: Seq<bool>| m.len() == self.num_vars && #[trigger] self.models(m) implies exists|
            x: Seq<bool>,
        |
            x.len() == self.num_vars && x.take(self.num_vars as int) == m && #[trigger] self.models(
                x,
            ) by {
            assert(m.take(self.num_vars as int) =~= m);
        }
    }

    /// One new variable whose value `f` computes, and clauses that this value satisfies.
    proof fn lemma_defined(&self, o: &Cnf, f: spec_fn(Seq<bool>) -> bool)
        requires
            o.wf(),
            self.num_vars == o.num_vars + 1,
            o.clauses@.len() <= self.clauses@.len(),
            forall|i: int|
                0 <= i < o.clauses@.len() ==> #[trigger] self.clauses@[i] == o.clauses@[i],
            forall|m: Seq<bool>, i: int|
                m.len() == o.num_vars && #[trigger] o.models(m) && o.clauses@.len() <= i
                    < self.clauses@.len() ==> clause_true(
                    m.push(f(m)),
                    (#[trigger] self.clauses@[i])@,
                ),
        ensures
            self.grew(o),
    {
        assert forall|m: Seq<bool>| m.len() == o.num_vars && #[trigger] o.models(m) implies exists|
            x: Seq<bool>,
        |
            x.len() == self.num_vars && x.take(o.num_vars as int) == m && #[trigger] self.models(
                x,
            ) by {
            let x = m.push(f(m));
            assert(x.take(o.num_vars as int) =~= m);
            let new = clause_views(self.clauses@);
            assert forall|i: int| 0 <= i < new.len() implies clause_true(x, #[trigger] new[i]) by {
                if i < o.clauses@.len() {
                    let c = clause_views(o.clauses@)[i];
                    assert(clause_true(m, c));
                    let l = choose|l: Lit| #[trigger] c.contains(l) && lit_true(m, l);
                    assert(within(o.clauses@[i]@, o.num_vars as int));
                    let k = choose|k: int| 0 <= k < c.len() && c[k] == l;
                    assert(c[k].var < o.num_vars);
                    assert(self.clauses@[i] == o.clauses@[i]);
                    assert(new[i].contains(l) && lit_true(x, l));
                } else {
                    assert(clause_true(x, self.clauses@[i]@));
                }
            }
            assert(self.models(x));
        }
    }

    /// A fresh variable, as its positive literal.
    pub fn new_var(&mut self) -> (l: Lit)
        requires
            old(self).wf(),
            old(self).room(1),
        ensures
            final(self).wf(),
            (final(self)@, l) == var_of(old(self)@),
            l == (Lit { var: old(self).num_vars as u32, neg: false }),
            final(self).num_vars == old(self).num_vars + 1,
            final(self).clauses == old(self).clauses,
            final(self).true_lit == old(self).true_lit,
    {
        let v: u32 = self.num_vars as u32;
        self.num_vars = self.num_vars + 1;
        assert forall|i: int| 0 <= i < self.clauses@.len() implies within(
            (#[trigger] self.clauses@[i])@,
            self.num_vars as int,
        ) by {
            assert(within(old(self).clauses@[i]@, old(self).num_vars as int));
        }
        Lit::pos(v)
    }

    /// Fresh variables, as their positive literals.
    pub fn fresh_bits(&mut self, w: usize) -> (bits: Vec<Lit>)
        requires
            old(self).wf(),
            old(self).room(w as nat),
        ensures
            final(self).wf(),
            final(self).num_vars == old(self).num_vars + w,
            final(self).clauses == old(self).clauses,
            bits@.len() == w,
            forall|k: int|
                0 <= k < w ==> #[trigger] bits@[k] == (Lit {
                    var: (old(self).num_vars + k) as u32,
                    neg: false,
                }),
    {
        let mut bits: Vec<Lit> = Vec::new();
        let mut i: usize = 0;
        while i < w
            invariant
                i <= w,
                self.wf(),
                old(self).room(w as nat),
                self.num_vars == old(self).num_vars + i,
                self.clauses == old(self).clauses,
                bits@.len() == i,
                forall|k: int|
                    0 <= k < i ==> #[trigger] bits@[k] == (Lit {
                        var: (old(self).num_vars + k) as u32,
                        neg: false,
                    }),
            decreases w - i,
        {
            let l = self.new_var();
            bits.push(l);
            i += 1;
        }
        bits
    }

    /// Require literals: each becomes a clause of its own.
    pub fn require(&mut self, l: Lit)
        requires
            old(self).wf(),
            l.var < old(self).num_vars,
        ensures
            final(self).wf(),
            final(self).num_vars == old(self).num_vars,
            clause_views(final(self).clauses@) == clause_views(old(self).clauses@).push(seq![l]),
    {
        let c = vec![l];
        assert(c@ =~= seq![l]);
        self.add_clause(c);
        assert(clause_views(self.clauses@) =~= clause_views(old(self).clauses@).push(seq![l]));
    }

    /// Add a clause.
    fn add_clause(&mut self, clause: Vec<Lit>)
        requires
            old(self).wf(),
            within(clause@, old(self).num_vars as int),
        ensures
            final(self).wf(),
            final(self).num_vars == old(self).num_vars,
            final(self).clauses@ == old(self).clauses@.push(clause),
            final(self).true_lit == old(self).true_lit,
            final(self)@ == with_clause(old(self)@, clause@),
    {
        self.clauses.push(clause);
        assert(clause_views(self.clauses@) =~= clause_views(old(self).clauses@).push(clause@));
        proof {
            if let Some(t) = self.true_lit {
                let i = choose|i: int|
                    0 <= i < old(self).clauses@.len() && (#[trigger] old(self).clauses@[i])@
                        == seq![t];
                assert(self.clauses@[i]@ == seq![t]);
            }
            assert forall|i: int| 0 <= i < self.clauses@.len() implies within(
                (#[trigger] self.clauses@[i])@,
                self.num_vars as int,
            ) by {
                if i < old(self).clauses@.len() {
                    assert(within(old(self).clauses@[i]@, old(self).num_vars as int));
                }
            }
        }
    }

    /// What a gate promises of the literal that it returns.
    pub open spec fn gate(&self, o: &Cnf, l: Lit, cost: nat) -> bool {
        &&& self.wf()
        &&& self.grew(o)
        &&& self.num_vars <= o.num_vars + cost
        &&& l.var < self.num_vars
    }

    /// A literal that is always true.
    pub fn lit_true(&mut self) -> (l: Lit)
        requires
            old(self).wf(),
            truth_of(old(self)@).0.vars <= u32::MAX,
        ensures
            final(self).gate(old(self), l, 1),
            (final(self)@, l) == truth_of(old(self)@),
            forall|m: Seq<bool>| #[trigger] final(self).models(m) ==> lit_true(m, l),
    {
        if let Some(l) = self.true_lit {
            proof {
                self.lemma_grew_refl();
                self.lemma_constant(l);
            }
            return l;
        }
        let l = self.new_var();
        let clause = vec![l];
        self.add_clause(clause);
        self.true_lit = Some(l);
        proof {
            assert(clause@ =~= seq![l]);
            let at = self.clauses@.len() - 1;
            assert(self.clauses@[at]@ == seq![l]);
            assert forall|m: Seq<bool>, i: int|
                m.len() == old(self).num_vars && #[trigger] old(self).models(m) && old(
                    self).clauses@.len() <= i < self.clauses@.len() implies clause_true(
                m.push(true),
                (#[trigger] self.clauses@[i])@,
            ) by {
                assert(clause@[0] == l);
                assert(clause@.contains(l));
                assert(lit_true(m.push(true), l));
            }
            self.lemma_defined(old(self), |m: Seq<bool>| true);
            self.lemma_constant(l);
        }
        l
    }

    proof fn lemma_constant(&self, t: Lit)
        requires
            self.wf(),
            self.true_lit == Some(t),
        ensures
            forall|m: Seq<bool>| #[trigger] self.models(m) ==> lit_true(m, t),
    {
        assert forall|m: Seq<bool>| #[trigger] self.models(m) implies lit_true(m, t) by {
            let i = choose|i: int|
                0 <= i < self.clauses@.len() && (#[trigger] self.clauses@[i])@ == seq![t];
            assert(clause_true(m, clause_views(self.clauses@)[i]));
        }
    }

    /// A literal that is always false.
    pub fn lit_false(&mut self) -> (l: Lit)
        requires
            old(self).wf(),
            truth_of(old(self)@).0.vars <= u32::MAX,
        ensures
            final(self).gate(old(self), l, 1),
            (final(self)@, l) == falsity_of(old(self)@),
            forall|m: Seq<bool>| #[trigger] final(self).models(m) ==> !lit_true(m, l),
    {
        let t = self.lit_true();
        let l = t.negated();
        l
    }

    /// Whether `l` is the cached true constant.
    fn is_true(&self, l: Lit) -> (r: bool)
        requires
            self.wf(),
        ensures
            r == (self.true_lit == Some(l)),
            r ==> forall|m: Seq<bool>| #[trigger] self.models(m) ==> lit_true(m, l),
    {
        match self.true_lit {
            Some(t) => {
                proof {
                    self.lemma_constant(t);
                }
                t == l
            },
            None => false,
        }
    }

    /// Whether `l` is the cached false constant.
    fn is_false(&self, l: Lit) -> (r: bool)
        requires
            self.wf(),
        ensures
            r == (self.true_lit == Some(not_lit(l))),
            r ==> forall|m: Seq<bool>| #[trigger] self.models(m) ==> !lit_true(m, l),
    {
        self.is_true(l.negated())
    }

    /// A literal that stands for `a ∧ b`.
    pub fn and2(&mut self, a: Lit, b: Lit) -> (o: Lit)
        requires
            old(self).wf(),
            and_of(old(self)@, a, b).0.vars <= u32::MAX,
            a.var < old(self).num_vars,
            b.var < old(self).num_vars,
        ensures
            final(self).gate(old(self), o, 1),
            (final(self)@, o) == and_of(old(self)@, a, b),
            forall|m: Seq<bool>| #[trigger]
                final(self).models(m) ==> lit_true(m, o) == (lit_true(m, a) && lit_true(m, b)),
    {
        proof {
            self.lemma_grew_refl();
        }
        if self.is_false(a) || self.is_false(b) {
            let ghost before = *self;
            let l = self.lit_false();
            proof {
                assert forall|m: Seq<bool>| #[trigger] self.models(m) implies !(lit_true(m, a)
                    && lit_true(m, b)) by {
                    self.lemma_grew_models(&before, m);
                }
            }
            return l;
        }
        if self.is_true(a) {
            return b;
        }
        if self.is_true(b) {
            return a;
        }
        if a == b {
            return a;
        }
        if a == b.negated() {
            return self.lit_false();
        }
        let o = self.new_var();
        let c0 = vec![a.negated(), b.negated(), o];
        let c1 = vec![a, o.negated()];
        let c2 = vec![b, o.negated()];
        assert(c0@ =~= seq![not_lit(a), not_lit(b), o]);
        assert(c1@ =~= seq![a, not_lit(o)]);
        assert(c2@ =~= seq![b, not_lit(o)]);
        self.add_clause(c0);
        self.add_clause(c1);
        self.add_clause(c2);
        proof {
            let n = old(self).clauses@.len() as int;
            assert(self.clauses@[n] == c0 && self.clauses@[n + 1] == c1 && self.clauses@[n + 2]
                == c2);
            let f = |m: Seq<bool>| lit_true(m, a) && lit_true(m, b);
            assert forall|m: Seq<bool>, i: int|
                m.len() == old(self).num_vars && #[trigger] old(self).models(m) && n <= i
                    < self.clauses@.len() implies clause_true(
                m.push(f(m)),
                (#[trigger] self.clauses@[i])@,
            ) by {
                let x = m.push(f(m));
                lemma_three(x, c0@);
                lemma_two(x, c1@);
                lemma_two(x, c2@);
            }
            self.lemma_defined(old(self), f);
            assert forall|m: Seq<bool>| #[trigger] self.models(m) implies lit_true(m, o) == (
            lit_true(m, a) && lit_true(m, b)) by {
                let v = clause_views(self.clauses@);
                assert(clause_true(m, v[n]) && clause_true(m, v[n + 1]) && clause_true(
                    m,
                    v[n + 2],
                ));
                lemma_three(m, c0@);
                lemma_two(m, c1@);
                lemma_two(m, c2@);
            }
        }
        o
    }

    /// A literal that stands for `a ∨ b`.
    pub fn or2(&mut self, a: Lit, b: Lit) -> (o: Lit)
        requires
            old(self).wf(),
            or_of(old(self)@, a, b).0.vars <= u32::MAX,
            a.var < old(self).num_vars,
            b.var < old(self).num_vars,
        ensures
            final(self).gate(old(self), o, 1),
            (final(self)@, o) == or_of(old(self)@, a, b),
            forall|m: Seq<bool>| #[trigger]
                final(self).models(m) ==> lit_true(m, o) == (lit_true(m, a) || lit_true(m, b)),
    {
        proof {
            self.lemma_grew_refl();
        }
        if self.is_true(a) || self.is_true(b) {
            let ghost before = *self;
            let l = self.lit_true();
            proof {
                assert forall|m: Seq<bool>| #[trigger] self.models(m) implies lit_true(m, a)
                    || lit_true(m, b) by {
                    self.lemma_grew_models(&before, m);
                }
            }
            return l;
        }
        if self.is_false(a) {
            return b;
        }
        if self.is_false(b) {
            return a;
        }
        if a == b {
            return a;
        }
        if a == b.negated() {
            return self.lit_true();
        }
        let o = self.new_var();
        let c0 = vec![a, b, o.negated()];
        let c1 = vec![a.negated(), o];
        let c2 = vec![b.negated(), o];
        assert(c0@ =~= seq![a, b, not_lit(o)]);
        assert(c1@ =~= seq![not_lit(a), o]);
        assert(c2@ =~= seq![not_lit(b), o]);
        self.add_clause(c0);
        self.add_clause(c1);
        self.add_clause(c2);
        proof {
            let n = old(self).clauses@.len() as int;
            assert(self.clauses@[n] == c0 && self.clauses@[n + 1] == c1 && self.clauses@[n + 2]
                == c2);
            let f = |m: Seq<bool>| lit_true(m, a) || lit_true(m, b);
            assert forall|m: Seq<bool>, i: int|
                m.len() == old(self).num_vars && #[trigger] old(self).models(m) && n <= i
                    < self.clauses@.len() implies clause_true(
                m.push(f(m)),
                (#[trigger] self.clauses@[i])@,
            ) by {
                let x = m.push(f(m));
                lemma_three(x, c0@);
                lemma_two(x, c1@);
                lemma_two(x, c2@);
            }
            self.lemma_defined(old(self), f);
            assert forall|m: Seq<bool>| #[trigger] self.models(m) implies lit_true(m, o) == (
            lit_true(m, a) || lit_true(m, b)) by {
                let v = clause_views(self.clauses@);
                assert(clause_true(m, v[n]) && clause_true(m, v[n + 1]) && clause_true(
                    m,
                    v[n + 2],
                ));
                lemma_three(m, c0@);
                lemma_two(m, c1@);
                lemma_two(m, c2@);
            }
        }
        o
    }

    /// A literal that stands for `a ⊕ b`.
    pub fn xor2(&mut self, a: Lit, b: Lit) -> (o: Lit)
        requires
            old(self).wf(),
            xor_of(old(self)@, a, b).0.vars <= u32::MAX,
            a.var < old(self).num_vars,
            b.var < old(self).num_vars,
        ensures
            final(self).gate(old(self), o, 1),
            (final(self)@, o) == xor_of(old(self)@, a, b),
            forall|m: Seq<bool>| #[trigger]
                final(self).models(m) ==> lit_true(m, o) == (lit_true(m, a) != lit_true(m, b)),
    {
        proof {
            self.lemma_grew_refl();
        }
        if self.is_false(a) {
            return b;
        }
        if self.is_false(b) {
            return a;
        }
        if self.is_true(a) {
            return b.negated();
        }
        if self.is_true(b) {
            return a.negated();
        }
        if a == b {
            return self.lit_false();
        }
        if a == b.negated() {
            return self.lit_true();
        }
        let o = self.new_var();
        let c0 = vec![a.negated(), b.negated(), o.negated()];
        let c1 = vec![a, b, o.negated()];
        let c2 = vec![a, b.negated(), o];
        let c3 = vec![a.negated(), b, o];
        assert(c0@ =~= seq![not_lit(a), not_lit(b), not_lit(o)]);
        assert(c1@ =~= seq![a, b, not_lit(o)]);
        assert(c2@ =~= seq![a, not_lit(b), o]);
        assert(c3@ =~= seq![not_lit(a), b, o]);
        self.add_clause(c0);
        self.add_clause(c1);
        self.add_clause(c2);
        self.add_clause(c3);
        proof {
            let n = old(self).clauses@.len() as int;
            assert(self.clauses@[n] == c0 && self.clauses@[n + 1] == c1 && self.clauses@[n + 2]
                == c2 && self.clauses@[n + 3] == c3);
            let f = |m: Seq<bool>| lit_true(m, a) != lit_true(m, b);
            assert forall|m: Seq<bool>, i: int|
                m.len() == old(self).num_vars && #[trigger] old(self).models(m) && n <= i
                    < self.clauses@.len() implies clause_true(
                m.push(f(m)),
                (#[trigger] self.clauses@[i])@,
            ) by {
                let x = m.push(f(m));
                lemma_three(x, c0@);
                lemma_three(x, c1@);
                lemma_three(x, c2@);
                lemma_three(x, c3@);
            }
            self.lemma_defined(old(self), f);
            assert forall|m: Seq<bool>| #[trigger] self.models(m) implies lit_true(m, o) == (
            lit_true(m, a) != lit_true(m, b)) by {
                let v = clause_views(self.clauses@);
                assert(clause_true(m, v[n]) && clause_true(m, v[n + 1]) && clause_true(m, v[n + 2])
                    && clause_true(m, v[n + 3]));
                lemma_three(m, c0@);
                lemma_three(m, c1@);
                lemma_three(m, c2@);
                lemma_three(m, c3@);
            }
        }
        o
    }

    /// A literal that stands for `a` where `s` holds and for `b` where it does not.
    pub fn mux(&mut self, s: Lit, a: Lit, b: Lit) -> (o: Lit)
        requires
            old(self).wf(),
            mux_of(old(self)@, s, a, b).0.vars <= u32::MAX,
            s.var < old(self).num_vars,
            a.var < old(self).num_vars,
            b.var < old(self).num_vars,
        ensures
            final(self).gate(old(self), o, 3),
            (final(self)@, o) == mux_of(old(self)@, s, a, b),
            forall|m: Seq<bool>| #[trigger]
                final(self).models(m) ==> lit_true(m, o) == if lit_true(m, s) {
                    lit_true(m, a)
                } else {
                    lit_true(m, b)
                },
    {
        proof {
            self.lemma_grew_refl();
        }
        if self.is_true(s) {
            return a;
        }
        if self.is_false(s) {
            return b;
        }
        if a == b {
            return a;
        }
        let t = self.and2(s, a);
        let ghost g1 = *self;
        let e = self.and2(s.negated(), b);
        let ghost g2 = *self;
        let o = self.or2(t, e);
        proof {
            g2.lemma_grew_trans(&g1, old(self));
            self.lemma_grew_trans(&g2, old(self));
            assert forall|m: Seq<bool>| #[trigger] self.models(m) implies lit_true(m, o)
                == if lit_true(m, s) {
                lit_true(m, a)
            } else {
                lit_true(m, b)
            } by {
                self.lemma_grew_models(&g2, m);
                g2.lemma_grew_models(&g1, m);
            }
        }
        o
    }

    /// A literal that stands for `a ↔ b`.
    pub fn iff(&mut self, a: Lit, b: Lit) -> (o: Lit)
        requires
            old(self).wf(),
            xor_of(old(self)@, a, b).0.vars <= u32::MAX,
            a.var < old(self).num_vars,
            b.var < old(self).num_vars,
        ensures
            final(self).gate(old(self), o, 1),
            (final(self)@, not_lit(o)) == xor_of(old(self)@, a, b),
            forall|m: Seq<bool>| #[trigger]
                final(self).models(m) ==> lit_true(m, o) == (lit_true(m, a) == lit_true(m, b)),
    {
        let x = self.xor2(a, b);
        x.negated()
    }

    /// A literal that stands for the conjunction of `lits`.
    pub fn big_and(&mut self, lits: &[Lit]) -> (o: Lit)
        requires
            old(self).wf(),
            old(self).room(lits@.len() + 1),
            within(lits@, old(self).num_vars as int),
        ensures
            final(self).gate(old(self), o, lits@.len() + 1),
            forall|m: Seq<bool>| #[trigger]
                final(self).models(m) ==> (lit_true(m, o) <==> forall|k: int|
                    0 <= k < lits@.len() ==> lit_true(m, #[trigger] lits@[k])),
    {
        if lits.len() == 0 {
            return self.lit_true();
        }
        proof {
            self.lemma_grew_refl();
        }
        let mut acc = lits[0];
        let mut i: usize = 1;
        while i < lits.len()
            invariant
                1 <= i <= lits@.len(),
                old(self).room(lits@.len() + 1),
                within(lits@, old(self).num_vars as int),
                self.gate(old(self), acc, i as nat),
                forall|m: Seq<bool>| #[trigger]
                    self.models(m) ==> (lit_true(m, acc) <==> forall|k: int|
                        0 <= k < i ==> lit_true(m, #[trigger] lits@[k])),
            decreases lits@.len() - i,
        {
            let ghost before = *self;
            let ghost prior = acc;
            assert(lits@[i as int].var < old(self).num_vars);
            acc = self.and2(acc, lits[i]);
            proof {
                self.lemma_grew_trans(&before, old(self));
                assert forall|m: Seq<bool>| #[trigger] self.models(m) implies (lit_true(m, acc)
                    <==> forall|k: int| 0 <= k < i + 1 ==> lit_true(m, #[trigger] lits@[k])) by {
                    self.lemma_grew_models(&before, m);
                    assert(lit_true(m, prior) <==> forall|k: int|
                        0 <= k < i ==> lit_true(m, #[trigger] lits@[k]));
                }
            }
            i += 1;
        }
        acc
    }

    /// A literal that stands for the disjunction of `lits`.
    pub fn big_or(&mut self, lits: &[Lit]) -> (o: Lit)
        requires
            old(self).wf(),
            old(self).room(lits@.len() + 1),
            within(lits@, old(self).num_vars as int),
        ensures
            final(self).gate(old(self), o, lits@.len() + 1),
            forall|m: Seq<bool>| #[trigger]
                final(self).models(m) ==> (lit_true(m, o) <==> exists|k: int|
                    0 <= k < lits@.len() && lit_true(m, #[trigger] lits@[k])),
    {
        if lits.len() == 0 {
            return self.lit_false();
        }
        proof {
            self.lemma_grew_refl();
        }
        let mut acc = lits[0];
        let mut i: usize = 1;
        proof {
            assert forall|m: Seq<bool>| #[trigger] self.models(m) implies (lit_true(m, acc)
                <==> exists|k: int| 0 <= k < 1 && lit_true(m, #[trigger] lits@[k])) by {
                if lit_true(m, acc) {
                    assert(lit_true(m, lits@[0]));
                }
            }
        }
        while i < lits.len()
            invariant
                1 <= i <= lits@.len(),
                old(self).room(lits@.len() + 1),
                within(lits@, old(self).num_vars as int),
                self.gate(old(self), acc, i as nat),
                forall|m: Seq<bool>| #[trigger]
                    self.models(m) ==> (lit_true(m, acc) <==> exists|k: int|
                        0 <= k < i && lit_true(m, #[trigger] lits@[k])),
            decreases lits@.len() - i,
        {
            let ghost before = *self;
            let ghost prior = acc;
            assert(lits@[i as int].var < old(self).num_vars);
            acc = self.or2(acc, lits[i]);
            proof {
                self.lemma_grew_trans(&before, old(self));
                assert forall|m: Seq<bool>| #[trigger] self.models(m) implies (lit_true(m, acc)
                    <==> exists|k: int| 0 <= k < i + 1 && lit_true(m, #[trigger] lits@[k])) by {
                    self.lemma_grew_models(&before, m);
                    assert(lit_true(m, prior) <==> exists|k: int|
                        0 <= k < i && lit_true(m, #[trigger] lits@[k]));
                    if lit_true(m, lits@[i as int]) {
                        assert(lit_true(m, lits@[i as int]));
                    }
                }
            }
            i += 1;
        }
        acc
    }

    /// One full adder: the sum bit and the carry.
    pub fn full_adder(&mut self, a: Lit, b: Lit, cin: Lit) -> (r: (Lit, Lit))
        requires
            old(self).wf(),
            old(self).room(5),
            a.var < old(self).num_vars,
            b.var < old(self).num_vars,
            cin.var < old(self).num_vars,
        ensures
            final(self).gate(old(self), r.0, 5),
            r.1.var < final(self).num_vars,
            (final(self)@, r.0, r.1) == full_adder_of(old(self)@, a, b, cin),
            forall|m: Seq<bool>| #[trigger]
                final(self).models(m) ==> bit_at(m, r.0, 1) + bit_at(m, r.1, 2) == bit_at(m, a, 1)
                    + bit_at(m, b, 1) + bit_at(m, cin, 1),
    {
        let axb = self.xor2(a, b);
        let ghost g1 = *self;
        let sum = self.xor2(axb, cin);
        let ghost g2 = *self;
        let ab = self.and2(a, b);
        let ghost g3 = *self;
        let cx = self.and2(cin, axb);
        let ghost g4 = *self;
        let cout = self.or2(ab, cx);
        proof {
            g2.lemma_grew_trans(&g1, old(self));
            g3.lemma_grew_trans(&g2, old(self));
            g4.lemma_grew_trans(&g3, old(self));
            self.lemma_grew_trans(&g4, old(self));
            assert forall|m: Seq<bool>| #[trigger] self.models(m) implies bit_at(m, sum, 1)
                + bit_at(m, cout, 2) == bit_at(m, a, 1) + bit_at(m, b, 1) + bit_at(m, cin, 1) by {
                self.lemma_grew_models(&g4, m);
                g4.lemma_grew_models(&g3, m);
                g3.lemma_grew_models(&g2, m);
                g2.lemma_grew_models(&g1, m);
            }
        }
        (sum, cout)
    }

    /// What a circuit promises of the literals that it returns.
    pub open spec fn circuit(&self, o: &Cnf, bits: Seq<Lit>, cost: nat) -> bool {
        &&& self.wf()
        &&& self.grew(o)
        &&& self.num_vars <= o.num_vars + cost
        &&& within(bits, self.num_vars as int)
    }

    /// Ripple-carry addition of two vectors of one width: the sum bits and the carry out.
    pub fn adder(&mut self, a: &[Lit], b: &[Lit], cin: Lit) -> (r: (Vec<Lit>, Lit))
        requires
            old(self).wf(),
            a@.len() == b@.len(),
            old(self).room(5 * a@.len()),
            within(a@, old(self).num_vars as int),
            within(b@, old(self).num_vars as int),
            cin.var < old(self).num_vars,
        ensures
            final(self).circuit(old(self), r.0@, 5 * a@.len()),
            r.1.var < final(self).num_vars,
            r.0@.len() == a@.len(),
            (final(self)@, r.0@, r.1) == adder_of(old(self)@, a@, b@, cin, a@.len() as int),
            forall|m: Seq<bool>| #[trigger]
                final(self).models(m) ==> number(m, r.0@) + bit_at(m, r.1, pow2(a@.len()))
                    == number(m, a@) + number(m, b@) + bit_at(m, cin, 1),
    {
        let mut carry = cin;
        let mut out: Vec<Lit> = Vec::new();
        let mut i: usize = 0;
        proof {
            self.lemma_grew_refl();
            lemma2_to64();
            assert(a@.take(0) =~= Seq::<Lit>::empty());
            assert(b@.take(0) =~= Seq::<Lit>::empty());
        }
        while i < a.len()
            invariant
                i <= a@.len(),
                a@.len() == b@.len(),
                old(self).room(5 * a@.len()),
                within(a@, old(self).num_vars as int),
                within(b@, old(self).num_vars as int),
                self.circuit(old(self), out@, (5 * i) as nat),
                carry.var < self.num_vars,
                out@.len() == i,
                (self@, out@, carry) == adder_of(old(self)@, a@, b@, cin, i as int),
                forall|m: Seq<bool>| #[trigger]
                    self.models(m) ==> number(m, out@) + bit_at(m, carry, pow2(i as nat))
                        == number(m, a@.take(i as int)) + number(m, b@.take(i as int)) + bit_at(
                        m,
                        cin,
                        1,
                    ),
            decreases a@.len() - i,
        {
            let ghost before = *self;
            let ghost prior = out@;
            let ghost carried = carry;
            assert(a@[i as int].var < old(self).num_vars && b@[i as int].var < old(self).num_vars);
            let (s, c) = self.full_adder(a[i], b[i], carry);
            out.push(s);
            carry = c;
            proof {
                self.lemma_grew_trans(&before, old(self));
                lemma_pow2_unfold((i + 1) as nat);
                lemma_pow2_pos(i as nat);
                assert(a@.take(i + 1).drop_last() =~= a@.take(i as int));
                assert(b@.take(i + 1).drop_last() =~= b@.take(i as int));
                assert(out@.drop_last() =~= prior);
                assert forall|m: Seq<bool>| #[trigger] self.models(m) implies number(m, out@)
                    + bit_at(m, carry, pow2((i + 1) as nat)) == number(m, a@.take(i + 1)) + number(
                    m,
                    b@.take(i + 1),
                ) + bit_at(m, cin, 1) by {
                    self.lemma_grew_models(&before, m);
                    assert(bit_at(m, s, 1) + bit_at(m, c, 2) == bit_at(m, a@[i as int], 1) + bit_at(
                        m,
                        b@[i as int],
                        1,
                    ) + bit_at(m, carried, 1));
                    assert(number(m, prior) + bit_at(m, carried, pow2(i as nat)) == number(
                        m,
                        a@.take(i as int),
                    ) + number(m, b@.take(i as int)) + bit_at(m, cin, 1));
                }
            }
            i += 1;
        }
        proof {
            assert(a@.take(a@.len() as int) =~= a@);
            assert(b@.take(b@.len() as int) =~= b@);
        }
        (out, carry)
    }

    /// `a + b` modulo two to the width.
    pub fn add(&mut self, a: &[Lit], b: &[Lit]) -> (r: Vec<Lit>)
        requires
            old(self).wf(),
            a@.len() == b@.len(),
            old(self).room(5 * a@.len() + 1),
            within(a@, old(self).num_vars as int),
            within(b@, old(self).num_vars as int),
        ensures
            final(self).circuit(old(self), r@, 5 * a@.len() + 1),
            r@.len() == a@.len(),
            (final(self)@, r@) == add_of(old(self)@, a@, b@),
            forall|m: Seq<bool>| #[trigger]
                final(self).models(m) ==> number(m, r@) == wrapped((number(m, a@) + number(m, b@)) as int, a@.len()),
    {
        let cin = self.lit_false();
        let ghost g1 = *self;
        let (r, carry) = self.adder(a, b, cin);
        proof {
            self.lemma_grew_trans(&g1, old(self));
            assert forall|m: Seq<bool>| #[trigger] self.models(m) implies number(m, r@) == wrapped((number(m, a@) + number(m, b@)) as int, a@.len()) by {
                self.lemma_grew_models(&g1, m);
                lemma_number_bound(m, r@);
                lemma_wrap(
                    (number(m, a@) + number(m, b@)) as int,
                    number(m, r@) as int,
                    if lit_true(m, carry) { 1 } else { 0 },
                    pow2(a@.len()) as int,
                );
            }
        }
        r
    }

    /// `a - b` modulo two to the width, with a carry that is set where `b <= a`.
    pub fn sub_with_borrow(&mut self, a: &[Lit], b: &[Lit]) -> (r: (Vec<Lit>, Lit))
        requires
            old(self).wf(),
            a@.len() == b@.len(),
            old(self).room(5 * a@.len() + 1),
            within(a@, old(self).num_vars as int),
            within(b@, old(self).num_vars as int),
        ensures
            final(self).circuit(old(self), r.0@, 5 * a@.len() + 1),
            r.0@.len() == a@.len(),
            r.1.var < final(self).num_vars,
            forall|m: Seq<bool>| #[trigger]
                final(self).models(m) ==> number(m, r.0@) == wrapped(number(m, a@) - number(m, b@), a@.len()),
            forall|m: Seq<bool>| #[trigger]
                final(self).models(m) ==> lit_true(m, r.1) == (number(m, b@) <= number(m, a@)),
    {
        let mut nb: Vec<Lit> = Vec::new();
        let mut i: usize = 0;
        while i < b.len()
            invariant
                i <= b@.len(),
                nb@.len() == i,
                forall|k: int| 0 <= k < i ==> #[trigger] nb@[k] == not_lit(b@[k]),
            decreases b@.len() - i,
        {
            nb.push(b[i].negated());
            i += 1;
        }
        let cin = self.lit_true();
        let ghost g1 = *self;
        assert(within(nb@, self.num_vars as int)) by {
            assert forall|k: int| 0 <= k < nb@.len() implies (#[trigger] nb@[k]).var
                < self.num_vars by {
                assert(b@[k].var < old(self).num_vars);
            }
        }
        let (r, carry) = self.adder(a, nb.as_slice(), cin);
        proof {
            self.lemma_grew_trans(&g1, old(self));
            assert forall|m: Seq<bool>| #[trigger] self.models(m) implies number(m, r@) == wrapped(number(m, a@) - number(m, b@), a@.len()) && lit_true(m, carry) == (number(m, b@)
                <= number(m, a@)) by {
                self.lemma_grew_models(&g1, m);
                lemma_number_bound(m, r@);
                lemma_number_bound(m, a@);
                lemma_number_bound(m, b@);
                lemma_number_complement(m, b@, nb@);
                lemma_wrap(
                    number(m, a@) - number(m, b@),
                    number(m, r@) as int,
                    if lit_true(m, carry) { 0 } else { -1 },
                    pow2(a@.len()) as int,
                );
            }
        }
        (r, carry)
    }

    /// `a - b` modulo two to the width.
    pub fn sub(&mut self, a: &[Lit], b: &[Lit]) -> (r: Vec<Lit>)
        requires
            old(self).wf(),
            a@.len() == b@.len(),
            old(self).room(5 * a@.len() + 1),
            within(a@, old(self).num_vars as int),
            within(b@, old(self).num_vars as int),
        ensures
            final(self).circuit(old(self), r@, 5 * a@.len() + 1),
            r@.len() == a@.len(),
            forall|m: Seq<bool>| #[trigger]
                final(self).models(m) ==> number(m, r@) == wrapped(number(m, a@) - number(m, b@), a@.len()),
    {
        let (r, _) = self.sub_with_borrow(a, b);
        r
    }

    /// `a * b` modulo two to the width, by shifting and adding.
    pub fn mul(&mut self, a: &[Lit], b: &[Lit]) -> (r: Vec<Lit>)
        requires
            old(self).wf(),
            a@.len() == b@.len(),
            old(self).room((1 + a@.len() * (6 * a@.len() + 1)) as nat),
            within(a@, old(self).num_vars as int),
            within(b@, old(self).num_vars as int),
        ensures
            final(self).circuit(old(self), r@, (1 + a@.len() * (6 * a@.len() + 1)) as nat),
            r@.len() == a@.len(),
            (final(self)@, r@) == mul_of(old(self)@, a@, b@),
            forall|k: int| #[trigger]
                only_bit(old(self)@, b@, k) ==> final(self)@ == old(self)@ && r@ == shifted_left(
                    a@,
                    k,
                    not_lit(old(self)@.constant->0),
                ),
            forall|m: Seq<bool>| #[trigger]
                final(self).models(m) ==> number(m, r@) == wrapped(
                    (number(m, a@) * number(m, b@)) as int,
                    a@.len(),
                ),
    {
        let w: usize = a.len();
        let ghost step = (6 * a@.len() + 1) as int;
        let zero = self.lit_false();
        let mut acc: Vec<Lit> = Vec::new();
        let mut k: usize = 0;
        while k < w
            invariant
                k <= w,
                acc@.len() == k,
                forall|p: int| 0 <= p < k ==> #[trigger] acc@[p] == zero,
            decreases w - k,
        {
            acc.push(zero);
            k += 1;
        }
        let mut j: usize = 0;
        let ghost start = self@;
        assert(acc@ =~= Seq::new(w as nat, |p: int| zero));
        proof {
            assert(0 * step == 0);
            assert(b@.take(0) =~= Seq::<Lit>::empty());
            assert forall|m: Seq<bool>| #[trigger] self.models(m) implies number(m, acc@)
                == wrapped((number(m, a@) * number(m, b@.take(0))) as int, w as nat) by {
                lemma_number_zero(m, acc@);
                assert(number(m, a@) * 0 == 0);
                lemma_pow2_pos(w as nat);
                lemma_wrap(0, 0, 0, pow2(w as nat) as int);
            }
        }
        while j < w
            invariant
                j <= w,
                w == a@.len(),
                a@.len() == b@.len(),
                step == 6 * w + 1,
                old(self).room((1 + a@.len() * (6 * a@.len() + 1)) as nat),
                within(a@, old(self).num_vars as int),
                within(b@, old(self).num_vars as int),
                self.circuit(old(self), acc@, (1 + j * step) as nat),
                acc@.len() == w,
                (start, zero) == falsity_of(old(self)@),
                (self@, acc@) == products_of(start, a@, b@, zero, j as int),
                zero.var < self.num_vars,
                forall|m: Seq<bool>| #[trigger] self.models(m) ==> !lit_true(m, zero),
                forall|m: Seq<bool>| #[trigger]
                    self.models(m) ==> number(m, acc@) == wrapped(
                        (number(m, a@) * number(m, b@.take(j as int))) as int,
                        w as nat,
                    ),
            decreases w - j,
        {
            let ghost before = *self;
            proof {
                assert(1 + (j + 1) * step <= 1 + w * step) by (nonlinear_arith)
                    requires
                        j + 1 <= w,
                        step >= 0,
                ;
                assert((j + 1) * step == j * step + step) by (nonlinear_arith);
                assert(b@[j as int].var < old(self).num_vars);
            }
            let pp = self.partial_product(a, b[j], j, zero);
            let ghost g1 = *self;
            acc = self.add(acc.as_slice(), pp.as_slice());
            proof {
                self.lemma_grew_trans(&g1, &before);
                self.lemma_grew_trans(&before, old(self));
                assert forall|m: Seq<bool>| #[trigger] self.models(m) implies !lit_true(m, zero)
                    && number(m, acc@) == wrapped(
                    (number(m, a@) * number(m, b@.take(j + 1))) as int,
                    w as nat,
                ) by {
                    self.lemma_grew_models(&g1, m);
                    g1.lemma_grew_models(&before, m);
                    assert(b@.take(j + 1).drop_last() =~= b@.take(j as int));
                    lemma_pow2_pos(w as nat);
                    lemma_accumulate(
                        number(m, a@) as int,
                        number(m, b@.take(j as int)) as int,
                        bit_at(m, b@[j as int], pow2(j as nat)) as int,
                        pow2(w as nat) as int,
                    );
                }
            }
            j += 1;
        }
        proof {
            assert(b@.take(w as int) =~= b@);
            assert forall|k: int| #[trigger] only_bit(old(self)@, b@, k) implies self@ == old(
                self)@ && acc@ == shifted_left(a@, k, not_lit(old(self)@.constant->0)) by {
                powers_of_two_shift(old(self)@, a@, b@, k);
            }
        }
        acc
    }

    /// The bits of `a` shifted left by `j`, where `bj` holds, and zeros where not.
    fn partial_product(&mut self, a: &[Lit], bj: Lit, j: usize, zero: Lit) -> (r: Vec<Lit>)
        requires
            old(self).wf(),
            j <= a@.len(),
            old(self).room(a@.len()),
            within(a@, old(self).num_vars as int),
            bj.var < old(self).num_vars,
            zero.var < old(self).num_vars,
            forall|m: Seq<bool>| #[trigger] old(self).models(m) ==> !lit_true(m, zero),
        ensures
            final(self).circuit(old(self), r@, a@.len()),
            r@.len() == a@.len(),
            (final(self)@, r@) == product_of(old(self)@, a@, bj, j as int, zero, a@.len() as int),
            forall|m: Seq<bool>| #[trigger]
                final(self).models(m) ==> number(m, r@) == wrapped(
                    (number(m, a@) * bit_at(m, bj, pow2(j as nat))) as int,
                    a@.len(),
                ),
    {
        let w: usize = a.len();
        let mut pp: Vec<Lit> = Vec::new();
        let mut i: usize = 0;
        proof {
            self.lemma_grew_refl();
        }
        while i < w
            invariant
                i <= w,
                w == a@.len(),
                j <= w,
                old(self).room(a@.len()),
                within(a@, old(self).num_vars as int),
                bj.var < old(self).num_vars,
                zero.var < old(self).num_vars,
                forall|m: Seq<bool>| #[trigger] old(self).models(m) ==> !lit_true(m, zero),
                self.circuit(old(self), pp@, i as nat),
                pp@.len() == i,
                (self@, pp@) == product_of(old(self)@, a@, bj, j as int, zero, i as int),
                forall|m: Seq<bool>, k: int|
                    #[trigger] self.models(m) && 0 <= k < i ==> lit_true(m, #[trigger] pp@[k]) == (k
                        >= j && lit_true(m, a@[k - j]) && lit_true(m, bj)),
            decreases w - i,
        {
            let ghost before = *self;
            let ghost prior = pp@;
            proof {
                self.lemma_grew_refl();
            }
            let bit = if i < j {
                zero
            } else {
                assert(a@[i - j].var < old(self).num_vars);
                self.and2(a[i - j], bj)
            };
            pp.push(bit);
            proof {
                self.lemma_grew_trans(&before, old(self));
                assert forall|m: Seq<bool>, k: int|
                    #[trigger] self.models(m) && 0 <= k < i + 1 implies lit_true(
                    m,
                    #[trigger] pp@[k],
                ) == (k >= j && lit_true(m, a@[k - j]) && lit_true(m, bj)) by {
                    self.lemma_grew_models(&before, m);
                    before.lemma_grew_models(old(self), m);
                    if k < i {
                        assert(pp@[k] == prior[k]);
                    }
                }
            }
            i += 1;
        }
        proof {
            assert forall|m: Seq<bool>| #[trigger] self.models(m) implies number(m, pp@) == wrapped(
                (number(m, a@) * bit_at(m, bj, pow2(j as nat))) as int,
                a@.len(),
            ) by {
                lemma_shifted(m, a@, pp@, bj, j as int);
            }
        }
        pp
    }

    /// A literal that stands for unsigned `a < b`.
    pub fn ult(&mut self, a: &[Lit], b: &[Lit]) -> (o: Lit)
        requires
            old(self).wf(),
            a@.len() == b@.len(),
            old(self).room(5 * a@.len() + 1),
            within(a@, old(self).num_vars as int),
            within(b@, old(self).num_vars as int),
        ensures
            final(self).gate(old(self), o, 5 * a@.len() + 1),
            forall|m: Seq<bool>| #[trigger]
                final(self).models(m) ==> lit_true(m, o) == (number(m, a@) < number(m, b@)),
    {
        let (_, carry) = self.sub_with_borrow(a, b);
        carry.negated()
    }

    /// A literal that stands for signed `a < b`.
    pub fn slt(&mut self, a: &[Lit], b: &[Lit]) -> (o: Lit)
        requires
            old(self).wf(),
            a@.len() == b@.len(),
            a@.len() > 0,
            old(self).room(5 * a@.len() + 5),
            within(a@, old(self).num_vars as int),
            within(b@, old(self).num_vars as int),
        ensures
            final(self).gate(old(self), o, 5 * a@.len() + 5),
            forall|m: Seq<bool>| #[trigger]
                final(self).models(m) ==> lit_true(m, o) == (signed_number(m, a@) < signed_number(
                    m,
                    b@,
                )),
    {
        let w: usize = a.len();
        let sa = a[w - 1];
        let sb = b[w - 1];
        let diff = self.xor2(sa, sb);
        let ghost g1 = *self;
        let less = self.ult(a, b);
        let ghost g2 = *self;
        let o = self.mux(diff, sa, less);
        proof {
            g2.lemma_grew_trans(&g1, old(self));
            self.lemma_grew_trans(&g2, old(self));
            assert forall|m: Seq<bool>| #[trigger] self.models(m) implies lit_true(m, o) == (
            signed_number(m, a@) < signed_number(m, b@)) by {
                self.lemma_grew_models(&g2, m);
                g2.lemma_grew_models(&g1, m);
                lemma_number_bound(m, a@);
                lemma_number_bound(m, b@);
                lemma_pow2_unfold(w as nat);
                lemma_number_bound(m, a@.drop_last());
                lemma_number_bound(m, b@.drop_last());
            }
        }
        o
    }

    /// A literal that stands for `a == b`.
    pub fn eq(&mut self, a: &[Lit], b: &[Lit]) -> (o: Lit)
        requires
            old(self).wf(),
            a@.len() == b@.len(),
            old(self).room(2 * a@.len() + 1),
            within(a@, old(self).num_vars as int),
            within(b@, old(self).num_vars as int),
        ensures
            final(self).gate(old(self), o, 2 * a@.len() + 1),
            forall|m: Seq<bool>| #[trigger]
                final(self).models(m) ==> lit_true(m, o) == (number(m, a@) == number(m, b@)),
    {
        let mut bits: Vec<Lit> = Vec::new();
        let mut i: usize = 0;
        proof {
            self.lemma_grew_refl();
        }
        while i < a.len()
            invariant
                i <= a@.len(),
                a@.len() == b@.len(),
                old(self).room(2 * a@.len() + 1),
                within(a@, old(self).num_vars as int),
                within(b@, old(self).num_vars as int),
                bits@.len() == i,
                self.circuit(old(self), bits@, i as nat),
                forall|m: Seq<bool>, k: int|
                    #[trigger] self.models(m) && 0 <= k < i ==> lit_true(m, #[trigger] bits@[k])
                        == (lit_true(m, a@[k]) == lit_true(m, b@[k])),
            decreases a@.len() - i,
        {
            let ghost before = *self;
            let ghost prior = bits@;
            assert(a@[i as int].var < old(self).num_vars && b@[i as int].var < old(self).num_vars);
            let x = self.iff(a[i], b[i]);
            bits.push(x);
            proof {
                self.lemma_grew_trans(&before, old(self));
                assert forall|m: Seq<bool>, k: int|
                    #[trigger] self.models(m) && 0 <= k < i + 1 implies lit_true(
                    m,
                    #[trigger] bits@[k],
                ) == (lit_true(m, a@[k]) == lit_true(m, b@[k])) by {
                    self.lemma_grew_models(&before, m);
                    if k < i {
                        assert(bits@[k] == prior[k]);
                    }
                }
            }
            i += 1;
        }
        let ghost g1 = *self;
        let o = self.big_and(bits.as_slice());
        proof {
            self.lemma_grew_trans(&g1, old(self));
            assert forall|m: Seq<bool>| #[trigger] self.models(m) implies lit_true(m, o) == (number(
                m,
                a@,
            ) == number(m, b@)) by {
                self.lemma_grew_models(&g1, m);
                lemma_number_injective(m, a@, b@);
                assert(lit_true(m, o) <==> forall|k: int|
                    0 <= k < bits@.len() ==> lit_true(m, #[trigger] bits@[k]));
                if forall|k: int| 0 <= k < a@.len() ==> lit_true(m, #[trigger] a@[k]) == lit_true(
                    m,
                    b@[k],
                ) {
                    assert forall|k: int| 0 <= k < bits@.len() implies lit_true(
                        m,
                        #[trigger] bits@[k],
                    ) by {
                        assert(lit_true(m, a@[k]) == lit_true(m, b@[k]));
                    }
                } else {
                    let k = choose|k: int|
                        0 <= k < a@.len() && lit_true(m, #[trigger] a@[k]) != lit_true(m, b@[k]);
                    assert(!lit_true(m, bits@[k]));
                }
            }
        }
        o
    }

    /// `a & b`, `a | b` or `a ^ b`, bit by bit.
    pub fn bitwise(&mut self, op: BvOp, a: &[Lit], b: &[Lit]) -> (r: Vec<Lit>)
        requires
            old(self).wf(),
            op is And || op is Or || op is Xor,
            a@.len() == b@.len(),
            old(self).room(a@.len()),
            within(a@, old(self).num_vars as int),
            within(b@, old(self).num_vars as int),
        ensures
            final(self).circuit(old(self), r@, a@.len()),
            r@.len() == a@.len(),
            forall|m: Seq<bool>, k: int|
                #[trigger] final(self).models(m) && 0 <= k < a@.len() ==> lit_true(
                    m,
                    #[trigger] r@[k],
                ) == bit_result(op, lit_true(m, a@[k]), lit_true(m, b@[k])),
    {
        let mut bits: Vec<Lit> = Vec::new();
        let mut i: usize = 0;
        proof {
            self.lemma_grew_refl();
        }
        while i < a.len()
            invariant
                i <= a@.len(),
                a@.len() == b@.len(),
                op is And || op is Or || op is Xor,
                old(self).room(a@.len()),
                within(a@, old(self).num_vars as int),
                within(b@, old(self).num_vars as int),
                bits@.len() == i,
                self.circuit(old(self), bits@, i as nat),
                forall|m: Seq<bool>, k: int|
                    #[trigger] self.models(m) && 0 <= k < i ==> lit_true(m, #[trigger] bits@[k])
                        == bit_result(op, lit_true(m, a@[k]), lit_true(m, b@[k])),
            decreases a@.len() - i,
        {
            let ghost before = *self;
            let ghost prior = bits@;
            assert(a@[i as int].var < old(self).num_vars && b@[i as int].var < old(self).num_vars);
            let x = match op {
                BvOp::And => self.and2(a[i], b[i]),
                BvOp::Or => self.or2(a[i], b[i]),
                _ => self.xor2(a[i], b[i]),
            };
            bits.push(x);
            proof {
                self.lemma_grew_trans(&before, old(self));
                assert forall|m: Seq<bool>, k: int|
                    #[trigger] self.models(m) && 0 <= k < i + 1 implies lit_true(
                    m,
                    #[trigger] bits@[k],
                ) == bit_result(op, lit_true(m, a@[k]), lit_true(m, b@[k])) by {
                    self.lemma_grew_models(&before, m);
                    if k < i {
                        assert(bits@[k] == prior[k]);
                    }
                }
            }
            i += 1;
        }
        bits
    }

    /// A literal that stands for the comparison of `a` with `b`.
    pub fn compare(&mut self, op: CmpOp, a: &[Lit], b: &[Lit]) -> (o: Lit)
        requires
            old(self).wf(),
            a@.len() == b@.len(),
            a@.len() > 0,
            old(self).room(5 * a@.len() + 5),
            within(a@, old(self).num_vars as int),
            within(b@, old(self).num_vars as int),
        ensures
            final(self).gate(old(self), o, 5 * a@.len() + 5),
            forall|m: Seq<bool>| #[trigger]
                final(self).models(m) ==> lit_true(m, o) == compared(
                    op,
                    number(m, a@) as int,
                    number(m, b@) as int,
                    signed_number(m, a@),
                    signed_number(m, b@),
                ),
    {
        match op {
            CmpOp::Eq => self.eq(a, b),
            CmpOp::Ne => {
                let o = self.eq(a, b);
                o.negated()
            },
            CmpOp::Ult => self.ult(a, b),
            CmpOp::Ule => {
                let o = self.ult(b, a);
                o.negated()
            },
            CmpOp::Ugt => self.ult(b, a),
            CmpOp::Uge => {
                let o = self.ult(a, b);
                o.negated()
            },
            CmpOp::Slt => self.slt(a, b),
            CmpOp::Sle => {
                let o = self.slt(b, a);
                o.negated()
            },
            CmpOp::Sgt => self.slt(b, a),
            CmpOp::Sge => {
                let o = self.slt(a, b);
                o.negated()
            },
        }
    }
}

/// The outcome of a comparison, from the unsigned and the signed operands.
pub open spec fn compared(op: CmpOp, ua: int, ub: int, sa: int, sb: int) -> bool {
    match op {
        CmpOp::Eq => ua == ub,
        CmpOp::Ne => ua != ub,
        CmpOp::Ult => ua < ub,
        CmpOp::Ule => ua <= ub,
        CmpOp::Ugt => ua > ub,
        CmpOp::Uge => ua >= ub,
        CmpOp::Slt => sa < sb,
        CmpOp::Sle => sa <= sb,
        CmpOp::Sgt => sa > sb,
        CmpOp::Sge => sa >= sb,
    }
}

/// One bit of a bitwise operation.
pub open spec fn bit_result(op: BvOp, x: bool, y: bool) -> bool {
    match op {
        BvOp::And => x && y,
        BvOp::Or => x || y,
        _ => x != y,
    }
}

/// A number of `w` bits is below two to the `w`.
pub proof fn lemma_number_bound(m: Seq<bool>, bits: Seq<Lit>)
    ensures
        number(m, bits) < pow2(bits.len()),
    decreases bits.len(),
{
    lemma_pow2_pos(bits.len());
    if bits.len() > 0 {
        lemma_number_bound(m, bits.drop_last());
        lemma_pow2_unfold(bits.len());
    }
}

proof fn lemma_number_complement(m: Seq<bool>, bits: Seq<Lit>, nots: Seq<Lit>)
    requires
        bits.len() == nots.len(),
        forall|k: int| 0 <= k < bits.len() ==> #[trigger] nots[k] == not_lit(bits[k]),
    ensures
        number(m, bits) + number(m, nots) + 1 == pow2(bits.len()),
    decreases bits.len(),
{
    if bits.len() == 0 {
        lemma2_to64();
    } else {
        lemma_number_complement(m, bits.drop_last(), nots.drop_last());
        lemma_pow2_unfold(bits.len());
        assert(nots.last() == not_lit(bits.last()));
    }
}

/// Numbers of one width are equal where their bits are.
pub proof fn lemma_number_injective(m: Seq<bool>, a: Seq<Lit>, b: Seq<Lit>)
    requires
        a.len() == b.len(),
    ensures
        number(m, a) == number(m, b) <==> forall|k: int|
            0 <= k < a.len() ==> lit_true(m, #[trigger] a[k]) == lit_true(m, b[k]),
    decreases a.len(),
{
    if a.len() > 0 {
        let n = (a.len() - 1) as int;
        lemma_number_injective(m, a.drop_last(), b.drop_last());
        lemma_number_bound(m, a.drop_last());
        lemma_number_bound(m, b.drop_last());
        if forall|k: int| 0 <= k < a.len() ==> lit_true(m, #[trigger] a[k]) == lit_true(m, b[k]) {
            assert forall|k: int| 0 <= k < n implies lit_true(m, #[trigger] a.drop_last()[k])
                == lit_true(m, b.drop_last()[k]) by {
                assert(lit_true(m, a[k]) == lit_true(m, b[k]));
            }
            assert(lit_true(m, a[n]) == lit_true(m, b[n]));
        }
        if number(m, a) == number(m, b) {
            assert(lit_true(m, a[n]) == lit_true(m, b[n]));
            assert forall|k: int| 0 <= k < a.len() implies lit_true(m, #[trigger] a[k]) == lit_true(
                m,
                b[k],
            ) by {
                if k < n {
                    assert(lit_true(m, a.drop_last()[k]) == lit_true(m, b.drop_last()[k]));
                }
            }
        }
    }
}

pub proof fn lemma_number_zero(m: Seq<bool>, bits: Seq<Lit>)
    requires
        forall|k: int| 0 <= k < bits.len() ==> !lit_true(m, #[trigger] bits[k]),
    ensures
        number(m, bits) == 0,
    decreases bits.len(),
{
    if bits.len() > 0 {
        lemma_number_zero(m, bits.drop_last());
    }
}

/// Shifted bits spell the product with a power of two, modulo the width.
pub proof fn lemma_shifted(m: Seq<bool>, a: Seq<Lit>, pp: Seq<Lit>, bj: Lit, j: int)
    requires
        pp.len() == a.len(),
        0 <= j <= a.len(),
        forall|k: int|
            0 <= k < pp.len() ==> lit_true(m, #[trigger] pp[k]) == (k >= j && lit_true(m, a[k - j])
                && lit_true(m, bj)),
    ensures
        number(m, pp) == wrapped((number(m, a) * bit_at(m, bj, pow2(j as nat))) as int, a.len()),
{
    let w = a.len();
    lemma_pow2_pos(w);
    if !lit_true(m, bj) {
        lemma_number_zero(m, pp);
        assert(number(m, a) * 0 == 0);
        lemma_wrap(0, 0, 0, pow2(w) as int);
    } else {
        lemma_shifted_prefix(m, a, pp, j, w as int);
        let high = lemma_number_split(m, a, w - j);
        let low = number(m, a.take(w - j)) as int;
        let p = pow2(j as nat) as int;
        let q = pow2((w - j) as nat) as int;
        vstd::arithmetic::power2::lemma_pow2_adds((w - j) as nat, j as nat);
        assert(pp.take(w as int) =~= pp);
        lemma_number_bound(m, pp);
        assert(number(m, a) * p == high * (q * p) + low * p) by (nonlinear_arith)
            requires
                number(m, a) == low + high * q,
        ;
        assert(q * p == pow2(w));
        lemma_wrap(number(m, a) * p, low * p, high, pow2(w) as int);
    }
}

pub proof fn lemma_shifted_prefix(m: Seq<bool>, a: Seq<Lit>, pp: Seq<Lit>, j: int, i: int)
    requires
        pp.len() == a.len(),
        0 <= j <= i <= a.len(),
        forall|k: int|
            0 <= k < pp.len() ==> lit_true(m, #[trigger] pp[k]) == (k >= j && lit_true(
                m,
                a[k - j],
            )),
    ensures
        number(m, pp.take(i)) == number(m, a.take(i - j)) * pow2(j as nat),
    decreases i - j,
{
    if i == j {
        lemma_number_zero(m, pp.take(j));
        assert(a.take(0) =~= Seq::<Lit>::empty());
        assert(0 * pow2(j as nat) == 0);
    } else {
        lemma_shifted_prefix(m, a, pp, j, i - 1);
        assert(pp.take(i).drop_last() =~= pp.take(i - 1));
        assert(a.take(i - j).drop_last() =~= a.take(i - 1 - j));
        assert(pp.take(i).last() == pp[i - 1]);
        assert(a.take(i - j).last() == a[i - 1 - j]);
        vstd::arithmetic::power2::lemma_pow2_adds((i - 1 - j) as nat, j as nat);
        let x = number(m, a.take(i - 1 - j)) as int;
        let p = pow2(j as nat) as int;
        let q = pow2((i - 1 - j) as nat) as int;
        assert((x + q) * p == x * p + q * p) by (nonlinear_arith);
    }
}

/// The bits from `k` on weigh a multiple of two to the `k`.
proof fn lemma_number_split(m: Seq<bool>, a: Seq<Lit>, k: int) -> (high: int)
    requires
        0 <= k <= a.len(),
    ensures
        number(m, a) == number(m, a.take(k)) + high * pow2(k as nat),
    decreases a.len() - k,
{
    if k == a.len() {
        assert(a.take(k) =~= a);
        0
    } else {
        let b = a.drop_last();
        let h = lemma_number_split(m, b, k);
        assert(b.take(k) =~= a.take(k));
        let p = pow2(k as nat) as int;
        if lit_true(m, a.last()) {
            let e = pow2((a.len() - 1 - k) as nat) as int;
            vstd::arithmetic::power2::lemma_pow2_adds((a.len() - 1 - k) as nat, k as nat);
            assert(h * p + e * p == (h + e) * p) by (nonlinear_arith);
            h + e
        } else {
            h
        }
    }
}

proof fn lemma_accumulate(a: int, b: int, bit: int, p: int)
    requires
        p > 0,
    ensures
        ((a * b) % p + (a * bit) % p) % p == (a * (b + bit)) % p,
{
    vstd::arithmetic::div_mod::lemma_add_mod_noop(a * b, a * bit, p);
    assert(a * b + a * bit == a * (b + bit)) by (nonlinear_arith);
}

/// `x` reduced modulo `p` is `r` where they differ by `q` times `p`.
proof fn lemma_wrap(x: int, r: int, q: int, p: int)
    requires
        0 <= r < p,
        x == q * p + r,
    ensures
        x % p == r,
{
    vstd::arithmetic::div_mod::lemma_fundamental_div_mod_converse(x, p, q, r);
}

proof fn lemma_two(m: Seq<bool>, c: Seq<Lit>)
    requires
        c.len() == 2,
    ensures
        clause_true(m, c) == (lit_true(m, c[0]) || lit_true(m, c[1])),
{
    assert(c.contains(c[0]) && c.contains(c[1]));
}

proof fn lemma_three(m: Seq<bool>, c: Seq<Lit>)
    requires
        c.len() == 3,
    ensures
        clause_true(m, c) == (lit_true(m, c[0]) || lit_true(m, c[1]) || lit_true(m, c[2])),
{
    assert(c.contains(c[0]) && c.contains(c[1]) && c.contains(c[2]));
}

} // verus!
